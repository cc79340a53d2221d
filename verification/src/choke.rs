//! Which peers of a torrent are uploaded to.

use crate::num::min_of;
use vstd::prelude::*;
use vstd::set_lib::set_int_range;

verus! {

/// What a torrent is doing.
#[derive(Clone, Copy, Debug, Eq, PartialEq, Structural)]
pub enum TorrentState {
    Starting,
    Downloading,
    Checking,
    Seeding,
    Stopped,
    Error,
}

/// How many bytes a new peer is given before it has delivered any.
pub const RECIPROCAL_BOOTSTRAP_BYTES: u64 = 8388608;

pub const REGULAR_UPLOAD_SLOTS: usize = 16;

pub const OPTIMISTIC_UPLOAD_SLOTS: usize = 4;

/// Upload economics, as far as they are counted in whole numbers.
#[derive(Clone, Copy, Debug, Eq, PartialEq, Structural)]
pub struct TransferPolicy {
    pub upload_slots: usize,
    pub optimistic_upload_slots: usize,
    /// Allowance every peer earns per hour of connection.
    pub reciprocal_bootstrap_bytes: u64,
    /// Global upload ceiling in bytes per second; `0` is unlimited.
    pub upload_rate_limit_bytes: u64,
}

impl Default for TransferPolicy {
    fn default() -> (policy: Self)
        ensures
            policy.upload_slots == REGULAR_UPLOAD_SLOTS,
            policy.optimistic_upload_slots == OPTIMISTIC_UPLOAD_SLOTS,
            policy.reciprocal_bootstrap_bytes == RECIPROCAL_BOOTSTRAP_BYTES,
            policy.upload_rate_limit_bytes == 0,
    {
        Self {
            upload_slots: REGULAR_UPLOAD_SLOTS,
            optimistic_upload_slots: OPTIMISTIC_UPLOAD_SLOTS,
            reciprocal_bootstrap_bytes: RECIPROCAL_BOOTSTRAP_BYTES,
            upload_rate_limit_bytes: 0,
        }
    }
}

/// A session that may be given an upload slot.
#[derive(Clone, Copy, Debug, Eq, PartialEq, Structural)]
pub struct UploadCandidate {
    pub session: u64,
    pub contribution_score: u64,
    pub verified_rate: u64,
    pub recent_upload: u64,
    pub eligible: bool,
    pub interesting: bool,
}

/// Whether a torrent in a state uploads at all.
pub open spec fn uploads(state: TorrentState) -> bool {
    state is Downloading || state is Starting || state is Seeding
}

/// Whether a torrent in a state trades upload for download.
pub open spec fn trades(state: TorrentState) -> bool {
    state is Downloading || state is Starting
}

/// Whether a candidate is strictly better than another: while downloading by
/// the rate at which it delivers verified data, then by net contribution, then
/// by recent upload; while seeding by recent upload alone.
pub open spec fn better(downloading: bool, a: UploadCandidate, b: UploadCandidate) -> bool {
    if !downloading {
        a.recent_upload > b.recent_upload
    } else if a.verified_rate != b.verified_rate {
        a.verified_rate > b.verified_rate
    } else if a.contribution_score != b.contribution_score {
        a.contribution_score > b.contribution_score
    } else {
        a.recent_upload > b.recent_upload
    }
}

/// Whether the candidate at `i` comes before the one at `j`: better ones
/// first, and equally good ones in the order they are listed in.
pub open spec fn precedes(downloading: bool, c: Seq<UploadCandidate>, i: int, j: int) -> bool {
    better(downloading, c[i], c[j]) || (!better(downloading, c[j], c[i]) && i < j)
}

/// How many of the first `n` marked candidates come before the one at `i`.
pub open spec fn ahead(
    downloading: bool,
    c: Seq<UploadCandidate>,
    marked: Seq<bool>,
    i: int,
    n: int,
) -> int
    decreases n,
{
    if n <= 0 {
        0
    } else {
        ahead(downloading, c, marked, i, n - 1) + if marked[n - 1] && precedes(
            downloading,
            c,
            n - 1,
            i,
        ) {
            1int
        } else {
            0int
        }
    }
}

/// How many of the first `n` are marked.
pub open spec fn count(marked: Seq<bool>, n: int) -> int
    decreases n,
{
    if n <= 0 {
        0
    } else {
        count(marked, n - 1) + if marked[n - 1] {
            1int
        } else {
            0int
        }
    }
}

/// Whether a candidate may hold a regular slot: while downloading, only one
/// that has something to give and has given something.
pub open spec fn deserves(downloading: bool, candidate: UploadCandidate) -> bool {
    candidate.eligible && (!downloading || (candidate.interesting && (candidate.contribution_score
        > 0 || candidate.verified_rate > 0)))
}

pub open spec fn deserving(downloading: bool, c: Seq<UploadCandidate>) -> Seq<bool> {
    Seq::new(c.len(), |i: int| deserves(downloading, c[i]))
}

/// The regular slots: the first of those that deserve one.
pub open spec fn regular(downloading: bool, c: Seq<UploadCandidate>, slots: int) -> Seq<bool> {
    Seq::new(
        c.len(),
        |i: int|
            deserves(downloading, c[i]) && ahead(
                downloading,
                c,
                deserving(downloading, c),
                i,
                c.len() as int,
            ) < slots,
    )
}

/// Those among whom the optimistic slots rotate: everyone with credit who can
/// repay and has no regular slot.
pub open spec fn hopefuls(downloading: bool, c: Seq<UploadCandidate>, slots: int) -> Seq<bool> {
    Seq::new(
        c.len(),
        |i: int|
            c[i].eligible && (!downloading || c[i].interesting) && !regular(
                downloading,
                c,
                slots,
            )[i],
    )
}

/// Where in the rotation a round begins.
pub open spec fn rotation_start(round: int, total: int) -> int {
    (if round <= usize::MAX {
        round
    } else {
        0
    }) % total
}

/// Whether the rotation of a round reaches a place.
pub open spec fn rotated(place: int, total: int, round: int, slots: int) -> bool {
    (place + total - rotation_start(round, total)) % total < min_of(slots, total)
}

/// The optimistic slots: as many as there are, from the start of the round on,
/// around the end if need be.
pub open spec fn optimistic(
    downloading: bool,
    c: Seq<UploadCandidate>,
    round: int,
    transfer: TransferPolicy,
) -> Seq<bool> {
    let marked = hopefuls(downloading, c, transfer.upload_slots as int);
    Seq::new(
        c.len(),
        |i: int|
            marked[i] && rotated(
                ahead(downloading, c, marked, i, c.len() as int),
                count(marked, c.len() as int),
                round,
                transfer.optimistic_upload_slots as int,
            ),
    )
}

/// Which candidates are uploaded to.
pub open spec fn selected(
    state: TorrentState,
    c: Seq<UploadCandidate>,
    round: int,
    transfer: TransferPolicy,
) -> Seq<bool> {
    Seq::new(
        c.len(),
        |i: int|
            uploads(state) && (regular(trades(state), c, transfer.upload_slots as int)[i]
                || optimistic(trades(state), c, round, transfer)[i]),
    )
}

/// The sessions of the marked candidates among the first `n`.
pub open spec fn marked_sessions(c: Seq<UploadCandidate>, marked: Seq<bool>, n: int) -> Seq<u64>
    decreases n,
{
    if n <= 0 {
        Seq::empty()
    } else if marked[n - 1] {
        marked_sessions(c, marked, n - 1).push(c[n - 1].session)
    } else {
        marked_sessions(c, marked, n - 1)
    }
}

/// The sessions that are uploaded to.
pub open spec fn selected_sessions(
    state: TorrentState,
    c: Seq<UploadCandidate>,
    round: int,
    transfer: TransferPolicy,
) -> Seq<u64> {
    marked_sessions(c, selected(state, c, round, transfer), c.len() as int)
}

/// Whether no two candidates are the same session.
pub open spec fn distinct_candidates(c: Seq<UploadCandidate>) -> bool {
    forall|i: int, j: int|
        0 <= i < j < c.len() ==> (#[trigger] c[i]).session != (#[trigger] c[j]).session
}

fn is_better(downloading: bool, a: &UploadCandidate, b: &UploadCandidate) -> (result: bool)
    ensures
        result == better(downloading, *a, *b),
{
    if !downloading {
        a.recent_upload > b.recent_upload
    } else if a.verified_rate != b.verified_rate {
        a.verified_rate > b.verified_rate
    } else if a.contribution_score != b.contribution_score {
        a.contribution_score > b.contribution_score
    } else {
        a.recent_upload > b.recent_upload
    }
}

fn count_ahead(
    downloading: bool,
    candidates: &[UploadCandidate],
    marked: &Vec<bool>,
    i: usize,
) -> (result: usize)
    requires
        marked@.len() == candidates@.len(),
        i < candidates@.len(),
    ensures
        result == ahead(downloading, candidates@, marked@, i as int, candidates@.len() as int),
{
    let mut total: usize = 0;
    let mut k: usize = 0;
    while k < candidates.len()
        invariant
            marked@.len() == candidates@.len(),
            i < candidates@.len(),
            k <= candidates@.len(),
            total <= k,
            total == ahead(downloading, candidates@, marked@, i as int, k as int),
        decreases candidates@.len() - k,
    {
        if marked[k] && (is_better(downloading, &candidates[k], &candidates[i]) || (!is_better(
            downloading,
            &candidates[i],
            &candidates[k],
        ) && k < i)) {
            total += 1;
        }
        k += 1;
    }
    total
}

fn count_marked(marked: &Vec<bool>) -> (result: usize)
    ensures
        result == count(marked@, marked@.len() as int),
{
    let mut total: usize = 0;
    let mut k: usize = 0;
    while k < marked.len()
        invariant
            k <= marked@.len(),
            total <= k,
            total == count(marked@, k as int),
        decreases marked@.len() - k,
    {
        if marked[k] {
            total += 1;
        }
        k += 1;
    }
    total
}

fn mark_deserving(downloading: bool, candidates: &[UploadCandidate]) -> (marked: Vec<bool>)
    ensures
        marked@ == deserving(downloading, candidates@),
{
    let mut marked: Vec<bool> = Vec::new();
    let mut i: usize = 0;
    while i < candidates.len()
        invariant
            i <= candidates@.len(),
            marked@ =~= deserving(downloading, candidates@).take(i as int),
        decreases candidates@.len() - i,
    {
        let candidate = &candidates[i];
        marked.push(
            candidate.eligible && (!downloading || (candidate.interesting && (
            candidate.contribution_score > 0 || candidate.verified_rate > 0))),
        );
        i += 1;
    }
    marked
}

fn mark_regular(downloading: bool, candidates: &[UploadCandidate], slots: usize) -> (marked: Vec<
    bool,
>)
    ensures
        marked@ == regular(downloading, candidates@, slots as int),
{
    let worthy = mark_deserving(downloading, candidates);
    let mut marked: Vec<bool> = Vec::new();
    let mut i: usize = 0;
    while i < candidates.len()
        invariant
            i <= candidates@.len(),
            worthy@ == deserving(downloading, candidates@),
            marked@ =~= regular(downloading, candidates@, slots as int).take(i as int),
        decreases candidates@.len() - i,
    {
        marked.push(worthy[i] && count_ahead(downloading, candidates, &worthy, i) < slots);
        i += 1;
    }
    marked
}

fn mark_hopefuls(downloading: bool, candidates: &[UploadCandidate], taken: &Vec<bool>, Ghost(
    slots,
): Ghost<int>) -> (marked: Vec<bool>)
    requires
        taken@ == regular(downloading, candidates@, slots),
    ensures
        marked@ == hopefuls(downloading, candidates@, slots),
{
    let mut marked: Vec<bool> = Vec::new();
    let mut i: usize = 0;
    while i < candidates.len()
        invariant
            i <= candidates@.len(),
            taken@ == regular(downloading, candidates@, slots),
            marked@ =~= hopefuls(downloading, candidates@, slots).take(i as int),
        decreases candidates@.len() - i,
    {
        let candidate = &candidates[i];
        marked.push(candidate.eligible && (!downloading || candidate.interesting) && !taken[i]);
        i += 1;
    }
    marked
}

/// Whether the rotation of a round reaches a place.
fn is_rotated(place: usize, total: usize, round: u64, slots: usize) -> (result: bool)
    requires
        place < total,
    ensures
        result == rotated(place as int, total as int, round as int, slots as int),
{
    let start: usize = if round <= usize::MAX as u64 { round as usize % total } else { 0 };
    proof {
        if round > usize::MAX {
            assert(0int % (total as int) == 0) by (nonlinear_arith)
                requires
                    total > 0,
            ;
        }
    }
    let behind: usize = if place >= start { place - start } else { total - (start - place) };
    proof {
        let shifted = place + total - start;
        if place >= start {
            assert(shifted % (total as int) == behind) by (nonlinear_arith)
                requires
                    shifted == behind + total,
                    0 <= behind < total,
            ;
        } else {
            assert(shifted % (total as int) == behind) by (nonlinear_arith)
                requires
                    shifted == behind,
                    0 <= behind < total,
            ;
        }
    }
    behind < slots
}

/// Chooses the sessions to unchoke for one torrent. While downloading, regular
/// slots go to interesting peers ordered by the rate at which they deliver
/// verified data (classic tit-for-tat), then by net contribution; optimistic
/// slots rotate through the remaining interesting peers with credit. While
/// seeding, recent upload rate orders the slots.
pub fn select_upload_sessions(
    state: TorrentState,
    candidates: &[UploadCandidate],
    round: u64,
    transfer: &TransferPolicy,
) -> (sessions: Vec<u64>)
    requires
        distinct_candidates(candidates@),
    ensures
        sessions@ == selected_sessions(state, candidates@, round as int, *transfer),
{
    let ghost c = candidates@;
    let ghost marks = selected(state, c, round as int, *transfer);
    let mut sessions: Vec<u64> = Vec::new();
    let downloading: bool = match state {
        TorrentState::Downloading | TorrentState::Starting => true,
        TorrentState::Seeding => false,
        _ => {
            proof {
                lemma_nothing_marked(c, marks, c.len() as int);
            }
            return sessions;
        },
    };
    let taken = mark_regular(downloading, candidates, transfer.upload_slots);
    let waiting = mark_hopefuls(
        downloading,
        candidates,
        &taken,
        Ghost(transfer.upload_slots as int),
    );
    let total: usize = count_marked(&waiting);
    let mut i: usize = 0;
    while i < candidates.len()
        invariant
            c == candidates@,
            i <= c.len(),
            uploads(state),
            downloading == trades(state),
            taken@ == regular(downloading, c, transfer.upload_slots as int),
            waiting@ == hopefuls(downloading, c, transfer.upload_slots as int),
            total == count(waiting@, c.len() as int),
            marks == selected(state, c, round as int, *transfer),
            sessions@ == marked_sessions(c, marks, i as int),
        decreases c.len() - i,
    {
        let mut chosen: bool = taken[i];
        if !chosen && waiting[i] {
            let place: usize = count_ahead(downloading, candidates, &waiting, i);
            proof {
                lemma_ahead_below(downloading, c, waiting@, i as int, c.len() as int);
            }
            chosen = is_rotated(place, total, round, transfer.optimistic_upload_slots);
        }
        assert(chosen == marks[i as int]);
        if chosen {
            sessions.push(candidates[i].session);
        }
        i += 1;
    }
    sessions
}

proof fn lemma_nothing_marked(c: Seq<UploadCandidate>, marked: Seq<bool>, n: int)
    requires
        0 <= n <= marked.len(),
        forall|i: int| 0 <= i < marked.len() ==> !#[trigger] marked[i],
    ensures
        marked_sessions(c, marked, n) == Seq::<u64>::empty(),
    decreases n,
{
    if n > 0 {
        lemma_nothing_marked(c, marked, n - 1);
    }
}

/// The marked ones before a marked one are fewer than all marked ones.
pub proof fn lemma_ahead_below(
    downloading: bool,
    c: Seq<UploadCandidate>,
    marked: Seq<bool>,
    i: int,
    n: int,
)
    requires
        marked.len() == c.len(),
        0 <= n <= c.len(),
        0 <= i < c.len(),
        marked[i],
    ensures
        0 <= ahead(downloading, c, marked, i, n) <= count(marked, n) - if i < n {
            1int
        } else {
            0int
        },
    decreases n,
{
    if n > 0 {
        lemma_ahead_below(downloading, c, marked, i, n - 1);
    }
}

/// One marked candidate that comes before another has fewer before it.
pub proof fn lemma_ahead_increases(
    downloading: bool,
    c: Seq<UploadCandidate>,
    marked: Seq<bool>,
    i: int,
    j: int,
    n: int,
)
    requires
        marked.len() == c.len(),
        0 <= n <= c.len(),
        0 <= i < c.len(),
        0 <= j < c.len(),
        marked[i],
        precedes(downloading, c, i, j),
    ensures
        ahead(downloading, c, marked, j, n) >= ahead(downloading, c, marked, i, n) + if i < n {
            1int
        } else {
            0int
        },
    decreases n,
{
    if n > 0 {
        lemma_ahead_increases(downloading, c, marked, i, j, n - 1);
    }
}

/// Candidates are told apart by how many come before them.
proof fn lemma_ahead_injective(
    downloading: bool,
    c: Seq<UploadCandidate>,
    marked: Seq<bool>,
    i: int,
    j: int,
)
    requires
        marked.len() == c.len(),
        0 <= i < c.len(),
        0 <= j < c.len(),
        marked[i],
        marked[j],
        ahead(downloading, c, marked, i, c.len() as int) == ahead(
            downloading,
            c,
            marked,
            j,
            c.len() as int,
        ),
    ensures
        i == j,
{
    if i != j {
        if precedes(downloading, c, i, j) {
            lemma_ahead_increases(downloading, c, marked, i, j, c.len() as int);
        } else {
            lemma_ahead_increases(downloading, c, marked, j, i, c.len() as int);
        }
    }
}

/// The positions that are marked.
pub open spec fn positions(marked: Seq<bool>) -> Set<int> {
    Set::new(|i: int| 0 <= i < marked.len() && marked[i])
}

proof fn lemma_positions_finite(marked: Seq<bool>)
    ensures
        positions(marked).finite(),
        positions(marked).subset_of(set_int_range(0, marked.len() as int)),
{
    vstd::set_lib::lemma_int_range(0, marked.len() as int);
    assert(positions(marked).subset_of(set_int_range(0, marked.len() as int)));
    vstd::set_lib::lemma_len_subset(
        positions(marked),
        set_int_range(0, marked.len() as int),
    );
}

/// As many positions are marked as are counted.
proof fn lemma_count_positions(marked: Seq<bool>, n: int)
    requires
        0 <= n <= marked.len(),
    ensures
        positions(marked.take(n)).finite(),
        positions(marked.take(n)).len() == count(marked, n),
    decreases n,
{
    lemma_positions_finite(marked.take(n));
    if n == 0 {
        assert(positions(marked.take(n)) =~= Set::empty());
    } else {
        lemma_count_positions(marked, n - 1);
        let before = positions(marked.take(n - 1));
        if marked[n - 1] {
            assert(positions(marked.take(n)) =~= before.insert(n - 1));
        } else {
            assert(positions(marked.take(n)) =~= before);
        }
    }
}

pub proof fn lemma_count_all(marked: Seq<bool>)
    ensures
        positions(marked).finite(),
        positions(marked).len() == count(marked, marked.len() as int),
{
    lemma_count_positions(marked, marked.len() as int);
    assert(marked.take(marked.len() as int) =~= marked);
}

/// Of a set that maps one-to-one into as many numbers as it has members, as
/// many members as can be lie below a bound.
proof fn lemma_injection_fills(
    s: Set<int>,
    chosen: Set<int>,
    f: spec_fn(int) -> int,
    total: int,
    bound: int,
)
    requires
        s.finite(),
        s.len() == total,
        0 <= bound,
        forall|i: int, j: int|
            #![trigger f(i), f(j)]
            s.contains(i) && s.contains(j) && f(i) == f(j) ==> i == j,
        forall|i: int| #[trigger] s.contains(i) ==> 0 <= f(i) < total,
        forall|i: int| #[trigger] chosen.contains(i) <==> s.contains(i) && f(i) < bound,
    ensures
        chosen.finite(),
        chosen.len() == min_of(bound, total),
{
    assert(chosen.subset_of(s));
    vstd::set_lib::lemma_len_subset(chosen, s);
    if bound >= total {
        assert forall|i: int| #[trigger] s.contains(i) implies chosen.contains(i) by {
            assert(f(i) < total);
        }
        assert(chosen =~= s);
    } else {
        let rest = s.difference(chosen);
        assert(rest.subset_of(s));
        vstd::set_lib::lemma_len_subset(rest, s);
        let g = |i: int| f(i) - bound;
        assert forall|i: int| #[trigger] chosen.contains(i) implies 0 <= f(i) < bound by {
            assert(s.contains(i));
        }
        assert forall|i: int| #[trigger] rest.contains(i) implies 0 <= g(i) < total - bound by {
            assert(s.contains(i));
            assert(!chosen.contains(i));
        }
        assert forall|i: int, j: int|
            #![trigger g(i), g(j)]
            rest.contains(i) && rest.contains(j) && g(i) == g(j) implies i == j by {
            assert(f(i) == f(j));
        }
        lemma_injection_bounds(chosen, f, bound);
        lemma_injection_bounds(rest, g, total - bound);
        vstd::set_lib::lemma_set_disjoint_lens(chosen, rest);
        assert(chosen + rest =~= s);
    }
}

/// Regular slots are given out as long as there are any, and candidates that
/// deserve one.
pub proof fn law_regular_slots_are_filled(downloading: bool, c: Seq<UploadCandidate>, slots: int)
    requires
        slots >= 0,
    ensures
        positions(regular(downloading, c, slots)).finite(),
        positions(regular(downloading, c, slots)).len() == min_of(
            slots,
            count(deserving(downloading, c), c.len() as int),
        ),
{
    let marked = deserving(downloading, c);
    let chosen = positions(regular(downloading, c, slots));
    let place = |i: int| ahead(downloading, c, marked, i, c.len() as int);
    let total = count(marked, c.len() as int);
    lemma_count_all(marked);
    assert forall|i: int, j: int|
        #![trigger place(i), place(j)]
        positions(marked).contains(i) && positions(marked).contains(j) && place(i) == place(
            j,
        ) implies i == j by {
        lemma_ahead_injective(downloading, c, marked, i, j);
    }
    assert forall|i: int| #[trigger] positions(marked).contains(i) implies 0 <= place(i)
        < total by {
        lemma_ahead_below(downloading, c, marked, i, c.len() as int);
    }
    lemma_injection_fills(positions(marked), chosen, place, total, slots);
}

/// A finite set that maps one-to-one into the numbers below `bound` has at
/// most `bound` members.
proof fn lemma_injection_bounds(s: Set<int>, f: spec_fn(int) -> int, bound: int)
    requires
        s.finite(),
        bound >= 0,
        forall|i: int, j: int|
            #![trigger f(i), f(j)]
            s.contains(i) && s.contains(j) && f(i) == f(j) ==> i == j,
        forall|i: int| #[trigger] s.contains(i) ==> 0 <= f(i) < bound,
    ensures
        s.len() <= bound,
    decreases bound,
{
    if bound == 0 {
        assert(s =~= Set::empty()) by {
            assert forall|i: int| !s.contains(i) by {}
        }
    } else if exists|i: int| s.contains(i) && f(i) == bound - 1 {
        let last = choose|i: int| s.contains(i) && f(i) == bound - 1;
        let rest = s.remove(last);
        assert forall|i: int| #[trigger] rest.contains(i) implies 0 <= f(i) < bound - 1 by {
            assert(s.contains(i));
            if f(i) == bound - 1 {
                assert(f(i) == f(last));
            }
        }
        lemma_injection_bounds(rest, f, bound - 1);
    } else {
        assert forall|i: int| #[trigger] s.contains(i) implies 0 <= f(i) < bound - 1 by {}
        lemma_injection_bounds(s, f, bound - 1);
    }
}

/// Optimistic slots are given out as long as there are any, and candidates that
/// they rotate among.
pub proof fn law_optimistic_slots_are_filled(
    downloading: bool,
    c: Seq<UploadCandidate>,
    round: int,
    transfer: TransferPolicy,
)
    requires
        round >= 0,
    ensures
        positions(optimistic(downloading, c, round, transfer)).finite(),
        positions(optimistic(downloading, c, round, transfer)).len() == min_of(
            transfer.optimistic_upload_slots as int,
            count(hopefuls(downloading, c, transfer.upload_slots as int), c.len() as int),
        ),
{
    let marked = hopefuls(downloading, c, transfer.upload_slots as int);
    let slots = transfer.optimistic_upload_slots as int;
    let chosen = positions(optimistic(downloading, c, round, transfer));
    let total = count(marked, c.len() as int);
    let start = rotation_start(round, total);
    let place = |i: int| (ahead(downloading, c, marked, i, c.len() as int) + total - start) % total;
    lemma_count_all(marked);
    assert forall|i: int, j: int|
        #![trigger place(i), place(j)]
        positions(marked).contains(i) && positions(marked).contains(j) && place(i) == place(
            j,
        ) implies i == j by {
        lemma_ahead_below(downloading, c, marked, i, c.len() as int);
        lemma_ahead_below(downloading, c, marked, j, c.len() as int);
        lemma_rotation(ahead(downloading, c, marked, i, c.len() as int), total, round);
        lemma_rotation(ahead(downloading, c, marked, j, c.len() as int), total, round);
        lemma_ahead_injective(downloading, c, marked, i, j);
    }
    assert forall|i: int| #[trigger] positions(marked).contains(i) implies 0 <= place(i)
        < total by {
        lemma_ahead_below(downloading, c, marked, i, c.len() as int);
        lemma_rotation(ahead(downloading, c, marked, i, c.len() as int), total, round);
    }
    lemma_injection_fills(positions(marked), chosen, place, total, min_of(slots, total));
}

proof fn lemma_marked_sessions_len(c: Seq<UploadCandidate>, marked: Seq<bool>, n: int)
    ensures
        marked_sessions(c, marked, n).len() == count(marked, n),
    decreases n,
{
    if n > 0 {
        lemma_marked_sessions_len(c, marked, n - 1);
    }
}

/// How many sessions are uploaded to: as many as there are slots of either
/// kind, and candidates for them. While seeding these are simply all slots, as
/// long as there are candidates with credit.
pub proof fn law_slots_are_filled(
    state: TorrentState,
    c: Seq<UploadCandidate>,
    round: int,
    transfer: TransferPolicy,
)
    requires
        round >= 0,
    ensures
        ({
            let downloading = trades(state);
            let slots = transfer.upload_slots as int;
            let chosen = selected_sessions(state, c, round, transfer).len();
            &&& uploads(state) ==> chosen == min_of(
                slots,
                count(deserving(downloading, c), c.len() as int),
            ) + min_of(
                transfer.optimistic_upload_slots as int,
                count(hopefuls(downloading, c, slots), c.len() as int),
            )
            &&& state is Seeding ==> chosen == min_of(
                slots + transfer.optimistic_upload_slots,
                count(deserving(false, c), c.len() as int),
            )
            &&& !uploads(state) ==> chosen == 0
        }),
{
    let downloading = trades(state);
    let slots = transfer.upload_slots as int;
    let marked = selected(state, c, round, transfer);
    let first = positions(regular(downloading, c, slots));
    let second = positions(optimistic(downloading, c, round, transfer));
    lemma_marked_sessions_len(c, marked, c.len() as int);
    lemma_count_all(marked);
    if uploads(state) {
        law_regular_slots_are_filled(downloading, c, slots);
        law_optimistic_slots_are_filled(downloading, c, round, transfer);
        assert(first.disjoint(second));
        vstd::set_lib::lemma_set_disjoint_lens(first, second);
        assert(positions(marked) =~= first + second);
        if state is Seeding {
            let able = positions(deserving(false, c));
            let left = positions(hopefuls(false, c, slots));
            lemma_count_all(deserving(false, c));
            lemma_count_all(hopefuls(false, c, slots));
            assert(first.disjoint(left));
            vstd::set_lib::lemma_set_disjoint_lens(first, left);
            assert(able =~= first + left);
        }
    } else {
        assert(positions(marked) =~= Set::empty());
    }
}

/// Turning the rotation is one-to-one.
pub proof fn lemma_rotation(place: int, total: int, round: int)
    requires
        0 <= place < total,
        round >= 0,
    ensures
        0 <= rotation_start(round, total) < total,
        (place + total - rotation_start(round, total)) % total == (if place >= rotation_start(
            round,
            total,
        ) {
            place - rotation_start(round, total)
        } else {
            place + total - rotation_start(round, total)
        }),
{
    let base = if round <= usize::MAX {
        round
    } else {
        0
    };
    let start = rotation_start(round, total);
    vstd::arithmetic::div_mod::lemma_mod_bound(base, total);
    let shifted = place + total - start;
    if place >= start {
        assert(shifted % total == place - start) by (nonlinear_arith)
            requires
                shifted == place - start + total,
                0 <= place - start < total,
        ;
    } else {
        assert(shifted % total == shifted) by (nonlinear_arith)
            requires
                0 <= shifted < total,
        ;
    }
}

/// Whoever is uploaded to has credit, and while downloading has something to
/// give back. A peer without credit gets neither kind of slot.
pub proof fn law_selected_peers_can_repay(
    state: TorrentState,
    c: Seq<UploadCandidate>,
    round: int,
    transfer: TransferPolicy,
    i: int,
)
    requires
        0 <= i < c.len(),
        selected(state, c, round, transfer)[i],
    ensures
        uploads(state),
        c[i].eligible,
        trades(state) ==> c[i].interesting,
{
}

/// Regular slots go to the best: whoever deserves one and is better than
/// someone who holds one holds one too.
pub proof fn law_regular_slots_go_to_the_best(
    downloading: bool,
    c: Seq<UploadCandidate>,
    slots: int,
    i: int,
    j: int,
)
    requires
        0 <= i < c.len(),
        0 <= j < c.len(),
        deserves(downloading, c[i]),
        better(downloading, c[i], c[j]),
        regular(downloading, c, slots)[j],
    ensures
        regular(downloading, c, slots)[i],
{
    lemma_ahead_increases(downloading, c, deserving(downloading, c), i, j, c.len() as int);
}

/// A session is selected exactly when it belongs to a selected candidate.
pub proof fn lemma_marked_sessions(
    c: Seq<UploadCandidate>,
    marked: Seq<bool>,
    n: int,
    session: u64,
)
    requires
        0 <= n <= c.len(),
        marked.len() == c.len(),
    ensures
        marked_sessions(c, marked, n).contains(session) <==> exists|i: int|
            0 <= i < n && marked[i] && (#[trigger] c[i]).session == session,
    decreases n,
{
    if n > 0 {
        lemma_marked_sessions(c, marked, n - 1, session);
        let before = marked_sessions(c, marked, n - 1);
        let after = marked_sessions(c, marked, n);
        if before.contains(session) {
            let k = choose|k: int| 0 <= k < before.len() && before[k] == session;
            assert(after[k] == session);
            let i = choose|i: int|
                0 <= i < n - 1 && marked[i] && (#[trigger] c[i]).session == session;
            assert(c[i].session == session);
        } else if marked[n - 1] && c[n - 1].session == session {
            assert(after[after.len() - 1] == session);
        } else if after.contains(session) {
            let k = choose|k: int| 0 <= k < after.len() && after[k] == session;
            if k < before.len() {
                assert(before[k] == session);
            }
        }
    }
}

} // verus!
