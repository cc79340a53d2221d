//! Who is uploaded to, told by what is known of each candidate.

use crate::choke::{
    ahead, count, deserving, distinct_candidates, hopefuls, lemma_ahead_below,
    lemma_ahead_increases, lemma_count_all, lemma_marked_sessions, lemma_rotation,
    law_slots_are_filled, optimistic, regular, rotation_start, selected, selected_sessions,
    TorrentState, TransferPolicy, UploadCandidate,
};
use vstd::prelude::*;

verus! {

/// A torrent that is still being fetched.
pub open spec fn fetches(state: TorrentState) -> bool {
    state is Downloading || state is Starting
}

/// With every session listed once, a session is chosen exactly when its
/// candidate is.
proof fn lemma_chosen(
    state: TorrentState,
    c: Seq<UploadCandidate>,
    round: int,
    transfer: TransferPolicy,
    i: int,
)
    requires
        distinct_candidates(c),
        0 <= i < c.len(),
    ensures
        selected_sessions(state, c, round, transfer).contains(c[i].session) == selected(
            state,
            c,
            round,
            transfer,
        )[i],
{
    let marked = selected(state, c, round, transfer);
    lemma_marked_sessions(c, marked, c.len() as int, c[i].session);
    if selected_sessions(state, c, round, transfer).contains(c[i].session) {
        let k = choose|k: int|
            0 <= k < c.len() && marked[k] && (#[trigger] c[k]).session == c[i].session;
        if k < i {
            assert(c[k].session != c[i].session);
        } else if i < k {
            assert(c[i].session != c[k].session);
        }
    } else if marked[i] {
        assert(c[i].session == c[i].session);
    }
}

/// While downloading, of two candidates that may hold a regular slot the one
/// that delivers verified data at the higher rate comes first; at equal rates
/// the one with the higher net contribution; at equal contribution the one that
/// was given more of late; and at last the one that is listed first. Whenever
/// the other holds a regular slot, this one does too.
pub proof fn law_faster_peers_hold_slots_first(
    c: Seq<UploadCandidate>,
    slots: int,
    i: int,
    j: int,
)
    requires
        0 <= i < c.len(),
        0 <= j < c.len(),
        c[i].eligible,
        c[i].interesting,
        c[i].contribution_score > 0 || c[i].verified_rate > 0,
        regular(true, c, slots)[j],
    ensures
        c[i].verified_rate > c[j].verified_rate ==> regular(true, c, slots)[i],
        c[i].verified_rate == c[j].verified_rate && c[i].contribution_score
            > c[j].contribution_score ==> regular(true, c, slots)[i],
        c[i].verified_rate == c[j].verified_rate && c[i].contribution_score
            == c[j].contribution_score && c[i].recent_upload > c[j].recent_upload ==> regular(
            true,
            c,
            slots,
        )[i],
        c[i].verified_rate == c[j].verified_rate && c[i].contribution_score
            == c[j].contribution_score && c[i].recent_upload == c[j].recent_upload && i < j
            ==> regular(true, c, slots)[i],
{
    let marked = deserving(true, c);
    if c[i].verified_rate > c[j].verified_rate || (c[i].verified_rate == c[j].verified_rate && (
    c[i].contribution_score > c[j].contribution_score || (c[i].contribution_score
        == c[j].contribution_score && (c[i].recent_upload > c[j].recent_upload || (
    c[i].recent_upload == c[j].recent_upload && i < j))))) {
        lemma_ahead_increases(true, c, marked, i, j, c.len() as int);
    }
}

/// The same of the sessions that are chosen while downloading, where there are
/// regular slots alone.
pub proof fn law_faster_peers_are_chosen_first(
    state: TorrentState,
    c: Seq<UploadCandidate>,
    round: int,
    transfer: TransferPolicy,
    i: int,
    j: int,
)
    requires
        fetches(state),
        distinct_candidates(c),
        transfer.optimistic_upload_slots == 0,
        0 <= i < c.len(),
        0 <= j < c.len(),
        c[i].eligible,
        c[i].interesting,
        c[i].contribution_score > 0 || c[i].verified_rate > 0,
        selected_sessions(state, c, round, transfer).contains(c[j].session),
        c[i].verified_rate > c[j].verified_rate || (c[i].verified_rate == c[j].verified_rate && (
        c[i].contribution_score > c[j].contribution_score || (c[i].contribution_score
            == c[j].contribution_score && (c[i].recent_upload > c[j].recent_upload || (
        c[i].recent_upload == c[j].recent_upload && i < j))))),
    ensures
        selected_sessions(state, c, round, transfer).contains(c[i].session),
{
    lemma_chosen(state, c, round, transfer, i);
    lemma_chosen(state, c, round, transfer, j);
    lemma_none_optimistic(true, c, round, transfer, j);
    law_faster_peers_hold_slots_first(c, transfer.upload_slots as int, i, j);
}

/// Without optimistic slots nobody holds one.
proof fn lemma_none_optimistic(
    downloading: bool,
    c: Seq<UploadCandidate>,
    round: int,
    transfer: TransferPolicy,
    i: int,
)
    requires
        transfer.optimistic_upload_slots == 0,
        0 <= i < c.len(),
    ensures
        !optimistic(downloading, c, round, transfer)[i],
{
    let marked = hopefuls(downloading, c, transfer.upload_slots as int);
    let total = count(marked, c.len() as int);
    if marked[i] {
        lemma_ahead_below(downloading, c, marked, i, c.len() as int);
        let shifted = ahead(downloading, c, marked, i, c.len() as int) + total - rotation_start(
            round,
            total,
        );
        vstd::arithmetic::div_mod::lemma_mod_bound(shifted, total);
    }
}

/// While seeding, of two candidates with credit the one that was given more of
/// late comes first, and of two that were given the same the one listed first:
/// where there are regular slots alone, whenever the other is chosen it is too.
pub proof fn law_seeding_follows_recent_upload(
    c: Seq<UploadCandidate>,
    round: int,
    transfer: TransferPolicy,
    i: int,
    j: int,
)
    requires
        distinct_candidates(c),
        transfer.optimistic_upload_slots == 0,
        0 <= i < c.len(),
        0 <= j < c.len(),
        c[i].eligible,
        c[i].recent_upload > c[j].recent_upload || (c[i].recent_upload == c[j].recent_upload && i
            < j),
        selected_sessions(TorrentState::Seeding, c, round, transfer).contains(c[j].session),
    ensures
        selected_sessions(TorrentState::Seeding, c, round, transfer).contains(c[i].session),
{
    let state = TorrentState::Seeding;
    lemma_chosen(state, c, round, transfer, i);
    lemma_chosen(state, c, round, transfer, j);
    lemma_none_optimistic(false, c, round, transfer, j);
    lemma_ahead_increases(false, c, deserving(false, c), i, j, c.len() as int);
}

/// A regular slot is for a candidate with credit; while downloading also only
/// for one that has something to give and has given something.
pub proof fn law_regular_slots_are_earned(
    state: TorrentState,
    c: Seq<UploadCandidate>,
    round: int,
    transfer: TransferPolicy,
    i: int,
)
    requires
        distinct_candidates(c),
        transfer.optimistic_upload_slots == 0,
        0 <= i < c.len(),
        selected_sessions(state, c, round, transfer).contains(c[i].session),
    ensures
        fetches(state) || state is Seeding,
        c[i].eligible,
        fetches(state) ==> c[i].interesting && (c[i].contribution_score > 0 || c[i].verified_rate
            > 0),
{
    lemma_chosen(state, c, round, transfer, i);
    lemma_none_optimistic(!(state is Seeding), c, round, transfer, i);
}

/// No slot stays free while somebody waits for it. Whoever could have an
/// optimistic slot goes without only where all of those are given out; whoever
/// has earned a regular one too, only where all slots of either kind are.
pub proof fn law_no_slot_stays_free(
    state: TorrentState,
    c: Seq<UploadCandidate>,
    round: int,
    transfer: TransferPolicy,
    i: int,
)
    requires
        round >= 0,
        distinct_candidates(c),
        fetches(state) || state is Seeding,
        0 <= i < c.len(),
        c[i].eligible,
        fetches(state) ==> c[i].interesting,
        !selected_sessions(state, c, round, transfer).contains(c[i].session),
    ensures
        selected_sessions(state, c, round, transfer).len() >= transfer.optimistic_upload_slots,
        state is Seeding || c[i].contribution_score > 0 || c[i].verified_rate > 0
            ==> selected_sessions(state, c, round, transfer).len() == transfer.upload_slots
            + transfer.optimistic_upload_slots,
{
    let downloading = fetches(state);
    let slots = transfer.upload_slots as int;
    let n = c.len() as int;
    lemma_chosen(state, c, round, transfer, i);
    law_slots_are_filled(state, c, round, transfer);
    let waiting = hopefuls(downloading, c, slots);
    assert(waiting[i]);
    let total = count(waiting, n);
    let place = ahead(downloading, c, waiting, i, n);
    lemma_ahead_below(downloading, c, waiting, i, n);
    lemma_rotation(place, total, round);
    assert(total > transfer.optimistic_upload_slots);
    let able = deserving(downloading, c);
    lemma_count_all(able);
    if able[i] {
        lemma_ahead_below(downloading, c, able, i, n);
    }
}

/// No more sessions are chosen than there are slots, and none while the torrent
/// neither downloads nor seeds.
pub proof fn law_no_more_than_the_slots(
    state: TorrentState,
    c: Seq<UploadCandidate>,
    round: int,
    transfer: TransferPolicy,
)
    requires
        round >= 0,
    ensures
        selected_sessions(state, c, round, transfer).len() <= transfer.upload_slots
            + transfer.optimistic_upload_slots,
        !(fetches(state) || state is Seeding) ==> selected_sessions(
            state,
            c,
            round,
            transfer,
        ).len() == 0,
{
    law_slots_are_filled(state, c, round, transfer);
}

/// With an optimistic slot, everyone with credit, and while downloading
/// something to give, has a turn before the rotation has gone round.
pub proof fn law_everyone_has_a_turn(
    state: TorrentState,
    c: Seq<UploadCandidate>,
    transfer: TransferPolicy,
    i: int,
)
    requires
        distinct_candidates(c),
        fetches(state) || state is Seeding,
        transfer.optimistic_upload_slots > 0,
        0 <= i < c.len() <= usize::MAX,
        c[i].eligible,
        fetches(state) ==> c[i].interesting,
    ensures
        exists|round: int|
            0 <= round < c.len() && #[trigger] selected_sessions(
                state,
                c,
                round,
                transfer,
            ).contains(c[i].session),
{
    let downloading = fetches(state);
    let slots = transfer.upload_slots as int;
    let n = c.len() as int;
    let waiting = hopefuls(downloading, c, slots);
    if regular(downloading, c, slots)[i] {
        lemma_chosen(state, c, 0, transfer, i);
        assert(selected_sessions(state, c, 0, transfer).contains(c[i].session));
    } else {
        let round = ahead(downloading, c, waiting, i, n);
        lemma_ahead_below(downloading, c, waiting, i, n);
        lemma_count_below(waiting, n);
        let total = count(waiting, n);
        lemma_rotation(round, total, round);
        assert(round % total == round) by (nonlinear_arith)
            requires
                0 <= round < total,
        ;
        lemma_chosen(state, c, round, transfer, i);
        assert(selected_sessions(state, c, round, transfer).contains(c[i].session));
    }
}

proof fn lemma_count_below(marked: Seq<bool>, n: int)
    requires
        0 <= n,
    ensures
        0 <= count(marked, n) <= n,
        (forall|i: int| 0 <= i < n ==> #[trigger] marked[i]) ==> count(marked, n) == n,
    decreases n,
{
    if n > 0 {
        lemma_count_below(marked, n - 1);
    }
}

/// The rotation goes from the best candidate down, one place further with every
/// round: with one optimistic slot and no other, whoever is chosen in an earlier
/// round of a turn was given at least as much of late as whoever is chosen in a
/// later one.
pub proof fn law_rotation_goes_from_the_best_down(
    c: Seq<UploadCandidate>,
    transfer: TransferPolicy,
    first: int,
    second: int,
    i: int,
    j: int,
)
    requires
        distinct_candidates(c),
        transfer.upload_slots == 0,
        transfer.optimistic_upload_slots == 1,
        c.len() <= usize::MAX,
        forall|k: int| 0 <= k < c.len() ==> (#[trigger] c[k]).eligible,
        0 <= first < second < c.len(),
        0 <= i < c.len(),
        0 <= j < c.len(),
        selected_sessions(TorrentState::Seeding, c, first, transfer).contains(c[i].session),
        selected_sessions(TorrentState::Seeding, c, second, transfer).contains(c[j].session),
    ensures
        c[i].recent_upload >= c[j].recent_upload,
        c[i].recent_upload == c[j].recent_upload ==> i < j,
{
    let state = TorrentState::Seeding;
    lemma_sole_turn(c, transfer, first, i);
    lemma_sole_turn(c, transfer, second, j);
    let waiting = hopefuls(false, c, 0);
    let n = c.len() as int;
    if c[j].recent_upload > c[i].recent_upload || (c[j].recent_upload == c[i].recent_upload && j
        < i) {
        lemma_ahead_increases(false, c, waiting, j, i, n);
    }
}

proof fn lemma_sole_turn(c: Seq<UploadCandidate>, transfer: TransferPolicy, round: int, i: int)
    requires
        distinct_candidates(c),
        transfer.upload_slots == 0,
        transfer.optimistic_upload_slots == 1,
        c.len() <= usize::MAX,
        forall|k: int| 0 <= k < c.len() ==> (#[trigger] c[k]).eligible,
        0 <= round < c.len(),
        0 <= i < c.len(),
        selected_sessions(TorrentState::Seeding, c, round, transfer).contains(c[i].session),
    ensures
        ahead(false, c, hopefuls(false, c, 0), i, c.len() as int) == round,
        forall|k: int| 0 <= k < c.len() ==> #[trigger] hopefuls(false, c, 0)[k],
{
    let waiting = hopefuls(false, c, 0);
    let n = c.len() as int;
    lemma_chosen(TorrentState::Seeding, c, round, transfer, i);
    assert forall|k: int| 0 <= k < n implies #[trigger] waiting[k] by {
        if deserving(false, c)[k] {
            lemma_ahead_below(false, c, deserving(false, c), k, n);
        }
    }
    lemma_count_below(waiting, n);
    lemma_ahead_below(false, c, waiting, i, n);
    let place = ahead(false, c, waiting, i, n);
    lemma_rotation(place, n, round);
    assert(round % n == round) by (nonlinear_arith)
        requires
            0 <= round < n,
    ;
}

} // verus!
