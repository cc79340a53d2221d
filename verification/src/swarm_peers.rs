//! Whom a swarm connects to, and whom it lets go.

use crate::address::{IpAddress, PeerKey, SocketAddress};
use crate::budget::DownloadBudget;
use crate::num::{max_of, min_of, saturating_mul_u64};
use crate::rates::ASSIGNMENT_TARGET_MIN;
use crate::swarm::{
    acts_view, distinct_workers, lemma_all_returned, lemma_distinct_remove, lemma_worker_at,
    numbered, removed, worker_at, workers_view, Effect, KnownCandidate, PeerCandidate, PeerModel,
    PeerWorkerHandle, SwarmAct, SwarmAction, SwarmModel, SwarmState,
};
use crate::upload::{entry_at, PeerReputation, ReputationEntry, UploadPolicy};
use vstd::prelude::*;

verus! {

pub const KNOWN_CANDIDATE_LIMIT: usize = 8192;

pub const QUEUED_CANDIDATE_LIMIT: usize = 4096;

/// A candidate address may be dialled again this long after its last attempt,
/// so peers that dropped are recovered when discovery reports them again.
pub const CANDIDATE_RETRY_NANOS: u64 = 600_000_000_000;

pub const PEER_CONNECT_CONCURRENCY: usize = 128;

pub const PREFERRED_SEED_PEERS: usize = 8;

/// How long a peer counts as recently productive.
pub const RECENT_NANOS: u64 = 30_000_000_000;

/// How long a peer may deliver nothing before it is put up for replacement.
pub const AUDITION_NANOS: u64 = 60_000_000_000;

/// The ports and addresses that this daemon is reachable at.
#[derive(Debug)]
pub struct SelfAddresses {
    pub peer_port: u16,
    pub advertised_port: u16,
    pub addresses: Vec<IpAddress>,
}

/// Whether an address reaches this daemon's own peer port.
pub open spec fn is_self(own: SelfAddresses, address: SocketAddress) -> bool {
    (address.port == own.peer_port || address.port == own.advertised_port)
        && own.addresses@.contains(address.ip)
}

pub open spec fn is_unspecified(address: IpAddress) -> bool {
    address == IpAddress::V4(0) || address == IpAddress::V6(0)
}

impl SelfAddresses {
    /// A candidate that would reach this daemon's own peer port at one of its
    /// own addresses.
    pub fn is_self_candidate(&self, address: SocketAddress) -> (result: bool)
        ensures
            result == is_self(*self, address),
    {
        if address.port != self.peer_port && address.port != self.advertised_port {
            return false;
        }
        self.knows(address.ip)
    }

    fn knows(&self, address: IpAddress) -> (result: bool)
        ensures
            result == self.addresses@.contains(address),
    {
        let mut i: usize = 0;
        while i < self.addresses.len()
            invariant
                i <= self.addresses@.len(),
                forall|k: int| 0 <= k < i ==> self.addresses@[k] != address,
            decreases self.addresses@.len() - i,
        {
            if self.addresses[i] == address {
                return true;
            }
            i += 1;
        }
        false
    }

    /// The daemon becomes reachable at another port from outside. There is no
    /// port zero.
    pub fn set_advertised_peer_port(&mut self, port: u16)
        ensures
            final(self).advertised_port == (if port == 0 {
                old(self).advertised_port
            } else {
                port
            }),
            final(self).peer_port == old(self).peer_port,
            final(self).addresses == old(self).addresses,
    {
        if port != 0 {
            self.advertised_port = port;
        }
    }

    /// Notes an address that this daemon turned out to have.
    pub fn learn_self_address(&mut self, address: IpAddress)
        ensures
            final(self).addresses@ == (if is_unspecified(address) || old(
                self,
            ).addresses@.contains(address) {
                old(self).addresses@
            } else {
                old(self).addresses@.push(address)
            }),
            final(self).peer_port == old(self).peer_port,
            final(self).advertised_port == old(self).advertised_port,
    {
        if address == IpAddress::V4(0) || address == IpAddress::V6(0) {
            return ;
        }
        if !self.knows(address) {
            self.addresses.push(address);
        }
    }
}

/// The position of a known candidate at or after `from`, or the length.
pub open spec fn known_at(known: Seq<KnownCandidate>, candidate: PeerCandidate, from: int) -> int
    decreases known.len() - from,
{
    if from < 0 || from >= known.len() || known[from].candidate == candidate {
        from
    } else {
        known_at(known, candidate, from + 1)
    }
}

/// The known candidates once one has been seen.
pub open spec fn seen(
    known: Seq<KnownCandidate>,
    candidate: PeerCandidate,
    now: u64,
) -> Seq<KnownCandidate> {
    let at = known_at(known, candidate, 0);
    let entry = KnownCandidate { candidate, seen: now };
    if at < known.len() {
        known.update(at, entry)
    } else {
        known.push(entry)
    }
}

/// Whether a candidate was tried a short while ago.
pub open spec fn tried_lately(
    known: Seq<KnownCandidate>,
    candidate: PeerCandidate,
    now: u64,
) -> bool {
    let at = known_at(known, candidate, 0);
    at < known.len() && max_of(now - known[at].seen, 0) < CANDIDATE_RETRY_NANOS
}

/// Whether a peer at an address belongs to the swarm already.
pub open spec fn is_connected(workers: Seq<PeerModel>, address: SocketAddress) -> bool {
    exists|i: int| 0 <= i < workers.len() && (#[trigger] workers[i]).address == address
}

/// The swarm once an address has been offered to it.
pub open spec fn offered(
    s: SwarmModel,
    own: SelfAddresses,
    candidate: PeerCandidate,
    now: u64,
) -> SwarmModel {
    if is_self(own, candidate.address) || tried_lately(s.known, candidate, now) {
        s
    } else if is_connected(s.workers, candidate.address) {
        SwarmModel { known: seen(s.known, candidate, now), ..s }
    } else {
        let known = if s.known.len() >= KNOWN_CANDIDATE_LIMIT {
            Seq::empty()
        } else {
            s.known
        };
        let queue = if s.candidates.len() >= QUEUED_CANDIDATE_LIMIT {
            s.candidates.drop_first()
        } else {
            s.candidates
        };
        SwarmModel {
            known: seen(known, candidate, now),
            candidates: queue.push(candidate),
            ..s
        }
    }
}

/// The swarm once addresses have been offered to it one after the other.
pub open spec fn all_offered(
    s: SwarmModel,
    own: SelfAddresses,
    addresses: Seq<SocketAddress>,
    force_utp: bool,
    now: u64,
) -> SwarmModel
    decreases addresses.len(),
{
    if addresses.len() == 0 {
        s
    } else {
        offered(
            all_offered(s, own, addresses.drop_last(), force_utp, now),
            own,
            PeerCandidate { address: addresses.last(), force_utp },
            now,
        )
    }
}

/// Whether no candidate is known twice.
pub open spec fn unique_known(known: Seq<KnownCandidate>) -> bool {
    forall|i: int, j: int|
        0 <= i < j < known.len() ==> (#[trigger] known[i]).candidate != (
        #[trigger] known[j]).candidate
}

pub proof fn lemma_known_at(known: Seq<KnownCandidate>, candidate: PeerCandidate, from: int)
    requires
        0 <= from <= known.len(),
    ensures
        from <= known_at(known, candidate, from) <= known.len(),
        known_at(known, candidate, from) < known.len() ==> known[known_at(
            known,
            candidate,
            from,
        )].candidate == candidate,
        forall|k: int|
            from <= k < known_at(known, candidate, from) ==> (#[trigger] known[k]).candidate
                != candidate,
    decreases known.len() - from,
{
    if from < known.len() && known[from].candidate != candidate {
        lemma_known_at(known, candidate, from + 1);
    }
}

/// No candidate comes to be known twice.
pub proof fn law_candidates_are_known_once(
    s: SwarmModel,
    own: SelfAddresses,
    addresses: Seq<SocketAddress>,
    force_utp: bool,
    now: u64,
)
    requires
        unique_known(s.known),
    ensures
        unique_known(all_offered(s, own, addresses, force_utp, now).known),
    decreases addresses.len(),
{
    if addresses.len() > 0 {
        law_candidates_are_known_once(s, own, addresses.drop_last(), force_utp, now);
        let before = all_offered(s, own, addresses.drop_last(), force_utp, now);
        let candidate = PeerCandidate { address: addresses.last(), force_utp };
        lemma_known_at(before.known, candidate, 0);
        lemma_known_at(Seq::empty(), candidate, 0);
    }
}

/// Offering changes nothing but the candidates, and their queue stays bounded.
pub proof fn law_candidate_queue_stays_bounded(
    s: SwarmModel,
    own: SelfAddresses,
    addresses: Seq<SocketAddress>,
    force_utp: bool,
    now: u64,
)
    requires
        s.candidates.len() <= QUEUED_CANDIDATE_LIMIT,
    ensures
        ({
            let after = all_offered(s, own, addresses, force_utp, now);
            &&& after == SwarmModel { known: after.known, candidates: after.candidates, ..s }
            &&& after.candidates.len() <= QUEUED_CANDIDATE_LIMIT
        }),
    decreases addresses.len(),
{
    if addresses.len() > 0 {
        law_candidate_queue_stays_bounded(s, own, addresses.drop_last(), force_utp, now);
    }
}

/// This daemon never queues its own address.
pub proof fn law_own_address_is_never_queued(
    s: SwarmModel,
    own: SelfAddresses,
    addresses: Seq<SocketAddress>,
    force_utp: bool,
    now: u64,
)
    requires
        forall|i: int|
            0 <= i < s.candidates.len() ==> !is_self(own, (#[trigger] s.candidates[i]).address),
    ensures
        ({
            let after = all_offered(s, own, addresses, force_utp, now);
            forall|i: int|
                0 <= i < after.candidates.len() ==> !is_self(
                    own,
                    (#[trigger] after.candidates[i]).address,
                )
        }),
    decreases addresses.len(),
{
    if addresses.len() > 0 {
        law_own_address_is_never_queued(s, own, addresses.drop_last(), force_utp, now);
        let before = all_offered(s, own, addresses.drop_last(), force_utp, now);
        let after = all_offered(s, own, addresses, force_utp, now);
        assert forall|i: int| 0 <= i < after.candidates.len() implies !is_self(
            own,
            (#[trigger] after.candidates[i]).address,
        ) by {
            if before.candidates.contains(after.candidates[i]) {
                let k = choose|k: int|
                    0 <= k < before.candidates.len() && before.candidates[k]
                        == after.candidates[i];
                assert(!is_self(own, before.candidates[k].address));
            } else if after.candidates != before.candidates {
                if before.candidates.len() >= QUEUED_CANDIDATE_LIMIT {
                    if i < before.candidates.len() - 1 {
                        assert(after.candidates[i] == before.candidates[i + 1]);
                    }
                } else if i < before.candidates.len() {
                    assert(after.candidates[i] == before.candidates[i]);
                }
            } else {
                assert(before.candidates[i] == after.candidates[i]);
            }
        }
    }
}

/// A peer that is being connected to.
pub open spec fn fresh_peer(worker: usize, address: SocketAddress, now: u64) -> PeerModel {
    PeerModel {
        worker,
        bitfield: None,
        idle: false,
        choked: true,
        address,
        peer_key: None,
        seed: false,
        useful_pieces: 0,
        verified_bytes: 0,
        connected_at: now,
        last_verified: None,
        assignments: Seq::empty(),
        assigned_bytes: 0,
        target_bytes: ASSIGNMENT_TARGET_MIN as int,
        wants_more: false,
        skip_generation: None,
    }
}

/// The swarm with one more peer, which is being connected to.
pub open spec fn joined(s: SwarmModel, address: SocketAddress, now: u64) -> SwarmModel {
    SwarmModel {
        workers: s.workers.push(fresh_peer(s.next_worker as usize, address, now)),
        next_worker: s.next_worker + 1,
        connecting: min_of(s.connecting + 1, usize::MAX as int),
        ..s
    }
}

/// Whether there is room for one more connection, and someone to connect to.
pub open spec fn may_connect(s: SwarmModel) -> bool {
    &&& s.workers.len() < s.peer_limit
    &&& s.connecting < min_of(PEER_CONNECT_CONCURRENCY as int, s.peer_limit)
    &&& s.candidates.len() > 0
}

/// The swarm once every free slot has been filled.
pub open spec fn slots_filled(s: SwarmModel, now: u64) -> Effect
    decreases s.candidates.len(),
{
    if may_connect(s) {
        let candidate = s.candidates[0];
        let next = joined(
            SwarmModel { candidates: s.candidates.drop_first(), ..s },
            candidate.address,
            now,
        );
        let rest = slots_filled(next, now);
        Effect {
            swarm: rest.swarm,
            acts: seq![SwarmAct::Connect(s.next_worker as usize, candidate)] + rest.acts,
        }
    } else {
        Effect { swarm: s, acts: Seq::empty() }
    }
}

/// Filling slots never exceeds the swarm's limit.
pub proof fn law_slots_stay_within_limit(s: SwarmModel, now: u64)
    requires
        s.workers.len() <= s.peer_limit,
    ensures
        slots_filled(s, now).swarm.workers.len() <= s.peer_limit,
        !may_connect(slots_filled(s, now).swarm),
    decreases s.candidates.len(),
{
    if may_connect(s) {
        let next = joined(
            SwarmModel { candidates: s.candidates.drop_first(), ..s },
            s.candidates[0].address,
            now,
        );
        law_slots_stay_within_limit(next, now);
    }
}

/// The reputation of a peer, if anything is known of it.
pub open spec fn known_reputation(
    entries: Seq<ReputationEntry>,
    s: SwarmModel,
    peer: PeerModel,
) -> Option<PeerReputation> {
    match peer.peer_key {
        None => None,
        Some(key) => {
            let at = entry_at(entries, s.torrent_id, key, 0);
            if at < entries.len() {
                Some(entries[at].reputation)
            } else {
                None
            }
        },
    }
}

/// How many bytes per second a peer delivered since it connected.
pub open spec fn delivery_rate(peer: PeerModel, now: u64) -> int {
    let millis = max_of(max_of(now - peer.connected_at, 0) / 1_000_000, 1);
    min_of(peer.verified_bytes * 1000, u64::MAX as int) / millis
}

/// What a peer has given beyond half of what it took.
pub open spec fn net_contribution(reputation: Option<PeerReputation>) -> int {
    match reputation {
        Some(known) => max_of(known.verified_from - known.uploaded_to / 2, 0),
        None => 0,
    }
}

/// The words that a retention score is packed from, the most important first.
pub struct ScoreParts {
    pub seed: bool,
    pub recent: bool,
    pub rate: u64,
    pub contribution: u64,
    pub useful: usize,
    pub failures: u32,
}

pub open spec fn flag(value: bool) -> u128 {
    if value {
        1
    } else {
        0
    }
}

/// The parts packed into one number: seeds before recent deliverers before
/// fast peers, then net contribution and useful pieces, less failures.
pub open spec fn packed(parts: ScoreParts) -> int {
    let base = (flag(parts.seed) << 120u128) | (flag(parts.recent) << 112u128) | ((
    parts.rate as u128) << 48u128) | ((parts.contribution as u128) << 16u128) | (
    parts.useful as u128);
    max_of(base - ((parts.failures as u128) << 40u128), 0)
}

/// Whether a peer delivered within the last half minute.
pub open spec fn recently_productive(peer: PeerModel, now: u64) -> bool {
    match peer.last_verified {
        Some(at) => max_of(now - at, 0) < RECENT_NANOS,
        None => false,
    }
}

/// How much a peer is worth keeping.
pub open spec fn retention_score(
    peer: PeerModel,
    reputation: Option<PeerReputation>,
    now: u64,
) -> int {
    packed(
        ScoreParts {
            seed: peer.seed,
            recent: recently_productive(peer, now),
            rate: delivery_rate(peer, now) as u64,
            contribution: net_contribution(reputation) as u64,
            useful: peer.useful_pieces as usize,
            failures: match reputation {
                Some(known) => known.failures,
                None => 0,
            },
        },
    )
}

/// Whether a peer may be let go.
pub open spec fn dispensable(peer: PeerModel, include_seeds: bool) -> bool {
    peer.idle && (include_seeds || !peer.seed)
}

/// Whether a peer is worth less than another: choked ones first, then by score.
pub open spec fn worth_less(
    s: SwarmModel,
    entries: Seq<ReputationEntry>,
    a: PeerModel,
    b: PeerModel,
    now: u64,
) -> bool {
    if a.choked != b.choked {
        a.choked
    } else {
        retention_score(a, known_reputation(entries, s, a), now) < retention_score(
            b,
            known_reputation(entries, s, b),
            now,
        )
    }
}

/// The peer among the first `n` that is worth the least and may be let go.
pub open spec fn lowest_below(
    s: SwarmModel,
    entries: Seq<ReputationEntry>,
    include_seeds: bool,
    now: u64,
    n: int,
) -> Option<int>
    decreases n,
{
    if n <= 0 {
        None
    } else {
        let before = lowest_below(s, entries, include_seeds, now, n - 1);
        if !dispensable(s.workers[n - 1], include_seeds) {
            before
        } else {
            match before {
                None => Some(n - 1),
                Some(at) => if worth_less(
                    s,
                    entries,
                    s.workers[n - 1],
                    s.workers[at],
                    now,
                ) {
                    Some(n - 1)
                } else {
                    Some(at)
                },
            }
        }
    }
}

pub open spec fn lowest(
    s: SwarmModel,
    entries: Seq<ReputationEntry>,
    include_seeds: bool,
    now: u64,
) -> Option<int> {
    lowest_below(s, entries, include_seeds, now, s.workers.len() as int)
}

proof fn lemma_lowest_range(
    s: SwarmModel,
    entries: Seq<ReputationEntry>,
    include_seeds: bool,
    now: u64,
    n: int,
)
    requires
        0 <= n <= s.workers.len(),
    ensures
        match lowest_below(s, entries, include_seeds, now, n) {
            Some(at) => 0 <= at < n && dispensable(s.workers[at], include_seeds) && forall|k: int|
                0 <= k < n && dispensable(#[trigger] s.workers[k], include_seeds) ==> !worth_less(
                    s,
                    entries,
                    s.workers[k],
                    s.workers[at],
                    now,
                ),
            None => forall|k: int|
                0 <= k < n ==> !dispensable(#[trigger] s.workers[k], include_seeds),
        },
    decreases n,
{
    if n > 0 {
        lemma_lowest_range(s, entries, include_seeds, now, n - 1);
    }
}

/// Whoever is let go may be let go and is worth no more than anyone else who
/// may; where nobody is let go, nobody may be.
pub proof fn law_lowest_is_let_go(
    s: SwarmModel,
    entries: Seq<ReputationEntry>,
    include_seeds: bool,
    now: u64,
)
    ensures
        match lowest(s, entries, include_seeds, now) {
            Some(at) => 0 <= at < s.workers.len() && dispensable(s.workers[at], include_seeds)
                && forall|k: int|
                0 <= k < s.workers.len() && dispensable(#[trigger] s.workers[k], include_seeds)
                    ==> !worth_less(s, entries, s.workers[k], s.workers[at], now),
            None => forall|k: int|
                0 <= k < s.workers.len() ==> !dispensable(#[trigger] s.workers[k], include_seeds),
        },
{
    lemma_lowest_range(s, entries, include_seeds, now, s.workers.len() as int);
}

/// The swarm once no more peers are left than it may have, or none of them may
/// be let go.
pub open spec fn limit_enforced(s: SwarmModel, entries: Seq<ReputationEntry>, now: u64) -> Effect
    decreases s.workers.len(),
{
    if s.workers.len() > s.peer_limit {
        match lowest(s, entries, true, now) {
            None => Effect { swarm: s, acts: Seq::empty() },
            Some(at) => {
                let gone = removed(s, s.workers[at].worker);
                if gone.swarm.workers.len() < s.workers.len() {
                    let rest = limit_enforced(gone.swarm, entries, now);
                    Effect { swarm: rest.swarm, acts: gone.acts + rest.acts }
                } else {
                    gone
                }
            },
        }
    } else {
        Effect { swarm: s, acts: Seq::empty() }
    }
}

/// How many of the first `n` peers have every piece.
pub open spec fn seeds_below(workers: Seq<PeerModel>, n: int) -> int
    decreases n,
{
    if n <= 0 {
        0
    } else {
        seeds_below(workers, n - 1) + if workers[n - 1].seed {
            1int
        } else {
            0int
        }
    }
}

/// Whether a peer delivers too little to be sure of its place.
pub open spec fn on_audition(peer: PeerModel, now: u64) -> bool {
    peer.choked || match peer.last_verified {
        Some(at) => max_of(now - at, 0) >= AUDITION_NANOS,
        None => true,
    }
}

/// The swarm after its least productive peer has made room, where somebody
/// waits for it and the swarm is full.
pub open spec fn productive_retained(
    s: SwarmModel,
    entries: Seq<ReputationEntry>,
    now: u64,
) -> Effect {
    let nothing = Effect { swarm: s, acts: Seq::empty() };
    if s.candidates.len() == 0 || s.workers.len() < s.peer_limit {
        nothing
    } else {
        match lowest(s, entries, false, now) {
            None => nothing,
            Some(at) => if seeds_below(s.workers, s.workers.len() as int) < PREFERRED_SEED_PEERS
                || on_audition(s.workers[at], now) {
                removed(s, s.workers[at].worker)
            } else {
                nothing
            },
        }
    }
}

/// How much a peer is worth keeping.
pub fn peer_retention_score(
    handle: &PeerWorkerHandle,
    reputation: Option<PeerReputation>,
    now: u64,
) -> (score: u128)
    ensures
        score == retention_score(handle@, reputation, now),
{
    let elapsed: u64 = now.saturating_sub(handle.connected_at) / 1_000_000;
    let millis: u64 = if elapsed > 1 { elapsed } else { 1 };
    let rate: u64 = saturating_mul_u64(handle.verified_bytes, 1000) / millis;
    let recent: bool = match handle.last_verified {
        Some(at) => now.saturating_sub(at) < RECENT_NANOS,
        None => false,
    };
    let (contribution, failures): (u64, u32) = match reputation {
        Some(known) => (
            known.verified_from.saturating_sub(known.uploaded_to / 2),
            known.failures,
        ),
        None => (0, 0),
    };
    let seed_flag: u128 = if handle.seed { 1 } else { 0 };
    let recent_flag: u128 = if recent { 1 } else { 0 };
    let base: u128 = (seed_flag << 120u128) | (recent_flag << 112u128) | ((rate as u128) << 48u128)
        | ((contribution as u128) << 16u128) | (handle.useful_pieces as u128);
    let penalty: u128 = (failures as u128) << 40u128;
    base.saturating_sub(penalty)
}

impl UploadPolicy {
    /// The reputation of a peer, if anything is known of it.
    pub(crate) fn reputation_for(&self, s: &SwarmState, handle: &PeerWorkerHandle, Ghost(
        shared,
    ): Ghost<DownloadBudget>) -> (result: Option<PeerReputation>)
        ensures
            result == known_reputation(self.reputation@, s.model(shared), handle@),
    {
        match handle.peer_key {
            None => None,
            Some(key) => match self.find_entry(s.torrent_id, &key) {
                Some(at) => Some(self.reputation[at].reputation),
                None => None,
            },
        }
    }
}

impl SwarmState {
    /// Offers addresses to the swarm.
    pub fn enqueue_peer_candidates(
        &mut self,
        own: &SelfAddresses,
        addresses: &Vec<SocketAddress>,
        force_utp: bool,
        now: u64,
        shared: &DownloadBudget,
    )
        requires
            old(self).wf(),
        ensures
            final(self).wf(),
            final(self).model(*shared) == all_offered(
                old(self).model(*shared),
                *own,
                addresses@,
                force_utp,
                now,
            ),
    {
        let ghost before = self.model(*shared);
        let mut i: usize = 0;
        assert(addresses@.take(0) =~= Seq::empty());
        while i < addresses.len()
            invariant
                self.wf(),
                i <= addresses@.len(),
                self.model(*shared) == all_offered(
                    before,
                    *own,
                    addresses@.take(i as int),
                    force_utp,
                    now,
                ),
            decreases addresses@.len() - i,
        {
            proof {
                assert(addresses@.take(i + 1).drop_last() =~= addresses@.take(i as int));
                assert(addresses@.take(i + 1).last() == addresses@[i as int]);
            }
            self.offer(own, PeerCandidate { address: addresses[i], force_utp }, now, Ghost(*shared));
            i += 1;
        }
        assert(addresses@.take(addresses@.len() as int) =~= addresses@);
    }

    fn find_known(&self, candidate: PeerCandidate) -> (result: Option<usize>)
        ensures
            match result {
                Some(at) => at < self.known_candidates@.len() && at == known_at(
                    self.known_candidates@,
                    candidate,
                    0,
                ),
                None => known_at(self.known_candidates@, candidate, 0)
                    == self.known_candidates@.len(),
            },
    {
        let mut i: usize = 0;
        while i < self.known_candidates.len()
            invariant
                i <= self.known_candidates@.len(),
                known_at(self.known_candidates@, candidate, 0) == known_at(
                    self.known_candidates@,
                    candidate,
                    i as int,
                ),
            decreases self.known_candidates@.len() - i,
        {
            if self.known_candidates[i].candidate == candidate {
                return Some(i);
            }
            i += 1;
        }
        None
    }

    fn note_seen(&mut self, candidate: PeerCandidate, now: u64)
        ensures
            final(self).known_candidates@ == seen(old(self).known_candidates@, candidate, now),
            *final(self) == (SwarmState {
                known_candidates: final(self).known_candidates,
                ..*old(self)
            }),
    {
        let entry = KnownCandidate { candidate, seen: now };
        match self.find_known(candidate) {
            Some(at) => {
                self.known_candidates[at] = entry;
            },
            None => {
                self.known_candidates.push(entry);
            },
        }
    }

    fn has_address(&self, address: SocketAddress) -> (result: bool)
        ensures
            result == is_connected(workers_view(self.workers@), address),
    {
        let ghost workers = workers_view(self.workers@);
        let mut i: usize = 0;
        while i < self.workers.len()
            invariant
                workers == workers_view(self.workers@),
                i <= self.workers@.len(),
                forall|k: int| 0 <= k < i ==> (#[trigger] workers[k]).address != address,
            decreases self.workers@.len() - i,
        {
            assert(workers[i as int].address == self.workers@[i as int].address);
            if self.workers[i].address == address {
                return true;
            }
            i += 1;
        }
        false
    }

    fn offer(&mut self, own: &SelfAddresses, candidate: PeerCandidate, now: u64, Ghost(
        shared,
    ): Ghost<DownloadBudget>)
        requires
            old(self).wf(),
        ensures
            final(self).wf(),
            final(self).model(shared) == offered(old(self).model(shared), *own, candidate, now),
    {
        if own.is_self_candidate(candidate.address) {
            return ;
        }
        if let Some(at) = self.find_known(candidate) {
            if now.saturating_sub(self.known_candidates[at].seen) < CANDIDATE_RETRY_NANOS {
                return ;
            }
        }
        if self.has_address(candidate.address) {
            // Already connected; refresh the timestamp so the address is not
            // dialled the moment it drops, but leave the queue alone.
            self.note_seen(candidate, now);
            return ;
        }
        if self.known_candidates.len() >= KNOWN_CANDIDATE_LIMIT {
            // Reset the deduplication window rather than grow without bound;
            // a returning address is simply retried later.
            self.known_candidates.clear();
        }
        self.note_seen(candidate, now);
        if self.candidates.len() >= QUEUED_CANDIDATE_LIMIT {
            let ghost queue = self.candidates@;
            self.candidates.remove(0);
            assert(self.candidates@ =~= queue.drop_first());
        }
        self.candidates.push(candidate);
    }

    /// Adds a peer that is being connected to, and gives its number.
    pub fn join(&mut self, address: SocketAddress, now: u64, shared: &DownloadBudget) -> (worker:
        usize)
        requires
            old(self).wf(),
            old(self).next_worker < usize::MAX,
        ensures
            final(self).wf(),
            worker == old(self).next_worker,
            final(self).model(*shared) == joined(old(self).model(*shared), address, now),
    {
        let ghost before = self.model(*shared);
        let worker: usize = self.next_worker;
        self.next_worker = worker + 1;
        let handle = PeerWorkerHandle {
            worker,
            bitfield: None,
            idle: false,
            choked: true,
            address,
            peer_key: None,
            seed: false,
            useful_pieces: 0,
            verified_bytes: 0,
            connected_at: now,
            last_verified: None,
            assignments: Vec::new(),
            assigned_bytes: 0,
            target_bytes: ASSIGNMENT_TARGET_MIN,
            wants_more: false,
            skip_generation: None,
        };
        assert(handle@ == fresh_peer(worker, address, now));
        self.workers.push(handle);
        self.connecting = self.connecting.saturating_add(1);
        proof {
            let after = before.workers.push(handle@);
            assert(workers_view(self.workers@) =~= after);
            assert forall|i: int, j: int| 0 <= i < j < after.len() implies (
            #[trigger] after[i]).worker != (#[trigger] after[j]).worker by {
                assert(after[i] == before.workers[i]);
                if j < before.workers.len() {
                    assert(after[j] == before.workers[j]);
                }
            }
            assert forall|i: int| 0 <= i < after.len() implies (#[trigger] after[i]).worker < worker
                + 1 by {
                if i < before.workers.len() {
                    assert(before.workers[i].worker < worker);
                }
            }
        }
        worker
    }

    /// Connects to candidates while there is room for them.
    pub fn fill_peer_slots(&mut self, now: u64, actions: &mut Vec<SwarmAction>, shared:
        &DownloadBudget)
        requires
            old(self).wf(),
            old(self).next_worker + old(self).candidates@.len() <= usize::MAX,
        ensures
            final(self).wf(),
            ({
                let effect = slots_filled(old(self).model(*shared), now);
                &&& final(self).model(*shared) == effect.swarm
                &&& acts_view(final(actions)@) == acts_view(old(actions)@) + effect.acts
            }),
    {
        let ghost before = self.model(*shared);
        let ghost done = acts_view(actions@);
        let parallel: usize = if PEER_CONNECT_CONCURRENCY < self.peer_limit {
            PEER_CONNECT_CONCURRENCY
        } else {
            self.peer_limit
        };
        while self.workers.len() < self.peer_limit && self.connecting < parallel
            && self.candidates.len() > 0
            invariant
                self.wf(),
                self.next_worker + self.candidates@.len() <= usize::MAX,
                parallel == min_of(PEER_CONNECT_CONCURRENCY as int, self.peer_limit as int),
                slots_filled(before, now).swarm == slots_filled(self.model(*shared), now).swarm,
                done + slots_filled(before, now).acts == acts_view(actions@) + slots_filled(
                    self.model(*shared),
                    now,
                ).acts,
                acts_view(old(actions)@) == done,
            decreases self.candidates@.len(),
        {
            let ghost now_model = self.model(*shared);
            let ghost said = acts_view(actions@);
            assert(may_connect(now_model));
            let candidate = self.candidates.remove(0);
            assert(self.candidates@ =~= now_model.candidates.drop_first());
            let worker: usize = self.join(candidate.address, now, shared);
            actions.push(SwarmAction::Connect { worker, candidate });
            proof {
                assert(acts_view(actions@) =~= said.push(SwarmAct::Connect(worker, candidate)));
                let rest = slots_filled(self.model(*shared), now).acts;
                assert(slots_filled(now_model, now).acts == seq![
                    SwarmAct::Connect(worker, candidate),
                ] + rest);
                assert(said + slots_filled(now_model, now).acts =~= acts_view(actions@) + rest);
            }
        }
        proof {
            assert(!may_connect(self.model(*shared)));
            assert(acts_view(actions@) + Seq::<SwarmAct>::empty() =~= acts_view(actions@));
        }
    }

    fn is_worth_less(&self, policy: &UploadPolicy, a: usize, b: usize, now: u64, Ghost(
        shared,
    ): Ghost<DownloadBudget>) -> (result: bool)
        requires
            a < self.workers@.len(),
            b < self.workers@.len(),
        ensures
            result == worth_less(
                self.model(shared),
                policy.reputation@,
                self.model(shared).workers[a as int],
                self.model(shared).workers[b as int],
                now,
            ),
    {
        let first = &self.workers[a];
        let second = &self.workers[b];
        if first.choked != second.choked {
            return first.choked;
        }
        let first_known = policy.reputation_for(self, first, Ghost(shared));
        let second_known = policy.reputation_for(self, second, Ghost(shared));
        peer_retention_score(first, first_known, now) < peer_retention_score(
            second,
            second_known,
            now,
        )
    }

    /// The position of the peer that is worth the least and may be let go.
    pub fn lowest_idle_worker(
        &self,
        policy: &UploadPolicy,
        include_seeds: bool,
        now: u64,
        shared: &DownloadBudget,
    ) -> (result: Option<usize>)
        ensures
            match result {
                Some(at) => at < self.workers@.len() && lowest(
                    self.model(*shared),
                    policy.reputation@,
                    include_seeds,
                    now,
                ) == Some(at as int),
                None => lowest(
                    self.model(*shared),
                    policy.reputation@,
                    include_seeds,
                    now,
                ) is None,
            },
    {
        let ghost s = self.model(*shared);
        let mut best: Option<usize> = None;
        let mut i: usize = 0;
        while i < self.workers.len()
            invariant
                s == self.model(*shared),
                i <= self.workers@.len(),
                match best {
                    Some(at) => at < i && lowest_below(
                        s,
                        policy.reputation@,
                        include_seeds,
                        now,
                        i as int,
                    ) == Some(at as int),
                    None => lowest_below(
                        s,
                        policy.reputation@,
                        include_seeds,
                        now,
                        i as int,
                    ) is None,
                },
            decreases self.workers@.len() - i,
        {
            assert(s.workers[i as int] == self.workers@[i as int]@);
            if self.workers[i].idle && (include_seeds || !self.workers[i].seed) {
                best = match best {
                    None => Some(i),
                    Some(at) => if self.is_worth_less(policy, i, at, now, Ghost(*shared)) {
                        Some(i)
                    } else {
                        Some(at)
                    },
                };
            }
            i += 1;
        }
        best
    }

    /// Lets peers go until no more are left than the swarm may have.
    pub fn enforce_peer_limit(
        &mut self,
        shared: &mut DownloadBudget,
        policy: &UploadPolicy,
        now: u64,
        actions: &mut Vec<SwarmAction>,
    )
        requires
            old(self).wf(),
        ensures
            final(self).wf(),
            final(self).next_worker == old(self).next_worker,
            ({
                let effect = limit_enforced(
                    old(self).model(*old(shared)),
                    policy.reputation@,
                    now,
                );
                &&& final(self).model(*final(shared)) == effect.swarm
                &&& acts_view(final(actions)@) == acts_view(old(actions)@) + effect.acts
            }),
        decreases old(self).workers@.len(),
    {
        let ghost before = self.model(*shared);
        let ghost done = acts_view(actions@);
        if self.workers.len() <= self.peer_limit {
            assert(acts_view(actions@) =~= done + Seq::empty());
            return ;
        }
        match self.lowest_idle_worker(policy, true, now, &*shared) {
            None => {
                assert(acts_view(actions@) =~= done + Seq::empty());
            },
            Some(at) => {
                let worker: usize = self.workers[at].worker;
                assert(before.workers[at as int].worker == worker);
                proof {
                    lemma_removed_shrinks(before, at as int);
                }
                self.remove_worker(shared, worker, actions);
                let ghost said = acts_view(actions@);
                let ghost now_model = self.model(*shared);
                self.enforce_peer_limit(shared, policy, now, actions);
                proof {
                    let gone = removed(before, worker);
                    let rest = limit_enforced(now_model, policy.reputation@, now);
                    assert(acts_view(actions@) =~= done + (gone.acts + rest.acts));
                }
            },
        }
    }

    /// Lets the least productive peer make room, where somebody waits for it.
    pub fn retain_productive_peers(
        &mut self,
        shared: &mut DownloadBudget,
        policy: &UploadPolicy,
        now: u64,
        actions: &mut Vec<SwarmAction>,
    )
        requires
            old(self).wf(),
        ensures
            final(self).wf(),
            ({
                let effect = productive_retained(
                    old(self).model(*old(shared)),
                    policy.reputation@,
                    now,
                );
                &&& final(self).model(*final(shared)) == effect.swarm
                &&& acts_view(final(actions)@) == acts_view(old(actions)@) + effect.acts
            }),
    {
        let ghost before = self.model(*shared);
        let ghost done = acts_view(actions@);
        assert(done + Seq::<SwarmAct>::empty() =~= done);
        if self.candidates.len() == 0 || self.workers.len() < self.peer_limit {
            return ;
        }
        let seeds: usize = self.count_seeds();
        let at: usize = match self.lowest_idle_worker(policy, false, now, &*shared) {
            Some(at) => at,
            None => {
                return ;
            },
        };
        let handle = &self.workers[at];
        assert(before.workers[at as int] == handle@);
        let audition: bool = handle.choked || match handle.last_verified {
            Some(verified) => now.saturating_sub(verified) >= AUDITION_NANOS,
            None => true,
        };
        if seeds < PREFERRED_SEED_PEERS || audition {
            let worker: usize = handle.worker;
            self.remove_worker(shared, worker, actions);
        }
    }

    fn count_seeds(&self) -> (total: usize)
        ensures
            total == seeds_below(workers_view(self.workers@), self.workers@.len() as int),
    {
        let ghost workers = workers_view(self.workers@);
        let mut total: usize = 0;
        let mut i: usize = 0;
        while i < self.workers.len()
            invariant
                workers == workers_view(self.workers@),
                i <= self.workers@.len(),
                total <= i,
                total == seeds_below(workers, i as int),
            decreases self.workers@.len() - i,
        {
            assert(workers[i as int].seed == self.workers@[i as int].seed);
            if self.workers[i].seed {
                total += 1;
            }
            i += 1;
        }
        total
    }
}

/// Removing a peer of the swarm leaves one less.
pub proof fn lemma_removed_shrinks(s: SwarmModel, at: int)
    requires
        0 <= at < s.workers.len(),
    ensures
        removed(s, s.workers[at].worker).swarm.workers.len() == s.workers.len() - 1,
        removed(s, s.workers[at].worker).swarm.next_worker == s.next_worker,
{
    let worker = s.workers[at].worker;
    lemma_worker_at(s.workers, worker, 0);
    lemma_found(s.workers, at, 0);
    let found = worker_at(s.workers, worker, 0);
    lemma_all_returned(s, s.workers[found].assignments);
}

proof fn lemma_found(workers: Seq<PeerModel>, at: int, from: int)
    requires
        0 <= from <= at < workers.len(),
    ensures
        worker_at(workers, workers[at].worker, from) <= at,
    decreases at - from,
{
    if from < at && workers[from].worker != workers[at].worker {
        lemma_found(workers, at, from + 1);
    }
}

} // verus!
