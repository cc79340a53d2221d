//! Whom a swarm connects to, and whom it lets go.

use crate::address::SocketAddress;
use crate::swarm::{KnownCandidate, PeerCandidate, PeerModel, SwarmAct, SwarmModel};
use crate::swarm_peers::{
    delivery_rate, dispensable, flag, is_connected, is_self, joined, known_at, known_reputation,
    law_lowest_is_let_go, lemma_known_at, lowest, may_connect, offered, packed, retention_score,
    seen, slots_filled, tried_lately, unique_known, worth_less, ScoreParts, SelfAddresses,
};
use crate::upload::{PeerReputation, ReputationEntry};
use vstd::prelude::*;

verus! {

/// The address is one of this daemon's own, at one of its own ports.
pub open spec fn is_own(own: SelfAddresses, address: SocketAddress) -> bool {
    &&& address.port == own.peer_port || address.port == own.advertised_port
    &&& exists|i: int| 0 <= i < own.addresses@.len() && #[trigger] own.addresses@[i] == address.ip
}

/// A candidate was seen within the last ten minutes.
pub open spec fn was_seen_lately(
    known: Seq<KnownCandidate>,
    candidate: PeerCandidate,
    now: u64,
) -> bool {
    exists|i: int|
        0 <= i < known.len() && (#[trigger] known[i]).candidate == candidate && now
            < known[i].seen + 600_000_000_000
}

proof fn lemma_tried_lately(known: Seq<KnownCandidate>, candidate: PeerCandidate, now: u64)
    requires
        unique_known(known),
    ensures
        tried_lately(known, candidate, now) == was_seen_lately(known, candidate, now),
{
    lemma_known_at(known, candidate, 0);
    let at = known_at(known, candidate, 0);
    if was_seen_lately(known, candidate, now) {
        let i = choose|i: int|
            0 <= i < known.len() && (#[trigger] known[i]).candidate == candidate && now
                < known[i].seen + 600_000_000_000;
        if at < i {
            assert(known[at].candidate != known[i].candidate);
        }
        assert(at == i);
    } else if at < known.len() {
        assert(known[at].candidate == candidate);
    }
}

/// A candidate that is offered is queued behind all others, unless it is this
/// daemon itself, was seen within ten minutes, or is connected. A full queue
/// loses its oldest entry, and all others keep their order.
pub proof fn law_offered_candidate_is_queued(
    s: SwarmModel,
    own: SelfAddresses,
    candidate: PeerCandidate,
    now: u64,
)
    requires
        unique_known(s.known),
    ensures
        ({
            let after = offered(s, own, candidate, now);
            let connected = exists|i: int|
                0 <= i < s.workers.len() && (#[trigger] s.workers[i]).address == candidate.address;
            &&& is_own(own, candidate.address) ==> after == s
            &&& was_seen_lately(s.known, candidate, now) ==> after == s
            &&& connected ==> after.candidates == s.candidates
            &&& !is_own(own, candidate.address) && !was_seen_lately(s.known, candidate, now) ==> {
                &&& now < u64::MAX - 600_000_000_000 ==> was_seen_lately(
                    after.known,
                    candidate,
                    now,
                )
                &&& !connected && s.candidates.len() < 4096 ==> after.candidates
                    == s.candidates.push(candidate)
                &&& !connected && s.candidates.len() >= 4096 ==> after.candidates
                    == s.candidates.drop_first().push(candidate)
            }
        }),
{
    lemma_tried_lately(s.known, candidate, now);
    if own.addresses@.contains(candidate.address.ip) {
        let i = choose|i: int|
            0 <= i < own.addresses@.len() && own.addresses@[i] == candidate.address.ip;
        assert(own.addresses@[i] == candidate.address.ip);
    }
    let after = offered(s, own, candidate, now);
    let kept = if is_connected(s.workers, candidate.address) {
        s.known
    } else if s.known.len() >= 8192 {
        Seq::empty()
    } else {
        s.known
    };
    lemma_known_at(kept, candidate, 0);
    if !is_self(own, candidate.address) && !tried_lately(s.known, candidate, now) {
        let at = known_at(kept, candidate, 0);
        assert(after.known == seen(kept, candidate, now));
        assert(after.known[at] == (KnownCandidate { candidate, seen: now }));
    }
}

/// Candidates are connected to in the order of the queue, each under the next
/// number, until nobody is left, the swarm is full, or as many connections are
/// being made as may be at a time.
pub proof fn law_candidates_are_connected_in_order(s: SwarmModel, now: u64)
    requires
        0 <= s.next_worker,
        s.next_worker + s.candidates.len() <= usize::MAX,
        0 <= s.connecting,
        s.connecting + s.candidates.len() <= usize::MAX,
    ensures
        ({
            let after = slots_filled(s, now);
            let n = after.acts.len();
            &&& n <= s.candidates.len()
            &&& forall|i: int|
                0 <= i < n ==> #[trigger] after.acts[i] == SwarmAct::Connect(
                    (s.next_worker + i) as usize,
                    s.candidates[i],
                )
            &&& after.swarm.candidates == s.candidates.skip(n as int)
            &&& after.swarm.workers.len() == s.workers.len() + n
            &&& forall|i: int|
                0 <= i < s.workers.len() ==> #[trigger] after.swarm.workers[i] == s.workers[i]
            &&& forall|i: int|
                0 <= i < n ==> (#[trigger] after.swarm.workers[s.workers.len() + i]).address
                    == s.candidates[i].address && after.swarm.workers[s.workers.len() + i].worker
                    == s.next_worker + i
            &&& after.swarm.next_worker == s.next_worker + n
            &&& after.swarm.connecting == s.connecting + n
            &&& n < s.candidates.len() ==> {
                ||| s.workers.len() + n >= s.peer_limit
                ||| s.connecting + n >= 128
                ||| s.connecting + n >= s.peer_limit
            }
        }),
    decreases s.candidates.len(),
{
    if may_connect(s) {
        let candidate = s.candidates[0];
        let next = joined(
            SwarmModel { candidates: s.candidates.drop_first(), ..s },
            candidate.address,
            now,
        );
        law_candidates_are_connected_in_order(next, now);
        let rest = slots_filled(next, now);
        let after = slots_filled(s, now);
        let n = after.acts.len() as int;
        assert(after.acts.len() == rest.acts.len() + 1);
        assert forall|i: int| 0 <= i < n implies #[trigger] after.acts[i] == SwarmAct::Connect(
            (s.next_worker + i) as usize,
            s.candidates[i],
        ) by {
            if i > 0 {
                assert(after.acts[i] == rest.acts[i - 1]);
            }
        }
        assert(after.swarm.candidates =~= s.candidates.skip(n));
        assert forall|i: int| 0 <= i < s.workers.len() implies #[trigger] after.swarm.workers[i]
            == s.workers[i] by {
            assert(rest.swarm.workers[i] == next.workers[i]);
        }
        assert forall|i: int| 0 <= i < n implies (#[trigger] after.swarm.workers[s.workers.len()
            + i]).address == s.candidates[i].address && after.swarm.workers[s.workers.len()
            + i].worker == s.next_worker + i by {
            if i == 0 {
                assert(rest.swarm.workers[s.workers.len() as int]
                    == next.workers[s.workers.len() as int]);
            } else {
                assert(rest.swarm.workers[next.workers.len() + (i - 1)].address
                    == next.candidates[i - 1].address);
            }
        }
    } else {
        assert(s.candidates.skip(0) =~= s.candidates);
    }
}

/// The parts of a score in their places, where none runs over into another.
proof fn lemma_packed_places(parts: ScoreParts)
    requires
        parts.contribution < 0x1_0000_0000,
        parts.useful < 0x1_0000,
        parts.failures == 0,
    ensures
        packed(parts) == flag(parts.seed) * 0x100_0000_0000_0000_0000_0000_0000_0000 + flag(
            parts.recent,
        ) * 0x1_0000_0000_0000_0000_0000_0000_0000 + parts.rate * 0x1_0000_0000_0000
            + parts.contribution * 0x1_0000 + parts.useful,
{
    let s = flag(parts.seed);
    let r = flag(parts.recent);
    let rate = parts.rate as u128;
    let c = parts.contribution as u128;
    let u = parts.useful as u128;
    let f = parts.failures as u128;
    assert((s << 120u128) | (r << 112u128) | (rate << 48u128) | (c << 16u128) | u == s
        * 0x100_0000_0000_0000_0000_0000_0000_0000u128 + r
        * 0x1_0000_0000_0000_0000_0000_0000_0000u128 + rate * 0x1_0000_0000_0000u128 + c
        * 0x1_0000u128 + u) by (bit_vector)
        requires
            s <= 1,
            r <= 1,
            rate <= 0xffff_ffff_ffff_ffffu128,
            c < 0x1_0000_0000u128,
            u < 0x1_0000u128,
    ;
    assert(f << 40u128 == 0) by (bit_vector)
        requires
            f == 0,
    ;
}

/// Whatever else is known of two peers, a seed is worth more than a peer that is
/// none.
pub proof fn law_seeds_are_worth_most(seed: ScoreParts, other: ScoreParts)
    requires
        seed.seed,
        !other.seed,
    ensures
        packed(seed) > packed(other),
{
    let (r, rate, c, u, f) = (
        flag(seed.recent),
        seed.rate as u128,
        seed.contribution as u128,
        seed.useful as u128,
        seed.failures as u128,
    );
    assert((1u128 << 120u128) | (r << 112u128) | (rate << 48u128) | (c << 16u128) | u
        >= 0x100_0000_0000_0000_0000_0000_0000_0000u128) by (bit_vector);
    assert(f << 40u128 <= 0x100_0000_0000_0000_0000u128) by (bit_vector)
        requires
            f <= 0xffff_ffffu128,
    ;
    let (r, rate, c, u, f) = (
        flag(other.recent),
        other.rate as u128,
        other.contribution as u128,
        other.useful as u128,
        other.failures as u128,
    );
    assert((0u128 << 120u128) | (r << 112u128) | (rate << 48u128) | (c << 16u128) | u
        < 0x2_0000_0000_0000_0000_0000_0000_0000u128) by (bit_vector)
        requires
            r <= 1,
            rate <= 0xffff_ffff_ffff_ffffu128,
            c <= 0xffff_ffff_ffff_ffffu128,
            u <= 0xffff_ffff_ffff_ffffu128,
    ;
    assert(f << 40u128 >= 0);
}

/// Of two peers that both are seeds or both are none, and without failures, the
/// one that delivered lately is worth more; then the one that delivers faster;
/// then the one that gave more than it took; then the one with more pieces of
/// use. Contributions are taken to be under four gibibytes, and useful pieces
/// under 65536, as beyond them one part of the score runs over into another.
pub proof fn law_score_puts_first_things_first(a: ScoreParts, b: ScoreParts)
    requires
        a.seed == b.seed,
        a.failures == 0,
        b.failures == 0,
        a.contribution < 0x1_0000_0000,
        b.contribution < 0x1_0000_0000,
        a.useful < 0x1_0000,
        b.useful < 0x1_0000,
    ensures
        a.recent && !b.recent ==> packed(a) > packed(b),
        a.recent == b.recent && a.rate > b.rate ==> packed(a) > packed(b),
        a.recent == b.recent && a.rate == b.rate && a.contribution > b.contribution ==> packed(a)
            > packed(b),
        a.recent == b.recent && a.rate == b.rate && a.contribution == b.contribution && a.useful
            > b.useful ==> packed(a) > packed(b),
{
    lemma_packed_places(a);
    lemma_packed_places(b);
}

/// Each failure lowers the score by as much, down to nothing.
pub proof fn law_failures_lower_the_score(parts: ScoreParts, failures: u32)
    requires
        parts.failures == 0,
    ensures
        ({
            let lowered = packed(parts) - failures * 0x100_0000_0000;
            packed(ScoreParts { failures, ..parts }) == if lowered >= 0 {
                lowered
            } else {
                0
            }
        }),
{
    let f = failures as u128;
    let none = parts.failures as u128;
    assert(f << 40u128 == f * 0x100_0000_0000u128) by (bit_vector)
        requires
            f <= 0xffff_ffffu128,
    ;
    assert(none << 40u128 == 0) by (bit_vector)
        requires
            none == 0,
    ;
}

/// The rate of a peer is what it delivered for each second since it connected.
pub proof fn law_delivery_is_counted_by_the_second(peer: PeerModel, now: u64)
    requires
        peer.connected_at + 1_000_000 <= now,
        0 <= peer.verified_bytes <= 0x40_0000_0000_0000,
    ensures
        ({
            let millis = (now - peer.connected_at) / 1_000_000;
            let rate = delivery_rate(peer, now);
            rate * millis <= 1000 * peer.verified_bytes < (rate + 1) * millis
        }),
{
    let millis = (now - peer.connected_at) / 1_000_000;
    let total = 1000 * peer.verified_bytes;
    assert(millis >= 1);
    let rate = total / millis;
    assert(rate * millis <= total < (rate + 1) * millis) by (nonlinear_arith)
        requires
            millis >= 1,
            rate == total / millis,
    ;
}

/// What a score is made of: whether the peer is a seed, whether it delivered
/// within half a minute, how fast it delivers, what it gave beyond half of what
/// it took, how much of use it has, and its failures.
pub proof fn law_score_is_made_of_what_is_known(
    peer: PeerModel,
    known: PeerReputation,
    now: u64,
    rate: u64,
    surplus: u64,
    useful: usize,
)
    requires
        rate == delivery_rate(peer, now),
        useful == peer.useful_pieces,
        known.verified_from >= known.uploaded_to / 2,
        surplus == known.verified_from - known.uploaded_to / 2,
    ensures
        retention_score(peer, Some(known), now) == packed(
            ScoreParts {
                seed: peer.seed,
                recent: peer.last_verified is Some && now < peer.last_verified->0 + 30_000_000_000,
                rate,
                contribution: surplus,
                useful,
                failures: known.failures,
            },
        ),
        retention_score(peer, None, now) == packed(
            ScoreParts {
                seed: peer.seed,
                recent: peer.last_verified is Some && now < peer.last_verified->0 + 30_000_000_000,
                rate,
                contribution: 0,
                useful,
                failures: 0,
            },
        ),
{
}

/// Let go is a peer that has nothing to do, a seed only where seeds may go too,
/// and one that lets us have something only where everyone else who may go does.
/// Of those, it is one of the lowest score.
pub proof fn law_least_worthy_is_let_go(
    s: SwarmModel,
    entries: Seq<ReputationEntry>,
    include_seeds: bool,
    now: u64,
    k: int,
)
    requires
        0 <= k < s.workers.len(),
        s.workers[k].idle,
        include_seeds || !s.workers[k].seed,
    ensures
        lowest(s, entries, include_seeds, now) is Some,
        ({
            let at = lowest(s, entries, include_seeds, now)->0;
            let gone = s.workers[at];
            let other = s.workers[k];
            &&& 0 <= at < s.workers.len()
            &&& gone.idle
            &&& gone.seed ==> include_seeds
            &&& other.choked ==> gone.choked
            &&& gone.choked == other.choked ==> retention_score(
                gone,
                known_reputation(entries, s, gone),
                now,
            ) <= retention_score(other, known_reputation(entries, s, other), now)
        }),
{
    law_lowest_is_let_go(s, entries, include_seeds, now);
    assert(dispensable(s.workers[k], include_seeds));
    let at = lowest(s, entries, include_seeds, now)->0;
    assert(!worth_less(s, entries, s.workers[k], s.workers[at], now));
}

} // verus!
