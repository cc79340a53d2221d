//! What a swarm keeps true of its peers as they tell of pieces.

use crate::address::{PeerId, PeerKey};
use crate::bitfield::{has_bit, law_useless_peer, lemma_with_bit, useful_count, with_bit};
use crate::swarm::{distinct_workers, PeerModel, SwarmAct, SwarmModel};
use crate::swarm_events::{
    committed_one, gained, on_choke_state, on_have, on_need_pieces, ready_peer, spent_acts,
    Surroundings,
};
use crate::swarm_laws::lemma_stands_at;
use vstd::prelude::*;

verus! {

/// What is known of the use of a peer is right: it counts the pieces that the
/// peer has and that are missing here.
pub open spec fn use_is_right(peer: PeerModel, completed: Seq<u8>, pieces: int) -> bool {
    peer.bitfield is Some ==> peer.useful_pieces == useful_count(
        peer.bitfield->0,
        completed,
        pieces as nat,
    )
}

proof fn lemma_one_more(remote: Seq<u8>, local: Seq<u8>, piece: int, n: nat)
    requires
        0 <= piece < 8 * remote.len(),
        !has_bit(remote, piece),
    ensures
        useful_count(with_bit(remote, piece), local, n) == useful_count(remote, local, n) + if piece
            < n && !has_bit(local, piece) {
            1nat
        } else {
            0nat
        },
    decreases n,
{
    if n > 0 {
        lemma_one_more(remote, local, piece, (n - 1) as nat);
        lemma_with_bit(remote, piece, n - 1);
    }
}

proof fn lemma_one_less(remote: Seq<u8>, local: Seq<u8>, piece: int, n: nat)
    requires
        0 <= piece < 8 * local.len(),
        !has_bit(local, piece),
    ensures
        useful_count(remote, with_bit(local, piece), n) + (if piece < n && has_bit(remote, piece) {
            1nat
        } else {
            0nat
        }) == useful_count(remote, local, n),
    decreases n,
{
    if n > 0 {
        lemma_one_less(remote, local, piece, (n - 1) as nat);
        lemma_with_bit(local, piece, n - 1);
    }
}

/// A peer that has just told of its pieces is one that nothing was asked of yet,
/// a seed if it has every piece, and of as much use as it has pieces that are
/// missing here.
pub proof fn law_ready_peer_is_as_told(
    s: SwarmModel,
    peer: PeerModel,
    peer_id: PeerId,
    bitfield: Seq<u8>,
    around: Surroundings,
)
    requires
        s.piece_count >= 0,
    ensures
        ({
            let ready = ready_peer(s, peer, peer_id, bitfield, around);
            &&& use_is_right(ready, around.completed, s.piece_count)
            &&& ready.bitfield == Some(bitfield)
            &&& ready.seed <==> forall|i: int|
                0 <= i < s.piece_count ==> #[trigger] has_bit(bitfield, i)
            &&& ready.peer_key == Some(PeerKey { ip: peer.address.ip, peer_id })
            &&& ready.worker == peer.worker
            &&& ready.address == peer.address
            &&& ready.assignments == peer.assignments
            &&& ready.idle && !ready.choked
        }),
{
}

/// A peer that tells of a piece has it from then on and loses none; what is known
/// of its use stays right, of it and of everyone else.
pub proof fn law_told_piece_is_noted(
    s: SwarmModel,
    completed: Seq<u8>,
    at: int,
    index: u32,
)
    requires
        distinct_workers(s.workers),
        0 <= at < s.workers.len(),
        s.workers[at].bitfield is Some,
        index < s.piece_count <= 8 * s.workers[at].bitfield->0.len(),
        s.piece_count <= usize::MAX,
        forall|k: int|
            0 <= k < s.workers.len() ==> use_is_right(
                #[trigger] s.workers[k],
                completed,
                s.piece_count,
            ),
    ensures
        on_have(s, completed, s.workers[at].worker, index) is Ok,
        ({
            let after = on_have(s, completed, s.workers[at].worker, index)->Ok_0.swarm;
            &&& after.workers.len() == s.workers.len()
            &&& after.workers[at].bitfield is Some
            &&& forall|piece: int| #[trigger]
                has_bit(after.workers[at].bitfield->0, piece) <==> has_bit(
                    s.workers[at].bitfield->0,
                    piece,
                ) || piece == index
            &&& forall|k: int|
                0 <= k < s.workers.len() && k != at ==> #[trigger] after.workers[k] == s.workers[k]
            &&& forall|k: int|
                0 <= k < s.workers.len() ==> use_is_right(
                    #[trigger] after.workers[k],
                    completed,
                    s.piece_count,
                )
        }),
{
    lemma_stands_at(s.workers, 0, at);
    let peer = s.workers[at];
    let bits = peer.bitfield->0;
    let after = on_have(s, completed, peer.worker, index)->Ok_0.swarm;
    assert(use_is_right(peer, completed, s.piece_count));
    if !has_bit(bits, index as int) {
        lemma_one_more(bits, completed, index as int, s.piece_count as nat);
        law_useless_peer(bits, completed, s.piece_count as nat);
        law_useless_peer(
            with_bit(bits, index as int),
            completed,
            s.piece_count as nat,
        );
        assert(after.workers[at] == gained(completed, peer, index as int));
        assert forall|piece: int| #[trigger]
            has_bit(after.workers[at].bitfield->0, piece) <==> has_bit(bits, piece) || piece
            == index by {
            lemma_with_bit(bits, index as int, piece);
        }
    }
    assert forall|k: int| 0 <= k < s.workers.len() implies use_is_right(
        #[trigger] after.workers[k],
        completed,
        s.piece_count,
    ) by {
        if k != at {
            assert(use_is_right(s.workers[k], completed, s.piece_count));
        }
    }
}

/// A piece outside of the torrent is nobody's to tell of.
pub proof fn law_piece_outside_is_refused(
    s: SwarmModel,
    completed: Seq<u8>,
    worker: usize,
    index: u32,
)
    ensures
        index >= s.piece_count <==> on_have(s, completed, worker, index) is Err,
{
}

/// A piece that is on disk for good counts as complete, and no other does because
/// of it; what is known of the use of every peer stays right.
pub proof fn law_committed_piece_is_of_no_more_use(s: SwarmModel, piece: usize)
    requires
        piece < s.piece_count <= 8 * s.completed.len(),
        !has_bit(s.completed, piece as int),
        forall|k: int|
            0 <= k < s.workers.len() ==> use_is_right(
                #[trigger] s.workers[k],
                s.completed,
                s.piece_count,
            ),
    ensures
        ({
            let after = committed_one(s, piece).swarm;
            &&& has_bit(after.completed, piece as int)
            &&& forall|other: int|
                other != piece ==> #[trigger] has_bit(after.completed, other) == has_bit(
                    s.completed,
                    other,
                )
            &&& after.workers.len() == s.workers.len()
            &&& forall|k: int|
                0 <= k < s.workers.len() ==> use_is_right(
                    #[trigger] after.workers[k],
                    after.completed,
                    s.piece_count,
                )
            &&& forall|k: int|
                0 <= k < s.workers.len() ==> (#[trigger] after.workers[k]).bitfield
                    == s.workers[k].bitfield
        }),
{
    let after = committed_one(s, piece).swarm;
    lemma_with_bit(s.completed, piece as int, piece as int);
    assert forall|other: int| other != piece implies #[trigger] has_bit(after.completed, other)
        == has_bit(s.completed, other) by {
        lemma_with_bit(s.completed, piece as int, other);
    }
    assert forall|k: int| 0 <= k < s.workers.len() implies use_is_right(
        #[trigger] after.workers[k],
        after.completed,
        s.piece_count,
    ) by {
        let peer = s.workers[k];
        assert(use_is_right(peer, s.completed, s.piece_count));
        if peer.bitfield is Some {
            lemma_one_less(peer.bitfield->0, s.completed, piece as int, s.piece_count as nat);
        }
    }
}

/// Told that it has nothing of interest any more is exactly each peer for whom the
/// piece was the last of use.
pub proof fn law_peers_of_no_use_are_told(s: SwarmModel, piece: usize, act: SwarmAct)
    requires
        forall|k: int| 0 <= k < s.workers.len() ==> (#[trigger] s.workers[k]).useful_pieces >= 0,
    ensures
        committed_one(s, piece).acts.contains(act) <==> exists|k: int|
            0 <= k < s.workers.len() && {
                let peer = #[trigger] s.workers[k];
                &&& peer.bitfield is Some
                &&& has_bit(peer.bitfield->0, piece as int)
                &&& peer.useful_pieces <= 1
                &&& peer.peer_key is Some
                &&& act == SwarmAct::SetInteresting(peer.peer_key->0, false)
            },
{
    lemma_told_of_no_use(s.workers, piece as int, s.workers.len() as int, act);
}

proof fn lemma_told_of_no_use(workers: Seq<PeerModel>, piece: int, n: int, act: SwarmAct)
    requires
        0 <= n <= workers.len(),
        forall|k: int| 0 <= k < workers.len() ==> (#[trigger] workers[k]).useful_pieces >= 0,
    ensures
        spent_acts(workers, piece, n).contains(act) <==> exists|k: int|
            0 <= k < n && {
                let peer = #[trigger] workers[k];
                &&& peer.bitfield is Some
                &&& has_bit(peer.bitfield->0, piece)
                &&& peer.useful_pieces <= 1
                &&& peer.peer_key is Some
                &&& act == SwarmAct::SetInteresting(peer.peer_key->0, false)
            },
    decreases n,
{
    if n > 0 {
        lemma_told_of_no_use(workers, piece, n - 1, act);
        let before = spent_acts(workers, piece, n - 1);
        let all = spent_acts(workers, piece, n);
        let peer = workers[n - 1];
        assert(peer.useful_pieces >= 0);
        if all.contains(act) {
            let i = choose|i: int| 0 <= i < all.len() && all[i] == act;
            if i < before.len() {
                assert(before[i] == act);
                assert(before.contains(act));
            }
        }
        if before.contains(act) {
            let i = choose|i: int| 0 <= i < before.len() && before[i] == act;
            assert(all[i] == act);
        }
        if all.len() > before.len() && act == all.last() {
            assert(all[all.len() - 1] == act);
        }
    }
}

/// Whether a peer lets us have something is noted of that peer alone, and that it
/// does calls for a new look at what to ask of whom.
pub proof fn law_choke_is_noted(s: SwarmModel, at: int, choked: bool)
    requires
        distinct_workers(s.workers),
        0 <= at < s.workers.len(),
    ensures
        ({
            let after = on_choke_state(s, s.workers[at].worker, choked).swarm;
            &&& after.workers == s.workers.update(at, PeerModel { choked, ..s.workers[at] })
            &&& !choked ==> after.schedule_dirty
        }),
{
    lemma_stands_at(s.workers, 0, at);
}

/// A peer that runs out of work is given as much as it delivers in a second,
/// between two mebibytes and sixteen.
pub proof fn law_busy_peer_asks_for_a_second(s: SwarmModel, at: int, rate: u64)
    requires
        distinct_workers(s.workers),
        0 <= at < s.workers.len(),
    ensures
        ({
            let after = on_need_pieces(s, s.workers[at].worker, rate).swarm;
            let target = if rate < 2097152 {
                2097152int
            } else if rate > 16777216 {
                16777216int
            } else {
                rate as int
            };
            &&& after.workers == s.workers.update(
                at,
                PeerModel { wants_more: true, target_bytes: target, ..s.workers[at] },
            )
            &&& after.schedule_dirty
        }),
{
    lemma_stands_at(s.workers, 0, at);
}

} // verus!
