//! What each event means for the peers of a swarm, told peer by peer.

use crate::schedule::{
    eligible, law_order_is_complete_and_sorted, next_turn, ranked, served, takes_more, Pass,
};
use crate::swarm::{
    all_returned, assignment_at, corrupt_text, distinct_workers, duplicate_cancels, failure_acts,
    haves, lemma_worker_at, released, removed, returned, stored, verified, worker_at, PeerModel, PieceAssignment,
    SwarmAct, SwarmModel,
};
use vstd::prelude::*;

verus! {

/// A peer is found where it stands.
pub proof fn lemma_stands_at(workers: Seq<PeerModel>, from: int, at: int)
    requires
        distinct_workers(workers),
        0 <= from <= at < workers.len(),
    ensures
        worker_at(workers, workers[at].worker, from) == at,
    decreases at - from,
{
    if from < at {
        assert(workers[from].worker != workers[at].worker);
        lemma_stands_at(workers, from + 1, at);
    }
}

proof fn lemma_assignment_at(peer: PeerModel, piece: int, from: int)
    requires
        0 <= from <= peer.assignments.len(),
    ensures
        ({
            let slot = assignment_at(peer.assignments, piece, from);
            &&& from <= slot <= peer.assignments.len()
            &&& slot < peer.assignments.len() ==> peer.assignments[slot].piece == piece
            &&& forall|k: int|
                from <= k < slot ==> (#[trigger] peer.assignments[k]).piece != piece
        }),
    decreases peer.assignments.len() - from,
{
    if from < peer.assignments.len() && peer.assignments[from].piece != piece {
        lemma_assignment_at(peer, piece, from + 1);
    }
}

/// A peer works on a piece.
pub open spec fn works_on(peer: PeerModel, piece: int) -> bool {
    exists|k: int| 0 <= k < peer.assignments.len() && (#[trigger] peer.assignments[k]).piece == piece
}

proof fn lemma_works_on(peer: PeerModel, piece: int)
    ensures
        works_on(peer, piece) == (assignment_at(peer.assignments, piece, 0)
            < peer.assignments.len()),
{
    lemma_assignment_at(peer, piece, 0);
}

/// What is done about a peer that has to go: it is stopped, what it was working
/// on may be picked again, and what it has no longer counts.
proof fn lemma_removed_acts(s: SwarmModel, at: int)
    requires
        distinct_workers(s.workers),
        0 <= at < s.workers.len(),
    ensures
        ({
            let peer = s.workers[at];
            let gone = removed(s, peer.worker);
            &&& gone.swarm.workers == s.workers.remove(at)
            &&& gone.swarm.writing == s.writing
            &&& gone.acts.contains(SwarmAct::StopWorker(peer.worker))
            &&& forall|k: int|
                0 <= k < peer.assignments.len() ==> gone.acts.contains(
                    SwarmAct::MarkFailed((#[trigger] peer.assignments[k]).piece as int),
                )
            &&& peer.bitfield is Some ==> gone.acts.contains(
                SwarmAct::RemovePeer(peer.bitfield->0),
            )
            &&& forall|act: SwarmAct| #[trigger]
                gone.acts.contains(act) ==> {
                    ||| act == SwarmAct::StopWorker(peer.worker)
                    ||| peer.bitfield is Some && act == SwarmAct::RemovePeer(peer.bitfield->0)
                    ||| act is MarkFailed && works_on(peer, act->MarkFailed_0)
                }
        }),
{
    let peer = s.workers[at];
    lemma_stands_at(s.workers, 0, at);
    let freed = released(s, peer.worker);
    let gone = removed(s, peer.worker);
    assert(freed.swarm.workers.remove(at) =~= s.workers.remove(at)) by {
        lemma_returned_all(s, peer.assignments);
    }
    lemma_returned_all(s, peer.assignments);
    let n = peer.assignments.len() as int;
    assert(gone.acts[n] == SwarmAct::StopWorker(peer.worker));
    assert forall|k: int| 0 <= k < peer.assignments.len() implies gone.acts.contains(
        SwarmAct::MarkFailed((#[trigger] peer.assignments[k]).piece as int),
    ) by {
        assert(gone.acts[k] == SwarmAct::MarkFailed(peer.assignments[k].piece as int));
    }
    if peer.bitfield is Some {
        assert(gone.acts[n + 1] == SwarmAct::RemovePeer(peer.bitfield->0));
    }
    assert forall|act: SwarmAct| #[trigger] gone.acts.contains(act) implies {
        ||| act == SwarmAct::StopWorker(peer.worker)
        ||| peer.bitfield is Some && act == SwarmAct::RemovePeer(peer.bitfield->0)
        ||| act is MarkFailed && works_on(peer, act->MarkFailed_0)
    } by {
        let k = choose|k: int| 0 <= k < gone.acts.len() && gone.acts[k] == act;
        if k < n {
            assert(act == SwarmAct::MarkFailed(peer.assignments[k].piece as int));
        }
    }
}

proof fn lemma_returned_all(
    s: SwarmModel,
    assignments: Seq<PieceAssignment>,
)
    ensures
        all_returned(s, assignments).workers == s.workers,
        all_returned(s, assignments).writing == s.writing,
    decreases assignments.len(),
{
    if assignments.len() > 0 {
        lemma_returned_all(s, assignments.drop_last());
    }
}

/// A piece that fails its check costs the peer that sent it its place, and only
/// that peer: it is stopped and its failure recorded, the piece and all that it
/// was working on may be picked again, and nothing is claimed or completed.
pub proof fn law_corrupt_piece_costs_the_sender(s: SwarmModel, at: int, piece: int, size: int)
    requires
        distinct_workers(s.workers),
        0 <= at < s.workers.len(),
    ensures
        ({
            let peer = s.workers[at];
            let after = verified(s, peer.worker, piece, size, false);
            &&& after.swarm.workers == s.workers.remove(at)
            &&& after.swarm.writing == s.writing
            &&& after.swarm.last_error is Some
            &&& after.acts.contains(SwarmAct::MarkFailed(piece))
            &&& after.acts.contains(SwarmAct::StopWorker(peer.worker))
            &&& peer.peer_key is Some ==> after.acts.contains(
                SwarmAct::RecordFailure(peer.peer_key->0),
            )
            &&& peer.bitfield is Some ==> after.acts.contains(
                SwarmAct::RemovePeer(peer.bitfield->0),
            )
            &&& forall|k: int|
                0 <= k < peer.assignments.len() ==> after.acts.contains(
                    SwarmAct::MarkFailed((#[trigger] peer.assignments[k]).piece as int),
                )
            &&& forall|act: SwarmAct| #[trigger]
                after.acts.contains(act) ==> {
                    ||| act == SwarmAct::StopWorker(peer.worker)
                    ||| act == SwarmAct::MarkFailed(piece)
                    ||| peer.peer_key is Some && act == SwarmAct::RecordFailure(peer.peer_key->0)
                    ||| peer.bitfield is Some && act == SwarmAct::RemovePeer(peer.bitfield->0)
                    ||| act is MarkFailed && works_on(peer, act->MarkFailed_0)
                }
        }),
{
    let peer = s.workers[at];
    lemma_stands_at(s.workers, 0, at);
    let dirty = SwarmModel { schedule_dirty: true, ..s };
    let noted = SwarmModel {
        last_error: Some(corrupt_text(piece)),
        ..returned(dirty, size)
    };
    lemma_removed_acts(noted, at);
    let gone = removed(noted, peer.worker);
    let after = verified(s, peer.worker, piece, size, false);
    let head = failure_acts(s, peer.worker).push(SwarmAct::MarkFailed(piece));
    assert(after.acts == head + gone.acts);
    lemma_in_either(head, gone.acts);
    assert(head[head.len() - 1] == SwarmAct::MarkFailed(piece));
    if peer.peer_key is Some {
        assert(head[0] == SwarmAct::RecordFailure(peer.peer_key->0));
    }
    assert(gone.swarm.last_error == noted.last_error) by {
        lemma_error_stays(noted, peer.assignments);
    }
}

proof fn lemma_error_stays(
    s: SwarmModel,
    assignments: Seq<PieceAssignment>,
)
    ensures
        all_returned(s, assignments).last_error == s.last_error,
    decreases assignments.len(),
{
    if assignments.len() > 0 {
        lemma_error_stays(s, assignments.drop_last());
    }
}

proof fn lemma_in_either(a: Seq<SwarmAct>, b: Seq<SwarmAct>)
    ensures
        forall|act: SwarmAct| #[trigger]
            (a + b).contains(act) <==> a.contains(act) || b.contains(act),
{
    assert forall|act: SwarmAct| #[trigger] (a + b).contains(act) <==> a.contains(act)
        || b.contains(act) by {
        if (a + b).contains(act) {
            let k = choose|k: int| 0 <= k < (a + b).len() && (a + b)[k] == act;
            if k < a.len() {
                assert(a[k] == act);
            } else {
                assert(b[k - a.len()] == act);
            }
        }
        if a.contains(act) {
            let k = choose|k: int| 0 <= k < a.len() && a[k] == act;
            assert((a + b)[k] == act);
        }
        if b.contains(act) {
            let k = choose|k: int| 0 <= k < b.len() && b[k] == act;
            assert((a + b)[a.len() + k] == act);
        }
    }
}

proof fn lemma_cancels(workers: Seq<PeerModel>, piece: int, n: int)
    requires
        0 <= n <= workers.len(),
    ensures
        forall|act: SwarmAct| #[trigger]
            duplicate_cancels(workers, piece, n).contains(act) <==> exists|k: int|
                0 <= k < n && works_on(#[trigger] workers[k], piece) && act
                    == SwarmAct::SendCancel(workers[k].worker, piece),
    decreases n,
{
    if n > 0 {
        lemma_cancels(workers, piece, n - 1);
        lemma_works_on(workers[n - 1], piece);
        let before = duplicate_cancels(workers, piece, n - 1);
        let all = duplicate_cancels(workers, piece, n);
        assert forall|act: SwarmAct| #[trigger] all.contains(act) <==> exists|k: int|
            0 <= k < n && works_on(#[trigger] workers[k], piece) && act == SwarmAct::SendCancel(
                workers[k].worker,
                piece,
            ) by {
            if all.contains(act) {
                let k = choose|k: int| 0 <= k < all.len() && all[k] == act;
                if k < before.len() {
                    assert(before[k] == act);
                    assert(before.contains(act));
                    let j = choose|j: int|
                        0 <= j < n - 1 && works_on(#[trigger] workers[j], piece) && act
                            == SwarmAct::SendCancel(workers[j].worker, piece);
                    assert(works_on(workers[j], piece));
                } else {
                    assert(works_on(workers[n - 1], piece));
                }
            }
            if exists|k: int|
                0 <= k < n && works_on(#[trigger] workers[k], piece) && act
                    == SwarmAct::SendCancel(workers[k].worker, piece) {
                let j = choose|j: int|
                    0 <= j < n && works_on(#[trigger] workers[j], piece) && act
                        == SwarmAct::SendCancel(workers[j].worker, piece);
                if j < n - 1 {
                    assert(before.contains(act));
                    let k = choose|k: int| 0 <= k < before.len() && before[k] == act;
                    assert(all[k] == act);
                } else {
                    assert(all[all.len() - 1] == act);
                }
            }
        }
    } else {
        assert forall|act: SwarmAct| #[trigger]
            duplicate_cancels(workers, piece, n).contains(act) implies false by {}
    }
}

/// The first right copy of a piece is claimed for writing: the piece may not be
/// picked any more, and everyone who works on it, and nobody else, is told to
/// leave it.
pub proof fn law_right_piece_is_claimed(s: SwarmModel, worker: usize, piece: usize, size: int)
    requires
        !s.writing.contains(piece),
    ensures
        ({
            let after = verified(s, worker, piece as int, size, true);
            &&& after.swarm.writing == s.writing.push(piece)
            &&& after.swarm.workers == s.workers
            &&& after.swarm.held == s.held
            &&& after.swarm.used == s.used
            &&& forall|act: SwarmAct| #[trigger]
                after.acts.contains(act) <==> act == SwarmAct::Disable(piece as int) || exists|k: int|
                    0 <= k < s.workers.len() && works_on(#[trigger] s.workers[k], piece as int)
                        && act == SwarmAct::SendCancel(s.workers[k].worker, piece as int)
        }),
{
    let after = verified(s, worker, piece as int, size, true);
    let cancels = duplicate_cancels(s.workers, piece as int, s.workers.len() as int);
    let head = seq![SwarmAct::Disable(piece as int)];
    lemma_cancels(s.workers, piece as int, s.workers.len() as int);
    lemma_in_either(head, cancels);
    assert(head[0] == SwarmAct::Disable(piece as int));
    assert(after.acts == head + cancels);
}

/// A second right copy of a piece that is being written is let go of: its bytes
/// go back to the budget, and nothing else changes.
pub proof fn law_second_copy_is_let_go(s: SwarmModel, worker: usize, piece: usize, size: int)
    requires
        s.writing.contains(piece),
        0 <= size <= s.held <= s.used,
    ensures
        ({
            let after = verified(s, worker, piece as int, size, true);
            &&& after.swarm.writing == s.writing
            &&& after.swarm.workers == s.workers
            &&& after.swarm.held == s.held - size
            &&& after.swarm.used == s.used - size
            &&& after.acts == seq![SwarmAct::MarkFailed(piece as int)]
        }),
{
}

/// A piece that was stored is credited to the peer that sent it and to nobody
/// else, its bytes leave the budget, and every peer is told of it.
pub proof fn law_stored_piece_is_credited(
    s: SwarmModel,
    at: int,
    piece: u32,
    bytes: int,
    now: u64,
)
    requires
        distinct_workers(s.workers),
        0 <= at < s.workers.len(),
        0 <= bytes <= s.held <= s.used <= usize::MAX,
        0 <= s.workers[at].verified_bytes,
        s.workers[at].verified_bytes + bytes <= u64::MAX,
    ensures
        ({
            let peer = s.workers[at];
            let after = stored(s, peer.worker, piece as int, bytes, now);
            &&& after.swarm.workers.len() == s.workers.len()
            &&& after.swarm.workers[at] == (PeerModel {
                verified_bytes: peer.verified_bytes + bytes,
                last_verified: Some(now),
                ..peer
            })
            &&& forall|k: int|
                0 <= k < s.workers.len() && k != at ==> #[trigger] after.swarm.workers[k]
                    == s.workers[k]
            &&& after.swarm.held == s.held - bytes
            &&& after.swarm.used == s.used - bytes
            &&& after.swarm.writing == s.writing
            &&& forall|act: SwarmAct| #[trigger]
                after.acts.contains(act) <==> {
                    ||| act == SwarmAct::MarkComplete(piece as int)
                    ||| peer.peer_key is Some && act == SwarmAct::RecordVerified(
                        peer.peer_key->0,
                        bytes,
                    )
                    ||| exists|k: int|
                        0 <= k < s.workers.len() && act == SwarmAct::SendHave(
                            (#[trigger] s.workers[k]).worker,
                            piece,
                        )
                }
        }),
{
    let peer = s.workers[at];
    lemma_stands_at(s.workers, 0, at);
    let after = stored(s, peer.worker, piece as int, bytes, now);
    let head = seq![SwarmAct::MarkComplete(piece as int)];
    let middle = match peer.peer_key {
        Some(key) => seq![SwarmAct::RecordVerified(key, bytes)],
        None => Seq::empty(),
    };
    let told = haves(s.workers, piece);
    lemma_in_either(head + middle, told);
    lemma_in_either(head, middle);
    assert(after.acts == head + middle + told);
    assert(head[0] == SwarmAct::MarkComplete(piece as int));
    if peer.peer_key is Some {
        assert(middle[0] == SwarmAct::RecordVerified(peer.peer_key->0, bytes));
    }
    assert forall|act: SwarmAct| #[trigger] told.contains(act) <==> exists|k: int|
        0 <= k < s.workers.len() && act == SwarmAct::SendHave(
            (#[trigger] s.workers[k]).worker,
            piece,
        ) by {
        if told.contains(act) {
            let k = choose|k: int| 0 <= k < told.len() && told[k] == act;
            assert(act == SwarmAct::SendHave(s.workers[k].worker, piece));
        }
        if exists|k: int|
            0 <= k < s.workers.len() && act == SwarmAct::SendHave(
                (#[trigger] s.workers[k]).worker,
                piece,
            ) {
            let k = choose|k: int|
                0 <= k < s.workers.len() && act == SwarmAct::SendHave(
                    (#[trigger] s.workers[k]).worker,
                    piece,
                );
            assert(told[k] == act);
        }
    }
}

/// Pieces go to peers in this order: seeds first, then peers that have
/// delivered, then those that have delivered more, then those that came first.
pub proof fn law_best_peers_are_served_first(
    workers: Seq<PeerModel>,
    generation: u64,
    i: int,
    j: int,
)
    requires
        workers.len() <= usize::MAX,
        distinct_workers(workers),
        0 <= i < j < ranked(workers, generation, workers.len() as int).len(),
    ensures
        ({
            let order = ranked(workers, generation, workers.len() as int);
            let a = workers[order[i] as int];
            let b = workers[order[j] as int];
            &&& b.seed ==> a.seed
            &&& a.seed == b.seed && b.last_verified is Some ==> a.last_verified is Some
            &&& a.seed == b.seed && a.last_verified is Some == b.last_verified is Some
                ==> a.verified_bytes >= b.verified_bytes
            &&& a.seed == b.seed && a.last_verified is Some == b.last_verified is Some
                && a.verified_bytes == b.verified_bytes ==> a.worker < b.worker
        }),
{
    law_order_is_complete_and_sorted(workers, generation, workers.len() as int);
}

/// Served are exactly the peers that have something of use, let us have it, were
/// not tried in vain since anything changed, and ask for more or have less to do
/// than they should.
pub proof fn law_served_peers_are_those_with_use(workers: Seq<PeerModel>, generation: u64, i: int)
    requires
        workers.len() <= usize::MAX,
        distinct_workers(workers),
        0 <= i < workers.len(),
    ensures
        ranked(workers, generation, workers.len() as int).contains(i as usize) <==> {
            let peer = workers[i];
            &&& peer.bitfield is Some
            &&& !peer.choked
            &&& peer.useful_pieces > 0
            &&& !(peer.skip_generation is Some && peer.skip_generation->0 == generation)
            &&& peer.wants_more || peer.assigned_bytes < peer.target_bytes
        },
{
    law_order_is_complete_and_sorted(workers, generation, workers.len() as int);
    let order = ranked(workers, generation, workers.len() as int);
    if order.contains(i as usize) {
        let k = choose|k: int| 0 <= k < order.len() && order[k] == i as usize;
        assert(eligible(workers[order[k] as int], generation));
    }
}

/// A pass reserves room for one piece for the peer that it picks for, within the
/// limit unless the swarm holds nothing yet, and none where it picks for nobody.
pub proof fn law_turn_reserves_room(s: SwarmModel, pass: Pass)
    requires
        0 <= pass.max_piece,
        0 <= s.held,
        s.used + pass.max_piece <= u64::MAX,
        s.held + pass.max_piece <= u64::MAX,
    ensures
        next_turn(s, pass).swarm.limit == s.limit,
        next_turn(s, pass).swarm.workers.len() == s.workers.len(),
        next_turn(s, pass).worker is Some ==> next_turn(s, pass).swarm.used == s.used
            + pass.max_piece,
        next_turn(s, pass).worker is Some ==> next_turn(s, pass).swarm.held == s.held
            + pass.max_piece,
        next_turn(s, pass).worker is Some ==> s.held == 0 || next_turn(s, pass).swarm.used
            <= s.limit,
        next_turn(s, pass).worker is Some ==> exists|k: int|
            pass.at <= k < pass.order.len() && #[trigger] pass.order[k] == next_turn(
                s,
                pass,
            ).worker->0,
        next_turn(s, pass).worker is None ==> next_turn(s, pass).swarm.used == s.used
            && next_turn(s, pass).swarm.held == s.held,
    decreases pass.order.len() - pass.at,
{
    if 0 <= pass.at < pass.order.len() {
        let worker = pass.order[pass.at];
        assert(pass.order[pass.at] == worker);
        if !takes_more(s, worker, pass.granted) {
            let rest = Pass { at: pass.at + 1, granted: 0, ..pass };
            let later = served(s, worker, pass.granted);
            lemma_worker_at(s.workers, worker, 0);
            law_turn_reserves_room(later, rest);
            let turn = next_turn(later, rest);
            assert(next_turn(s, pass) == turn);
            if turn.worker is Some {
                let k = choose|k: int| rest.at <= k < rest.order.len() && #[trigger] rest.order[k]
                    == turn.worker->0;
                assert(pass.order[k] == turn.worker->0);
            }
        }
    }
}

} // verus!
