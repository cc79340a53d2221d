//! Handing pieces to workers: whose turn it is, how much each may hold, and
//! what follows when nothing can be picked or a worker cannot take a piece.

use crate::budget::DownloadBudget;
use crate::error::{ActorError, Fault};
use crate::layout::{piece_length, piece_size};
use crate::metainfo::{MetaModel, Metainfo};
use crate::num::{max_of, min_of};
use crate::swarm::{
    acts_view, all_returned, assignment_at, distinct_workers, find_assignment, lemma_all_returned,
    lemma_distinct_update, lemma_worker_at, released, removed, returned, taken, unassigned,
    with_worker, worker_at, workers_view, Effect, PeerModel, PeerWorkerHandle, PieceAssignment,
    SwarmAct, SwarmAction, SwarmModel, SwarmState,
};
use vstd::prelude::*;

verus! {

/// One pass over the workers that may be given pieces.
#[derive(Debug)]
pub struct Schedule {
    pub order: Vec<usize>,
    pub at: usize,
    pub granted: usize,
    pub scheduled: usize,
    /// The length of the longest piece, which is reserved before one is picked.
    pub max_piece: usize,
    pub generation: u64,
}

/// One pass over the workers, by its values.
pub struct Pass {
    pub order: Seq<usize>,
    pub at: int,
    pub granted: int,
    pub scheduled: int,
    pub max_piece: int,
    pub generation: u64,
}

impl Schedule {
    pub open spec fn view(&self) -> Pass {
        Pass {
            order: self.order@,
            at: self.at as int,
            granted: self.granted as int,
            scheduled: self.scheduled as int,
            max_piece: self.max_piece as int,
            generation: self.generation,
        }
    }
}

/// Whether a peer may be given pieces.
pub open spec fn eligible(peer: PeerModel, generation: u64) -> bool {
    &&& peer.bitfield is Some
    &&& !peer.choked
    &&& peer.useful_pieces > 0
    &&& peer.skip_generation != Some(generation)
    &&& peer.wants_more || peer.assigned_bytes < peer.target_bytes
}

/// Whether a peer comes before another: seeds first, then those that have
/// delivered, then by how much, and among equals by number.
pub open spec fn comes_first(a: PeerModel, b: PeerModel) -> bool {
    if a.seed != b.seed {
        a.seed
    } else if a.last_verified is Some != b.last_verified is Some {
        a.last_verified is Some
    } else if a.verified_bytes != b.verified_bytes {
        a.verified_bytes > b.verified_bytes
    } else {
        a.worker < b.worker
    }
}

/// The first place at or after `from` whose peer a peer comes before, or the length.
pub open spec fn place_for(
    workers: Seq<PeerModel>,
    ranked: Seq<usize>,
    peer: PeerModel,
    from: int,
) -> int
    decreases ranked.len() - from,
{
    if from < 0 || from >= ranked.len() || comes_first(peer, workers[ranked[from] as int]) {
        from
    } else {
        place_for(workers, ranked, peer, from + 1)
    }
}

/// The positions of the eligible peers among the first `n`, in the order in
/// which they are served.
pub open spec fn ranked(workers: Seq<PeerModel>, generation: u64, n: int) -> Seq<usize>
    decreases n,
{
    if n <= 0 {
        Seq::empty()
    } else {
        let before = ranked(workers, generation, n - 1);
        if eligible(workers[n - 1], generation) {
            before.insert(place_for(workers, before, workers[n - 1], 0), (n - 1) as usize)
        } else {
            before
        }
    }
}

/// The numbers of peers at positions.
pub open spec fn numbers(workers: Seq<PeerModel>, positions: Seq<usize>) -> Seq<usize> {
    Seq::new(positions.len(), |i: int| workers[positions[i] as int].worker)
}

proof fn lemma_place_for(
    workers: Seq<PeerModel>,
    ranked: Seq<usize>,
    peer: PeerModel,
    from: int,
)
    requires
        0 <= from <= ranked.len(),
    ensures
        from <= place_for(workers, ranked, peer, from) <= ranked.len(),
        forall|k: int|
            from <= k < place_for(workers, ranked, peer, from) ==> !comes_first(
                peer,
                workers[#[trigger] ranked[k] as int],
            ),
        place_for(workers, ranked, peer, from) < ranked.len() ==> comes_first(
            peer,
            workers[ranked[place_for(workers, ranked, peer, from)] as int],
        ),
    decreases ranked.len() - from,
{
    if from < ranked.len() && !comes_first(peer, workers[ranked[from] as int]) {
        lemma_place_for(workers, ranked, peer, from + 1);
    }
}

proof fn lemma_first_transitive(a: PeerModel, b: PeerModel, c: PeerModel)
    requires
        comes_first(a, b),
        comes_first(b, c),
    ensures
        comes_first(a, c),
{
}

/// The order serves exactly the eligible peers, each once, and never one
/// before another that comes first.
pub proof fn law_order_is_complete_and_sorted(
    workers: Seq<PeerModel>,
    generation: u64,
    n: int,
)
    requires
        0 <= n <= workers.len() <= usize::MAX,
        distinct_workers(workers),
    ensures
        ({
            let order = ranked(workers, generation, n);
            &&& forall|k: int|
                0 <= k < order.len() ==> (#[trigger] order[k]) < n && eligible(
                    workers[order[k] as int],
                    generation,
                )
            &&& forall|i: int|
                0 <= i < n && eligible(#[trigger] workers[i], generation) ==> order.contains(
                    i as usize,
                )
            &&& forall|j: int, k: int|
                0 <= j < k < order.len() ==> comes_first(
                    workers[#[trigger] order[j] as int],
                    workers[#[trigger] order[k] as int],
                )
        }),
    decreases n,
{
    if n > 0 {
        law_order_is_complete_and_sorted(workers, generation, n - 1);
        let before = ranked(workers, generation, n - 1);
        let after = ranked(workers, generation, n);
        let peer = workers[n - 1];
        if eligible(peer, generation) {
            let place = place_for(workers, before, peer, 0);
            lemma_place_for(workers, before, peer, 0);
            assert forall|i: int|
                0 <= i < n && eligible(
                    #[trigger] workers[i],
                    generation,
                ) implies after.contains(i as usize) by {
                if i < n - 1 {
                    assert(before.contains(i as usize));
                    let k = choose|k: int| 0 <= k < before.len() && before[k] == i as usize;
                    let to = if k < place { k } else { k + 1 };
                    assert(after[to] == before[k]);
                } else {
                    assert(after[place] == (n - 1) as usize);
                }
            }
            assert forall|k: int| 0 <= k < after.len() implies (#[trigger] after[k]) < n
                && eligible(workers[after[k] as int], generation) by {
                if k < place {
                    assert(after[k] == before[k]);
                } else if k > place {
                    assert(after[k] == before[k - 1]);
                }
            }
            assert forall|j: int, k: int| 0 <= j < k < after.len() implies comes_first(
                workers[#[trigger] after[j] as int],
                workers[#[trigger] after[k] as int],
            ) by {
                let a = if j < place { j } else { j - 1 };
                let b = if k < place { k } else { k - 1 };
                if j != place && k != place {
                    assert(after[j] == before[a]);
                    assert(after[k] == before[b]);
                } else if k == place {
                    assert(after[j] == before[j]);
                    let other = workers[before[j] as int];
                    assert(other.worker != peer.worker) by {
                        assert(before[j] < n - 1);
                        assert(workers[before[j] as int].worker != workers[n - 1].worker);
                    }
                    assert(!comes_first(peer, other));
                } else {
                    assert(after[k] == before[b]);
                    if b > place {
                        lemma_first_transitive(
                            peer,
                            workers[before[place] as int],
                            workers[before[b] as int],
                        );
                    }
                }
            }
        } else {
            assert forall|i: int|
                0 <= i < n && eligible(
                    #[trigger] workers[i],
                    generation,
                ) implies after.contains(i as usize) by {
                assert(before.contains(i as usize));
            }
        }
    }
}

/// Whether a peer should be given another piece: one in any case where it
/// asked for more, and as many as keep it below its target.
pub open spec fn needs(peer: PeerModel, granted: int) -> bool {
    (peer.wants_more && granted == 0) || peer.assigned_bytes < peer.target_bytes
}

/// Whether a piece should be picked for a worker.
pub open spec fn takes_more(s: SwarmModel, worker: usize, granted: int) -> bool {
    let at = worker_at(s.workers, worker, 0);
    at < s.workers.len() && needs(s.workers[at], granted) && s.workers[at].bitfield is Some
}

/// The swarm once a worker has been served.
pub open spec fn served(s: SwarmModel, worker: usize, granted: int) -> SwarmModel {
    let at = worker_at(s.workers, worker, 0);
    if granted > 0 && at < s.workers.len() {
        with_worker(s, at, PeerModel { wants_more: false, ..s.workers[at] })
    } else {
        s
    }
}

/// Whether the budget has room for a piece.
pub open spec fn has_room(s: SwarmModel, bytes: int) -> bool {
    s.held == 0 || s.used + bytes <= s.limit
}

/// The swarm once room for a piece has been reserved.
pub open spec fn reserved(s: SwarmModel, bytes: int) -> SwarmModel {
    SwarmModel {
        held: min_of(s.held + bytes, u64::MAX as int),
        used: if s.used + bytes > u64::MAX {
            s.used + bytes - 0x1_0000_0000_0000_0000
        } else {
            s.used + bytes
        },
        ..s
    }
}

/// A step of a pass.
pub struct Turn {
    pub swarm: SwarmModel,
    pub pass: Pass,
    /// The worker for which a piece is to be picked, until the pass is over.
    pub worker: Option<usize>,
}

/// The next worker to be picked for. A pass ends early where the budget has
/// no room for another piece.
pub open spec fn next_turn(s: SwarmModel, pass: Pass) -> Turn
    decreases pass.order.len() - pass.at,
{
    if pass.at < 0 || pass.at >= pass.order.len() {
        Turn { swarm: s, pass, worker: None }
    } else {
        let worker = pass.order[pass.at];
        if takes_more(s, worker, pass.granted) {
            if has_room(s, pass.max_piece) {
                Turn { swarm: reserved(s, pass.max_piece), pass, worker: Some(worker) }
            } else {
                Turn {
                    swarm: s,
                    pass: Pass { at: pass.order.len() as int, granted: 0, ..pass },
                    worker: None,
                }
            }
        } else {
            next_turn(
                served(s, worker, pass.granted),
                Pass { at: pass.at + 1, granted: 0, ..pass },
            )
        }
    }
}

/// The swarm once nothing could be picked for a worker.
pub open spec fn nothing_picked(s: SwarmModel, pass: Pass, worker: usize) -> SwarmModel {
    let back = returned(s, pass.max_piece);
    let at = worker_at(s.workers, worker, 0);
    let skipped = if at < s.workers.len() {
        with_worker(
            back,
            at,
            PeerModel { skip_generation: Some(pass.generation), ..s.workers[at] },
        )
    } else {
        back
    };
    served(skipped, worker, pass.granted)
}

/// The swarm once a worker has taken a piece.
pub open spec fn assigned(
    s: SwarmModel,
    worker: usize,
    piece: usize,
    length: usize,
) -> SwarmModel {
    let at = worker_at(s.workers, worker, 0);
    if at < s.workers.len() {
        let peer = s.workers[at];
        with_worker(
            s,
            at,
            PeerModel {
                assignments: peer.assignments.push(PieceAssignment { piece, length }),
                assigned_bytes: min_of(peer.assigned_bytes + length, usize::MAX as int),
                idle: false,
                ..peer
            },
        )
    } else {
        s
    }
}

/// The swarm once a worker could not be handed a piece: the piece goes back,
/// and the worker leaves.
pub open spec fn refused(s: SwarmModel, worker: usize, piece: int, length: int) -> Effect {
    let gone = removed(returned(s, length), worker);
    Effect { swarm: gone.swarm, acts: seq![SwarmAct::MarkFailed(piece)] + gone.acts }
}

fn is_eligible(handle: &PeerWorkerHandle, generation: u64) -> (result: bool)
    ensures
        result == eligible(handle@, generation),
{
    let skipped: bool = match handle.skip_generation {
        Some(skipped) => skipped == generation,
        None => false,
    };
    handle.bitfield.is_some() && !handle.choked && handle.useful_pieces > 0 && !skipped && (
    handle.wants_more || handle.assigned_bytes < handle.target_bytes)
}

fn is_first(a: &PeerWorkerHandle, b: &PeerWorkerHandle) -> (result: bool)
    ensures
        result == comes_first(a@, b@),
{
    if a.seed != b.seed {
        a.seed
    } else if a.last_verified.is_some() != b.last_verified.is_some() {
        a.last_verified.is_some()
    } else if a.verified_bytes != b.verified_bytes {
        a.verified_bytes > b.verified_bytes
    } else {
        a.worker < b.worker
    }
}

impl SwarmState {
    /// Whether a worker was assigned a piece.
    pub fn is_assigned(&self, worker: usize, piece: usize) -> (result: bool)
        ensures
            ({
                let workers = workers_view(self.workers@);
                let at = worker_at(workers, worker, 0);
                result == (at < workers.len() && assignment_at(
                    workers[at].assignments,
                    piece as int,
                    0,
                ) < workers[at].assignments.len())
            }),
    {
        match self.find_worker(worker) {
            Some(at) => {
                assert(workers_view(self.workers@)[at as int] == self.workers@[at as int]@);
                find_assignment(&self.workers[at].assignments, piece).is_some()
            },
            None => false,
        }
    }

    /// The workers that may be given pieces, in the order in which they are served.
    pub fn serving_order(&self, generation: u64) -> (order: Vec<usize>)
        ensures
            ({
                let workers = workers_view(self.workers@);
                order@ == numbers(
                    workers,
                    ranked(workers, generation, workers.len() as int),
                )
            }),
    {
        let ghost workers = workers_view(self.workers@);
        let mut positions: Vec<usize> = Vec::new();
        let mut i: usize = 0;
        while i < self.workers.len()
            invariant
                workers == workers_view(self.workers@),
                i <= self.workers@.len(),
                positions@ == ranked(workers, generation, i as int),
                forall|k: int| 0 <= k < positions@.len() ==> (#[trigger] positions@[k]) < i,
            decreases self.workers@.len() - i,
        {
            assert(workers[i as int] == self.workers@[i as int]@);
            if is_eligible(&self.workers[i], generation) {
                let mut place: usize = 0;
                while place < positions.len() && !is_first(
                    &self.workers[i],
                    &self.workers[positions[place]],
                )
                    invariant
                        workers == workers_view(self.workers@),
                        i < self.workers@.len(),
                        workers[i as int] == self.workers@[i as int]@,
                        place <= positions@.len(),
                        forall|k: int|
                            0 <= k < positions@.len() ==> (#[trigger] positions@[k]) < i,
                        place_for(workers, positions@, workers[i as int], 0) == place_for(
                            workers,
                            positions@,
                            workers[i as int],
                            place as int,
                        ),
                    decreases positions@.len() - place,
                {
                    assert(workers[positions@[place as int] as int]
                        == self.workers@[positions@[place as int] as int]@);
                    place += 1;
                }
                proof {
                    if place < positions@.len() {
                        assert(workers[positions@[place as int] as int]
                            == self.workers@[positions@[place as int] as int]@);
                    }
                }
                let ghost before = positions@;
                positions.insert(place, i);
                assert forall|k: int| 0 <= k < positions@.len() implies (
                #[trigger] positions@[k]) < i + 1 by {
                    if k < place {
                        assert(positions@[k] == before[k]);
                    } else if k > place {
                        assert(positions@[k] == before[k - 1]);
                    }
                }
            }
            i += 1;
        }
        let mut order: Vec<usize> = Vec::new();
        let mut k: usize = 0;
        while k < positions.len()
            invariant
                workers == workers_view(self.workers@),
                k <= positions@.len(),
                order@.len() == k,
                forall|j: int| 0 <= j < positions@.len() ==> (#[trigger] positions@[j])
                    < self.workers@.len(),
                forall|j: int|
                    0 <= j < k ==> #[trigger] order@[j] == workers[positions@[j] as int].worker,
            decreases positions@.len() - k,
        {
            assert(workers[positions@[k as int] as int]
                == self.workers@[positions@[k as int] as int]@);
            order.push(self.workers[positions[k]].worker);
            k += 1;
        }
        assert(order@ =~= numbers(
            workers,
            ranked(workers, generation, workers.len() as int),
        ));
        order
    }

    /// Begins a pass, unless nobody may be given a piece.
    pub fn begin_schedule(&self, generation: u64, metainfo: &Metainfo) -> (result: Result<
        Option<Schedule>,
        ActorError,
    >)
        requires
            metainfo.wf(),
        ensures
            ({
                let workers = workers_view(self.workers@);
                let order = numbers(workers, ranked(workers, generation, workers.len() as int));
                match result {
                    Ok(None) => order.len() == 0,
                    Ok(Some(schedule)) => order.len() > 0 && piece_size(metainfo@, 0) == Ok::<
                        int,
                        Fault,
                    >(schedule@.max_piece) && schedule@ == (Pass {
                        order,
                        at: 0,
                        granted: 0,
                        scheduled: 0,
                        max_piece: schedule@.max_piece,
                        generation,
                    }),
                    Err(error) => order.len() > 0 && piece_size(metainfo@, 0) == Err::<
                        int,
                        Fault,
                    >(error@),
                }
            }),
    {
        let order = self.serving_order(generation);
        if order.len() == 0 {
            return Ok(None);
        }
        match piece_length(metainfo, 0) {
            Ok(max_piece) => Ok(
                Some(
                    Schedule { order, at: 0, granted: 0, scheduled: 0, max_piece, generation },
                ),
            ),
            Err(error) => Err(error),
        }
    }

    fn takes_another(&self, worker: usize, granted: usize, Ghost(shared): Ghost<
        DownloadBudget,
    >) -> (result: bool)
        ensures
            result == takes_more(self.model(shared), worker, granted as int),
    {
        match self.find_worker(worker) {
            Some(at) => {
                assert(workers_view(self.workers@)[at as int] == self.workers@[at as int]@);
                let handle = &self.workers[at];
                ((handle.wants_more && granted == 0) || handle.assigned_bytes
                    < handle.target_bytes) && handle.bitfield.is_some()
            },
            None => false,
        }
    }

    fn finish_serving(&mut self, worker: usize, granted: usize, Ghost(shared): Ghost<
        DownloadBudget,
    >)
        requires
            old(self).wf(),
        ensures
            final(self).wf(),
            final(self).model(shared) == served(
                old(self).model(shared),
                worker,
                granted as int,
            ),
    {
        let ghost before = self.model(shared);
        if granted > 0 {
            if let Some(at) = self.find_worker(worker) {
                assert(before.workers[at as int] == self.workers@[at as int]@);
                self.workers[at].wants_more = false;
                proof {
                    let next = PeerModel { wants_more: false, ..before.workers[at as int] };
                    assert(workers_view(self.workers@) =~= before.workers.update(
                        at as int,
                        next,
                    ));
                    lemma_distinct_update(before.workers, at as int, next);
                }
            }
        }
    }
}

impl Schedule {
    pub open spec fn wf(&self) -> bool {
        self.at <= self.order@.len()
    }

    /// The next worker to pick a piece for, for which room has been reserved.
    pub fn next(&mut self, swarm: &mut SwarmState, shared: &mut DownloadBudget) -> (result: Option<
        usize,
    >)
        requires
            old(self).wf(),
            old(swarm).wf(),
        ensures
            final(self).wf(),
            final(swarm).wf(),
            ({
                let turn = next_turn(old(swarm).model(*old(shared)), old(self)@);
                &&& final(swarm).model(*final(shared)) == turn.swarm
                &&& final(self)@ == turn.pass
                &&& result == turn.worker
                &&& result is Some ==> final(self)@.at < final(self)@.order.len()
                    && final(self)@.order[final(self)@.at] == result->0
            }),
    {
        let ghost start = next_turn(swarm.model(*shared), self@);
        while self.at < self.order.len()
            invariant
                self.wf(),
                swarm.wf(),
                start == next_turn(old(swarm).model(*old(shared)), old(self)@),
                start == next_turn(swarm.model(*shared), self@),
            decreases self.order@.len() - self.at,
        {
            let worker: usize = self.order[self.at];
            if swarm.takes_another(worker, self.granted, Ghost(*shared)) {
                let ghost before = swarm.model(*shared);
                if swarm.budget.reserve(shared, self.max_piece) {
                    assert(swarm.model(*shared) == reserved(before, self@.max_piece));
                    return Some(worker);
                }
                assert(swarm.model(*shared) == before);
                self.at = self.order.len();
                self.granted = 0;
                return None;
            }
            swarm.finish_serving(worker, self.granted, Ghost(*shared));
            self.at = self.at + 1;
            self.granted = 0;
        }
        None
    }

    /// Nothing could be picked for the worker whose turn it is.
    pub fn nothing_picked(&mut self, swarm: &mut SwarmState, shared: &mut DownloadBudget)
        requires
            old(self).wf(),
            old(self)@.at < old(self)@.order.len(),
            old(swarm).wf(),
        ensures
            final(self).wf(),
            final(swarm).wf(),
            final(swarm).model(*final(shared)) == nothing_picked(
                old(swarm).model(*old(shared)),
                old(self)@,
                old(self)@.order[old(self)@.at],
            ),
            final(self)@ == (Pass { at: old(self)@.at + 1, granted: 0, ..old(self)@ }),
    {
        let ghost before = swarm.model(*shared);
        let worker: usize = self.order[self.at];
        swarm.budget.release(shared, self.max_piece);
        assert(swarm.model(*shared) == returned(before, self@.max_piece));
        if let Some(at) = swarm.find_worker(worker) {
            assert(before.workers[at as int] == swarm.workers@[at as int]@);
            swarm.workers[at].skip_generation = Some(self.generation);
            proof {
                let next = PeerModel {
                    skip_generation: Some(self.generation),
                    ..before.workers[at as int]
                };
                assert(workers_view(swarm.workers@) =~= before.workers.update(at as int, next));
                lemma_distinct_update(before.workers, at as int, next);
            }
        }
        swarm.finish_serving(worker, self.granted, Ghost(*shared));
        assert(self.at < self.order.len());
        self.at = self.at + 1;
        self.granted = 0;
    }

    /// A piece was picked for the worker whose turn it is. Gives its length;
    /// what was reserved beyond it goes back.
    pub fn picked(
        &mut self,
        swarm: &mut SwarmState,
        shared: &mut DownloadBudget,
        metainfo: &Metainfo,
        piece: usize,
    ) -> (result: Result<usize, ActorError>)
        requires
            old(self).wf(),
            old(swarm).wf(),
            metainfo.wf(),
        ensures
            *final(self) == *old(self),
            final(swarm).wf(),
            match result {
                Ok(length) => piece_size(metainfo@, piece as int) == Ok::<int, Fault>(
                    length as int,
                ) && final(swarm).model(*final(shared)) == returned(
                    old(swarm).model(*old(shared)),
                    max_of(old(self)@.max_piece - length, 0),
                ),
                Err(error) => piece_size(metainfo@, piece as int) == Err::<int, Fault>(error@)
                    && final(swarm).model(*final(shared)) == old(swarm).model(*old(shared)),
            },
    {
        match piece_length(metainfo, piece) {
            Ok(length) => {
                swarm.budget.release(shared, self.max_piece.saturating_sub(length));
                Ok(length)
            },
            Err(error) => Err(error),
        }
    }

    /// The worker whose turn it is took a piece.
    pub fn accepted(
        &mut self,
        swarm: &mut SwarmState,
        piece: usize,
        length: usize,
        shared: &DownloadBudget,
    )
        requires
            old(self).wf(),
            old(self)@.at < old(self)@.order.len(),
            old(self)@.granted < usize::MAX,
            old(self)@.scheduled < usize::MAX,
            old(swarm).wf(),
        ensures
            final(self).wf(),
            final(swarm).wf(),
            final(swarm).model(*shared) == assigned(
                old(swarm).model(*shared),
                old(self)@.order[old(self)@.at],
                piece,
                length,
            ),
            final(self)@ == (Pass {
                granted: old(self)@.granted + 1,
                scheduled: old(self)@.scheduled + 1,
                ..old(self)@
            }),
    {
        let ghost before = swarm.model(*shared);
        let worker: usize = self.order[self.at];
        if let Some(at) = swarm.find_worker(worker) {
            assert(before.workers[at as int] == swarm.workers@[at as int]@);
            swarm.workers[at].assignments.push(PieceAssignment { piece, length });
            swarm.workers[at].assigned_bytes = swarm.workers[at].assigned_bytes.saturating_add(
                length,
            );
            swarm.workers[at].idle = false;
            proof {
                let next = assigned(before, worker, piece, length).workers[at as int];
                assert(swarm.workers@[at as int]@ == next);
                assert(workers_view(swarm.workers@) =~= before.workers.update(at as int, next));
                lemma_distinct_update(before.workers, at as int, next);
            }
        }
        self.granted = self.granted + 1;
        self.scheduled = self.scheduled + 1;
    }

    /// The worker whose turn it is could not be handed a piece.
    pub fn refused(
        &mut self,
        swarm: &mut SwarmState,
        shared: &mut DownloadBudget,
        piece: usize,
        length: usize,
        actions: &mut Vec<SwarmAction>,
    )
        requires
            old(self).wf(),
            old(self)@.at < old(self)@.order.len(),
            old(swarm).wf(),
        ensures
            final(self).wf(),
            final(swarm).wf(),
            ({
                let effect = refused(
                    old(swarm).model(*old(shared)),
                    old(self)@.order[old(self)@.at],
                    piece as int,
                    length as int,
                );
                &&& final(swarm).model(*final(shared)) == effect.swarm
                &&& acts_view(final(actions)@) == acts_view(old(actions)@) + effect.acts
            }),
            final(self)@ == (Pass { at: old(self)@.at + 1, granted: 0, ..old(self)@ }),
    {
        let ghost done = acts_view(actions@);
        let ghost before = swarm.model(*shared);
        let worker: usize = self.order[self.at];
        actions.push(SwarmAction::MarkFailed { piece });
        let ghost said = acts_view(actions@);
        assert(said =~= done.push(SwarmAct::MarkFailed(piece as int)));
        swarm.budget.release(shared, length);
        assert(swarm.model(*shared) == returned(before, length as int));
        swarm.remove_worker(shared, worker, actions);
        assert(acts_view(actions@) =~= done + refused(
            before,
            worker,
            piece as int,
            length as int,
        ).acts);
        assert(self.at < self.order.len());
        self.at = self.at + 1;
        self.granted = 0;
    }
}

/// How many bytes assignments come to.
pub open spec fn assignments_size(assignments: Seq<PieceAssignment>) -> int
    decreases assignments.len(),
{
    if assignments.len() == 0 {
        0
    } else {
        assignments_size(assignments.drop_last()) + assignments.last().length
    }
}

/// Whether every peer's count of assigned bytes is the sum of its assignments.
pub open spec fn books_kept(s: SwarmModel) -> bool {
    forall|i: int|
        0 <= i < s.workers.len() ==> (#[trigger] s.workers[i]).assigned_bytes == assignments_size(
            s.workers[i].assignments,
        )
}

proof fn lemma_size_remove(assignments: Seq<PieceAssignment>, slot: int)
    requires
        0 <= slot < assignments.len(),
    ensures
        assignments_size(assignments.remove(slot)) == assignments_size(assignments)
            - assignments[slot].length,
        assignments_size(assignments.remove(slot)) >= 0,
    decreases assignments.len(),
{
    let rest = assignments.remove(slot);
    lemma_size_nonnegative(rest);
    if slot == assignments.len() - 1 {
        assert(rest =~= assignments.drop_last());
    } else {
        lemma_size_remove(assignments.drop_last(), slot);
        assert(rest.drop_last() =~= assignments.drop_last().remove(slot));
        assert(rest.last() == assignments.last());
    }
}

proof fn lemma_size_nonnegative(assignments: Seq<PieceAssignment>)
    ensures
        assignments_size(assignments) >= 0,
    decreases assignments.len(),
{
    if assignments.len() > 0 {
        lemma_size_nonnegative(assignments.drop_last());
    }
}

/// Assigning a piece, settling one, returning all of a worker's and removing a
/// worker each keep the count of assigned bytes equal to the sum of the
/// assignments.
pub proof fn law_books_are_kept(
    s: SwarmModel,
    worker: usize,
    piece: usize,
    length: usize,
)
    requires
        books_kept(s),
        forall|i: int|
            0 <= i < s.workers.len() ==> (#[trigger] s.workers[i]).assigned_bytes + length
                <= usize::MAX,
    ensures
        books_kept(assigned(s, worker, piece, length)),
        books_kept(taken(s, worker, piece as int)),
        books_kept(released(s, worker).swarm),
        books_kept(removed(s, worker).swarm),
{
    let at = worker_at(s.workers, worker, 0);
    lemma_worker_at(s.workers, worker, 0);
    if at < s.workers.len() {
        let peer = s.workers[at];
        let longer = peer.assignments.push(PieceAssignment { piece, length });
        assert(longer.drop_last() =~= peer.assignments);
        let slot = assignment_at(peer.assignments, piece as int, 0);
        lemma_assignment_at(peer.assignments, piece as int, 0);
        if slot < peer.assignments.len() {
            lemma_size_remove(peer.assignments, slot);
        }
        lemma_all_returned(s, peer.assignments);
        let after = removed(s, worker).swarm.workers;
        let cleared = released(s, worker).swarm.workers;
        assert forall|i: int| 0 <= i < after.len() implies (#[trigger] after[i]).assigned_bytes
            == assignments_size(after[i].assignments) by {
            let from = if i < at { i } else { i + 1 };
            assert(after[i] == cleared[from]);
        }
    }
}

proof fn lemma_assignment_at(assignments: Seq<PieceAssignment>, piece: int, from: int)
    requires
        0 <= from <= assignments.len(),
    ensures
        from <= assignment_at(assignments, piece, from) <= assignments.len(),
    decreases assignments.len() - from,
{
    if from < assignments.len() && assignments[from].piece != piece {
        lemma_assignment_at(assignments, piece, from + 1);
    }
}

/// A worker that leaves gives back every byte that it was assigned, and every
/// piece may be picked again.
pub proof fn law_leaving_worker_returns_everything(s: SwarmModel, worker: usize)
    requires
        worker_at(s.workers, worker, 0) < s.workers.len(),
        s.held >= assignments_size(s.workers[worker_at(s.workers, worker, 0)].assignments),
        s.used >= s.held,
    ensures
        ({
            let peer = s.workers[worker_at(s.workers, worker, 0)];
            let gone = removed(s, worker);
            &&& gone.swarm.held == s.held - assignments_size(peer.assignments)
            &&& gone.swarm.used == s.used - assignments_size(peer.assignments)
            &&& forall|k: int|
                0 <= k < peer.assignments.len() ==> gone.acts[k] == SwarmAct::MarkFailed(
                    (#[trigger] peer.assignments[k]).piece as int,
                )
        }),
{
    let peer = s.workers[worker_at(s.workers, worker, 0)];
    lemma_all_returned(s, peer.assignments);
    lemma_returned_sum(s, peer.assignments);
}

proof fn lemma_returned_sum(s: SwarmModel, assignments: Seq<PieceAssignment>)
    requires
        s.held >= assignments_size(assignments),
        s.used >= s.held,
    ensures
        all_returned(s, assignments).held == s.held - assignments_size(assignments),
        all_returned(s, assignments).used == s.used - assignments_size(assignments),
    decreases assignments.len(),
{
    if assignments.len() > 0 {
        lemma_returned_sum(s, assignments.drop_last());
    }
}

} // verus!
