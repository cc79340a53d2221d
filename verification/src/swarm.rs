//! The state of one torrent's swarm: its peers, what they were assigned, and
//! what follows when one of them delivers, fails or goes away. Picking pieces
//! and talking to peers is left to whoever carries out the actions.

use crate::address::{PeerKey, SocketAddress};
use crate::bitfield::{bit_is_set, has_bit, set_bit};
use crate::budget::{BudgetAccount, DownloadBudget};
use crate::error::{join, number, number_text, ActorError, Fault, TorrentId};
use crate::num::{max_of, min_of};
use crate::rates::ASSIGNMENT_TARGET_MIN;
use vstd::prelude::*;
use vstd::slice::slice_to_vec;
use vstd::string::StringExecFns;

verus! {

/// A piece that a peer was asked for.
#[derive(Clone, Copy, Debug, Eq, PartialEq, Structural)]
pub struct PieceAssignment {
    pub piece: usize,
    pub length: usize,
}

/// An address that may be connected to.
#[derive(Clone, Copy, Debug, Eq, PartialEq, Structural)]
pub struct PeerCandidate {
    pub address: SocketAddress,
    pub force_utp: bool,
}

/// A candidate and when it was last tried.
#[derive(Clone, Copy, Debug, Eq, PartialEq, Structural)]
pub struct KnownCandidate {
    pub candidate: PeerCandidate,
    pub seen: u64,
}

/// A peer of a swarm.
#[derive(Debug)]
pub struct PeerWorkerHandle {
    pub worker: usize,
    /// The pieces that the peer has, once it is connected.
    pub bitfield: Option<Vec<u8>>,
    pub idle: bool,
    pub choked: bool,
    pub address: SocketAddress,
    pub peer_key: Option<PeerKey>,
    pub seed: bool,
    pub useful_pieces: usize,
    pub verified_bytes: u64,
    pub connected_at: u64,
    pub last_verified: Option<u64>,
    /// The pieces currently assigned to this worker.
    pub assignments: Vec<PieceAssignment>,
    /// Bytes of pieces currently assigned to this worker.
    pub assigned_bytes: usize,
    /// Assignment target derived from the worker's verified rate.
    pub target_bytes: usize,
    /// The worker asked for more pieces and has not been granted any since.
    pub wants_more: bool,
    /// Picker generation at which nothing was selectable for this worker;
    /// scheduling is skipped until the generation changes.
    pub skip_generation: Option<u64>,
}

/// A peer of a swarm, by its values.
pub struct PeerModel {
    pub worker: usize,
    pub bitfield: Option<Seq<u8>>,
    pub idle: bool,
    pub choked: bool,
    pub address: SocketAddress,
    pub peer_key: Option<PeerKey>,
    pub seed: bool,
    pub useful_pieces: int,
    pub verified_bytes: int,
    pub connected_at: u64,
    pub last_verified: Option<u64>,
    pub assignments: Seq<PieceAssignment>,
    pub assigned_bytes: int,
    pub target_bytes: int,
    pub wants_more: bool,
    pub skip_generation: Option<u64>,
}

impl PeerWorkerHandle {
    pub open spec fn view(&self) -> PeerModel {
        PeerModel {
            worker: self.worker,
            bitfield: match self.bitfield {
                Some(bitfield) => Some(bitfield@),
                None => None,
            },
            idle: self.idle,
            choked: self.choked,
            address: self.address,
            peer_key: self.peer_key,
            seed: self.seed,
            useful_pieces: self.useful_pieces as int,
            verified_bytes: self.verified_bytes as int,
            connected_at: self.connected_at,
            last_verified: self.last_verified,
            assignments: self.assignments@,
            assigned_bytes: self.assigned_bytes as int,
            target_bytes: self.target_bytes as int,
            wants_more: self.wants_more,
            skip_generation: self.skip_generation,
        }
    }
}

pub open spec fn workers_view(workers: Seq<PeerWorkerHandle>) -> Seq<PeerModel> {
    Seq::new(workers.len(), |i: int| workers[i]@)
}

/// The state of one torrent's swarm.
#[derive(Debug)]
pub struct SwarmState {
    pub workers: Vec<PeerWorkerHandle>,
    pub budget: BudgetAccount,
    pub schedule_dirty: bool,
    pub connecting: usize,
    pub last_error: Option<String>,
    /// The pieces that are being written.
    pub writing: Vec<usize>,
    pub candidates: Vec<PeerCandidate>,
    pub known_candidates: Vec<KnownCandidate>,
    pub next_worker: usize,
    pub piece_count: usize,
    pub completed_pieces: Vec<u8>,
    pub torrent_id: TorrentId,
    pub peer_limit: usize,
}

/// A swarm and the budget it draws on, by their values.
pub struct SwarmModel {
    pub workers: Seq<PeerModel>,
    /// What the swarm holds of the budget.
    pub held: int,
    /// What all swarms hold of the budget.
    pub used: int,
    pub limit: int,
    pub schedule_dirty: bool,
    pub connecting: int,
    pub last_error: Option<Seq<char>>,
    pub writing: Seq<usize>,
    pub candidates: Seq<PeerCandidate>,
    pub known: Seq<KnownCandidate>,
    pub next_worker: int,
    pub piece_count: int,
    pub completed: Seq<u8>,
    pub torrent_id: TorrentId,
    pub peer_limit: int,
}

impl SwarmState {
    pub open spec fn model(&self, shared: DownloadBudget) -> SwarmModel {
        SwarmModel {
            workers: workers_view(self.workers@),
            held: self.budget.held as int,
            used: shared.used as int,
            limit: shared.limit as int,
            schedule_dirty: self.schedule_dirty,
            connecting: self.connecting as int,
            last_error: match self.last_error {
                Some(text) => Some(text@),
                None => None,
            },
            writing: self.writing@,
            candidates: self.candidates@,
            known: self.known_candidates@,
            next_worker: self.next_worker as int,
            piece_count: self.piece_count as int,
            completed: self.completed_pieces@,
            torrent_id: self.torrent_id,
            peer_limit: self.peer_limit as int,
        }
    }

    pub open spec fn wf(&self) -> bool {
        &&& distinct_workers(workers_view(self.workers@))
        &&& numbered(workers_view(self.workers@), self.next_worker as int)
    }
}

/// Whether every peer has a number that was given out.
pub open spec fn numbered(workers: Seq<PeerModel>, next: int) -> bool {
    forall|i: int| 0 <= i < workers.len() ==> (#[trigger] workers[i]).worker < next
}

/// Whether no two peers have the same number.
pub open spec fn distinct_workers(workers: Seq<PeerModel>) -> bool {
    forall|i: int, j: int|
        0 <= i < j < workers.len() ==> (#[trigger] workers[i]).worker != (
        #[trigger] workers[j]).worker
}

/// What has to be done outside of the swarm's own state.
#[derive(Debug)]
pub enum SwarmAction {
    /// The piece is stored.
    MarkComplete { piece: usize },
    /// A request for the piece came to nothing: it may be picked again.
    MarkFailed { piece: usize },
    /// The piece is being written: it may not be picked.
    Disable { piece: usize },
    /// A peer with these pieces came.
    AddPeer { bitfield: Vec<u8> },
    /// A peer with these pieces went.
    RemovePeer { bitfield: Vec<u8> },
    /// A peer came to have a piece.
    AddPiece { piece: usize },
    /// Take a piece back from a worker.
    SendCancel { worker: usize, piece: usize },
    /// Let a worker announce a piece.
    SendHave { worker: usize, index: u32 },
    /// Let a worker end.
    StopWorker { worker: usize },
    /// Connect to a peer under a number.
    Connect { worker: usize, candidate: PeerCandidate },
    RecordFailure { peer: PeerKey },
    RecordVerified { peer: PeerKey, bytes: u64 },
    SetInteresting { peer: PeerKey, interesting: bool },
}

/// What has to be done, by its values.
pub enum SwarmAct {
    MarkComplete(int),
    MarkFailed(int),
    Disable(int),
    AddPeer(Seq<u8>),
    RemovePeer(Seq<u8>),
    AddPiece(int),
    SendCancel(usize, int),
    SendHave(usize, u32),
    StopWorker(usize),
    Connect(usize, PeerCandidate),
    RecordFailure(PeerKey),
    RecordVerified(PeerKey, int),
    SetInteresting(PeerKey, bool),
}

impl SwarmAction {
    pub open spec fn view(&self) -> SwarmAct {
        match *self {
            SwarmAction::MarkComplete { piece } => SwarmAct::MarkComplete(piece as int),
            SwarmAction::MarkFailed { piece } => SwarmAct::MarkFailed(piece as int),
            SwarmAction::Disable { piece } => SwarmAct::Disable(piece as int),
            SwarmAction::AddPeer { bitfield } => SwarmAct::AddPeer(bitfield@),
            SwarmAction::RemovePeer { bitfield } => SwarmAct::RemovePeer(bitfield@),
            SwarmAction::AddPiece { piece } => SwarmAct::AddPiece(piece as int),
            SwarmAction::SendCancel { worker, piece } => SwarmAct::SendCancel(
                worker,
                piece as int,
            ),
            SwarmAction::SendHave { worker, index } => SwarmAct::SendHave(worker, index),
            SwarmAction::StopWorker { worker } => SwarmAct::StopWorker(worker),
            SwarmAction::Connect { worker, candidate } => SwarmAct::Connect(worker, candidate),
            SwarmAction::RecordFailure { peer } => SwarmAct::RecordFailure(peer),
            SwarmAction::RecordVerified { peer, bytes } => SwarmAct::RecordVerified(
                peer,
                bytes as int,
            ),
            SwarmAction::SetInteresting { peer, interesting } => SwarmAct::SetInteresting(
                peer,
                interesting,
            ),
        }
    }
}

pub open spec fn acts_view(actions: Seq<SwarmAction>) -> Seq<SwarmAct> {
    Seq::new(actions.len(), |i: int| actions[i]@)
}

/// A swarm after something happened, and what has to be done about it.
pub struct Effect {
    pub swarm: SwarmModel,
    pub acts: Seq<SwarmAct>,
}

/// The position of a worker at or after `from`, or the length.
pub open spec fn worker_at(workers: Seq<PeerModel>, worker: usize, from: int) -> int
    decreases workers.len() - from,
{
    if from < 0 || from >= workers.len() || workers[from].worker == worker {
        from
    } else {
        worker_at(workers, worker, from + 1)
    }
}

/// The position of an assigned piece at or after `from`, or the length.
pub open spec fn assignment_at(assignments: Seq<PieceAssignment>, piece: int, from: int) -> int
    decreases assignments.len() - from,
{
    if from < 0 || from >= assignments.len() || assignments[from].piece == piece {
        from
    } else {
        assignment_at(assignments, piece, from + 1)
    }
}

/// The budget after bytes were returned: never more than the swarm holds.
pub open spec fn returned(s: SwarmModel, bytes: int) -> SwarmModel {
    SwarmModel {
        held: max_of(s.held - bytes, 0),
        used: max_of(s.used - min_of(bytes, s.held), 0),
        ..s
    }
}

/// The budget after the bytes of assignments were returned one by one.
pub open spec fn all_returned(s: SwarmModel, assignments: Seq<PieceAssignment>) -> SwarmModel
    decreases assignments.len(),
{
    if assignments.len() == 0 {
        s
    } else {
        returned(
            all_returned(s, assignments.drop_last()),
            assignments.last().length as int,
        )
    }
}

/// The swarm with one peer changed.
pub open spec fn with_worker(s: SwarmModel, at: int, peer: PeerModel) -> SwarmModel {
    SwarmModel { workers: s.workers.update(at, peer), ..s }
}

/// A peer without one of its assignments. It is idle once it has none.
pub open spec fn unassigned(peer: PeerModel, slot: int) -> PeerModel {
    let rest = peer.assignments.remove(slot);
    PeerModel {
        assignments: rest,
        assigned_bytes: max_of(peer.assigned_bytes - peer.assignments[slot].length, 0),
        idle: peer.bitfield is Some && rest.len() == 0,
        ..peer
    }
}

/// How many bytes a worker was assigned with a piece: nothing where it was not
/// assigned the piece.
pub open spec fn assigned_length(s: SwarmModel, worker: usize, piece: int) -> int {
    let at = worker_at(s.workers, worker, 0);
    if at >= s.workers.len() {
        0
    } else {
        let slot = assignment_at(s.workers[at].assignments, piece, 0);
        if slot >= s.workers[at].assignments.len() {
            0
        } else {
            s.workers[at].assignments[slot].length as int
        }
    }
}

/// The swarm once an assignment is settled.
pub open spec fn taken(s: SwarmModel, worker: usize, piece: int) -> SwarmModel {
    let at = worker_at(s.workers, worker, 0);
    if at >= s.workers.len() {
        s
    } else {
        let slot = assignment_at(s.workers[at].assignments, piece, 0);
        if slot >= s.workers[at].assignments.len() {
            s
        } else {
            with_worker(s, at, unassigned(s.workers[at], slot))
        }
    }
}

pub open spec fn failed_pieces(assignments: Seq<PieceAssignment>) -> Seq<SwarmAct> {
    Seq::new(assignments.len(), |i: int| SwarmAct::MarkFailed(assignments[i].piece as int))
}

/// All assignments of a worker go back to the picker, and their bytes to the budget.
pub open spec fn released(s: SwarmModel, worker: usize) -> Effect {
    let at = worker_at(s.workers, worker, 0);
    if at >= s.workers.len() {
        Effect { swarm: SwarmModel { schedule_dirty: true, ..s }, acts: Seq::empty() }
    } else {
        let peer = s.workers[at];
        let cleared = PeerModel {
            assignments: Seq::empty(),
            assigned_bytes: 0,
            idle: peer.bitfield is Some,
            ..peer
        };
        Effect {
            swarm: SwarmModel {
                schedule_dirty: true,
                ..with_worker(all_returned(s, peer.assignments), at, cleared)
            },
            acts: failed_pieces(peer.assignments),
        }
    }
}

/// A worker leaves the swarm.
pub open spec fn removed(s: SwarmModel, worker: usize) -> Effect {
    let at = worker_at(s.workers, worker, 0);
    let released = released(s, worker);
    if at >= s.workers.len() {
        released
    } else {
        Effect {
            swarm: SwarmModel {
                workers: released.swarm.workers.remove(at),
                ..released.swarm
            },
            acts: released.acts.push(SwarmAct::StopWorker(worker)) + match s.workers[at].bitfield {
                Some(bitfield) => seq![SwarmAct::RemovePeer(bitfield)],
                None => Seq::empty(),
            },
        }
    }
}

/// The peer behind a worker, once it is known.
pub open spec fn key_of(s: SwarmModel, worker: usize) -> Option<PeerKey> {
    let at = worker_at(s.workers, worker, 0);
    if at < s.workers.len() {
        s.workers[at].peer_key
    } else {
        None
    }
}

pub open spec fn failure_acts(s: SwarmModel, worker: usize) -> Seq<SwarmAct> {
    match key_of(s, worker) {
        Some(peer) => seq![SwarmAct::RecordFailure(peer)],
        None => Seq::empty(),
    }
}

/// How an assigned piece ended.
pub enum Ending {
    /// Data arrived, for a piece that is on record as complete or one that is not.
    Data { complete: bool },
    Cancelled,
    Failed(Seq<char>),
}

/// The bookkeeping for how an assigned piece ended. Every ending but data that
/// is still wanted gives its bytes back to the budget.
pub open spec fn ended(s: SwarmModel, worker: usize, piece: int, ending: Ending) -> Effect {
    let reserved = assigned_length(s, worker, piece);
    let settled = SwarmModel { schedule_dirty: true, ..taken(s, worker, piece) };
    match ending {
        Ending::Data { complete } => if complete {
            Effect {
                swarm: returned(settled, reserved),
                acts: seq![SwarmAct::MarkComplete(piece)],
            }
        } else if s.writing.contains(piece as usize) {
            Effect { swarm: returned(settled, reserved), acts: seq![SwarmAct::MarkFailed(piece)] }
        } else {
            Effect { swarm: settled, acts: Seq::empty() }
        },
        Ending::Cancelled => Effect {
            swarm: returned(settled, reserved),
            acts: seq![SwarmAct::MarkFailed(piece)],
        },
        Ending::Failed(text) => {
            let noted = SwarmModel { last_error: Some(text), ..returned(settled, reserved) };
            let gone = removed(noted, worker);
            Effect {
                swarm: gone.swarm,
                acts: failure_acts(s, worker).push(SwarmAct::MarkFailed(piece)) + gone.acts,
            }
        },
    }
}

/// Whether the data of a piece is still wanted.
pub open spec fn still_wanted(s: SwarmModel, complete: bool, piece: int) -> bool {
    !complete && !s.writing.contains(piece as usize)
}

/// The workers among the first `n` that were assigned a piece.
pub open spec fn duplicate_cancels(workers: Seq<PeerModel>, piece: int, n: int) -> Seq<SwarmAct>
    decreases n,
{
    if n <= 0 {
        Seq::empty()
    } else {
        let before = duplicate_cancels(workers, piece, n - 1);
        let peer = workers[n - 1];
        if assignment_at(peer.assignments, piece, 0) < peer.assignments.len() {
            before.push(SwarmAct::SendCancel(peer.worker, piece))
        } else {
            before
        }
    }
}

pub open spec fn corrupt_text(piece: int) -> Seq<char> {
    "piece "@ + number_text(piece as nat) + " failed its integrity check"@
}

/// The outcome of a verification: a corrupt piece penalises and drops the
/// peer, a duplicate of a piece already being written is discarded, and a
/// fresh valid piece is claimed for writing while duplicate requests on other
/// workers are cancelled.
pub open spec fn verified(
    s: SwarmModel,
    worker: usize,
    piece: int,
    size: int,
    valid: bool,
) -> Effect {
    let dirty = SwarmModel { schedule_dirty: true, ..s };
    if !valid {
        let noted = SwarmModel {
            last_error: Some(corrupt_text(piece)),
            ..returned(dirty, size)
        };
        let gone = removed(noted, worker);
        Effect {
            swarm: gone.swarm,
            acts: failure_acts(s, worker).push(SwarmAct::MarkFailed(piece)) + gone.acts,
        }
    } else if s.writing.contains(piece as usize) {
        Effect { swarm: returned(dirty, size), acts: seq![SwarmAct::MarkFailed(piece)] }
    } else {
        Effect {
            swarm: SwarmModel { writing: s.writing.push(piece as usize), ..dirty },
            acts: seq![SwarmAct::Disable(piece)] + duplicate_cancels(
                s.workers,
                piece,
                s.workers.len() as int,
            ),
        }
    }
}

/// Every worker is told of a piece.
pub open spec fn haves(workers: Seq<PeerModel>, piece: u32) -> Seq<SwarmAct> {
    Seq::new(workers.len(), |i: int| SwarmAct::SendHave(workers[i].worker, piece))
}

/// A piece has been written: the peer that delivered it is credited, its bytes
/// leave the budget, and every worker is told, unless the wire has no number
/// for the piece.
pub open spec fn stored(
    s: SwarmModel,
    worker: usize,
    piece: int,
    bytes: int,
    now: u64,
) -> Effect {
    let at = worker_at(s.workers, worker, 0);
    let credited = if at < s.workers.len() {
        with_worker(
            s,
            at,
            PeerModel {
                verified_bytes: min_of(s.workers[at].verified_bytes + bytes, u64::MAX as int),
                last_verified: Some(now),
                ..s.workers[at]
            },
        )
    } else {
        s
    };
    Effect {
        swarm: SwarmModel {
            schedule_dirty: true,
            ..returned(credited, min_of(bytes, usize::MAX as int))
        },
        acts: seq![SwarmAct::MarkComplete(piece)] + match key_of(s, worker) {
            Some(peer) => seq![SwarmAct::RecordVerified(peer, bytes)],
            None => Seq::empty(),
        } + if piece <= u32::MAX {
            haves(s.workers, piece as u32)
        } else {
            Seq::empty()
        },
    }
}

impl SwarmState {
    pub(crate) fn find_worker(&self, worker: usize) -> (result: Option<usize>)
        ensures
            match result {
                Some(at) => at < self.workers@.len() && at == worker_at(
                    workers_view(self.workers@),
                    worker,
                    0,
                ) && self.workers@[at as int].worker == worker,
                None => worker_at(workers_view(self.workers@), worker, 0) == self.workers@.len()
                    && forall|k: int|
                    0 <= k < self.workers@.len() ==> (#[trigger] self.workers@[k]).worker
                        != worker,
            },
    {
        let ghost workers = workers_view(self.workers@);
        let mut i: usize = 0;
        while i < self.workers.len()
            invariant
                workers == workers_view(self.workers@),
                i <= self.workers@.len(),
                worker_at(workers, worker, 0) == worker_at(workers, worker, i as int),
                forall|k: int| 0 <= k < i ==> (#[trigger] self.workers@[k]).worker != worker,
            decreases self.workers@.len() - i,
        {
            assert(workers[i as int] == self.workers@[i as int]@);
            if self.workers[i].worker == worker {
                return Some(i);
            }
            i += 1;
        }
        None
    }

    pub(crate) fn is_writing(&self, piece: usize) -> (result: bool)
        ensures
            result == self.writing@.contains(piece),
    {
        let mut i: usize = 0;
        while i < self.writing.len()
            invariant
                i <= self.writing@.len(),
                forall|k: int| 0 <= k < i ==> self.writing@[k] != piece,
            decreases self.writing@.len() - i,
        {
            if self.writing[i] == piece {
                return true;
            }
            i += 1;
        }
        false
    }

    /// Settles the assignment of a piece, and says how many bytes it was.
    fn take_assignment(
        &mut self,
        worker: usize,
        piece: usize,
        Ghost(shared): Ghost<DownloadBudget>,
    ) -> (result: Option<PieceAssignment>)
        requires
            old(self).wf(),
        ensures
            final(self).wf(),
            final(self).model(shared) == taken(old(self).model(shared), worker, piece as int),
            assigned_length(old(self).model(shared), worker, piece as int) == match result {
                Some(assignment) => assignment.length as int,
                None => 0,
            },
            result is Some ==> result->0.piece == piece,
    {
        let ghost before = self.model(shared);
        let at: usize = match self.find_worker(worker) {
            Some(at) => at,
            None => {
                return None;
            },
        };
        assert(before.workers[at as int] == self.workers@[at as int]@);
        let slot: usize = match find_assignment(&self.workers[at].assignments, piece) {
            Some(slot) => slot,
            None => {
                return None;
            },
        };
        let taken_assignment = self.workers[at].assignments[slot];
        self.workers[at].assignments.remove(slot);
        self.workers[at].assigned_bytes = self.workers[at].assigned_bytes.saturating_sub(
            taken_assignment.length,
        );
        self.workers[at].idle = self.workers[at].bitfield.is_some()
            && self.workers[at].assignments.len() == 0;
        proof {
            let wanted = unassigned(before.workers[at as int], slot as int);
            assert(self.workers@[at as int]@ == wanted);
            assert(self.model(shared).workers =~= before.workers.update(at as int, wanted));
            lemma_distinct_update(before.workers, at as int, wanted);
        }
        Some(taken_assignment)
    }

    /// Returns everything that a worker was assigned.
    pub fn release_worker_assignments(
        &mut self,
        shared: &mut DownloadBudget,
        worker: usize,
        actions: &mut Vec<SwarmAction>,
    )
        requires
            old(self).wf(),
        ensures
            final(self).wf(),
            ({
                let effect = released(old(self).model(*old(shared)), worker);
                &&& final(self).model(*final(shared)) == effect.swarm
                &&& acts_view(final(actions)@) == acts_view(old(actions)@) + effect.acts
            }),
    {
        let ghost before = self.model(*shared);
        let ghost done = acts_view(actions@);
        self.schedule_dirty = true;
        let at: usize = match self.find_worker(worker) {
            Some(at) => at,
            None => {
                assert(acts_view(actions@) =~= done + Seq::empty());
                return ;
            },
        };
        let ghost peer = before.workers[at as int];
        assert(peer == self.workers@[at as int]@);
        let mut assignments: Vec<PieceAssignment> = Vec::new();
        std::mem::swap(&mut assignments, &mut self.workers[at].assignments);
        self.workers[at].assigned_bytes = 0;
        self.workers[at].idle = self.workers[at].bitfield.is_some();
        let ghost cleared = PeerModel {
            assignments: Seq::empty(),
            assigned_bytes: 0,
            idle: peer.bitfield is Some,
            ..peer
        };
        let ghost base = SwarmModel { schedule_dirty: true, ..before };
        proof {
            assert(self.workers@[at as int]@ == cleared);
            assert(workers_view(self.workers@) =~= before.workers.update(at as int, cleared));
            lemma_distinct_update(before.workers, at as int, cleared);
        }
        let ghost all = assignments@;
        let mut i: usize = 0;
        assert(all.take(0) =~= Seq::empty());
        assert(done + failed_pieces(all.take(0)) =~= done);
        while i < assignments.len()
            invariant
                all == assignments@,
                all == peer.assignments,
                i <= all.len(),
                self.wf(),
                self.model(*shared) == (SwarmModel {
                    workers: before.workers.update(at as int, cleared),
                    schedule_dirty: true,
                    ..all_returned(before, all.take(i as int))
                }),
                acts_view(actions@) == done + failed_pieces(all.take(i as int)),
            decreases all.len() - i,
        {
            proof {
                assert(all.take(i + 1).drop_last() =~= all.take(i as int));
                assert(all.take(i + 1).last() == all[i as int]);
            }
            let ghost said = acts_view(actions@);
            actions.push(SwarmAction::MarkFailed { piece: assignments[i].piece });
            self.budget.release(shared, assignments[i].length);
            proof {
                assert(acts_view(actions@) =~= said.push(
                    SwarmAct::MarkFailed(all[i as int].piece as int),
                ));
                assert(acts_view(actions@) =~= done + failed_pieces(all.take(i + 1)));
            }
            i += 1;
        }
        proof {
            assert(all.take(all.len() as int) =~= all);
            lemma_all_returned(before, all);
        }
    }

    /// Lets a worker leave the swarm.
    pub fn remove_worker(
        &mut self,
        shared: &mut DownloadBudget,
        worker: usize,
        actions: &mut Vec<SwarmAction>,
    )
        requires
            old(self).wf(),
        ensures
            final(self).wf(),
            ({
                let effect = removed(old(self).model(*old(shared)), worker);
                &&& final(self).model(*final(shared)) == effect.swarm
                &&& acts_view(final(actions)@) == acts_view(old(actions)@) + effect.acts
            }),
    {
        let ghost before = self.model(*shared);
        let ghost done = acts_view(actions@);
        self.release_worker_assignments(shared, worker, actions);
        let ghost now = self.model(*shared);
        let ghost said = acts_view(actions@);
        let ghost at_before = worker_at(before.workers, worker, 0);
        proof {
            lemma_worker_at(before.workers, worker, 0);
            if at_before < before.workers.len() {
                lemma_all_returned(before, before.workers[at_before].assignments);
                lemma_same_position(before.workers, now.workers, worker, 0);
            }
        }
        match self.find_worker(worker) {
            Some(at) => {
                let handle = self.workers.remove(at);
                proof {
                    assert(workers_view(self.workers@) =~= now.workers.remove(at as int));
                    lemma_distinct_remove(now.workers, at as int);
                    assert(handle@ == now.workers[at as int]);
                }
                actions.push(SwarmAction::StopWorker { worker });
                assert(acts_view(actions@) =~= said.push(SwarmAct::StopWorker(worker)));
                if let Some(bitfield) = handle.bitfield {
                    let ghost stopped = acts_view(actions@);
                    actions.push(SwarmAction::RemovePeer { bitfield });
                    assert(acts_view(actions@) =~= stopped.push(
                        SwarmAct::RemovePeer(bitfield@),
                    ));
                }
                assert(acts_view(actions@) =~= done + removed(before, worker).acts);
            },
            None => {
                proof {
                    assert(now.workers.len() == before.workers.len());
                    if at_before < before.workers.len() {
                        assert(now.workers[at_before].worker == worker);
                        assert(self.workers@[at_before]@ == now.workers[at_before]);
                    }
                }
            },
        }
    }

    /// The bookkeeping for data that a worker delivered, given the pieces that
    /// are on record as complete. Says whether it is still wanted and has to be
    /// verified.
    pub fn piece_delivered(
        &mut self,
        shared: &mut DownloadBudget,
        completed: &[u8],
        worker: usize,
        piece: usize,
        actions: &mut Vec<SwarmAction>,
    ) -> (wanted: bool)
        requires
            old(self).wf(),
        ensures
            final(self).wf(),
            ({
                let s = old(self).model(*old(shared));
                let complete = has_bit(completed@, piece as int);
                let effect = ended(s, worker, piece as int, Ending::Data { complete });
                &&& final(self).model(*final(shared)) == effect.swarm
                &&& acts_view(final(actions)@) == acts_view(old(actions)@) + effect.acts
                &&& wanted == still_wanted(s, complete, piece as int)
            }),
    {
        let ghost before = self.model(*shared);
        let ghost done = acts_view(actions@);
        let reserved: usize = match self.take_assignment(worker, piece, Ghost(*shared)) {
            Some(assignment) => assignment.length,
            None => 0,
        };
        self.schedule_dirty = true;
        if bit_is_set(completed, piece) {
            actions.push(SwarmAction::MarkComplete { piece });
            self.budget.release(shared, reserved);
            assert(acts_view(actions@) =~= done + seq![SwarmAct::MarkComplete(piece as int)]);
            return false;
        }
        if self.is_writing(piece) {
            actions.push(SwarmAction::MarkFailed { piece });
            self.budget.release(shared, reserved);
            assert(acts_view(actions@) =~= done + seq![SwarmAct::MarkFailed(piece as int)]);
            return false;
        }
        assert(acts_view(actions@) =~= done + Seq::empty());
        true
    }

    /// The bookkeeping for a piece that was taken back from a worker.
    pub fn piece_cancelled(
        &mut self,
        shared: &mut DownloadBudget,
        worker: usize,
        piece: usize,
        actions: &mut Vec<SwarmAction>,
    )
        requires
            old(self).wf(),
        ensures
            final(self).wf(),
            ({
                let effect = ended(
                    old(self).model(*old(shared)),
                    worker,
                    piece as int,
                    Ending::Cancelled,
                );
                &&& final(self).model(*final(shared)) == effect.swarm
                &&& acts_view(final(actions)@) == acts_view(old(actions)@) + effect.acts
            }),
    {
        let ghost done = acts_view(actions@);
        let reserved: usize = match self.take_assignment(worker, piece, Ghost(*shared)) {
            Some(assignment) => assignment.length,
            None => 0,
        };
        self.schedule_dirty = true;
        actions.push(SwarmAction::MarkFailed { piece });
        self.budget.release(shared, reserved);
        assert(acts_view(actions@) =~= done + seq![SwarmAct::MarkFailed(piece as int)]);
    }

    fn push_failure(&self, worker: usize, actions: &mut Vec<SwarmAction>, Ghost(
        shared,
    ): Ghost<DownloadBudget>)
        ensures
            acts_view(final(actions)@) == acts_view(old(actions)@) + failure_acts(
                self.model(shared),
                worker,
            ),
    {
        let ghost done = acts_view(actions@);
        if let Some(at) = self.find_worker(worker) {
            assert(workers_view(self.workers@)[at as int] == self.workers@[at as int]@);
            if let Some(peer) = self.workers[at].peer_key {
                actions.push(SwarmAction::RecordFailure { peer });
                assert(acts_view(actions@) =~= done + seq![SwarmAct::RecordFailure(peer)]);
                return ;
            }
        }
        assert(acts_view(actions@) =~= done + Seq::empty());
    }

    /// The bookkeeping for a piece that a worker failed to deliver.
    pub fn piece_failed(
        &mut self,
        shared: &mut DownloadBudget,
        worker: usize,
        piece: usize,
        error: String,
        actions: &mut Vec<SwarmAction>,
    )
        requires
            old(self).wf(),
        ensures
            final(self).wf(),
            ({
                let effect = ended(
                    old(self).model(*old(shared)),
                    worker,
                    piece as int,
                    Ending::Failed(error@),
                );
                &&& final(self).model(*final(shared)) == effect.swarm
                &&& acts_view(final(actions)@) == acts_view(old(actions)@) + effect.acts
            }),
    {
        let ghost before = self.model(*shared);
        let ghost done = acts_view(actions@);
        self.push_failure(worker, actions, Ghost(*shared));
        let ghost noted = acts_view(actions@);
        let reserved: usize = match self.take_assignment(worker, piece, Ghost(*shared)) {
            Some(assignment) => assignment.length,
            None => 0,
        };
        self.schedule_dirty = true;
        actions.push(SwarmAction::MarkFailed { piece });
        assert(acts_view(actions@) =~= noted.push(SwarmAct::MarkFailed(piece as int)));
        self.last_error = Some(error);
        self.budget.release(shared, reserved);
        let ghost said = acts_view(actions@);
        let ghost now = self.model(*shared);
        self.remove_worker(shared, worker, actions);
        assert(acts_view(actions@) =~= done + (failure_acts(before, worker).push(
            SwarmAct::MarkFailed(piece as int),
        ) + removed(now, worker).acts));
    }

    /// Applies a verification outcome. Says whether the piece was claimed for
    /// writing.
    pub fn accept_verified_piece(
        &mut self,
        shared: &mut DownloadBudget,
        worker: usize,
        piece: usize,
        size: usize,
        valid: bool,
        actions: &mut Vec<SwarmAction>,
    ) -> (claimed: bool)
        requires
            old(self).wf(),
        ensures
            final(self).wf(),
            ({
                let s = old(self).model(*old(shared));
                let effect = verified(s, worker, piece as int, size as int, valid);
                &&& final(self).model(*final(shared)) == effect.swarm
                &&& acts_view(final(actions)@) == acts_view(old(actions)@) + effect.acts
                &&& claimed == (valid && !s.writing.contains(piece))
            }),
    {
        let ghost before = self.model(*shared);
        let ghost done = acts_view(actions@);
        if !valid {
            self.push_failure(worker, actions, Ghost(*shared));
            let ghost noted = acts_view(actions@);
            self.schedule_dirty = true;
            actions.push(SwarmAction::MarkFailed { piece });
            assert(acts_view(actions@) =~= noted.push(SwarmAct::MarkFailed(piece as int)));
            let mut text = join("piece ", number(piece as u128).as_str());
            text.append(" failed its integrity check");
            self.last_error = Some(text);
            self.budget.release(shared, size);
            let ghost now = self.model(*shared);
            self.remove_worker(shared, worker, actions);
            assert(acts_view(actions@) =~= done + (failure_acts(before, worker).push(
                SwarmAct::MarkFailed(piece as int),
            ) + removed(now, worker).acts));
            return false;
        }
        self.schedule_dirty = true;
        if self.is_writing(piece) {
            actions.push(SwarmAction::MarkFailed { piece });
            self.budget.release(shared, size);
            assert(acts_view(actions@) =~= done + seq![SwarmAct::MarkFailed(piece as int)]);
            return false;
        }
        self.writing.push(piece);
        actions.push(SwarmAction::Disable { piece });
        let ghost workers = before.workers;
        let mut i: usize = 0;
        assert(acts_view(actions@) =~= done + (seq![SwarmAct::Disable(piece as int)]
            + duplicate_cancels(workers, piece as int, 0)));
        while i < self.workers.len()
            invariant
                workers == workers_view(self.workers@),
                i <= self.workers@.len(),
                acts_view(actions@) == done + (seq![SwarmAct::Disable(piece as int)]
                    + duplicate_cancels(workers, piece as int, i as int)),
            decreases self.workers@.len() - i,
        {
            let ghost said = acts_view(actions@);
            assert(workers[i as int] == self.workers@[i as int]@);
            if find_assignment(&self.workers[i].assignments, piece).is_some() {
                let worker: usize = self.workers[i].worker;
                actions.push(SwarmAction::SendCancel { worker, piece });
                assert(acts_view(actions@) =~= said.push(
                    SwarmAct::SendCancel(worker, piece as int),
                ));
            }
            assert(acts_view(actions@) =~= done + (seq![SwarmAct::Disable(piece as int)]
                + duplicate_cancels(workers, piece as int, i + 1)));
            i += 1;
        }
        true
    }

    /// A piece has been written. One that the wire has no number for is an
    /// error, once everything but telling the workers is done.
    pub fn stage_stored_piece(
        &mut self,
        shared: &mut DownloadBudget,
        worker: usize,
        piece: usize,
        bytes: u64,
        now: u64,
        actions: &mut Vec<SwarmAction>,
    ) -> (result: Result<(), ActorError>)
        requires
            old(self).wf(),
        ensures
            final(self).wf(),
            match result {
                Ok(()) => piece <= u32::MAX,
                Err(error) => piece > u32::MAX && error@ == Fault::Arithmetic,
            },
            ({
                let effect = stored(
                    old(self).model(*old(shared)),
                    worker,
                    piece as int,
                    bytes as int,
                    now,
                );
                &&& final(self).model(*final(shared)) == effect.swarm
                &&& acts_view(final(actions)@) == acts_view(old(actions)@) + effect.acts
            }),
    {
        let ghost before = self.model(*shared);
        let ghost done = acts_view(actions@);
        actions.push(SwarmAction::MarkComplete { piece });
        let ghost marked = acts_view(actions@);
        assert(marked =~= done.push(SwarmAct::MarkComplete(piece as int)));
        let mut contributor: Option<PeerKey> = None;
        if let Some(at) = self.find_worker(worker) {
            assert(before.workers[at as int] == self.workers@[at as int]@);
            self.workers[at].verified_bytes = self.workers[at].verified_bytes.saturating_add(
                bytes,
            );
            self.workers[at].last_verified = Some(now);
            contributor = self.workers[at].peer_key;
            proof {
                let peer = PeerModel {
                    verified_bytes: min_of(
                        before.workers[at as int].verified_bytes + bytes,
                        u64::MAX as int,
                    ),
                    last_verified: Some(now),
                    ..before.workers[at as int]
                };
                assert(workers_view(self.workers@) =~= before.workers.update(at as int, peer));
                lemma_distinct_update(before.workers, at as int, peer);
            }
        }
        if let Some(peer) = contributor {
            actions.push(SwarmAction::RecordVerified { peer, bytes });
            assert(acts_view(actions@) =~= marked.push(
                SwarmAct::RecordVerified(peer, bytes as int),
            ));
        }
        let ghost said = acts_view(actions@);
        let length: usize = if bytes <= usize::MAX as u64 { bytes as usize } else { usize::MAX };
        self.budget.release(shared, length);
        self.schedule_dirty = true;
        if piece > 0xffff_ffff {
            assert(acts_view(actions@) =~= done + stored(
                before,
                worker,
                piece as int,
                bytes as int,
                now,
            ).acts);
            return Err(ActorError::Arithmetic);
        }
        let ghost after = self.model(*shared);
        let mut i: usize = 0;
        assert(said + haves(before.workers, piece as u32).take(0) =~= said);
        while i < self.workers.len()
            invariant
                piece <= u32::MAX,
                self.model(*shared) == after,
                self.workers@.len() == before.workers.len(),
                forall|k: int|
                    0 <= k < before.workers.len() ==> (#[trigger] self.workers@[k]).worker
                        == before.workers[k].worker,
                i <= self.workers@.len(),
                acts_view(actions@) == said + haves(before.workers, piece as u32).take(i as int),
            decreases self.workers@.len() - i,
        {
            let ghost told = acts_view(actions@);
            let worker: usize = self.workers[i].worker;
            actions.push(SwarmAction::SendHave { worker, index: piece as u32 });
            proof {
                let all = haves(before.workers, piece as u32);
                assert(acts_view(actions@) =~= told.push(SwarmAct::SendHave(worker, piece as u32)));
                assert(all.take(i + 1) =~= all.take(i as int).push(all[i as int]));
                assert(acts_view(actions@) =~= said + all.take(i + 1));
            }
            i += 1;
        }
        proof {
            let all = haves(before.workers, piece as u32);
            assert(all.take(all.len() as int) =~= all);
            assert(acts_view(actions@) =~= done + stored(
                before,
                worker,
                piece as int,
                bytes as int,
                now,
            ).acts);
        }
        Ok(())
    }
}

pub(crate) fn find_assignment(assignments: &Vec<PieceAssignment>, piece: usize) -> (result: Option<
    usize,
>)
    ensures
        match result {
            Some(slot) => slot < assignments@.len() && slot == assignment_at(
                assignments@,
                piece as int,
                0,
            ) && assignments@[slot as int].piece == piece,
            None => assignment_at(assignments@, piece as int, 0) == assignments@.len(),
        },
{
    let mut i: usize = 0;
    while i < assignments.len()
        invariant
            i <= assignments@.len(),
            assignment_at(assignments@, piece as int, 0) == assignment_at(
                assignments@,
                piece as int,
                i as int,
            ),
        decreases assignments@.len() - i,
    {
        if assignments[i].piece == piece {
            return Some(i);
        }
        i += 1;
    }
    None
}

/// Returning bytes changes nothing but the budget.
pub proof fn lemma_all_returned(s: SwarmModel, assignments: Seq<PieceAssignment>)
    ensures
        all_returned(s, assignments) == (SwarmModel {
            held: all_returned(s, assignments).held,
            used: all_returned(s, assignments).used,
            ..s
        }),
    decreases assignments.len(),
{
    if assignments.len() > 0 {
        lemma_all_returned(s, assignments.drop_last());
    }
}

pub proof fn lemma_distinct_update(workers: Seq<PeerModel>, at: int, peer: PeerModel)
    requires
        distinct_workers(workers),
        0 <= at < workers.len(),
        peer.worker == workers[at].worker,
    ensures
        distinct_workers(workers.update(at, peer)),
        forall|next: int| #[trigger]
            numbered(workers, next) ==> numbered(workers.update(at, peer), next),
{
    let after = workers.update(at, peer);
    assert forall|i: int, j: int| 0 <= i < j < after.len() implies (#[trigger] after[i]).worker != (
    #[trigger] after[j]).worker by {
        assert(workers[i].worker != workers[j].worker);
    }
    assert forall|next: int| #[trigger] numbered(workers, next) implies numbered(after, next) by {
        assert forall|i: int| 0 <= i < after.len() implies (#[trigger] after[i]).worker < next by {
            assert(workers[i].worker < next);
        }
    }
}

pub proof fn lemma_distinct_remove(workers: Seq<PeerModel>, at: int)
    requires
        distinct_workers(workers),
        0 <= at < workers.len(),
    ensures
        distinct_workers(workers.remove(at)),
        forall|next: int| #[trigger]
            numbered(workers, next) ==> numbered(workers.remove(at), next),
{
    let after = workers.remove(at);
    assert forall|i: int, j: int| 0 <= i < j < after.len() implies (#[trigger] after[i]).worker != (
    #[trigger] after[j]).worker by {
        let a = if i < at { i } else { i + 1 };
        let b = if j < at { j } else { j + 1 };
        assert(after[i] == workers[a]);
        assert(after[j] == workers[b]);
    }
    assert forall|next: int| #[trigger] numbered(workers, next) implies numbered(after, next) by {
        assert forall|i: int| 0 <= i < after.len() implies (#[trigger] after[i]).worker < next by {
            let a = if i < at { i } else { i + 1 };
            assert(after[i] == workers[a]);
        }
    }
}

pub proof fn lemma_worker_at(workers: Seq<PeerModel>, worker: usize, from: int)
    requires
        0 <= from <= workers.len(),
    ensures
        from <= worker_at(workers, worker, from) <= workers.len(),
        worker_at(workers, worker, from) < workers.len() ==> workers[worker_at(
            workers,
            worker,
            from,
        )].worker == worker,
    decreases workers.len() - from,
{
    if from < workers.len() && workers[from].worker != worker {
        lemma_worker_at(workers, worker, from + 1);
    }
}

/// A worker stands at the same place in lists with the same numbers.
pub proof fn lemma_same_position(
    a: Seq<PeerModel>,
    b: Seq<PeerModel>,
    worker: usize,
    from: int,
)
    requires
        a.len() == b.len(),
        0 <= from <= a.len(),
        forall|k: int| 0 <= k < a.len() ==> (#[trigger] a[k]).worker == b[k].worker,
    ensures
        worker_at(a, worker, from) == worker_at(b, worker, from),
    decreases a.len() - from,
{
    if from < a.len() && a[from].worker != worker {
        lemma_same_position(a, b, worker, from + 1);
    }
}

} // verus!
