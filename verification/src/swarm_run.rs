//! A swarm at work: the turns that it takes, and what each thing that happens
//! to it leads to. Pieces that arrive are verified, then written, then flushed
//! in groups, and only then count as complete.

use crate::address::SocketAddress;
use crate::bitfield::{bit_is_set, has_bit};
use crate::budget::{BudgetAccount, DownloadBudget};
use crate::buffer::{contents, len};
use crate::discovery::{
    due_at, due_tiers, SearchClock, TrackerDue, TrackerSchedule, DHT_ANNOUNCE_NANOS,
    PEER_REANNOUNCE_NANOS, TRACKER_INTERVAL_MAX_NANOS, TRACKER_INTERVAL_MIN_NANOS,
};
use crate::error::{ActorError, Fault};
use crate::layout::{piece_count, piece_count_of};
use crate::metainfo::{tiers_view, MetaModel, Metainfo};
use crate::num::{clamp_of, max_of, min_of};
use crate::path::TorrentPath;
use crate::record::TorrentRecord;
use crate::swarm::{
    acts_view, all_returned, assigned_length, corrupt_text, ended, removed, returned, still_wanted,
    stored, taken, verified, with_worker, worker_at, Effect, Ending, PieceAssignment, SwarmAct,
    SwarmAction, SwarmModel, SwarmState,
};
use crate::swarm_events::{
    committed, noticed, ready_peer, surroundings, Notice, PeerWorkerEvent, Surroundings,
};
use crate::swarm_peers::{
    all_offered, joined, law_candidate_queue_stays_bounded, limit_enforced, lowest,
    productive_retained, slots_filled, SelfAddresses,
};
use crate::upload::{ReputationEntry, UploadPolicy};
use crate::verify::{checks_of, prepare_verification, Checks, PieceVerification};
use crate::worker::{Outcome, PieceResult};
use bytes::Bytes;
use vstd::prelude::*;
use vstd::slice::slice_to_vec;

verus! {

/// What happens to a swarm.
#[derive(Debug)]
pub enum SwarmLoopEvent {
    /// A peer that connected by itself joins the swarm.
    Incoming { address: SocketAddress },
    /// An assigned piece ended one way or the other.
    Complete { worker: usize, piece: usize, result: PieceResult },
    Worker(PeerWorkerEvent),
    /// The search for peers found some.
    Peers(Vec<SocketAddress>),
    /// A tracker asked to be left alone for a while.
    TrackerInterval { url: String, interval: u64 },
    /// The search for peers ended.
    SearchFinished(Option<ActorError>),
    /// Nothing more will be heard of the search for peers.
    SearchClosed,
    Verified { worker: usize, piece: usize, data: Bytes, outcome: Result<bool, ActorError> },
    /// A piece was written to these files, or could not be.
    Stored { worker: usize, piece: usize, bytes: u64, paths: Result<Vec<TorrentPath>, ActorError> },
    Flushed { pieces: Vec<usize>, error: Option<ActorError> },
    /// It is time to flush what was written.
    FlushTick,
    /// It is time to look at how productive the peers are.
    RetentionTick,
}

/// What happens to a swarm, by its values.
pub enum LoopNotice {
    Incoming(SocketAddress),
    Complete(usize, usize, Outcome),
    Worker(Notice),
    Peers(Seq<SocketAddress>),
    TrackerInterval(String, u64),
    SearchFinished(Option<Fault>),
    SearchClosed,
    Verified(usize, usize, Seq<u8>, Result<bool, Fault>),
    Stored(usize, usize, int, Result<Seq<Seq<Seq<char>>>, Fault>),
    Flushed(Seq<usize>, Option<Fault>),
    FlushTick,
    RetentionTick,
}

pub open spec fn outcome_view(result: PieceResult) -> Outcome {
    match result {
        PieceResult::Data(data) => Outcome::Data(contents(data)),
        PieceResult::Cancelled => Outcome::Cancelled,
        PieceResult::Failed(text) => Outcome::Failed(text@),
    }
}

pub open spec fn fault_view(error: Option<ActorError>) -> Option<Fault> {
    match error {
        Some(error) => Some(error@),
        None => None,
    }
}

pub open spec fn paths_view(paths: Seq<TorrentPath>) -> Seq<Seq<Seq<char>>> {
    Seq::new(paths.len(), |i: int| paths[i]@)
}

impl SwarmLoopEvent {
    pub open spec fn view(&self) -> LoopNotice {
        match *self {
            SwarmLoopEvent::Incoming { address } => LoopNotice::Incoming(address),
            SwarmLoopEvent::Complete { worker, piece, result } => LoopNotice::Complete(
                worker,
                piece,
                outcome_view(result),
            ),
            SwarmLoopEvent::Worker(event) => LoopNotice::Worker(event@),
            SwarmLoopEvent::Peers(peers) => LoopNotice::Peers(peers@),
            SwarmLoopEvent::TrackerInterval { url, interval } => LoopNotice::TrackerInterval(
                url,
                interval,
            ),
            SwarmLoopEvent::SearchFinished(error) => LoopNotice::SearchFinished(fault_view(error)),
            SwarmLoopEvent::SearchClosed => LoopNotice::SearchClosed,
            SwarmLoopEvent::Verified { worker, piece, data, outcome } => LoopNotice::Verified(
                worker,
                piece,
                contents(data),
                match outcome {
                    Ok(valid) => Ok(valid),
                    Err(error) => Err(error@),
                },
            ),
            SwarmLoopEvent::Stored { worker, piece, bytes, paths } => LoopNotice::Stored(
                worker,
                piece,
                bytes as int,
                match paths {
                    Ok(paths) => Ok(paths_view(paths@)),
                    Err(error) => Err(error@),
                },
            ),
            SwarmLoopEvent::Flushed { pieces, error } => LoopNotice::Flushed(
                pieces@,
                fault_view(error),
            ),
            SwarmLoopEvent::FlushTick => LoopNotice::FlushTick,
            SwarmLoopEvent::RetentionTick => LoopNotice::RetentionTick,
        }
    }
}

/// What has to be begun on behalf of a swarm.
#[derive(Debug)]
pub enum LoopTask {
    Nothing,
    /// Let the peer that connected by itself be the swarm's worker.
    Receive { worker: usize },
    Verify { worker: usize, piece: usize, data: Bytes, verification: PieceVerification },
    Write { worker: usize, piece: usize, data: Bytes },
    /// Make what was written to these files last.
    Flush { pieces: Vec<usize>, paths: Vec<TorrentPath> },
    /// Store how far the torrent has come.
    Persist,
    /// Look for more peers.
    Search { trackers: Vec<Vec<String>>, dht_announce: bool },
}

/// What has to be begun, by its values.
pub enum Task {
    Nothing,
    Receive(usize),
    Verify(usize, usize, Seq<u8>, Checks),
    Write(usize, usize, Seq<u8>),
    Flush(Seq<usize>, Seq<Seq<Seq<char>>>),
    Persist,
    Search(Seq<Seq<Seq<char>>>, bool),
}

impl LoopTask {
    pub open spec fn view(&self) -> Task {
        match *self {
            LoopTask::Nothing => Task::Nothing,
            LoopTask::Receive { worker } => Task::Receive(worker),
            LoopTask::Verify { worker, piece, data, verification } => Task::Verify(
                worker,
                piece,
                contents(data),
                verification@,
            ),
            LoopTask::Write { worker, piece, data } => Task::Write(worker, piece, contents(data)),
            LoopTask::Flush { pieces, paths } => Task::Flush(pieces@, paths_view(paths@)),
            LoopTask::Persist => Task::Persist,
            LoopTask::Search { trackers, dht_announce } => Task::Search(
                tiers_view(trackers@),
                dht_announce,
            ),
        }
    }
}

/// A swarm at work.
#[derive(Debug)]
pub struct SwarmRun {
    pub swarm: SwarmState,
    /// Whether a search for peers is going on.
    pub searching: bool,
    /// Why the last search for peers failed.
    pub discovery_error: Option<ActorError>,
    /// How many pieces are being verified, and written, and how many groups of
    /// pieces are being flushed.
    pub verifying: usize,
    pub storing: usize,
    pub flushing: usize,
    /// The pieces that were written and not flushed yet, and their files.
    pub pending_pieces: Vec<usize>,
    pub pending_paths: Vec<TorrentPath>,
    pub trackers: TrackerSchedule,
    pub clock: SearchClock,
}

/// A swarm at work, by its values.
pub struct RunModel {
    pub swarm: SwarmModel,
    pub searching: bool,
    pub fault: Option<Fault>,
    pub verifying: int,
    pub storing: int,
    pub flushing: int,
    pub pieces: Seq<usize>,
    pub paths: Seq<Seq<Seq<char>>>,
    pub due: Seq<TrackerDue>,
    pub clock: SearchClock,
}

/// What a turn looks at besides the swarm.
pub struct Circumstances {
    pub around: Surroundings,
    pub metainfo: MetaModel,
    pub downloaded: int,
}

/// A swarm after something happened, what has to be done and begun, what is on
/// record as complete and downloaded, and the fault that ends the swarm.
pub struct Turn {
    pub run: RunModel,
    pub acts: Seq<SwarmAct>,
    pub task: Task,
    pub completed: Seq<u8>,
    pub downloaded: int,
    pub fault: Option<Fault>,
}

/// A list of paths with one more, each once.
pub open spec fn with_path(
    paths: Seq<Seq<Seq<char>>>,
    path: Seq<Seq<char>>,
) -> Seq<Seq<Seq<char>>> {
    if paths.contains(path) {
        paths
    } else {
        paths.push(path)
    }
}

/// A list of paths with more of them, each once.
pub open spec fn with_paths(
    paths: Seq<Seq<Seq<char>>>,
    more: Seq<Seq<Seq<char>>>,
) -> Seq<Seq<Seq<char>>>
    decreases more.len(),
{
    if more.len() == 0 {
        paths
    } else {
        with_path(with_paths(paths, more.drop_last()), more.last())
    }
}

/// Nothing but the swarm changes, and nothing is begun.
pub open spec fn settled(r: RunModel, effect: Effect, c: Circumstances) -> Turn {
    Turn {
        run: RunModel { swarm: effect.swarm, ..r },
        acts: effect.acts,
        task: Task::Nothing,
        completed: c.around.completed,
        downloaded: c.downloaded,
        fault: None,
    }
}

/// A turn that a fault ends. What was done before stands.
pub open spec fn stopped(turn: Turn, fault: Fault) -> Turn {
    Turn { task: Task::Nothing, fault: Some(fault), ..turn }
}

pub open spec fn quiet(s: SwarmModel) -> Effect {
    Effect { swarm: s, acts: Seq::empty() }
}

/// An assigned piece ended. Data that is still wanted goes on to be verified.
pub open spec fn on_complete(
    r: RunModel,
    worker: usize,
    piece: usize,
    outcome: Outcome,
    c: Circumstances,
) -> Turn {
    match outcome {
        Outcome::Data(data) => {
            let complete = has_bit(c.around.completed, piece as int);
            let ending = Ending::Data { complete };
            let turn = settled(r, ended(r.swarm, worker, piece as int, ending), c);
            if !still_wanted(r.swarm, complete, piece as int) {
                turn
            } else {
                match checks_of(c.metainfo, piece as int, data.len() as int) {
                    Err(fault) => stopped(turn, fault),
                    Ok(checks) => Turn {
                        run: RunModel { verifying: r.verifying + 1, ..turn.run },
                        task: Task::Verify(worker, piece, data, checks),
                        ..turn
                    },
                }
            }
        },
        Outcome::Cancelled => settled(
            r,
            ended(r.swarm, worker, piece as int, Ending::Cancelled),
            c,
        ),
        Outcome::Failed(text) => settled(
            r,
            ended(r.swarm, worker, piece as int, Ending::Failed(text)),
            c,
        ),
    }
}

/// A piece was verified. One that is right and not being written already goes
/// on to be written.
pub open spec fn on_verified(
    r: RunModel,
    worker: usize,
    piece: usize,
    data: Seq<u8>,
    outcome: Result<bool, Fault>,
    c: Circumstances,
) -> Turn {
    let begun = RunModel { verifying: max_of(r.verifying - 1, 0), ..r };
    match outcome {
        Err(fault) => stopped(
            settled(begun, quiet(SwarmModel { schedule_dirty: true, ..r.swarm }), c),
            fault,
        ),
        Ok(valid) => {
            let effect = verified(r.swarm, worker, piece as int, data.len() as int, valid);
            let turn = settled(begun, effect, c);
            if valid && !r.swarm.writing.contains(piece) {
                Turn {
                    run: RunModel { storing: r.storing + 1, ..turn.run },
                    task: Task::Write(worker, piece, data),
                    ..turn
                }
            } else {
                turn
            }
        },
    }
}

/// A piece was written. It waits to be flushed.
pub open spec fn on_stored(
    r: RunModel,
    worker: usize,
    piece: usize,
    bytes: int,
    paths: Result<Seq<Seq<Seq<char>>>, Fault>,
    c: Circumstances,
) -> Turn {
    let begun = RunModel { storing: max_of(r.storing - 1, 0), ..r };
    match paths {
        Err(fault) => stopped(settled(begun, quiet(r.swarm), c), fault),
        Ok(paths) => {
            let turn = settled(
                RunModel {
                    pieces: r.pieces.push(piece),
                    paths: with_paths(r.paths, paths),
                    ..begun
                },
                stored(r.swarm, worker, piece as int, bytes, c.around.now),
                c,
            );
            if piece > u32::MAX {
                stopped(turn, Fault::Arithmetic)
            } else {
                turn
            }
        },
    }
}

/// A group of pieces was flushed: they count as complete from now on, up to one
/// that cannot be counted.
pub open spec fn on_flushed(
    r: RunModel,
    pieces: Seq<usize>,
    error: Option<Fault>,
    c: Circumstances,
) -> Turn {
    let begun = RunModel { flushing: max_of(r.flushing - 1, 0), ..r };
    match error {
        Some(fault) => stopped(settled(begun, quiet(r.swarm), c), fault),
        None => {
            let commit = committed(
                c.metainfo,
                r.swarm,
                c.around.completed,
                c.downloaded,
                pieces,
            );
            Turn {
                run: RunModel { swarm: commit.swarm, ..begun },
                acts: commit.acts,
                task: if commit.fault is None {
                    Task::Persist
                } else {
                    Task::Nothing
                },
                completed: commit.completed,
                downloaded: commit.downloaded,
                fault: commit.fault,
            }
        },
    }
}

/// What was written is flushed, one group at a time.
pub open spec fn on_flush_tick(r: RunModel, c: Circumstances) -> Turn {
    let turn = settled(r, quiet(r.swarm), c);
    if r.flushing > 0 || r.pieces.len() == 0 {
        turn
    } else {
        Turn {
            run: RunModel {
                flushing: r.flushing + 1,
                pieces: Seq::empty(),
                paths: Seq::empty(),
                ..r
            },
            task: Task::Flush(r.pieces, r.paths),
            ..turn
        }
    }
}

/// The least productive peer makes room, and from time to time peers are
/// looked for again.
pub open spec fn on_retention_tick(r: RunModel, c: Circumstances) -> Turn {
    let now = c.around.now;
    let turn = settled(r, productive_retained(r.swarm, c.around.entries, now), c);
    let announce = max_of(now - r.clock.last_dht_announce, 0) >= DHT_ANNOUNCE_NANOS;
    if r.searching || max_of(now - r.clock.last_discovery, 0) < PEER_REANNOUNCE_NANOS {
        turn
    } else {
        Turn {
            run: RunModel {
                searching: true,
                clock: SearchClock {
                    last_discovery: now,
                    last_dht_announce: if announce {
                        now
                    } else {
                        r.clock.last_dht_announce
                    },
                },
                ..turn.run
            },
            task: Task::Search(due_tiers(r.due, c.metainfo.trackers, now as int), announce),
            ..turn
        }
    }
}

/// When a tracker may be asked again.
pub open spec fn postponed(
    due: Seq<TrackerDue>,
    url: String,
    interval: u64,
    now: u64,
) -> Seq<TrackerDue> {
    let entry = TrackerDue {
        url,
        due: min_of(
            now + clamp_of(
                interval as int,
                TRACKER_INTERVAL_MIN_NANOS as int,
                TRACKER_INTERVAL_MAX_NANOS as int,
            ),
            u64::MAX as int,
        ) as u64,
    };
    let at = due_at(due, url@, 0);
    if at < due.len() {
        due.update(at, entry)
    } else {
        due.push(entry)
    }
}

/// What a swarm makes of what happens to it.
pub open spec fn turned(r: RunModel, notice: LoopNotice, c: Circumstances) -> Turn {
    let turn = settled(r, quiet(r.swarm), c);
    match notice {
        LoopNotice::Incoming(address) => Turn {
            run: RunModel { swarm: joined(r.swarm, address, c.around.now), ..r },
            task: Task::Receive(r.swarm.next_worker as usize),
            ..turn
        },
        LoopNotice::Complete(worker, piece, outcome) => on_complete(r, worker, piece, outcome, c),
        LoopNotice::Worker(event) => match noticed(r.swarm, event, c.around) {
            Ok(effect) => settled(r, effect, c),
            Err(fault) => stopped(turn, fault),
        },
        LoopNotice::Peers(peers) => settled(
            r,
            quiet(all_offered(r.swarm, c.around.own, peers, false, c.around.now)),
            c,
        ),
        LoopNotice::TrackerInterval(url, interval) => Turn {
            run: RunModel { due: postponed(r.due, url, interval, c.around.now), ..r },
            ..turn
        },
        LoopNotice::SearchFinished(fault) => Turn {
            run: RunModel {
                searching: false,
                fault: if fault is Some {
                    fault
                } else {
                    r.fault
                },
                ..r
            },
            ..turn
        },
        LoopNotice::SearchClosed => Turn { run: RunModel { searching: false, ..r }, ..turn },
        LoopNotice::Verified(worker, piece, data, outcome) => on_verified(
            r,
            worker,
            piece,
            data,
            outcome,
            c,
        ),
        LoopNotice::Stored(worker, piece, bytes, paths) => on_stored(
            r,
            worker,
            piece,
            bytes,
            paths,
            c,
        ),
        LoopNotice::Flushed(pieces, error) => on_flushed(r, pieces, error, c),
        LoopNotice::FlushTick => on_flush_tick(r, c),
        LoopNotice::RetentionTick => on_retention_tick(r, c),
    }
}

/// Whether anything is still on its way to disk.
pub open spec fn has_pending_io(r: RunModel) -> bool {
    r.storing > 0 || r.verifying > 0 || r.flushing > 0 || r.pieces.len() > 0
}

/// How a turn begins.
#[derive(Debug)]
pub enum TurnStart {
    /// The torrent was cancelled: the swarm is shut down.
    Cancelled,
    /// Everything is there and on disk: the workers are stopped.
    Finished,
    /// The swarm goes on; pieces are assigned if something changed.
    Go { schedule: bool },
}

/// Whether nobody is left to get pieces from.
pub open spec fn is_exhausted(r: RunModel) -> bool {
    &&& !r.searching
    &&& !has_pending_io(r)
    &&& r.swarm.candidates.len() == 0
    &&& r.swarm.connecting == 0
    &&& r.swarm.workers.len() == 0
}

/// Why a swarm that nobody is left of ends: because no peers could be found,
/// or because of what the last peer did.
pub open spec fn exhaustion_fault(r: RunModel) -> Fault {
    match r.fault {
        Some(fault) => fault,
        None => match r.swarm.last_error {
            Some(text) => Fault::Peer(text),
            None => Fault::NoPeers,
        },
    }
}

impl SwarmRun {
    pub open spec fn model(&self, shared: DownloadBudget) -> RunModel {
        RunModel {
            swarm: self.swarm.model(shared),
            searching: self.searching,
            fault: fault_view(self.discovery_error),
            verifying: self.verifying as int,
            storing: self.storing as int,
            flushing: self.flushing as int,
            pieces: self.pending_pieces@,
            paths: paths_view(self.pending_paths@),
            due: self.trackers.entries@,
            clock: self.clock,
        }
    }

    pub open spec fn wf(&self) -> bool {
        self.swarm.wf() && self.trackers.wf()
    }

    /// Whether anything is still on its way to disk.
    pub fn pending_io(&self) -> (result: bool)
        ensures
            forall|shared: DownloadBudget| result == #[trigger] has_pending_io(self.model(shared)),
    {
        self.storing > 0 || self.verifying > 0 || self.flushing > 0 || self.pending_pieces.len()
            > 0
    }

    /// Begins a turn: `remaining` is how many pieces are still to be had.
    pub fn begin_turn(
        &mut self,
        cancelled: bool,
        remaining: usize,
        now: u64,
        actions: &mut Vec<SwarmAction>,
        shared: &DownloadBudget,
    ) -> (start: TurnStart)
        requires
            old(self).wf(),
            old(self).swarm.next_worker + old(self).swarm.candidates@.len() <= usize::MAX,
        ensures
            final(self).wf(),
            ({
                let r = old(self).model(*shared);
                let filled = slots_filled(r.swarm, now);
                match start {
                    TurnStart::Cancelled => cancelled && *final(self) == *old(self)
                        && final(actions)@ == old(actions)@,
                    TurnStart::Finished => !cancelled && remaining == 0 && !has_pending_io(r)
                        && *final(self) == *old(self) && final(actions)@ == old(actions)@,
                    TurnStart::Go { schedule } => {
                        &&& !cancelled && (remaining > 0 || has_pending_io(r))
                        &&& schedule == filled.swarm.schedule_dirty
                        &&& final(self).model(*shared) == (RunModel {
                            swarm: SwarmModel { schedule_dirty: false, ..filled.swarm },
                            ..r
                        })
                        &&& acts_view(final(actions)@) == acts_view(old(actions)@) + filled.acts
                    },
                }
            }),
    {
        if cancelled {
            return TurnStart::Cancelled;
        }
        let pending: bool = self.pending_io();
        assert(pending == has_pending_io(self.model(*shared)));
        if remaining == 0 && !pending {
            return TurnStart::Finished;
        }
        self.swarm.fill_peer_slots(now, actions, shared);
        let schedule: bool = self.swarm.schedule_dirty;
        self.swarm.schedule_dirty = false;
        TurnStart::Go { schedule }
    }

    /// Why the swarm ends because nobody is left, if so. It is then shut down.
    pub fn exhaustion(&mut self) -> (result: Option<ActorError>)
        ensures
            final(self).swarm == old(self).swarm,
            forall|shared: DownloadBudget|
                ({
                    let r = #[trigger] old(self).model(shared);
                    match result {
                        Some(error) => is_exhausted(r) && error@ == exhaustion_fault(r),
                        None => !is_exhausted(r) && *final(self) == *old(self),
                    }
                }),
    {
        let pending: bool = self.pending_io();
        if self.searching || pending || self.swarm.candidates.len() > 0 || self.swarm.connecting
            > 0 || self.swarm.workers.len() > 0 {
            assert forall|shared: DownloadBudget| !is_exhausted(#[trigger] self.model(shared)) by {
                assert(pending == has_pending_io(self.model(shared)));
            }
            return None;
        }
        let ghost before = *self;
        let error = match self.discovery_error.take() {
            Some(error) => error,
            None => match &self.swarm.last_error {
                Some(text) => ActorError::Peer(text.clone()),
                None => ActorError::NoPeers,
            },
        };
        assert forall|shared: DownloadBudget| is_exhausted(#[trigger] before.model(shared))
            && error@ == exhaustion_fault(before.model(shared)) by {
            assert(pending == has_pending_io(before.model(shared)));
        }
        Some(error)
    }

    fn add_path(&mut self, path: TorrentPath)
        ensures
            final(self).swarm == old(self).swarm,
            final(self).searching == old(self).searching,
            final(self).discovery_error == old(self).discovery_error,
            final(self).verifying == old(self).verifying,
            final(self).storing == old(self).storing,
            final(self).flushing == old(self).flushing,
            final(self).pending_pieces == old(self).pending_pieces,
            final(self).trackers == old(self).trackers,
            final(self).clock == old(self).clock,
            paths_view(final(self).pending_paths@) == with_path(
                paths_view(old(self).pending_paths@),
                path@,
            ),
    {
        let ghost before = paths_view(self.pending_paths@);
        let mut i: usize = 0;
        while i < self.pending_paths.len()
            invariant
                *self == *old(self),
                before == paths_view(self.pending_paths@),
                i <= self.pending_paths@.len(),
                forall|k: int| 0 <= k < i ==> before[k] != path@,
            decreases self.pending_paths@.len() - i,
        {
            if self.pending_paths[i].same(&path) {
                assert(before[i as int] == path@);
                return ;
            }
            i += 1;
        }
        assert(!before.contains(path@));
        self.pending_paths.push(path);
        assert(paths_view(self.pending_paths@) =~= before.push(path@));
    }

    fn add_paths(&mut self, paths: Vec<TorrentPath>)
        ensures
            final(self).swarm == old(self).swarm,
            final(self).searching == old(self).searching,
            final(self).discovery_error == old(self).discovery_error,
            final(self).verifying == old(self).verifying,
            final(self).storing == old(self).storing,
            final(self).flushing == old(self).flushing,
            final(self).pending_pieces == old(self).pending_pieces,
            final(self).trackers == old(self).trackers,
            final(self).clock == old(self).clock,
            paths_view(final(self).pending_paths@) == with_paths(
                paths_view(old(self).pending_paths@),
                paths_view(paths@),
            ),
    {
        let ghost before = paths_view(self.pending_paths@);
        let ghost more = paths_view(paths@);
        let mut i: usize = 0;
        assert(more.take(0) =~= Seq::empty());
        while i < paths.len()
            invariant
                more == paths_view(paths@),
                i <= paths@.len(),
                self.swarm == old(self).swarm,
                self.searching == old(self).searching,
                self.discovery_error == old(self).discovery_error,
                self.verifying == old(self).verifying,
                self.storing == old(self).storing,
                self.flushing == old(self).flushing,
                self.pending_pieces == old(self).pending_pieces,
                self.trackers == old(self).trackers,
                self.clock == old(self).clock,
                paths_view(self.pending_paths@) == with_paths(before, more.take(i as int)),
            decreases paths@.len() - i,
        {
            proof {
                assert(more.take(i + 1).drop_last() =~= more.take(i as int));
                assert(more.take(i + 1).last() == paths@[i as int]@);
            }
            self.add_path(paths[i].clone());
            i += 1;
        }
        assert(more.take(more.len() as int) =~= more);
    }

    /// What the swarm makes of what happens to it. An error ends it; what was
    /// done before the error stands.
    #[verifier::rlimit(40)]
    pub fn handle(
        &mut self,
        shared: &mut DownloadBudget,
        own: &SelfAddresses,
        policy: &UploadPolicy,
        metainfo: &Metainfo,
        record: &mut TorrentRecord,
        event: SwarmLoopEvent,
        now: u64,
        actions: &mut Vec<SwarmAction>,
    ) -> (result: Result<LoopTask, ActorError>)
        requires
            old(self).wf(),
            metainfo.wf(),
            old(self).swarm.next_worker < usize::MAX,
            old(self).verifying < usize::MAX,
            old(self).storing < usize::MAX,
        ensures
            final(self).wf(),
            final(record).same_but_progress(*old(record)),
            final(record).state == old(record).state,
            ({
                let c = Circumstances {
                    around: surroundings(*own, *policy, old(record).completed_pieces@, now),
                    metainfo: metainfo@,
                    downloaded: old(record).downloaded as int,
                };
                let turn = turned(old(self).model(*old(shared)), event@, c);
                &&& match result {
                    Ok(task) => turn.fault is None && task@ == turn.task && (
                    task matches LoopTask::Verify { verification, .. } ==> verification.wf()),
                    Err(error) => turn.fault == Some(error@),
                }
                &&& final(self).model(*final(shared)) == turn.run
                &&& acts_view(final(actions)@) == acts_view(old(actions)@) + turn.acts
                &&& final(record).completed_pieces@ == turn.completed
                &&& final(record).downloaded == turn.downloaded
            }),
    {
        let ghost said = acts_view(actions@);
        assert(said + Seq::<SwarmAct>::empty() =~= said);
        match event {
            SwarmLoopEvent::Incoming { address } => {
                let worker: usize = self.swarm.join(address, now, shared);
                Ok(LoopTask::Receive { worker })
            },
            SwarmLoopEvent::Complete { worker, piece, result } => {
                self.piece_ended(
                    shared,
                    metainfo,
                    record.completed_pieces.as_slice(),
                    worker,
                    piece,
                    result,
                    actions,
                )
            },
            SwarmLoopEvent::Worker(event) => {
                match self.swarm.handle_worker_event(
                    shared,
                    own,
                    policy,
                    record.completed_pieces.as_slice(),
                    event,
                    now,
                    actions,
                ) {
                    Ok(()) => Ok(LoopTask::Nothing),
                    Err(error) => Err(error),
                }
            },
            SwarmLoopEvent::Peers(peers) => {
                self.swarm.enqueue_peer_candidates(own, &peers, false, now, shared);
                Ok(LoopTask::Nothing)
            },
            SwarmLoopEvent::TrackerInterval { url, interval } => {
                self.trackers.postpone(url, interval, now);
                Ok(LoopTask::Nothing)
            },
            SwarmLoopEvent::SearchFinished(error) => {
                if let Some(error) = error {
                    self.discovery_error = Some(error);
                }
                self.searching = false;
                Ok(LoopTask::Nothing)
            },
            SwarmLoopEvent::SearchClosed => {
                self.searching = false;
                Ok(LoopTask::Nothing)
            },
            SwarmLoopEvent::Verified { worker, piece, data, outcome } => {
                self.verifying = self.verifying.saturating_sub(1);
                let valid: bool = match outcome {
                    Ok(valid) => valid,
                    Err(error) => {
                        self.swarm.schedule_dirty = true;
                        return Err(error);
                    },
                };
                let size: usize = len(&data);
                if self.swarm.accept_verified_piece(shared, worker, piece, size, valid, actions) {
                    self.storing = self.storing + 1;
                    Ok(LoopTask::Write { worker, piece, data })
                } else {
                    Ok(LoopTask::Nothing)
                }
            },
            SwarmLoopEvent::Stored { worker, piece, bytes, paths } => {
                self.storing = self.storing.saturating_sub(1);
                let paths = match paths {
                    Ok(paths) => paths,
                    Err(error) => {
                        return Err(error);
                    },
                };
                self.add_paths(paths);
                self.pending_pieces.push(piece);
                match self.swarm.stage_stored_piece(shared, worker, piece, bytes, now, actions) {
                    Ok(()) => Ok(LoopTask::Nothing),
                    Err(error) => Err(error),
                }
            },
            SwarmLoopEvent::Flushed { pieces, error } => {
                self.flushing = self.flushing.saturating_sub(1);
                if let Some(error) = error {
                    return Err(error);
                }
                match self.swarm.commit_flushed_pieces(&pieces, metainfo, record, actions, shared) {
                    Ok(()) => Ok(LoopTask::Persist),
                    Err(error) => Err(error),
                }
            },
            SwarmLoopEvent::FlushTick => {
                if self.flushing > 0 || self.pending_pieces.len() == 0 {
                    return Ok(LoopTask::Nothing);
                }
                let mut pieces: Vec<usize> = Vec::new();
                let mut paths: Vec<TorrentPath> = Vec::new();
                std::mem::swap(&mut pieces, &mut self.pending_pieces);
                std::mem::swap(&mut paths, &mut self.pending_paths);
                self.flushing = self.flushing + 1;
                assert(self.pending_pieces@ =~= Seq::empty());
                assert(paths_view(self.pending_paths@) =~= Seq::empty());
                Ok(LoopTask::Flush { pieces, paths })
            },
            SwarmLoopEvent::RetentionTick => {
                self.swarm.retain_productive_peers(shared, policy, now, actions);
                match self.clock.search_again(self.searching, now) {
                    Some(dht_announce) => {
                        self.searching = true;
                        Ok(
                            LoopTask::Search {
                                trackers: self.trackers.due_tracker_tiers(&metainfo.trackers, now),
                                dht_announce,
                            },
                        )
                    },
                    None => Ok(LoopTask::Nothing),
                }
            },
        }
    }

    fn piece_ended(
        &mut self,
        shared: &mut DownloadBudget,
        metainfo: &Metainfo,
        completed: &[u8],
        worker: usize,
        piece: usize,
        result: PieceResult,
        actions: &mut Vec<SwarmAction>,
    ) -> (outcome: Result<LoopTask, ActorError>)
        requires
            old(self).wf(),
            metainfo.wf(),
            old(self).verifying < usize::MAX,
        ensures
            final(self).wf(),
            forall|c: Circumstances|
                c.metainfo == metainfo@ && c.around.completed == completed@ ==> {
                    let turn = #[trigger] on_complete(
                        old(self).model(*old(shared)),
                        worker,
                        piece,
                        outcome_view(result),
                        c,
                    );
                    &&& match outcome {
                        Ok(task) => turn.fault is None && task@ == turn.task && (
                        task matches LoopTask::Verify { verification, .. } ==> verification.wf()),
                        Err(error) => turn.fault == Some(error@),
                    }
                    &&& final(self).model(*final(shared)) == turn.run
                    &&& acts_view(final(actions)@) == acts_view(old(actions)@) + turn.acts
                },
    {
        match result {
            PieceResult::Data(data) => {
                if !self.swarm.piece_delivered(shared, completed, worker, piece, actions) {
                    return Ok(LoopTask::Nothing);
                }
                match prepare_verification(metainfo, piece, len(&data)) {
                    Ok(verification) => {
                        self.verifying = self.verifying + 1;
                        Ok(LoopTask::Verify { worker, piece, data, verification })
                    },
                    Err(error) => Err(error),
                }
            },
            PieceResult::Cancelled => {
                self.swarm.piece_cancelled(shared, worker, piece, actions);
                Ok(LoopTask::Nothing)
            },
            PieceResult::Failed(error) => {
                self.swarm.piece_failed(shared, worker, piece, error, actions);
                Ok(LoopTask::Nothing)
            },
        }
    }
}

/// The pieces below `n` that are complete already.
pub open spec fn done_below(completed: Seq<u8>, n: int) -> Seq<SwarmAct>
    decreases n,
{
    if n <= 0 {
        Seq::empty()
    } else if has_bit(completed, n - 1) {
        done_below(completed, n - 1).push(SwarmAct::MarkComplete(n - 1))
    } else {
        done_below(completed, n - 1)
    }
}

/// A swarm that nobody belongs to yet.
pub open spec fn empty_swarm(
    record: TorrentRecord,
    pieces: int,
    peer_limit: int,
    shared: DownloadBudget,
) -> SwarmModel {
    SwarmModel {
        workers: Seq::empty(),
        held: 0,
        used: shared.used as int,
        limit: shared.limit as int,
        schedule_dirty: true,
        connecting: 0,
        last_error: None,
        writing: Seq::empty(),
        candidates: Seq::empty(),
        known: Seq::empty(),
        next_worker: 0,
        piece_count: pieces,
        completed: record.completed_pieces@,
        torrent_id: record.id,
        peer_limit,
    }
}

/// A swarm that sets to work.
pub open spec fn started(swarm: SwarmModel, searching: bool, now: u64) -> RunModel {
    RunModel {
        swarm,
        searching,
        fault: None,
        verifying: 0,
        storing: 0,
        flushing: 0,
        pieces: Seq::empty(),
        paths: Seq::empty(),
        due: Seq::empty(),
        clock: SearchClock { last_discovery: now, last_dht_announce: now },
    }
}

impl SwarmRun {
    /// Sets a swarm up with the first peers to connect to. What is complete
    /// already is not picked.
    pub fn start(
        peers: &Vec<SocketAddress>,
        searching: bool,
        own: &SelfAddresses,
        metainfo: &Metainfo,
        record: &TorrentRecord,
        peer_limit: usize,
        now: u64,
        actions: &mut Vec<SwarmAction>,
        shared: &DownloadBudget,
    ) -> (result: Result<SwarmRun, ActorError>)
        requires
            metainfo.wf(),
        ensures
            match (result, piece_count_of(metainfo@)) {
                (Ok(run), Ok(pieces)) => {
                    let filled = slots_filled(
                        all_offered(
                            empty_swarm(*record, pieces, peer_limit as int, *shared),
                            *own,
                            peers@,
                            false,
                            now,
                        ),
                        now,
                    );
                    &&& run.wf()
                    &&& run.model(*shared) == started(filled.swarm, searching, now)
                    &&& acts_view(final(actions)@) == acts_view(old(actions)@) + done_below(
                        record.completed_pieces@,
                        pieces,
                    ) + filled.acts
                },
                (Err(error), Err(fault)) => error@ == fault && final(actions)@ == old(actions)@,
                _ => false,
            },
    {
        let pieces: usize = match piece_count(metainfo) {
            Ok(pieces) => pieces,
            Err(error) => {
                return Err(error);
            },
        };
        let ghost said = acts_view(actions@);
        let mut index: usize = 0;
        assert(acts_view(actions@) =~= said + done_below(record.completed_pieces@, 0));
        while index < pieces
            invariant
                index <= pieces,
                acts_view(actions@) == said + done_below(
                    record.completed_pieces@,
                    index as int,
                ),
            decreases pieces - index,
        {
            let ghost before = acts_view(actions@);
            if bit_is_set(record.completed_pieces.as_slice(), index) {
                actions.push(SwarmAction::MarkComplete { piece: index });
                assert(acts_view(actions@) =~= before.push(SwarmAct::MarkComplete(index as int)));
                assert(acts_view(actions@) =~= said + done_below(
                    record.completed_pieces@,
                    index + 1,
                ));
            }
            index += 1;
        }
        let mut swarm = SwarmState {
            workers: Vec::new(),
            budget: BudgetAccount::new(),
            schedule_dirty: true,
            connecting: 0,
            last_error: None,
            writing: Vec::new(),
            candidates: Vec::new(),
            known_candidates: Vec::new(),
            next_worker: 0,
            piece_count: pieces,
            completed_pieces: slice_to_vec(record.completed_pieces.as_slice()),
            torrent_id: record.id,
            peer_limit,
        };
        proof {
            let model = swarm.model(*shared);
            assert(model.workers =~= Seq::empty());
            assert(model.writing =~= Seq::empty());
            assert(model.candidates =~= Seq::empty());
            assert(model.known =~= Seq::empty());
            assert(model == empty_swarm(*record, pieces as int, peer_limit as int, *shared));
            law_candidate_queue_stays_bounded(model, *own, peers@, false, now);
        }
        swarm.enqueue_peer_candidates(own, peers, false, now, shared);
        swarm.fill_peer_slots(now, actions, shared);
        let run = SwarmRun {
            swarm,
            searching,
            discovery_error: None,
            verifying: 0,
            storing: 0,
            flushing: 0,
            pending_pieces: Vec::new(),
            pending_paths: Vec::new(),
            trackers: TrackerSchedule::new(),
            clock: SearchClock { last_discovery: now, last_dht_announce: now },
        };
        proof {
            let model = run.model(*shared);
            assert(model.pieces =~= Seq::empty());
            assert(model.paths =~= Seq::empty());
            assert(model.due =~= Seq::empty());
        }
        Ok(run)
    }
}

proof fn lemma_returned_keeps(s: SwarmModel, assignments: Seq<PieceAssignment>)
    ensures
        all_returned(s, assignments).completed == s.completed,
        all_returned(s, assignments).writing == s.writing,
        all_returned(s, assignments).workers == s.workers,
    decreases assignments.len(),
{
    if assignments.len() > 0 {
        lemma_returned_keeps(s, assignments.drop_last());
    }
}

pub proof fn lemma_removed_keeps(s: SwarmModel, worker: usize)
    ensures
        removed(s, worker).swarm.completed == s.completed,
        removed(s, worker).swarm.writing == s.writing,
{
    let at = worker_at(s.workers, worker, 0);
    if at < s.workers.len() {
        lemma_returned_keeps(s, s.workers[at].assignments);
    }
}

proof fn lemma_limit_keeps(s: SwarmModel, entries: Seq<ReputationEntry>, now: u64)
    ensures
        limit_enforced(s, entries, now).swarm.completed == s.completed,
        limit_enforced(s, entries, now).swarm.writing == s.writing,
    decreases s.workers.len(),
{
    if s.workers.len() > s.peer_limit {
        if let Some(at) = lowest(s, entries, true, now) {
            let gone = removed(s, s.workers[at].worker);
            lemma_removed_keeps(s, s.workers[at].worker);
            if gone.swarm.workers.len() < s.workers.len() {
                lemma_limit_keeps(gone.swarm, entries, now);
            }
        }
    }
}

pub proof fn lemma_offered_keeps(
    s: SwarmModel,
    own: SelfAddresses,
    addresses: Seq<SocketAddress>,
    force_utp: bool,
    now: u64,
)
    ensures
        all_offered(s, own, addresses, force_utp, now).completed == s.completed,
        all_offered(s, own, addresses, force_utp, now).writing == s.writing,
    decreases addresses.len(),
{
    if addresses.len() > 0 {
        lemma_offered_keeps(s, own, addresses.drop_last(), force_utp, now);
    }
}

proof fn lemma_noticed_keeps(s: SwarmModel, notice: Notice, around: Surroundings)
    requires
        noticed(s, notice, around) is Ok,
    ensures
        noticed(s, notice, around)->Ok_0.swarm.completed == s.completed,
        noticed(s, notice, around)->Ok_0.swarm.writing == s.writing,
{
    match notice {
        Notice::Ready(worker, peer_id, bitfield, peers) => {
            let at = worker_at(s.workers, worker, 0);
            let settled = SwarmModel {
                connecting: max_of(s.connecting - 1, 0),
                schedule_dirty: true,
                ..s
            };
            let known = if at < s.workers.len() {
                with_worker(
                    settled,
                    at,
                    ready_peer(s, s.workers[at], peer_id, bitfield, around),
                )
            } else {
                settled
            };
            lemma_offered_keeps(known, around.own, peers, false, around.now);
            lemma_limit_keeps(
                all_offered(known, around.own, peers, false, around.now),
                around.entries,
                around.now,
            );
        },
        Notice::Gone(worker, error) => {
            let at = worker_at(s.workers, worker, 0);
            let settled = if at < s.workers.len() && s.workers[at].bitfield is None {
                SwarmModel { connecting: max_of(s.connecting - 1, 0), ..s }
            } else {
                s
            };
            lemma_removed_keeps(settled, worker);
        },
        Notice::Peers(worker, peers) => {
            lemma_offered_keeps(s, around.own, peers, false, around.now);
        },
        Notice::HolePunch(worker, address) => {
            lemma_offered_keeps(s, around.own, seq![address], true, around.now);
        },
        _ => {},
    }
}

/// Whether a notice says that a piece was verified and found right.
pub open spec fn is_approval(notice: LoopNotice) -> bool {
    notice matches LoopNotice::Verified(_, _, _, outcome) && outcome == Ok::<bool, Fault>(true)
}

/// Whether a notice says that pieces were flushed without an error.
pub open spec fn is_flush(notice: LoopNotice) -> bool {
    notice matches LoopNotice::Flushed(_, error) && error is None
}

proof fn lemma_turn_keeps(r: RunModel, notice: LoopNotice, c: Circumstances)
    requires
        !is_flush(notice),
    ensures
        ({
            let turn = turned(r, notice, c);
            &&& turn.run.swarm.completed == r.swarm.completed
            &&& !is_approval(notice) ==> turn.run.swarm.writing == r.swarm.writing
            &&& turn.completed == c.around.completed
            &&& turn.downloaded == c.downloaded
        }),
{
    match notice {
        LoopNotice::Complete(worker, piece, outcome) => {
            if let Outcome::Failed(text) = outcome {
                let reserved = assigned_length(r.swarm, worker, piece as int);
                let noted = SwarmModel {
                    last_error: Some(text),
                    ..returned(
                        SwarmModel {
                            schedule_dirty: true,
                            ..taken(r.swarm, worker, piece as int)
                        },
                        reserved,
                    )
                };
                lemma_removed_keeps(noted, worker);
            }
        },
        LoopNotice::Worker(event) => {
            if noticed(r.swarm, event, c.around) is Ok {
                lemma_noticed_keeps(r.swarm, event, c.around);
            }
        },
        LoopNotice::Peers(peers) => {
            lemma_offered_keeps(r.swarm, c.around.own, peers, false, c.around.now);
        },
        LoopNotice::Verified(worker, piece, data, outcome) => {
            let noted = SwarmModel {
                last_error: Some(corrupt_text(piece as int)),
                ..returned(
                    SwarmModel { schedule_dirty: true, ..r.swarm },
                    data.len() as int,
                )
            };
            lemma_removed_keeps(noted, worker);
        },
        LoopNotice::RetentionTick => {
            if let Some(at) = lowest(r.swarm, c.around.entries, false, c.around.now) {
                lemma_removed_keeps(r.swarm, r.swarm.workers[at].worker);
            }
        },
        _ => {},
    }
}

/// No piece counts as complete, and no byte as downloaded, before the piece was
/// flushed without an error.
pub proof fn law_progress_needs_a_flush(r: RunModel, notice: LoopNotice, c: Circumstances)
    requires
        !is_flush(notice),
    ensures
        ({
            let turn = turned(r, notice, c);
            &&& turn.run.swarm.completed == r.swarm.completed
            &&& turn.completed == c.around.completed
            &&& turn.downloaded == c.downloaded
        }),
{
    lemma_turn_keeps(r, notice, c);
}

/// A piece is claimed for writing only once it was verified and found right,
/// and let go of only once it was flushed without an error.
pub proof fn law_claims_follow_verification(r: RunModel, notice: LoopNotice, c: Circumstances)
    ensures
        ({
            let writing = turned(r, notice, c).run.swarm.writing;
            &&& !is_approval(notice) && !is_flush(notice) ==> writing == r.swarm.writing
            &&& notice matches LoopNotice::Verified(_, piece, _, outcome) ==> outcome == Ok::<
                bool,
                Fault,
            >(true) ==> writing == if r.swarm.writing.contains(piece) {
                r.swarm.writing
            } else {
                r.swarm.writing.push(piece)
            }
        }),
{
    if !is_flush(notice) {
        lemma_turn_keeps(r, notice, c);
    }
}

/// Only data that was verified and found right is ever written.
pub proof fn law_only_verified_data_is_written(r: RunModel, notice: LoopNotice, c: Circumstances)
    requires
        turned(r, notice, c).task is Write,
    ensures
        ({
            let task = turned(r, notice, c).task;
            notice matches LoopNotice::Verified(worker, piece, data, outcome) && outcome == Ok::<
                bool,
                Fault,
            >(true) && task == Task::Write(worker, piece, data)
        }),
{
}

/// A failed verification, write or flush ends the swarm with that failure.
pub proof fn law_failures_end_the_swarm(
    r: RunModel,
    c: Circumstances,
    worker: usize,
    piece: usize,
    fault: Fault,
)
    ensures
        forall|data: Seq<u8>|
            #[trigger] turned(
                r,
                LoopNotice::Verified(worker, piece, data, Err(fault)),
                c,
            ).fault == Some(fault),
        forall|bytes: int|
            #[trigger] turned(
                r,
                LoopNotice::Stored(worker, piece, bytes, Err(fault)),
                c,
            ).fault == Some(fault),
        forall|pieces: Seq<usize>|
            #[trigger] turned(r, LoopNotice::Flushed(pieces, Some(fault)), c).fault == Some(fault),
{
}

/// Everything that was written is flushed in the next group, once, and no two
/// groups are flushed at a time.
pub proof fn law_every_written_piece_is_flushed(r: RunModel, c: Circumstances)
    requires
        0 <= r.flushing <= 1,
    ensures
        ({
            let turn = turned(r, LoopNotice::FlushTick, c);
            &&& turn.run.flushing <= 1
            &&& r.flushing == 0 && r.pieces.len() > 0 ==> turn.task == Task::Flush(
                r.pieces,
                r.paths,
            ) && turn.run.pieces.len() == 0 && turn.run.paths.len() == 0
            &&& r.flushing == 1 ==> turn.task is Nothing && turn.run == r
        }),
{
}

} // verus!
