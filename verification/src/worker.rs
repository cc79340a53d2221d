//! What a connected peer's worker does with each thing that happens to it.

use crate::buffer::contents;
use crate::error::{fault_text, join, ActorError, Fault};
use crate::num::{max_of, min_of, saturating_mul_u64};
use crate::pipeline::{
    buffer_fits, buffers_fit, filled, of_piece, queue_view, queued_at, received, unrequested,
    without_piece, BlockRequest, DownloadPipeline, PipelineModel, Queued, QueuedPiece,
};
use crate::rates::BLOCK_BYTES;
use bytes::Bytes;
use vstd::prelude::*;
use vstd::string::StringExecFns;

verus! {

/// What became of an assigned piece.
#[derive(Debug)]
pub enum PieceResult {
    Data(Bytes),
    Cancelled,
    Failed(String),
}

/// What a worker tells the swarm.
#[derive(Debug)]
pub enum WorkerReport {
    Complete { piece: usize, result: PieceResult },
    Gone { error: String },
    ChokeState { choked: bool },
    /// The worker's request pipeline is about to run dry.
    NeedPieces { rate_bytes_per_second: u64 },
}

/// What a worker does.
#[derive(Debug)]
pub enum WorkerAction {
    Report(WorkerReport),
    /// Take back a request.
    SendCancel(BlockRequest),
    /// Tell the peer that a piece is complete, and let it be uploaded.
    Announce { piece: u32 },
    Stop,
}

/// What happens to a worker.
#[derive(Debug)]
pub enum WorkerInput {
    Download { piece: usize, length: usize },
    Cancel { piece: usize },
    Have { index: u32 },
    Shutdown,
    Block { index: u32, begin: u32, block: Bytes },
    Choke,
    Unchoke,
    Disconnected,
    Failed(String),
    /// Nothing could be received in time, or a message could not be sent.
    Broken(ActorError),
}

/// What became of an assigned piece, by its values.
pub enum Outcome {
    Data(Seq<u8>),
    Cancelled,
    Failed(Seq<char>),
}

/// What a worker does, by its values.
pub enum Act {
    Complete(int, Outcome),
    Gone(Seq<char>),
    ChokeState(bool),
    NeedPieces(u64),
    SendCancel(BlockRequest),
    Announce(u32),
    Stop,
}

/// What happens to a worker, by its values.
pub enum Occurrence {
    Download(int, int),
    Cancel(int),
    Have(u32),
    Shutdown,
    Block(u32, u32, Seq<u8>),
    Choke,
    Unchoke,
    Disconnected,
    Failed(Seq<char>),
    Broken(Fault),
}

impl WorkerAction {
    pub open spec fn view(&self) -> Act {
        match *self {
            WorkerAction::Report(WorkerReport::Complete { piece, result }) => Act::Complete(
                piece as int,
                match result {
                    PieceResult::Data(data) => Outcome::Data(contents(data)),
                    PieceResult::Cancelled => Outcome::Cancelled,
                    PieceResult::Failed(text) => Outcome::Failed(text@),
                },
            ),
            WorkerAction::Report(WorkerReport::Gone { error }) => Act::Gone(error@),
            WorkerAction::Report(WorkerReport::ChokeState { choked }) => Act::ChokeState(choked),
            WorkerAction::Report(WorkerReport::NeedPieces { rate_bytes_per_second }) =>
                Act::NeedPieces(rate_bytes_per_second),
            WorkerAction::SendCancel(request) => Act::SendCancel(request),
            WorkerAction::Announce { piece } => Act::Announce(piece),
            WorkerAction::Stop => Act::Stop,
        }
    }
}

pub open spec fn actions_view(actions: Seq<WorkerAction>) -> Seq<Act> {
    Seq::new(actions.len(), |i: int| actions[i]@)
}

impl WorkerInput {
    pub open spec fn view(&self) -> Occurrence {
        match *self {
            WorkerInput::Download { piece, length } => Occurrence::Download(
                piece as int,
                length as int,
            ),
            WorkerInput::Cancel { piece } => Occurrence::Cancel(piece as int),
            WorkerInput::Have { index } => Occurrence::Have(index),
            WorkerInput::Shutdown => Occurrence::Shutdown,
            WorkerInput::Block { index, begin, block } => Occurrence::Block(
                index,
                begin,
                contents(block),
            ),
            WorkerInput::Choke => Occurrence::Choke,
            WorkerInput::Unchoke => Occurrence::Unchoke,
            WorkerInput::Disconnected => Occurrence::Disconnected,
            WorkerInput::Failed(text) => Occurrence::Failed(text@),
            WorkerInput::Broken(error) => Occurrence::Broken(error@),
        }
    }
}

/// A worker after something happened, and what it does about it.
pub struct Reaction {
    pub pipeline: PipelineModel,
    pub acts: Seq<Act>,
}

/// The end of a worker: a failed piece when pieces were queued (the swarm then
/// drops the worker and returns the rest), otherwise a report that it is gone.
pub open spec fn failed(p: PipelineModel, fault: Fault) -> Reaction {
    let cleared = PipelineModel { pending: Seq::empty(), active: false, ..p };
    if p.queue.len() > 0 {
        Reaction {
            pipeline: PipelineModel { queue: p.queue.drop_first(), ..cleared },
            acts: seq![
                Act::Complete(p.queue[0].piece as int, Outcome::Failed(fault_text(fault))),
                Act::Stop,
            ],
        }
    } else {
        Reaction { pipeline: cleared, acts: seq![Act::Gone(fault_text(fault)), Act::Stop] }
    }
}

/// The pieces that a choke takes back, in order.
pub open spec fn returned(queue: Seq<Queued>) -> Seq<Act> {
    Seq::new(queue.len(), |i: int| Act::Complete(queue[i].piece as int, Outcome::Cancelled))
}

pub open spec fn cancels(requests: Seq<BlockRequest>) -> Seq<Act> {
    Seq::new(requests.len(), |i: int| Act::SendCancel(requests[i]))
}

pub open spec fn interrupted_text(p: PipelineModel) -> Seq<char> {
    if p.queue.len() == 0 {
        "peer disconnected"@
    } else {
        "peer disconnected during piece transfer"@
    }
}

pub open spec fn session_text(p: PipelineModel, text: Seq<char>) -> Seq<char> {
    if p.queue.len() == 0 {
        text
    } else {
        "peer session failed during piece transfer: "@ + text
    }
}

/// A piece is assigned: it is queued, and the peer counts as downloaded from.
pub open spec fn enqueued(p: PipelineModel, piece: int, length: int) -> PipelineModel {
    PipelineModel {
        queue: p.queue.push(
            Queued { piece: piece as u32, length, next_begin: 0, received: 0, buffer: None },
        ),
        want_sent: false,
        active: true,
        ..p
    }
}

/// BEP 3: a choke discards every outstanding request. The queued pieces go
/// back to the swarm and the connection stays, so an unchoke can resume
/// without a reconnect.
pub open spec fn choked(p: PipelineModel) -> Reaction {
    Reaction {
        pipeline: PipelineModel {
            queue: Seq::empty(),
            pending: Seq::empty(),
            want_sent: false,
            active: false,
            ..p
        },
        acts: returned(p.queue).push(Act::ChokeState(true)),
    }
}

/// A piece is taken back.
pub open spec fn cancelled(p: PipelineModel, piece: int) -> Reaction {
    let asked = PipelineModel { want_sent: false, ..p };
    let at = queued_at(p.queue, piece as u32, 0);
    if piece > u32::MAX || at >= p.queue.len() {
        Reaction { pipeline: asked, acts: Seq::empty() }
    } else {
        let queue = p.queue.remove(at);
        Reaction {
            pipeline: PipelineModel {
                queue,
                pending: without_piece(p.pending, piece as u32),
                active: p.active && queue.len() > 0,
                ..asked
            },
            acts: cancels(of_piece(p.pending, piece as u32)).push(
                Act::Complete(piece, Outcome::Cancelled),
            ),
        }
    }
}

/// A block arrived.
pub open spec fn block_arrived(
    p: PipelineModel,
    piece: u32,
    begin: u32,
    block: Seq<u8>,
    now: int,
) -> Reaction {
    let receipt = received(p, piece, begin, block, now);
    match receipt.outcome {
        Err(fault) => failed(receipt.pipeline, fault),
        Ok(None) => Reaction { pipeline: receipt.pipeline, acts: Seq::empty() },
        Ok(Some((done, data))) => Reaction {
            pipeline: PipelineModel {
                active: receipt.pipeline.active && receipt.pipeline.queue.len() > 0,
                ..receipt.pipeline
            },
            acts: seq![Act::Complete(done, Outcome::Data(data))],
        },
    }
}

/// What a worker does about something that happened.
pub open spec fn reaction(p: PipelineModel, occurrence: Occurrence, now: int) -> Reaction {
    match occurrence {
        Occurrence::Download(piece, length) => if piece > u32::MAX {
            failed(p, Fault::Arithmetic)
        } else {
            Reaction { pipeline: enqueued(p, piece, length), acts: Seq::empty() }
        },
        Occurrence::Cancel(piece) => cancelled(p, piece),
        Occurrence::Have(piece) => Reaction { pipeline: p, acts: seq![Act::Announce(piece)] },
        Occurrence::Shutdown => Reaction { pipeline: p, acts: seq![Act::Stop] },
        Occurrence::Block(piece, begin, block) => block_arrived(p, piece, begin, block, now),
        Occurrence::Choke => choked(p),
        Occurrence::Unchoke => Reaction { pipeline: p, acts: seq![Act::ChokeState(false)] },
        Occurrence::Disconnected => failed(p, Fault::Peer(interrupted_text(p))),
        Occurrence::Failed(text) => failed(p, Fault::Peer(session_text(p, text))),
        Occurrence::Broken(fault) => failed(p, fault),
    }
}

/// The pipeline with the queue limit that the peer advertised.
pub open spec fn limited(p: PipelineModel, remote: Option<int>) -> PipelineModel {
    match remote {
        Some(limit) => PipelineModel {
            remote_limit: max_of(limit, 1),
            limit_blocks: min_of(p.limit_blocks, max_of(limit, 1)),
            ..p
        },
        None => p,
    }
}

/// What a worker sends and says before it waits for something to happen.
pub struct Preparation {
    pub pipeline: PipelineModel,
    pub requests: Seq<BlockRequest>,
    pub acts: Seq<Act>,
}

pub open spec fn preparation(p: PipelineModel, remote: Option<int>) -> Preparation {
    let filling = filled(limited(p, remote));
    match filling.fault {
        Some(fault) => {
            let end = failed(filling.pipeline, fault);
            Preparation { pipeline: end.pipeline, requests: filling.requests, acts: end.acts }
        },
        None => {
            let low_water = min_of(filling.pipeline.limit_blocks * 16384, usize::MAX as int);
            if !filling.pipeline.want_sent && unrequested(filling.pipeline.queue) < low_water {
                Preparation {
                    pipeline: PipelineModel { want_sent: true, ..filling.pipeline },
                    requests: filling.requests,
                    acts: seq![Act::NeedPieces(filling.pipeline.rate.rate)],
                }
            } else {
                Preparation {
                    pipeline: filling.pipeline,
                    requests: filling.requests,
                    acts: Seq::empty(),
                }
            }
        },
    }
}

impl DownloadPipeline {
    /// Keeps up to the limit of requests outstanding across the queued pieces
    /// and asks for more pieces once fewer than one pipeline's worth of blocks
    /// remain unrequested.
    pub fn prepare(&mut self, remote_request_queue: Option<usize>) -> (result: (
        Vec<BlockRequest>,
        Vec<WorkerAction>,
    ))
        requires
            old(self).wf(),
        ensures
            final(self).wf(),
            ({
                let wanted = preparation(
                    old(self)@,
                    match remote_request_queue {
                        Some(limit) => Some(limit as int),
                        None => None,
                    },
                );
                &&& final(self)@ == wanted.pipeline
                &&& result.0@ == wanted.requests
                &&& actions_view(result.1@) == wanted.acts
            }),
    {
        let ghost before = self@;
        if let Some(limit) = remote_request_queue {
            self.remote_limit = if limit > 1 { limit } else { 1 };
            if self.limit_blocks > self.remote_limit {
                self.limit_blocks = self.remote_limit;
            }
        }
        let ghost tuned = self@;
        assert(tuned.queue =~= before.queue);
        let (requests, error) = self.fill_requests();
        if let Some(error) = error {
            let actions = self.fail(error);
            return (requests, actions);
        }
        let mut actions: Vec<WorkerAction> = Vec::new();
        proof {
            assert(self.limit_blocks * 16384 >= 0) by (nonlinear_arith)
                requires
                    self.limit_blocks >= 0,
            ;
        }
        let low_water: usize = match self.limit_blocks.checked_mul(BLOCK_BYTES) {
            Some(bytes) => bytes,
            None => usize::MAX,
        };
        if !self.want_sent && self.unrequested_bytes() < low_water {
            actions.push(
                WorkerAction::Report(
                    WorkerReport::NeedPieces {
                        rate_bytes_per_second: self.rate.bytes_per_second(),
                    },
                ),
            );
            let ghost now = self@;
            self.want_sent = true;
            assert(self@.queue =~= now.queue);
            assert(actions_view(actions@) =~= seq![Act::NeedPieces(now.rate.rate)]);
        } else {
            assert(actions_view(actions@) =~= Seq::empty());
        }
        (requests, actions)
    }

    /// Ends a worker.
    pub fn fail(&mut self, error: ActorError) -> (actions: Vec<WorkerAction>)
        requires
            old(self).wf(),
        ensures
            final(self).wf(),
            final(self)@ == failed(old(self)@, error@).pipeline,
            actions_view(actions@) == failed(old(self)@, error@).acts,
    {
        let ghost before = self@;
        self.pending.clear();
        self.active = false;
        let mut actions: Vec<WorkerAction> = Vec::new();
        if self.queue.len() > 0 {
            let queued = self.queue.remove(0);
            proof {
                assert(self@.queue =~= before.queue.drop_first());
                lemma_removed_fits(before.queue, 0);
                assert(before.queue.remove(0) =~= before.queue.drop_first());
            }
            actions.push(
                WorkerAction::Report(
                    WorkerReport::Complete {
                        piece: queued.piece as usize,
                        result: PieceResult::Failed(error.message()),
                    },
                ),
            );
        } else {
            assert(self@.queue =~= before.queue);
            actions.push(WorkerAction::Report(WorkerReport::Gone { error: error.message() }));
        }
        actions.push(WorkerAction::Stop);
        assert(actions_view(actions@) =~= failed(before, error@).acts);
        actions
    }

    fn choke(&mut self) -> (actions: Vec<WorkerAction>)
        requires
            old(self).wf(),
        ensures
            final(self).wf(),
            final(self)@ == choked(old(self)@).pipeline,
            actions_view(actions@) == choked(old(self)@).acts,
    {
        let ghost before = self@;
        let mut actions: Vec<WorkerAction> = Vec::new();
        let mut i: usize = 0;
        while i < self.queue.len()
            invariant
                before == self@,
                i <= self.queue@.len(),
                actions@.len() == i,
                forall|k: int|
                    0 <= k < i ==> (#[trigger] actions@[k])@ == returned(before.queue)[k],
            decreases self.queue@.len() - i,
        {
            let action = WorkerAction::Report(
                WorkerReport::Complete {
                    piece: self.queue[i].piece as usize,
                    result: PieceResult::Cancelled,
                },
            );
            assert(action@ == returned(before.queue)[i as int]);
            actions.push(action);
            i += 1;
        }
        actions.push(WorkerAction::Report(WorkerReport::ChokeState { choked: true }));
        assert(actions_view(actions@) =~= choked(before).acts);
        self.pending.clear();
        self.queue.clear();
        self.want_sent = false;
        self.active = false;
        assert(self@.queue =~= Seq::empty());
        actions
    }

    fn cancel(&mut self, piece: usize) -> (actions: Vec<WorkerAction>)
        requires
            old(self).wf(),
        ensures
            final(self).wf(),
            final(self)@ == cancelled(old(self)@, piece as int).pipeline,
            actions_view(actions@) == cancelled(old(self)@, piece as int).acts,
    {
        let ghost before = self@;
        let mut actions: Vec<WorkerAction> = Vec::new();
        assert(actions_view(actions@) =~= Seq::empty());
        self.want_sent = false;
        assert(self@.queue =~= before.queue);
        if piece > 0xffff_ffff {
            return actions;
        }
        match self.cancel_piece(piece as u32) {
            None => actions,
            Some(requests) => {
                let ghost now = self@;
                if self.queue.len() == 0 {
                    self.active = false;
                }
                assert(self@.queue =~= now.queue);
                let mut i: usize = 0;
                while i < requests.len()
                    invariant
                        i <= requests@.len(),
                        actions@.len() == i,
                        forall|k: int|
                            0 <= k < i ==> (#[trigger] actions@[k])@ == cancels(requests@)[k],
                    decreases requests@.len() - i,
                {
                    actions.push(WorkerAction::SendCancel(requests[i]));
                    i += 1;
                }
                actions.push(
                    WorkerAction::Report(
                        WorkerReport::Complete { piece, result: PieceResult::Cancelled },
                    ),
                );
                assert(actions_view(actions@) =~= cancelled(before, piece as int).acts);
                actions
            },
        }
    }

    fn block(&mut self, piece: u32, begin: u32, block: &Bytes, now: u64) -> (actions: Vec<
        WorkerAction,
    >)
        requires
            old(self).wf(),
        ensures
            final(self).wf(),
            ({
                let wanted = block_arrived(
                    old(self)@,
                    piece,
                    begin,
                    contents(*block),
                    now as int,
                );
                &&& final(self)@ == wanted.pipeline
                &&& actions_view(actions@) == wanted.acts
            }),
    {
        match self.receive_block(piece, begin, block, now) {
            Ok(Some((piece, data))) => {
                let ghost now = self@;
                if self.queue.len() == 0 {
                    self.active = false;
                }
                assert(self@.queue =~= now.queue);
                let mut actions: Vec<WorkerAction> = Vec::new();
                actions.push(
                    WorkerAction::Report(
                        WorkerReport::Complete { piece, result: PieceResult::Data(data) },
                    ),
                );
                assert(actions_view(actions@) =~= seq![
                    Act::Complete(piece as int, Outcome::Data(contents(data))),
                ]);
                actions
            },
            Ok(None) => {
                let actions: Vec<WorkerAction> = Vec::new();
                assert(actions_view(actions@) =~= Seq::empty());
                actions
            },
            Err(error) => self.fail(error),
        }
    }

    /// What a worker does about something that happened.
    pub fn handle(&mut self, input: WorkerInput, now: u64) -> (actions: Vec<WorkerAction>)
        requires
            old(self).wf(),
        ensures
            final(self).wf(),
            final(self)@ == reaction(old(self)@, input@, now as int).pipeline,
            actions_view(actions@) == reaction(old(self)@, input@, now as int).acts,
    {
        let ghost before = self@;
        let mut actions: Vec<WorkerAction> = Vec::new();
        match input {
            WorkerInput::Download { piece, length } => {
                if piece > 0xffff_ffff {
                    return self.fail(ActorError::Arithmetic);
                }
                let queued = QueuedPiece {
                    piece: piece as u32,
                    length,
                    next_begin: 0,
                    received: 0,
                    buffer: None,
                };
                self.queue.push(queued);
                self.want_sent = false;
                self.active = true;
                proof {
                    assert(self@.queue =~= before.queue.push(queued@));
                    assert forall|i: int| 0 <= i < self@.queue.len() implies buffer_fits(
                        #[trigger] self@.queue[i],
                    ) by {
                        if i < before.queue.len() {
                            assert(buffer_fits(before.queue[i]));
                        }
                    }
                    assert(actions_view(actions@) =~= Seq::empty());
                }
                actions
            },
            WorkerInput::Cancel { piece } => self.cancel(piece),
            WorkerInput::Have { index } => {
                actions.push(WorkerAction::Announce { piece: index });
                assert(actions_view(actions@) =~= seq![Act::Announce(index)]);
                actions
            },
            WorkerInput::Shutdown => {
                actions.push(WorkerAction::Stop);
                assert(actions_view(actions@) =~= seq![Act::Stop]);
                actions
            },
            WorkerInput::Block { index, begin, block } => self.block(index, begin, &block, now),
            WorkerInput::Choke => self.choke(),
            WorkerInput::Unchoke => {
                actions.push(WorkerAction::Report(WorkerReport::ChokeState { choked: false }));
                assert(actions_view(actions@) =~= seq![Act::ChokeState(false)]);
                actions
            },
            WorkerInput::Disconnected => {
                let error = if self.queue.len() == 0 {
                    ActorError::peer("peer disconnected")
                } else {
                    ActorError::peer("peer disconnected during piece transfer")
                };
                self.fail(error)
            },
            WorkerInput::Failed(text) => {
                let error = if self.queue.len() == 0 {
                    ActorError::Peer(text)
                } else {
                    ActorError::Peer(
                        join("peer session failed during piece transfer: ", text.as_str()),
                    )
                };
                self.fail(error)
            },
            WorkerInput::Broken(error) => self.fail(error),
        }
    }

    /// How long to wait for the next message: four times as long where nothing
    /// is outstanding.
    pub fn message_timeout(&self, base_nanos: u64) -> (nanos: u64)
        ensures
            nanos == (if self@.pending.len() == 0 {
                min_of(base_nanos * 4, u64::MAX as int)
            } else {
                base_nanos as int
            }),
    {
        if self.pending.len() == 0 {
            saturating_mul_u64(base_nanos, 4)
        } else {
            base_nanos
        }
    }
}

proof fn lemma_removed_fits(queue: Seq<Queued>, at: int)
    requires
        buffers_fit(queue),
        0 <= at < queue.len(),
    ensures
        buffers_fit(queue.remove(at)),
{
    assert forall|i: int| 0 <= i < queue.remove(at).len() implies buffer_fits(
        #[trigger] queue.remove(at)[i],
    ) by {
        let from = if i < at { i } else { i + 1 };
        assert(buffer_fits(queue[from]));
    }
}

} // verus!
