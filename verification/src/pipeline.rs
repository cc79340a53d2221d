//! The requests that are outstanding with one peer, across the pieces that it
//! was assigned.

use crate::buffer::{as_slice, contents, from_vec, len};
use crate::error::{ActorError, Fault};
use crate::num::{max_of, min_of};
use crate::rates::{
    observed, pipeline_limit, pipeline_limit_of, RateEstimator, BLOCK_BYTES, BLOCK_PIPELINE,
};
use bytes::Bytes;
use vstd::prelude::*;

verus! {

/// A piece queued on a worker: blocks are requested from `next_begin`, the
/// buffer is allocated lazily on the first block, and the piece is reported
/// complete when every byte has arrived.
#[derive(Debug)]
pub struct QueuedPiece {
    pub piece: u32,
    pub length: usize,
    pub next_begin: usize,
    pub received: usize,
    pub buffer: Option<Vec<u8>>,
}

/// A block of a piece.
#[derive(Clone, Copy, Debug, Eq, PartialEq, Structural)]
pub struct BlockRequest {
    pub piece: u32,
    pub begin: u32,
    pub length: u32,
}

/// Per-peer request pipeline spanning piece boundaries.
#[derive(Debug)]
pub struct DownloadPipeline {
    pub queue: Vec<QueuedPiece>,
    /// The requests that were sent and not answered yet, none of them twice.
    pub pending: Vec<BlockRequest>,
    pub limit_blocks: usize,
    /// Outstanding requests the remote advertised it will queue (`reqq`).
    pub remote_limit: usize,
    pub rate: RateEstimator,
    pub want_sent: bool,
    /// The peer counts as one that is downloaded from.
    pub active: bool,
}

/// A queued piece by its values.
pub struct Queued {
    pub piece: u32,
    pub length: int,
    pub next_begin: int,
    pub received: int,
    pub buffer: Option<Seq<u8>>,
}

/// A pipeline by its values.
pub struct PipelineModel {
    pub queue: Seq<Queued>,
    pub pending: Seq<BlockRequest>,
    pub limit_blocks: int,
    pub remote_limit: int,
    pub rate: RateEstimator,
    pub want_sent: bool,
    pub active: bool,
}

impl QueuedPiece {
    pub open spec fn view(&self) -> Queued {
        Queued {
            piece: self.piece,
            length: self.length as int,
            next_begin: self.next_begin as int,
            received: self.received as int,
            buffer: match self.buffer {
                Some(buffer) => Some(buffer@),
                None => None,
            },
        }
    }
}

pub open spec fn queue_view(queue: Seq<QueuedPiece>) -> Seq<Queued> {
    Seq::new(queue.len(), |i: int| queue[i]@)
}

impl DownloadPipeline {
    pub open spec fn view(&self) -> PipelineModel {
        PipelineModel {
            queue: queue_view(self.queue@),
            pending: self.pending@,
            limit_blocks: self.limit_blocks as int,
            remote_limit: self.remote_limit as int,
            rate: self.rate,
            want_sent: self.want_sent,
            active: self.active,
        }
    }

    pub open spec fn wf(&self) -> bool {
        buffers_fit(self@.queue)
    }
}

/// Whether the buffer of a piece is as long as the piece.
pub open spec fn buffer_fits(queued: Queued) -> bool {
    match queued.buffer {
        Some(buffer) => buffer.len() == queued.length,
        None => true,
    }
}

/// Whether every buffer is as long as its piece.
pub open spec fn buffers_fit(queue: Seq<Queued>) -> bool {
    forall|i: int| 0 <= i < queue.len() ==> buffer_fits(#[trigger] queue[i])
}

/// The position of a piece at or after `from`, or the length.
pub open spec fn queued_at(queue: Seq<Queued>, piece: u32, from: int) -> int
    decreases queue.len() - from,
{
    if from < 0 || from >= queue.len() || queue[from].piece == piece {
        from
    } else {
        queued_at(queue, piece, from + 1)
    }
}

/// The first piece at or after `from` with blocks that were not requested yet,
/// or the length.
pub open spec fn unfinished_at(queue: Seq<Queued>, from: int) -> int
    decreases queue.len() - from,
{
    if from < 0 || from >= queue.len() || queue[from].next_begin < queue[from].length {
        from
    } else {
        unfinished_at(queue, from + 1)
    }
}

/// The position of a request at or after `from`, or the length.
pub open spec fn pending_at(pending: Seq<BlockRequest>, piece: u32, begin: u32, from: int) -> int
    decreases pending.len() - from,
{
    if from < 0 || from >= pending.len() || (pending[from].piece == piece && pending[from].begin
        == begin) {
        from
    } else {
        pending_at(pending, piece, begin, from + 1)
    }
}

/// The outstanding requests with one more, which takes the place of one for
/// the same block.
pub open spec fn with_request(pending: Seq<BlockRequest>, request: BlockRequest) -> Seq<
    BlockRequest,
> {
    let at = pending_at(pending, request.piece, request.begin, 0);
    if at < pending.len() {
        pending.update(at, request)
    } else {
        pending.push(request)
    }
}

/// How many bytes of queued pieces were not requested yet.
pub open spec fn unrequested(queue: Seq<Queued>) -> int
    decreases queue.len(),
{
    if queue.len() == 0 {
        0
    } else {
        unrequested(queue.drop_last()) + max_of(
            queue.last().length - queue.last().next_begin,
            0,
        )
    }
}

/// The next request to send, if the pipeline has room for it.
pub open spec fn next_request_of(p: PipelineModel) -> Result<Option<BlockRequest>, Fault> {
    let at = unfinished_at(p.queue, 0);
    if p.pending.len() >= p.limit_blocks || at >= p.queue.len() {
        Ok(None)
    } else if p.queue[at].next_begin > u32::MAX {
        Err(Fault::Arithmetic)
    } else {
        Ok(
            Some(
                BlockRequest {
                    piece: p.queue[at].piece,
                    begin: p.queue[at].next_begin as u32,
                    length: min_of(16384, p.queue[at].length - p.queue[at].next_begin) as u32,
                },
            ),
        )
    }
}

/// The pipeline once the next request has been sent.
pub open spec fn requested(p: PipelineModel, request: BlockRequest) -> PipelineModel {
    let at = unfinished_at(p.queue, 0);
    PipelineModel {
        queue: p.queue.update(
            at,
            Queued {
                next_begin: p.queue[at].next_begin + request.length,
                ..p.queue[at]
            },
        ),
        pending: with_request(p.pending, request),
        ..p
    }
}

/// Requests sent one after the other until the pipeline is full or nothing is
/// left to request.
pub struct Filling {
    pub pipeline: PipelineModel,
    pub requests: Seq<BlockRequest>,
    pub fault: Option<Fault>,
}

pub proof fn lemma_unfinished(queue: Seq<Queued>, from: int)
    requires
        0 <= from <= queue.len(),
    ensures
        from <= unfinished_at(queue, from) <= queue.len(),
        unfinished_at(queue, from) < queue.len() ==> queue[unfinished_at(queue, from)].next_begin
            < queue[unfinished_at(queue, from)].length,
        forall|k: int|
            from <= k < unfinished_at(queue, from) ==> (#[trigger] queue[k]).next_begin
                >= queue[k].length,
    decreases queue.len() - from,
{
    if from < queue.len() && queue[from].next_begin >= queue[from].length {
        lemma_unfinished(queue, from + 1);
    }
}

proof fn lemma_unrequested_nonnegative(queue: Seq<Queued>)
    ensures
        unrequested(queue) >= 0,
    decreases queue.len(),
{
    if queue.len() > 0 {
        lemma_unrequested_nonnegative(queue.drop_last());
    }
}

proof fn lemma_unrequested_update(queue: Seq<Queued>, at: int, next: Queued)
    requires
        0 <= at < queue.len(),
    ensures
        unrequested(queue.update(at, next)) == unrequested(queue) - max_of(
            queue[at].length - queue[at].next_begin,
            0,
        ) + max_of(next.length - next.next_begin, 0),
    decreases queue.len(),
{
    let after = queue.update(at, next);
    if at == queue.len() - 1 {
        assert(after.drop_last() =~= queue.drop_last());
    } else {
        lemma_unrequested_update(queue.drop_last(), at, next);
        assert(after.drop_last() =~= queue.drop_last().update(at, next));
        assert(after.last() == queue.last());
    }
}

/// Every request leaves less to request.
pub proof fn lemma_requested_shrinks(p: PipelineModel)
    requires
        next_request_of(p) is Ok,
        next_request_of(p)->Ok_0 is Some,
    ensures
        0 <= unrequested(requested(p, next_request_of(p)->Ok_0->0).queue) < unrequested(p.queue),
{
    let request = next_request_of(p)->Ok_0->0;
    let at = unfinished_at(p.queue, 0);
    lemma_unfinished(p.queue, 0);
    let next = Queued { next_begin: p.queue[at].next_begin + request.length, ..p.queue[at] };
    lemma_unrequested_update(p.queue, at, next);
    lemma_unrequested_nonnegative(requested(p, request).queue);
}

pub open spec fn filled(p: PipelineModel) -> Filling
    decreases unrequested(p.queue),
{
    match next_request_of(p) {
        Err(fault) => Filling { pipeline: p, requests: Seq::empty(), fault: Some(fault) },
        Ok(None) => Filling { pipeline: p, requests: Seq::empty(), fault: None },
        Ok(Some(request)) => {
            proof {
                lemma_requested_shrinks(p);
            }
            let rest = filled(requested(p, request));
            Filling { requests: seq![request] + rest.requests, ..rest }
        },
    }
}

/// A pipeline after a block has arrived, and the piece that it completes.
pub struct Receipt {
    pub pipeline: PipelineModel,
    pub outcome: Result<Option<(int, Seq<u8>)>, Fault>,
}

/// Bytes with a part of them replaced.
pub open spec fn overwritten(buffer: Seq<u8>, start: int, block: Seq<u8>) -> Seq<u8> {
    Seq::new(
        buffer.len(),
        |i: int|
            if start <= i < start + block.len() {
                block[i - start]
            } else {
                buffer[i]
            },
    )
}

/// A queued piece once a block of it has arrived.
pub open spec fn with_block(queued: Queued, begin: int, block: Seq<u8>) -> Queued {
    let buffer = match queued.buffer {
        Some(buffer) => buffer,
        None => Seq::new(queued.length as nat, |i: int| 0u8),
    };
    Queued {
        buffer: Some(overwritten(buffer, begin, block)),
        received: queued.received + block.len(),
        ..queued
    }
}

/// The effect of a block that was not asked for is nothing but an error; one
/// that was asked for is answered once, has the length that was asked for, and
/// lies inside its piece.
pub open spec fn received(
    p: PipelineModel,
    piece: u32,
    begin: u32,
    block: Seq<u8>,
    now: int,
) -> Receipt {
    let slot = pending_at(p.pending, piece, begin, 0);
    if slot >= p.pending.len() {
        Receipt {
            pipeline: p,
            outcome: Err(Fault::Peer("peer returned an unsolicited block"@)),
        }
    } else {
        let left = PipelineModel { pending: p.pending.remove(slot), ..p };
        let at = queued_at(p.queue, piece, 0);
        if p.pending[slot].length != block.len() {
            Receipt {
                pipeline: left,
                outcome: Err(Fault::Peer("peer returned a block with the wrong length"@)),
            }
        } else if at >= p.queue.len() {
            Receipt {
                pipeline: left,
                outcome: Err(Fault::Peer("peer returned a block for another piece"@)),
            }
        } else if begin + block.len() > p.queue[at].length || p.queue[at].received + block.len()
            > usize::MAX {
            Receipt { pipeline: left, outcome: Err(Fault::Arithmetic) }
        } else {
            let next = with_block(p.queue[at], begin as int, block);
            let rate = observed(p.rate, block.len() as int, now);
            let counted = PipelineModel {
                rate,
                limit_blocks: max_of(
                    min_of(pipeline_limit_of(rate.rate as int), p.remote_limit),
                    1,
                ),
                ..left
            };
            if next.received < next.length {
                Receipt {
                    pipeline: PipelineModel { queue: p.queue.update(at, next), ..counted },
                    outcome: Ok(None),
                }
            } else {
                Receipt {
                    pipeline: PipelineModel { queue: p.queue.remove(at), ..counted },
                    outcome: Ok(Some((next.piece as int, next.buffer->0))),
                }
            }
        }
    }
}

/// The outstanding requests of all pieces but one.
pub open spec fn without_piece(pending: Seq<BlockRequest>, piece: u32) -> Seq<BlockRequest>
    decreases pending.len(),
{
    if pending.len() == 0 {
        Seq::empty()
    } else if pending.last().piece == piece {
        without_piece(pending.drop_last(), piece)
    } else {
        without_piece(pending.drop_last(), piece).push(pending.last())
    }
}

/// Whether one request of a piece begins behind another, or at the same place
/// and is longer.
pub open spec fn comes_after(a: BlockRequest, b: BlockRequest) -> bool {
    a.begin > b.begin || (a.begin == b.begin && a.length > b.length)
}

/// Requests with one more put in, before all that come after it.
pub open spec fn put_in(requests: Seq<BlockRequest>, request: BlockRequest) -> Seq<BlockRequest>
    decreases requests.len(),
{
    if requests.len() == 0 || !comes_after(requests.last(), request) {
        requests.push(request)
    } else {
        put_in(requests.drop_last(), request).push(requests.last())
    }
}

/// The outstanding requests of one piece, in the order in which its blocks
/// stand in it.
pub open spec fn of_piece(pending: Seq<BlockRequest>, piece: u32) -> Seq<BlockRequest>
    decreases pending.len(),
{
    if pending.len() == 0 {
        Seq::empty()
    } else if pending.last().piece == piece {
        put_in(of_piece(pending.drop_last(), piece), pending.last())
    } else {
        of_piece(pending.drop_last(), piece)
    }
}

/// A request is put in where all before it do not come after it, and all behind
/// it do.
proof fn lemma_put_in_at(requests: Seq<BlockRequest>, request: BlockRequest, at: int)
    requires
        0 <= at <= requests.len(),
        at > 0 ==> !comes_after(requests[at - 1], request),
        forall|k: int|
            at <= k < requests.len() ==> comes_after(#[trigger] requests[k], request),
    ensures
        put_in(requests, request) == requests.insert(at, request),
    decreases requests.len(),
{
    if at < requests.len() {
        let init = requests.drop_last();
        lemma_put_in_at(init, request, at);
        assert(requests.insert(at, request) =~= init.insert(at, request).push(requests.last()));
    } else {
        assert(requests.insert(at, request) =~= requests.push(request));
    }
}

fn put_request(requests: &mut Vec<BlockRequest>, request: BlockRequest)
    ensures
        final(requests)@ == put_in(old(requests)@, request),
{
    let mut at: usize = requests.len();
    while at > 0 && (requests[at - 1].begin > request.begin || (requests[at - 1].begin
        == request.begin && requests[at - 1].length > request.length))
        invariant
            requests@ == old(requests)@,
            at <= requests@.len(),
            forall|k: int|
                at <= k < requests@.len() ==> comes_after(#[trigger] requests@[k], request),
        decreases at,
    {
        at -= 1;
    }
    proof {
        lemma_put_in_at(requests@, request, at as int);
    }
    requests.insert(at, request);
}

impl DownloadPipeline {
    pub fn new(now: u64) -> (pipeline: Self)
        ensures
            pipeline.wf(),
            pipeline.queue@.len() == 0,
            pipeline.pending@.len() == 0,
            pipeline.limit_blocks == BLOCK_PIPELINE,
            pipeline.remote_limit == usize::MAX,
            pipeline.rate == (RateEstimator { window_start: now, window_bytes: 0, rate: 0 }),
            !pipeline.want_sent,
            !pipeline.active,
    {
        Self {
            queue: Vec::new(),
            pending: Vec::new(),
            limit_blocks: BLOCK_PIPELINE,
            remote_limit: usize::MAX,
            rate: RateEstimator::new(now),
            want_sent: false,
            active: false,
        }
    }

    /// How many bytes of queued pieces were not requested yet.
    pub fn unrequested_bytes(&self) -> (bytes: usize)
        ensures
            bytes == min_of(unrequested(self@.queue), usize::MAX as int),
    {
        let ghost queue = self@.queue;
        let mut total: usize = 0;
        let mut i: usize = 0;
        assert(queue.take(0) =~= Seq::empty());
        while i < self.queue.len()
            invariant
                queue == queue_view(self.queue@),
                i <= self.queue@.len(),
                total == min_of(unrequested(queue.take(i as int)), usize::MAX as int),
                unrequested(queue.take(i as int)) >= 0,
            decreases self.queue@.len() - i,
        {
            proof {
                assert(queue.take(i + 1).drop_last() =~= queue.take(i as int));
                assert(queue.take(i + 1).last() == self.queue@[i as int]@);
            }
            let left: usize = self.queue[i].length.saturating_sub(self.queue[i].next_begin);
            total = total.saturating_add(left);
            i += 1;
        }
        assert(queue.take(queue.len() as int) =~= queue);
        total
    }

    fn find_queued(&self, piece: u32) -> (result: Option<usize>)
        ensures
            match result {
                Some(at) => at < self.queue@.len() && queued_at(self@.queue, piece, 0) == at
                    && self.queue@[at as int].piece == piece,
                None => queued_at(self@.queue, piece, 0) == self.queue@.len(),
            },
    {
        let ghost queue = self@.queue;
        let mut i: usize = 0;
        while i < self.queue.len()
            invariant
                queue == queue_view(self.queue@),
                i <= self.queue@.len(),
                queued_at(queue, piece, 0) == queued_at(queue, piece, i as int),
            decreases self.queue@.len() - i,
        {
            assert(queue[i as int] == self.queue@[i as int]@);
            if self.queue[i].piece == piece {
                return Some(i);
            }
            i += 1;
        }
        None
    }

    fn find_pending(&self, piece: u32, begin: u32) -> (result: Option<usize>)
        ensures
            match result {
                Some(at) => at < self.pending@.len() && pending_at(
                    self.pending@,
                    piece,
                    begin,
                    0,
                ) == at,
                None => pending_at(self.pending@, piece, begin, 0) == self.pending@.len(),
            },
    {
        let mut i: usize = 0;
        while i < self.pending.len()
            invariant
                i <= self.pending@.len(),
                pending_at(self.pending@, piece, begin, 0) == pending_at(
                    self.pending@,
                    piece,
                    begin,
                    i as int,
                ),
            decreases self.pending@.len() - i,
        {
            if self.pending[i].piece == piece && self.pending[i].begin == begin {
                return Some(i);
            }
            i += 1;
        }
        None
    }

    /// The next request to send, which counts as outstanding from then on.
    pub fn next_request(&mut self) -> (result: Result<Option<BlockRequest>, ActorError>)
        requires
            old(self).wf(),
        ensures
            final(self).wf(),
            match result {
                Ok(Some(request)) => next_request_of(old(self)@) == Ok::<
                    Option<BlockRequest>,
                    Fault,
                >(Some(request)) && final(self)@ == requested(old(self)@, request),
                Ok(None) => next_request_of(old(self)@) == Ok::<Option<BlockRequest>, Fault>(None)
                    && final(self)@ == old(self)@,
                Err(error) => next_request_of(old(self)@) == Err::<Option<BlockRequest>, Fault>(
                    error@,
                ) && final(self)@ == old(self)@,
            },
    {
        if self.pending.len() >= self.limit_blocks {
            return Ok(None);
        }
        let ghost before = self@;
        let mut at: usize = 0;
        while at < self.queue.len() && self.queue[at].next_begin >= self.queue[at].length
            invariant
                before == self@,
                at <= self.queue@.len(),
                unfinished_at(before.queue, 0) == unfinished_at(before.queue, at as int),
            decreases self.queue@.len() - at,
        {
            assert(before.queue[at as int] == self.queue@[at as int]@);
            at += 1;
        }
        if at >= self.queue.len() {
            return Ok(None);
        }
        assert(before.queue[at as int] == self.queue@[at as int]@);
        let begin: usize = self.queue[at].next_begin;
        let rest: usize = self.queue[at].length - begin;
        let length: usize = if rest < BLOCK_BYTES { rest } else { BLOCK_BYTES };
        if begin > 0xffff_ffff {
            return Err(ActorError::Arithmetic);
        }
        let request = BlockRequest {
            piece: self.queue[at].piece,
            begin: begin as u32,
            length: length as u32,
        };
        match self.find_pending(request.piece, request.begin) {
            Some(slot) => {
                self.pending[slot] = request;
            },
            None => {
                self.pending.push(request);
            },
        }
        self.queue[at].next_begin = begin + length;
        proof {
            let wanted = requested(before, request);
            assert(self@.queue =~= wanted.queue);
            assert(self@.pending =~= wanted.pending);
            assert forall|i: int| 0 <= i < self@.queue.len() implies buffer_fits(
                #[trigger] self@.queue[i],
            ) by {
                assert(buffer_fits(before.queue[i]));
            }
        }
        Ok(Some(request))
    }

    /// The requests to send until the pipeline is full or nothing is left to
    /// request. They count as outstanding from then on.
    pub fn fill_requests(&mut self) -> (result: (Vec<BlockRequest>, Option<ActorError>))
        requires
            old(self).wf(),
        ensures
            final(self).wf(),
            ({
                let filling = filled(old(self)@);
                &&& final(self)@ == filling.pipeline
                &&& result.0@ == filling.requests
                &&& match result.1 {
                    Some(error) => filling.fault == Some(error@),
                    None => filling.fault is None,
                }
            }),
    {
        let mut requests: Vec<BlockRequest> = Vec::new();
        let ghost before = self@;
        proof {
            assert(filled(before).requests =~= requests@ + filled(before).requests);
        }
        loop
            invariant
                self.wf(),
                before == old(self)@,
                filled(before).pipeline == filled(self@).pipeline,
                filled(before).fault == filled(self@).fault,
                filled(before).requests == requests@ + filled(self@).requests,
            decreases unrequested(self@.queue),
        {
            let ghost now = self@;
            match self.next_request() {
                Ok(Some(request)) => {
                    proof {
                        lemma_requested_shrinks(now);
                        assert(requests@ + filled(now).requests =~= requests@.push(request)
                            + filled(self@).requests);
                    }
                    requests.push(request);
                },
                Ok(None) => {
                    assert(requests@ + Seq::<BlockRequest>::empty() =~= requests@);
                    return (requests, None);
                },
                Err(error) => {
                    assert(requests@ + Seq::<BlockRequest>::empty() =~= requests@);
                    return (requests, Some(error));
                },
            }
        }
    }

    /// A block arrived. Gives back the piece that it completes.
    pub fn receive_block(&mut self, piece: u32, begin: u32, block: &Bytes, now: u64) -> (result:
        Result<Option<(usize, Bytes)>, ActorError>)
        requires
            old(self).wf(),
        ensures
            final(self).wf(),
            ({
                let receipt = received(old(self)@, piece, begin, contents(*block), now as int);
                &&& final(self)@ == receipt.pipeline
                &&& match result {
                    Ok(Some((piece, data))) => receipt.outcome == Ok::<
                        Option<(int, Seq<u8>)>,
                        Fault,
                    >(Some((piece as int, contents(data)))),
                    Ok(None) => receipt.outcome == Ok::<Option<(int, Seq<u8>)>, Fault>(None),
                    Err(error) => receipt.outcome == Err::<Option<(int, Seq<u8>)>, Fault>(error@),
                }
            }),
    {
        let ghost before = self@;
        let slot: usize = match self.find_pending(piece, begin) {
            Some(slot) => slot,
            None => {
                return Err(ActorError::peer("peer returned an unsolicited block"));
            },
        };
        let length: usize = len(block);
        let expected: u32 = self.pending[slot].length;
        self.pending.remove(slot);
        assert(self@.queue =~= before.queue);
        if expected as usize != length {
            return Err(ActorError::peer("peer returned a block with the wrong length"));
        }
        let at: usize = match self.find_queued(piece) {
            Some(at) => at,
            None => {
                return Err(ActorError::peer("peer returned a block for another piece"));
            },
        };
        assert(before.queue[at as int] == self.queue@[at as int]@);
        let start: usize = begin as usize;
        if length > self.queue[at].length || start > self.queue[at].length - length {
            return Err(ActorError::Arithmetic);
        }
        if self.queue[at].received.checked_add(length).is_none() {
            return Err(ActorError::Arithmetic);
        }
        let mut queued = self.queue.remove(at);
        let ghost rest = queue_view(self.queue@);
        let mut buffer: Vec<u8> = match queued.buffer {
            Some(buffer) => buffer,
            None => vec![0u8; queued.length],
        };
        assert(buffer@ =~= match before.queue[at as int].buffer {
            Some(buffer) => buffer,
            None => Seq::new(before.queue[at as int].length as nat, |i: int| 0u8),
        });
        copy_block(&mut buffer, start, as_slice(block));
        let total: usize = queued.received + length;
        let ghost next = with_block(before.queue[at as int], begin as int, contents(*block));
        self.rate.observe(length, now);
        let limit: usize = pipeline_limit(self.rate.bytes_per_second());
        let limit: usize = if limit < self.remote_limit { limit } else { self.remote_limit };
        self.limit_blocks = if limit > 1 { limit } else { 1 };
        if total < queued.length {
            let updated = QueuedPiece {
                piece: queued.piece,
                length: queued.length,
                next_begin: queued.next_begin,
                received: total,
                buffer: Some(buffer),
            };
            self.queue.insert(at, updated);
            proof {
                assert(updated@ == next);
                assert(self@.queue =~= before.queue.update(at as int, next));
                assert forall|i: int| 0 <= i < self@.queue.len() implies buffer_fits(
                #[trigger] self@.queue[i],
            ) by {
                    if i != at {
                        assert(self@.queue[i] == before.queue[i]);
                    }
                }
            }
            return Ok(None);
        }
        proof {
            assert(self@.queue =~= before.queue.remove(at as int));
            assert forall|i: int| 0 <= i < self@.queue.len() implies buffer_fits(
                #[trigger] self@.queue[i],
            ) by {
                let from = if i < at { i } else { i + 1 };
                assert(self@.queue[i] == before.queue[from]);
            }
        }
        Ok(Some((queued.piece as usize, from_vec(buffer))))
    }

    /// Drops a queued piece. Gives back its outstanding requests, in the order
    /// in which they have to be cancelled on the wire, or nothing where the
    /// piece was not queued.
    pub fn cancel_piece(&mut self, piece: u32) -> (result: Option<Vec<BlockRequest>>)
        requires
            old(self).wf(),
        ensures
            final(self).wf(),
            ({
                let at = queued_at(old(self)@.queue, piece, 0);
                match result {
                    Some(cancelled) => {
                        &&& at < old(self)@.queue.len()
                        &&& cancelled@ == of_piece(old(self)@.pending, piece)
                        &&& final(self)@ == (PipelineModel {
                            queue: old(self)@.queue.remove(at),
                            pending: without_piece(old(self)@.pending, piece),
                            ..old(self)@
                        })
                    },
                    None => at >= old(self)@.queue.len() && final(self)@ == old(self)@,
                }
            }),
    {
        let ghost before = self@;
        let at: usize = match self.find_queued(piece) {
            Some(at) => at,
            None => {
                return None;
            },
        };
        self.queue.remove(at);
        let mut kept: Vec<BlockRequest> = Vec::new();
        let mut cancelled: Vec<BlockRequest> = Vec::new();
        let mut i: usize = 0;
        let ghost pending = self.pending@;
        assert(pending.take(0) =~= Seq::empty());
        while i < self.pending.len()
            invariant
                pending == self.pending@,
                i <= pending.len(),
                kept@ == without_piece(pending.take(i as int), piece),
                cancelled@ == of_piece(pending.take(i as int), piece),
            decreases pending.len() - i,
        {
            proof {
                assert(pending.take(i + 1).drop_last() =~= pending.take(i as int));
                assert(pending.take(i + 1).last() == pending[i as int]);
            }
            let request = self.pending[i];
            if request.piece == piece {
                put_request(&mut cancelled, request);
            } else {
                kept.push(request);
            }
            i += 1;
        }
        assert(pending.take(pending.len() as int) =~= pending);
        self.pending = kept;
        proof {
            assert(self@.queue =~= before.queue.remove(at as int));
            assert forall|i: int| 0 <= i < self@.queue.len() implies buffer_fits(
                #[trigger] self@.queue[i],
            ) by {
                let from = if i < at { i } else { i + 1 };
                assert(self@.queue[i] == before.queue[from]);
            }
        }
        Some(cancelled)
    }
}

/// Copies a block into a buffer.
fn copy_block(buffer: &mut Vec<u8>, start: usize, block: &[u8])
    requires
        start + block@.len() <= old(buffer)@.len(),
    ensures
        final(buffer)@ == overwritten(old(buffer)@, start as int, block@),
{
    let mut i: usize = 0;
    let ghost before = buffer@;
    assert(buffer.len() == before.len());
    while i < block.len()
        invariant
            before.len() <= usize::MAX,
            start + block@.len() <= before.len(),
            buffer@.len() == before.len(),
            i <= block@.len(),
            forall|k: int|
                0 <= k < before.len() ==> #[trigger] buffer@[k] == (if start <= k < start + i {
                    block@[k - start]
                } else {
                    before[k]
                }),
        decreases block@.len() - i,
    {
        buffer[start + i] = block[i];
        i += 1;
    }
    assert(buffer@ =~= overwritten(before, start as int, block@));
}

} // verus!
