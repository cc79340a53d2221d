//! What the request pipeline keeps true whatever a peer does.

use crate::error::Fault;
use crate::num::min_of;
use crate::pipeline::{
    comes_after, filled, lemma_requested_shrinks, lemma_unfinished, next_request_of, of_piece,
    pending_at, put_in, queued_at, received, requested, unfinished_at, unrequested, with_block,
    without_piece, BlockRequest, PipelineModel, Queued,
};
use crate::worker::{block_arrived, cancelled, choked, enqueued, Act, Outcome};
use vstd::prelude::*;
use vstd::seq_lib::{to_multiset_build, to_multiset_len};

verus! {

/// How many bytes of a piece are outstanding.
pub open spec fn pending_bytes(pending: Seq<BlockRequest>, piece: u32) -> int
    decreases pending.len(),
{
    if pending.len() == 0 {
        0
    } else {
        pending_bytes(pending.drop_last(), piece) + if pending.last().piece == piece {
            pending.last().length as int
        } else {
            0
        }
    }
}

/// Whether a request is for a block of a piece that was reached.
pub open spec fn is_block_of(request: BlockRequest, queued: Queued) -> bool {
    &&& request.begin as int % 16384 == 0
    &&& request.begin < queued.next_begin
    &&& request.length == min_of(16384, queued.length - request.begin)
}

/// Whether everything that was requested of a piece has either arrived or is
/// outstanding, and requests go up to a block boundary.
pub open spec fn piece_accounted(queued: Queued, pending: Seq<BlockRequest>) -> bool {
    &&& 0 <= queued.received
    &&& 0 <= queued.next_begin <= queued.length
    &&& queued.next_begin % 16384 == 0 || queued.next_begin == queued.length
    &&& queued.received + pending_bytes(pending, queued.piece) == queued.next_begin
}

pub open spec fn is_queued(queue: Seq<Queued>, piece: u32) -> bool {
    exists|k: int| 0 <= k < queue.len() && (#[trigger] queue[k]).piece == piece
}

/// Whether a pipeline's books are right: no piece stands in the queue twice,
/// every outstanding request is for a block of a queued piece, no block is
/// outstanding twice, the requests for a piece stand in the order of its
/// blocks, and every piece is accounted for.
pub open spec fn accounted(p: PipelineModel) -> bool {
    &&& forall|i: int, j: int|
        0 <= i < j < p.queue.len() ==> (#[trigger] p.queue[i]).piece != (
        #[trigger] p.queue[j]).piece
    &&& forall|i: int|
        0 <= i < p.pending.len() ==> is_queued(p.queue, (#[trigger] p.pending[i]).piece)
    &&& forall|i: int, k: int|
        0 <= i < p.pending.len() && 0 <= k < p.queue.len() && (#[trigger] p.pending[i]).piece == (
        #[trigger] p.queue[k]).piece ==> is_block_of(p.pending[i], p.queue[k])
    &&& forall|i: int, j: int|
        0 <= i < j < p.pending.len() && (#[trigger] p.pending[i]).piece == (
        #[trigger] p.pending[j]).piece ==> p.pending[i].begin < p.pending[j].begin
    &&& forall|k: int|
        0 <= k < p.queue.len() ==> piece_accounted(#[trigger] p.queue[k], p.pending)
}

proof fn lemma_bytes_remove(pending: Seq<BlockRequest>, slot: int, piece: u32)
    requires
        0 <= slot < pending.len(),
    ensures
        pending_bytes(pending.remove(slot), piece) == pending_bytes(pending, piece)
            - if pending[slot].piece == piece {
            pending[slot].length as int
        } else {
            0
        },
    decreases pending.len(),
{
    let rest = pending.remove(slot);
    if slot == pending.len() - 1 {
        assert(rest =~= pending.drop_last());
    } else {
        lemma_bytes_remove(pending.drop_last(), slot, piece);
        assert(rest.drop_last() =~= pending.drop_last().remove(slot));
        assert(rest.last() == pending.last());
    }
}

proof fn lemma_bytes_push(pending: Seq<BlockRequest>, request: BlockRequest, piece: u32)
    ensures
        pending_bytes(pending.push(request), piece) == pending_bytes(pending, piece)
            + if request.piece == piece {
            request.length as int
        } else {
            0
        },
{
    assert(pending.push(request).drop_last() =~= pending);
}

/// Nothing is outstanding of a piece exactly where no request is for it, given
/// that no request is empty.
proof fn lemma_bytes_zero(pending: Seq<BlockRequest>, piece: u32)
    ensures
        pending_bytes(pending, piece) >= 0,
        (forall|i: int| 0 <= i < pending.len() ==> (#[trigger] pending[i]).piece != piece)
            ==> pending_bytes(pending, piece) == 0,
    decreases pending.len(),
{
    if pending.len() > 0 {
        let init = pending.drop_last();
        lemma_bytes_zero(init, piece);
        if forall|i: int| 0 <= i < pending.len() ==> (#[trigger] pending[i]).piece != piece {
            assert forall|i: int| 0 <= i < init.len() implies (
            #[trigger] init[i]).piece != piece by {
                assert(init[i] == pending[i]);
            }
            assert(pending.last() == pending[pending.len() - 1]);
        }
    }
}

proof fn lemma_bytes_include(pending: Seq<BlockRequest>, i: int)
    requires
        0 <= i < pending.len(),
    ensures
        pending_bytes(pending, pending[i].piece) >= pending[i].length,
    decreases pending.len(),
{
    lemma_bytes_zero(pending.drop_last(), pending[i].piece);
    if i < pending.len() - 1 {
        lemma_bytes_include(pending.drop_last(), i);
    }
}

proof fn lemma_pending_at(pending: Seq<BlockRequest>, piece: u32, begin: u32, from: int)
    requires
        0 <= from <= pending.len(),
    ensures
        from <= pending_at(pending, piece, begin, from) <= pending.len(),
        ({
            let at = pending_at(pending, piece, begin, from);
            &&& at < pending.len() ==> pending[at].piece == piece && pending[at].begin == begin
            &&& at == pending.len() ==> forall|i: int|
                from <= i < pending.len() ==> !((#[trigger] pending[i]).piece == piece
                    && pending[i].begin == begin)
        }),
    decreases pending.len() - from,
{
    if from < pending.len() && !(pending[from].piece == piece && pending[from].begin == begin) {
        lemma_pending_at(pending, piece, begin, from + 1);
    }
}

proof fn lemma_queued_at(queue: Seq<Queued>, piece: u32, from: int)
    requires
        0 <= from <= queue.len(),
    ensures
        from <= queued_at(queue, piece, from) <= queue.len(),
        ({
            let at = queued_at(queue, piece, from);
            &&& at < queue.len() ==> queue[at].piece == piece
            &&& at == queue.len() ==> forall|i: int|
                from <= i < queue.len() ==> (#[trigger] queue[i]).piece != piece
        }),
    decreases queue.len() - from,
{
    if from < queue.len() && queue[from].piece != piece {
        lemma_queued_at(queue, piece, from + 1);
    }
}

/// Sending the next request keeps the books right, and no block is ever asked
/// for while it is outstanding.
pub proof fn law_requests_keep_account(p: PipelineModel)
    requires
        accounted(p),
        next_request_of(p) is Ok,
        next_request_of(p)->Ok_0 is Some,
    ensures
        accounted(requested(p, next_request_of(p)->Ok_0->0)),
        requested(p, next_request_of(p)->Ok_0->0).pending == p.pending.push(
            next_request_of(p)->Ok_0->0,
        ),
        requested(p, next_request_of(p)->Ok_0->0).pending.len() <= p.limit_blocks,
{
    let request = next_request_of(p)->Ok_0->0;
    let after = requested(p, request);
    let at = unfinished_at(p.queue, 0);
    lemma_unfinished(p.queue, 0);
    let queued = p.queue[at];
    assert(piece_accounted(queued, p.pending));
    lemma_pending_at(p.pending, request.piece, request.begin, 0);
    let slot = pending_at(p.pending, request.piece, request.begin, 0);
    if slot < p.pending.len() {
        assert(is_block_of(p.pending[slot], p.queue[at]));
    }
    assert(after.pending == p.pending.push(request));
    assert forall|k: int| 0 <= k < after.queue.len() implies piece_accounted(
        #[trigger] after.queue[k],
        after.pending,
    ) by {
        assert(piece_accounted(p.queue[k], p.pending));
        lemma_bytes_push(p.pending, request, p.queue[k].piece);
        if k != at {
            let low = if k < at { k } else { at };
            let high = if k < at { at } else { k };
            assert(p.queue[low].piece != p.queue[high].piece);
        }
    }
    assert forall|i: int| 0 <= i < after.pending.len() implies is_queued(
        after.queue,
        (#[trigger] after.pending[i]).piece,
    ) by {
        if i < p.pending.len() {
            assert(is_queued(p.queue, p.pending[i].piece));
            let k = choose|k: int|
                0 <= k < p.queue.len() && (#[trigger] p.queue[k]).piece == p.pending[i].piece;
            assert(after.queue[k].piece == p.queue[k].piece);
        } else {
            assert(after.queue[at].piece == request.piece);
        }
    }
    assert forall|i: int, k: int|
        0 <= i < after.pending.len() && 0 <= k < after.queue.len() && (
        #[trigger] after.pending[i]).piece == (
        #[trigger] after.queue[k]).piece implies is_block_of(
        after.pending[i],
        after.queue[k],
    ) by {
        if i < p.pending.len() {
            assert(p.queue[k].piece == after.queue[k].piece);
            assert(is_block_of(p.pending[i], p.queue[k]));
        } else if k != at {
            let low = if k < at { k } else { at };
            let high = if k < at { at } else { k };
            assert(p.queue[low].piece != p.queue[high].piece);
        }
    }
    assert forall|i: int, j: int|
        0 <= i < j < after.pending.len() && (#[trigger] after.pending[i]).piece == (
        #[trigger] after.pending[j]).piece implies after.pending[i].begin
        < after.pending[j].begin by {
        if j < p.pending.len() {
            assert(p.pending[i].begin < p.pending[j].begin);
        } else {
            assert(is_block_of(p.pending[i], p.queue[at]));
        }
    }
    assert forall|i: int, j: int| 0 <= i < j < after.queue.len() implies (
    #[trigger] after.queue[i]).piece != (#[trigger] after.queue[j]).piece by {
        assert(p.queue[i].piece != p.queue[j].piece);
    }
}

/// A block that completes a piece is the last that was missing: every byte of
/// the piece had been asked for, nothing else of it is outstanding, and the
/// data is what had arrived before with this block put in its place. The books
/// stay right whether or not a piece is completed.
pub proof fn law_blocks_keep_account(
    p: PipelineModel,
    piece: u32,
    begin: u32,
    block: Seq<u8>,
    now: int,
)
    requires
        accounted(p),
        received(p, piece, begin, block, now).outcome is Ok,
    ensures
        accounted(received(p, piece, begin, block, now).pipeline),
        ({
            let slot = pending_at(p.pending, piece, begin, 0);
            let at = queued_at(p.queue, piece, 0);
            let after = received(p, piece, begin, block, now);
            &&& slot < p.pending.len()
            &&& at < p.queue.len()
            &&& block.len() == p.pending[slot].length
            &&& after.pipeline.pending == p.pending.remove(slot)
            &&& after.outcome->Ok_0 is Some ==> {
                &&& p.queue[at].next_begin == p.queue[at].length
                &&& p.queue[at].received + block.len() == p.queue[at].length
                &&& pending_bytes(after.pipeline.pending, piece) == 0
                &&& after.outcome->Ok_0->0 == (
                    piece as int,
                    with_block(p.queue[at], begin as int, block).buffer->0,
                )
            }
        }),
{
    let slot = pending_at(p.pending, piece, begin, 0);
    let at = queued_at(p.queue, piece, 0);
    let receipt = received(p, piece, begin, block, now);
    let after = receipt.pipeline;
    lemma_pending_at(p.pending, piece, begin, 0);
    lemma_queued_at(p.queue, piece, 0);
    let queued = p.queue[at];
    let next = with_block(queued, begin as int, block);
    assert(piece_accounted(queued, p.pending));
    assert(is_block_of(p.pending[slot], queued));
    lemma_bytes_remove(p.pending, slot, piece);
    lemma_bytes_zero(after.pending, piece);
    assert forall|i: int, j: int|
        0 <= i < j < after.pending.len() && (#[trigger] after.pending[i]).piece == (
        #[trigger] after.pending[j]).piece implies after.pending[i].begin
        < after.pending[j].begin by {
        let a = if i < slot { i } else { i + 1 };
        let b = if j < slot { j } else { j + 1 };
        assert(after.pending[i] == p.pending[a]);
        assert(after.pending[j] == p.pending[b]);
    }
    if next.received < next.length {
        assert forall|k: int| 0 <= k < after.queue.len() implies piece_accounted(
            #[trigger] after.queue[k],
            after.pending,
        ) by {
            assert(piece_accounted(p.queue[k], p.pending));
            lemma_bytes_remove(p.pending, slot, p.queue[k].piece);
            if k != at {
                let low = if k < at { k } else { at };
                let high = if k < at { at } else { k };
                assert(p.queue[low].piece != p.queue[high].piece);
            }
        }
        assert forall|i: int| 0 <= i < after.pending.len() implies is_queued(
            after.queue,
            (#[trigger] after.pending[i]).piece,
        ) by {
            let a = if i < slot { i } else { i + 1 };
            assert(after.pending[i] == p.pending[a]);
            assert(is_queued(p.queue, p.pending[a].piece));
            let k = choose|k: int|
                0 <= k < p.queue.len() && (#[trigger] p.queue[k]).piece == p.pending[a].piece;
            assert(after.queue[k].piece == p.queue[k].piece);
        }
        assert forall|i: int, k: int|
            0 <= i < after.pending.len() && 0 <= k < after.queue.len() && (
            #[trigger] after.pending[i]).piece == (
            #[trigger] after.queue[k]).piece implies is_block_of(
            after.pending[i],
            after.queue[k],
        ) by {
            let a = if i < slot { i } else { i + 1 };
            assert(after.pending[i] == p.pending[a]);
            assert(p.queue[k].piece == after.queue[k].piece);
            assert(is_block_of(p.pending[a], p.queue[k]));
        }
        assert forall|i: int, j: int| 0 <= i < j < after.queue.len() implies (
        #[trigger] after.queue[i]).piece != (#[trigger] after.queue[j]).piece by {
            assert(p.queue[i].piece != p.queue[j].piece);
        }
    } else {
        assert forall|i: int| 0 <= i < after.pending.len() implies (
        #[trigger] after.pending[i]).piece != piece by {
            if after.pending[i].piece == piece {
                let a = if i < slot { i } else { i + 1 };
                assert(after.pending[i] == p.pending[a]);
                assert(is_block_of(p.pending[a], queued));
                lemma_bytes_include(after.pending, i);
            }
        }
        lemma_dropped_piece(p, after, at);
        assert forall|k: int| 0 <= k < after.queue.len() implies piece_accounted(
            #[trigger] after.queue[k],
            after.pending,
        ) by {
            let from = if k < at { k } else { k + 1 };
            assert(after.queue[k] == p.queue[from]);
            assert(piece_accounted(p.queue[from], p.pending));
            lemma_bytes_remove(p.pending, slot, p.queue[from].piece);
            let low = if from < at { from } else { at };
            let high = if from < at { at } else { from };
            assert(p.queue[low].piece != p.queue[high].piece);
        }
    }
}

/// A queue without one piece, and requests without that piece, still belong
/// together.
proof fn lemma_dropped_piece(p: PipelineModel, after: PipelineModel, at: int)
    requires
        accounted(p),
        0 <= at < p.queue.len(),
        after.queue == p.queue.remove(at),
        forall|i: int|
            0 <= i < after.pending.len() ==> (#[trigger] after.pending[i]).piece
                != p.queue[at].piece && p.pending.contains(after.pending[i]),
    ensures
        forall|i: int, j: int|
            0 <= i < j < after.queue.len() ==> (#[trigger] after.queue[i]).piece != (
            #[trigger] after.queue[j]).piece,
        forall|i: int|
            0 <= i < after.pending.len() ==> is_queued(
                after.queue,
                (#[trigger] after.pending[i]).piece,
            ),
        forall|i: int, k: int|
            0 <= i < after.pending.len() && 0 <= k < after.queue.len() && (
            #[trigger] after.pending[i]).piece == (#[trigger] after.queue[k]).piece
                ==> is_block_of(after.pending[i], after.queue[k]),
{
    assert forall|i: int, j: int| 0 <= i < j < after.queue.len() implies (
    #[trigger] after.queue[i]).piece != (#[trigger] after.queue[j]).piece by {
        let a = if i < at { i } else { i + 1 };
        let b = if j < at { j } else { j + 1 };
        assert(after.queue[i] == p.queue[a]);
        assert(after.queue[j] == p.queue[b]);
    }
    assert forall|i: int| 0 <= i < after.pending.len() implies is_queued(
        after.queue,
        (#[trigger] after.pending[i]).piece,
    ) by {
        let a = choose|a: int| 0 <= a < p.pending.len() && p.pending[a] == after.pending[i];
        assert(is_queued(p.queue, p.pending[a].piece));
        let k = choose|k: int|
            0 <= k < p.queue.len() && (#[trigger] p.queue[k]).piece == p.pending[a].piece;
        let to = if k < at { k } else { k - 1 };
        assert(after.queue[to] == p.queue[k]);
    }
    assert forall|i: int, k: int|
        0 <= i < after.pending.len() && 0 <= k < after.queue.len() && (
        #[trigger] after.pending[i]).piece == (
        #[trigger] after.queue[k]).piece implies is_block_of(
        after.pending[i],
        after.queue[k],
    ) by {
        let a = choose|a: int| 0 <= a < p.pending.len() && p.pending[a] == after.pending[i];
        let from = if k < at { k } else { k + 1 };
        assert(after.queue[k] == p.queue[from]);
        assert(p.pending[a].piece == p.queue[from].piece);
    }
}

/// Where in the outstanding requests one of those that stay came from.
pub open spec fn kept_from(pending: Seq<BlockRequest>, piece: u32, i: int) -> int
    decreases pending.len(),
{
    if pending.len() == 0 {
        0
    } else if i < without_piece(pending.drop_last(), piece).len() {
        kept_from(pending.drop_last(), piece, i)
    } else {
        pending.len() - 1
    }
}

proof fn lemma_kept_from(pending: Seq<BlockRequest>, piece: u32, i: int)
    requires
        0 <= i < without_piece(pending, piece).len(),
    ensures
        0 <= kept_from(pending, piece, i) < pending.len(),
        pending[kept_from(pending, piece, i)] == without_piece(pending, piece)[i],
        without_piece(pending, piece)[i].piece != piece,
    decreases pending.len(),
{
    let init = pending.drop_last();
    if i < without_piece(init, piece).len() {
        lemma_kept_from(init, piece, i);
    }
}

proof fn lemma_kept_order(pending: Seq<BlockRequest>, piece: u32, i: int, j: int)
    requires
        0 <= i < j < without_piece(pending, piece).len(),
    ensures
        kept_from(pending, piece, i) < kept_from(pending, piece, j),
    decreases pending.len(),
{
    let init = pending.drop_last();
    if j < without_piece(init, piece).len() {
        lemma_kept_order(init, piece, i, j);
    } else {
        lemma_kept_from(init, piece, i);
    }
}

proof fn lemma_bytes_without(pending: Seq<BlockRequest>, gone: u32, piece: u32)
    requires
        gone != piece,
    ensures
        pending_bytes(without_piece(pending, gone), piece) == pending_bytes(pending, piece),
    decreases pending.len(),
{
    if pending.len() > 0 {
        lemma_bytes_without(pending.drop_last(), gone, piece);
        if pending.last().piece != gone {
            lemma_bytes_push(
                without_piece(pending.drop_last(), gone),
                pending.last(),
                piece,
            );
        }
    }
}

/// Taking a piece back keeps the books right and leaves nothing of it outstanding.
pub proof fn law_cancelling_keeps_account(p: PipelineModel, piece: int)
    requires
        accounted(p),
        0 <= piece,
    ensures
        accounted(cancelled(p, piece).pipeline),
        piece <= u32::MAX ==> !is_queued(cancelled(p, piece).pipeline.queue, piece as u32)
            && pending_bytes(cancelled(p, piece).pipeline.pending, piece as u32) == 0,
{
    let after = cancelled(p, piece).pipeline;
    let gone = piece as u32;
    let at = queued_at(p.queue, gone, 0);
    lemma_queued_at(p.queue, gone, 0);
    if piece <= u32::MAX && at < p.queue.len() {
        assert forall|i: int| 0 <= i < after.pending.len() implies (
        #[trigger] after.pending[i]).piece != p.queue[at].piece && p.pending.contains(
            after.pending[i],
        ) by {
            lemma_kept_from(p.pending, gone, i);
        }
        lemma_dropped_piece(p, after, at);
        assert forall|k: int| 0 <= k < after.queue.len() implies piece_accounted(
            #[trigger] after.queue[k],
            after.pending,
        ) by {
            let from = if k < at { k } else { k + 1 };
            assert(after.queue[k] == p.queue[from]);
            assert(piece_accounted(p.queue[from], p.pending));
            let low = if from < at { from } else { at };
            let high = if from < at { at } else { from };
            assert(p.queue[low].piece != p.queue[high].piece);
            lemma_bytes_without(p.pending, gone, p.queue[from].piece);
        }
        assert forall|i: int, j: int|
            0 <= i < j < after.pending.len() && (#[trigger] after.pending[i]).piece == (
            #[trigger] after.pending[j]).piece implies after.pending[i].begin
            < after.pending[j].begin by {
            lemma_kept_from(p.pending, gone, i);
            lemma_kept_from(p.pending, gone, j);
            lemma_kept_order(p.pending, gone, i, j);
        }
        lemma_bytes_zero(after.pending, gone);
        if is_queued(after.queue, gone) {
            let k = choose|k: int|
                0 <= k < after.queue.len() && (#[trigger] after.queue[k]).piece == gone;
            let from = if k < at { k } else { k + 1 };
            assert(after.queue[k] == p.queue[from]);
            let low = if from < at { from } else { at };
            let high = if from < at { at } else { from };
            assert(p.queue[low].piece != p.queue[high].piece);
        }
    } else if piece <= u32::MAX {
        assert forall|i: int| 0 <= i < p.pending.len() implies (
        #[trigger] p.pending[i]).piece != gone by {
            assert(is_queued(p.queue, p.pending[i].piece));
        }
        lemma_bytes_zero(p.pending, gone);
    }
}

/// Whether requests stand in the order of their blocks.
pub open spec fn in_order(requests: Seq<BlockRequest>) -> bool {
    forall|i: int, j: int|
        0 <= i < j < requests.len() ==> !comes_after(
            #[trigger] requests[i],
            #[trigger] requests[j],
        )
}

proof fn lemma_put_in(requests: Seq<BlockRequest>, request: BlockRequest)
    requires
        in_order(requests),
    ensures
        in_order(put_in(requests, request)),
        put_in(requests, request).to_multiset() == requests.to_multiset().insert(request),
        forall|k: int|
            0 <= k < put_in(requests, request).len() ==> (#[trigger] put_in(requests, request)[k]
                == request || requests.contains(put_in(requests, request)[k])),
    decreases requests.len(),
{
    let after = put_in(requests, request);
    if requests.len() == 0 || !comes_after(requests.last(), request) {
        to_multiset_build(requests, request);
        assert forall|k: int| 0 <= k < after.len() implies (#[trigger] after[k] == request
            || requests.contains(after[k])) by {
            if k < requests.len() {
                assert(after[k] == requests[k]);
            }
        }
        assert forall|i: int, j: int| 0 <= i < j < after.len() implies !comes_after(
            #[trigger] after[i],
            #[trigger] after[j],
        ) by {
            if j == requests.len() && i < requests.len() - 1 {
                assert(!comes_after(requests[i], requests[requests.len() - 1]));
            }
        }
    } else {
        let init = requests.drop_last();
        let last = requests.last();
        lemma_put_in(init, request);
        to_multiset_build(put_in(init, request), last);
        to_multiset_build(init, last);
        assert(requests =~= init.push(last));
        assert(after.to_multiset() =~= requests.to_multiset().insert(request));
        assert forall|k: int| 0 <= k < after.len() implies (#[trigger] after[k] == request
            || requests.contains(after[k])) by {
            if k < after.len() - 1 {
                let value = put_in(init, request)[k];
                if value != request {
                    let from = choose|m: int| 0 <= m < init.len() && init[m] == value;
                    assert(requests[from] == value);
                }
            } else {
                assert(requests[requests.len() - 1] == last);
            }
        }
        assert forall|i: int, j: int| 0 <= i < j < after.len() implies !comes_after(
            #[trigger] after[i],
            #[trigger] after[j],
        ) by {
            let rest = put_in(init, request);
            if j < rest.len() {
                assert(after[i] == rest[i] && after[j] == rest[j]);
            } else if rest[i] != request {
                let from = choose|m: int| 0 <= m < init.len() && init[m] == rest[i];
                assert(!comes_after(requests[from], requests[requests.len() - 1]));
            }
        }
    }
}

/// Exactly the outstanding requests of a piece that is taken back are cancelled,
/// each as often as it is outstanding, in the order of its blocks.
pub proof fn law_cancels_follow_the_blocks(pending: Seq<BlockRequest>, piece: u32)
    ensures
        in_order(of_piece(pending, piece)),
        of_piece(pending, piece).to_multiset() == pending.to_multiset().filter(
            |request: BlockRequest| request.piece == piece,
        ),
    decreases pending.len(),
{
    let kept = |request: BlockRequest| request.piece == piece;
    if pending.len() == 0 {
        assert(pending =~= Seq::empty());
        to_multiset_len(pending);
        assert(of_piece(pending, piece).to_multiset() =~= pending.to_multiset().filter(kept));
    } else {
        let init = pending.drop_last();
        law_cancels_follow_the_blocks(init, piece);
        lemma_put_in(of_piece(init, piece), pending.last());
        assert(pending =~= init.push(pending.last()));
        to_multiset_build(init, pending.last());
        assert(of_piece(pending, piece).to_multiset() =~= pending.to_multiset().filter(kept));
    }
}

/// Assigning a piece that is not queued yet keeps the books right.
pub proof fn law_assigning_keeps_account(p: PipelineModel, piece: int, length: int)
    requires
        accounted(p),
        0 <= piece <= u32::MAX,
        length >= 0,
        !is_queued(p.queue, piece as u32),
    ensures
        accounted(enqueued(p, piece, length)),
{
    let after = enqueued(p, piece, length);
    let last = p.queue.len() as int;
    assert forall|i: int| 0 <= i < p.pending.len() implies (
    #[trigger] p.pending[i]).piece != piece as u32 by {
        assert(is_queued(p.queue, p.pending[i].piece));
    }
    lemma_bytes_zero(p.pending, piece as u32);
    assert forall|k: int| 0 <= k < after.queue.len() implies piece_accounted(
        #[trigger] after.queue[k],
        after.pending,
    ) by {
        if k < last {
            assert(piece_accounted(p.queue[k], p.pending));
        }
    }
    assert forall|i: int| 0 <= i < after.pending.len() implies is_queued(
        after.queue,
        (#[trigger] after.pending[i]).piece,
    ) by {
        assert(is_queued(p.queue, p.pending[i].piece));
        let k = choose|k: int|
            0 <= k < p.queue.len() && (#[trigger] p.queue[k]).piece == p.pending[i].piece;
        assert(after.queue[k] == p.queue[k]);
    }
    assert forall|i: int, k: int|
        0 <= i < after.pending.len() && 0 <= k < after.queue.len() && (
        #[trigger] after.pending[i]).piece == (
        #[trigger] after.queue[k]).piece implies is_block_of(
        after.pending[i],
        after.queue[k],
    ) by {
        if k < last {
            assert(after.queue[k] == p.queue[k]);
            assert(is_block_of(p.pending[i], p.queue[k]));
        }
    }
    assert forall|i: int, j: int| 0 <= i < j < after.queue.len() implies (
    #[trigger] after.queue[i]).piece != (#[trigger] after.queue[j]).piece by {
        assert(after.queue[i] == p.queue[i]);
        if j < last {
            assert(after.queue[j] == p.queue[j]);
        }
    }
}

/// A choke leaves nothing queued and nothing outstanding, keeps the books
/// right, and returns every queued piece.
pub proof fn law_choke_returns_every_piece(p: PipelineModel, k: int)
    requires
        0 <= k < p.queue.len(),
    ensures
        accounted(choked(p).pipeline),
        choked(p).pipeline.queue.len() == 0,
        choked(p).pipeline.pending.len() == 0,
        choked(p).acts[k] == Act::Complete(p.queue[k].piece as int, Outcome::Cancelled),
        choked(p).acts.last() == Act::ChokeState(true),
{
}

/// A block that was not asked for never reaches a piece: it ends the worker.
pub proof fn law_unsolicited_block_ends_worker(
    p: PipelineModel,
    piece: u32,
    begin: u32,
    block: Seq<u8>,
    now: int,
)
    requires
        forall|i: int|
            0 <= i < p.pending.len() ==> !((#[trigger] p.pending[i]).piece == piece
                && p.pending[i].begin == begin),
    ensures
        received(p, piece, begin, block, now).pipeline == p,
        received(p, piece, begin, block, now).outcome is Err,
        block_arrived(p, piece, begin, block, now).acts.last() is Stop,
{
    lemma_pending_at(p.pending, piece, begin, 0);
}

/// A block lands where it says: from where it begins its bytes follow one
/// another in the piece, and all other bytes of the piece are as they were, zero
/// where nothing had arrived.
pub proof fn law_block_lands_in_its_place(
    p: PipelineModel,
    piece: u32,
    begin: u32,
    block: Seq<u8>,
    now: int,
    at: int,
)
    requires
        0 <= at < p.queue.len(),
        p.queue[at].piece == piece,
        forall|k: int| 0 <= k < at ==> (#[trigger] p.queue[k]).piece != piece,
        p.queue[at].buffer is Some ==> p.queue[at].buffer->0.len() == p.queue[at].length,
        received(p, piece, begin, block, now).outcome is Ok,
    ensures
        ({
            let after = received(p, piece, begin, block, now);
            let data = match after.outcome->Ok_0 {
                Some((number, data)) => data,
                None => after.pipeline.queue[at].buffer->0,
            };
            &&& data.len() == p.queue[at].length
            &&& begin + block.len() <= data.len()
            &&& forall|j: int| 0 <= j < block.len() ==> data[begin + j] == #[trigger] block[j]
            &&& forall|j: int|
                0 <= j < data.len() && !(begin <= j < begin + block.len()) ==> #[trigger] data[j]
                    == match p.queue[at].buffer {
                    Some(buffer) => buffer[j],
                    None => 0u8,
                }
            &&& after.outcome->Ok_0 is Some ==> (after.outcome->Ok_0->0).0 == piece
                && after.pipeline.queue == p.queue.remove(at)
            &&& after.outcome->Ok_0 is None ==> after.pipeline.queue.len() == p.queue.len()
                && after.pipeline.queue[at].received == p.queue[at].received + block.len()
                && after.pipeline.queue[at].received < p.queue[at].length
        }),
{
    lemma_queued_first(p.queue, piece, 0, at);
}

proof fn lemma_queued_first(queue: Seq<Queued>, piece: u32, from: int, at: int)
    requires
        0 <= from <= at < queue.len(),
        queue[at].piece == piece,
        forall|k: int| from <= k < at ==> (#[trigger] queue[k]).piece != piece,
    ensures
        queued_at(queue, piece, from) == at,
    decreases at - from,
{
    if from < at {
        assert(queue[from].piece != piece);
        lemma_queued_first(queue, piece, from + 1, at);
    }
}

proof fn lemma_unfinished_first(queue: Seq<Queued>, from: int, at: int)
    requires
        0 <= from <= at < queue.len(),
        queue[at].next_begin < queue[at].length,
        forall|k: int|
            from <= k < at ==> (#[trigger] queue[k]).next_begin >= queue[k].length,
    ensures
        unfinished_at(queue, from) == at,
    decreases at - from,
{
    if from < at {
        assert(queue[from].next_begin >= queue[from].length);
        lemma_unfinished_first(queue, from + 1, at);
    }
}

/// As long as the pipeline has room, the next request is for the first queued
/// piece of which something was not asked for yet. It begins where the last one
/// ended, and asks for 16384 bytes, or for the rest of the piece where that is
/// less.
pub proof fn law_next_request_goes_on(p: PipelineModel, at: int)
    requires
        0 <= at < p.queue.len(),
        0 <= p.queue[at].next_begin < p.queue[at].length <= u32::MAX,
        forall|k: int|
            0 <= k < at ==> (#[trigger] p.queue[k]).next_begin >= p.queue[k].length,
        p.pending.len() < p.limit_blocks,
    ensures
        next_request_of(p) is Ok,
        next_request_of(p)->Ok_0 is Some,
        ({
            let request = next_request_of(p)->Ok_0->0;
            let after = requested(p, request);
            let end = request.begin + request.length;
            &&& request.piece == p.queue[at].piece
            &&& request.begin == p.queue[at].next_begin
            &&& 0 < request.length <= 16384
            &&& end <= p.queue[at].length
            &&& request.length < 16384 ==> end == p.queue[at].length
            &&& after.queue.len() == p.queue.len()
            &&& after.queue[at] == (Queued { next_begin: end, ..p.queue[at] })
            &&& forall|k: int|
                0 <= k < p.queue.len() && k != at ==> #[trigger] after.queue[k] == p.queue[k]
        }),
{
    lemma_unfinished_first(p.queue, 0, at);
}

/// A full pipeline asks for nothing more.
pub proof fn law_full_pipeline_waits(p: PipelineModel)
    requires
        p.pending.len() >= p.limit_blocks,
    ensures
        next_request_of(p) == Ok::<Option<BlockRequest>, Fault>(None),
{
}

/// Requests are sent until the pipeline is full or every byte of every queued
/// piece was asked for, unless a piece is too long to be asked for.
pub proof fn law_pipeline_is_filled(p: PipelineModel)
    ensures
        filled(p).fault is None ==> filled(p).pipeline.pending.len() >= p.limit_blocks || forall|
            k: int,
        |
            0 <= k < filled(p).pipeline.queue.len() ==> (
            #[trigger] filled(p).pipeline.queue[k]).next_begin
                >= filled(p).pipeline.queue[k].length,
        filled(p).pipeline.limit_blocks == p.limit_blocks,
    decreases unrequested(p.queue),
{
    lemma_unfinished(p.queue, 0);
    match next_request_of(p) {
        Ok(Some(request)) => {
            lemma_requested_shrinks(p);
            law_pipeline_is_filled(requested(p, request));
        },
        _ => {},
    }
}

} // verus!
