//! What the trees above files and their layers come to, said of the bytes below.

use crate::hash::{
    floor_log2, is_power_of_two, layer_root, lemma_power_of_two_from, next_power_of_two, padded,
    pow2, root_of, zero_of,
};
use crate::hash_tree::{
    hash_answer, lemma_pow2_monotone, lemma_power_is_pow2, HashRequest,
};
use crate::metainfo::MetaModel;
use crate::verify_laws::{hashed_up, lemma_pow2_positive, lemma_root_splits, span_of};
use vstd::prelude::*;

verus! {

/// The bytes from some place on, up to so many of them.
pub open spec fn part_of(data: Seq<u8>, from: int, size: int) -> Seq<u8> {
    if from >= data.len() {
        Seq::empty()
    } else if from + size <= data.len() {
        data.subrange(from, from + size)
    } else {
        data.skip(from)
    }
}

/// The root of a tree of zeros is what no bytes hash up to.
proof fn lemma_zero_is_empty(height: nat)
    ensures
        zero_of(height) == hashed_up(Seq::empty(), height),
    decreases height,
{
    if height > 0 {
        lemma_zero_is_empty((height - 1) as nat);
        lemma_pow2_positive((height - 1) as nat);
    }
}

/// Nodes that are hashed up from the parts of some bytes hash up as the bytes do.
proof fn lemma_parts_hash_up(data: Seq<u8>, height: nat, more: nat, nodes: Seq<Seq<u8>>)
    requires
        nodes.len() == pow2(more),
        data.len() <= span_of(height) * pow2(more),
        forall|i: int|
            0 <= i < nodes.len() ==> #[trigger] nodes[i] == hashed_up(
                part_of(data, i * span_of(height), span_of(height)),
                height,
            ),
    ensures
        root_of(nodes) == hashed_up(data, height + more),
        span_of(height + more) == span_of(height) * pow2(more),
    decreases more,
{
    let size = span_of(height);
    lemma_pow2_positive(height);
    if more == 0 {
        assert(pow2(more) == 1);
        assert(size * pow2(more) == size) by (nonlinear_arith)
            requires
                pow2(more) == 1,
        ;
        assert(part_of(data, 0, size) =~= data);
        assert(nodes[0] == hashed_up(part_of(data, 0 * size, size), height));
        assert(0 * size == 0);
    } else {
        let below = (more - 1) as nat;
        let half = pow2(below) as int;
        lemma_pow2_positive(below);
        let bytes = size * half;
        assert(size * pow2(more) == 2 * bytes) by (nonlinear_arith)
            requires
                pow2(more) == 2 * half,
                bytes == size * half,
        ;
        assert(bytes > 0) by (nonlinear_arith)
            requires
                bytes == size * half,
                size > 0,
                half > 0,
        ;
        let (front, back) = if data.len() <= bytes {
            (data, Seq::<u8>::empty())
        } else {
            (data.take(bytes), data.skip(bytes))
        };
        assert forall|i: int| 0 <= i < half implies #[trigger] nodes.take(half)[i] == hashed_up(
            part_of(front, i * size, size),
            height,
        ) by {
            assert(nodes[i] == hashed_up(part_of(data, i * size, size), height));
            assert(i * size + size <= bytes) by (nonlinear_arith)
                requires
                    i + 1 <= half,
                    bytes == size * half,
                    size > 0,
            ;
            assert(part_of(front, i * size, size) =~= part_of(data, i * size, size));
        }
        assert forall|i: int| 0 <= i < half implies #[trigger] nodes.skip(half)[i] == hashed_up(
            part_of(back, i * size, size),
            height,
        ) by {
            assert(nodes[half + i] == hashed_up(part_of(data, (half + i) * size, size), height));
            assert((half + i) * size == bytes + i * size) by (nonlinear_arith)
                requires
                    bytes == size * half,
            ;
            assert(i * size >= 0) by (nonlinear_arith)
                requires
                    i >= 0,
                    size > 0,
            ;
            assert(part_of(back, i * size, size) =~= part_of(data, bytes + i * size, size));
        }
        lemma_parts_hash_up(front, height, below, nodes.take(half));
        lemma_parts_hash_up(back, height, below, nodes.skip(half));
        lemma_root_splits(nodes, below);
        assert(height + more == height + below + 1);
        assert(span_of(height + more) == 2 * span_of(height + below));
        assert(span_of((height + more - 1) as nat) == bytes);
    }
}

/// The root above the layer of a file is what all the bytes of the file hash up
/// to, where the layer holds what each of its pieces hashes up to. The tree is
/// the lowest that has room for every piece.
pub proof fn law_layer_root_is_the_file_root(
    data: Seq<u8>,
    height: nat,
    more: nat,
    layer: Seq<Seq<u8>>,
)
    requires
        layer.len() >= 1,
        data.len() <= layer.len() * span_of(height),
        forall|i: int|
            0 <= i < layer.len() ==> #[trigger] layer[i] == hashed_up(
                part_of(data, i * span_of(height), span_of(height)),
                height,
            ),
        layer.len() <= pow2(more),
        more > 0 ==> pow2((more - 1) as nat) < layer.len(),
    ensures
        layer_root(layer, height) == hashed_up(data, height + more),
{
    let width = next_power_of_two(layer.len());
    lemma_power_of_two_from(layer.len(), 1);
    lemma_power_is_pow2(width);
    let k = floor_log2(width);
    if k < more {
        lemma_pow2_monotone(k, (more - 1) as nat);
    } else if more < k {
        lemma_pow2_monotone(more, (k - 1) as nat);
        assert(pow2(k) == 2 * pow2((k - 1) as nat));
    }
    assert(width == pow2(more));
    let nodes = padded(layer, width, zero_of(height));
    let size = span_of(height);
    lemma_pow2_positive(height);
    lemma_zero_is_empty(height);
    assert(data.len() <= size * pow2(more)) by (nonlinear_arith)
        requires
            data.len() <= layer.len() * size,
            layer.len() <= pow2(more),
            size > 0,
    ;
    assert forall|i: int| 0 <= i < nodes.len() implies #[trigger] nodes[i] == hashed_up(
        part_of(data, i * size, size),
        height,
    ) by {
        if i >= layer.len() {
            assert(i * size >= data.len()) by (nonlinear_arith)
                requires
                    data.len() <= layer.len() * size,
                    i >= layer.len(),
                    size > 0,
            ;
        } else {
            assert(nodes[i] == layer[i]);
        }
    }
    lemma_parts_hash_up(data, height, more, nodes);
}

/// An answer begins with the run that was asked for, as it stands in the layer;
/// beyond the layer's end a node is what no bytes hash up to. Behind the run
/// stands one hash for each layer of the proof above it.
pub proof fn law_answer_begins_with_the_run(m: MetaModel, request: HashRequest, above: nat)
    requires
        hash_answer(m, request) is Some,
        pow2(above) == request.length,
    ensures
        ({
            let answer = hash_answer(m, request)->0;
            let layer = m.piece_layers[request.pieces_root@];
            let length = request.length as int;
            &&& answer.len() == length + if request.proof_layers > above {
                request.proof_layers - above
            } else {
                0
            }
            &&& forall|i: int|
                0 <= i < length ==> #[trigger] answer[i] == if request.index + i < layer.len() {
                    layer[request.index + i]
                } else {
                    hashed_up(Seq::empty(), request.base_layer as nat)
                }
        }),
{
    lemma_zero_is_empty(request.base_layer as nat);
    lemma_log_of_pow2(above);
}

pub proof fn lemma_log_of_pow2(k: nat)
    ensures
        floor_log2(pow2(k)) == k,
        is_power_of_two(pow2(k)),
    decreases k,
{
    if k > 0 {
        lemma_log_of_pow2((k - 1) as nat);
        lemma_pow2_positive((k - 1) as nat);
        assert(pow2(k) / 2 == pow2((k - 1) as nat));
    }
}

/// A request is answered only for the piece layer, only for a root that has one,
/// and only for a run of two to 512 hashes that begins on a multiple of its
/// length, which is a power of two.
pub proof fn law_answered_request_is_in_order(m: MetaModel, request: HashRequest, height: nat)
    requires
        hash_answer(m, request) is Some,
        m.piece_length == span_of(height),
    ensures
        request.base_layer == height,
        m.piece_layers.contains_key(request.pieces_root@),
        2 <= request.length <= 512,
        request.index % request.length == 0,
        exists|k: nat| #[trigger] pow2(k) == request.length,
{
    assert(m.piece_length / 16384 == pow2(height));
    lemma_log_of_pow2(height);
    lemma_power_is_pow2(request.length as nat);
    assert(pow2(floor_log2(request.length as nat)) == request.length);
}

} // verus!
