//! Answering BEP 52 hash requests: a run of piece hashes, and the uncles with
//! which whoever asked can work its way up to the root of the file.

use crate::hash::{
    digests, floor_log2, ilog2, ilog2_usize, is_power_of_two, layer_root,
    lemma_power_of_two_from, next_power_of_two, padded, pair_of, parents, pow2, power_of_two,
    reduce_layer, root_of, round_up_to_power_of_two, zero_hash, zero_of, Sha256Hash,
};
use crate::metainfo::{MetaModel, Metainfo};
use vstd::prelude::*;

verus! {

/// A request for hashes of a file's tree.
#[derive(Clone, Copy, Debug)]
pub struct HashRequest {
    pub pieces_root: Sha256Hash,
    /// How far above the leaves the hashes stand.
    pub base_layer: u32,
    pub index: u32,
    pub length: u32,
    /// How many layers above the base a proof is wanted for.
    pub proof_layers: u32,
}

impl HashRequest {
    /// Whether an answer that names a request belongs to this one.
    pub fn same(&self, other: &Self) -> (result: bool)
        ensures
            result == (self.pieces_root@ == other.pieces_root@ && self.base_layer
                == other.base_layer && self.index == other.index && self.length == other.length
                && self.proof_layers == other.proof_layers),
    {
        self.pieces_root.same(&other.pieces_root) && self.base_layer == other.base_layer
            && self.index == other.index && self.length == other.length && self.proof_layers
            == other.proof_layers
    }
}

/// The nodes `k` layers above a layer.
pub open spec fn level_of(nodes: Seq<Seq<u8>>, k: nat) -> Seq<Seq<u8>>
    decreases k,
{
    if k == 0 {
        nodes
    } else {
        parents(level_of(nodes, (k - 1) as nat))
    }
}

/// The other child of a node's parent.
pub open spec fn sibling(node: int) -> int {
    if node % 2 == 0 {
        node + 1
    } else {
        node - 1
    }
}

/// The ancestor of a node, `k` layers up.
pub open spec fn ancestor(node: int, k: nat) -> int
    decreases k,
{
    if k == 0 {
        node
    } else {
        ancestor(node, (k - 1) as nat) / 2
    }
}

/// The siblings along the way up from a node of layer `from`, `count` of them.
pub open spec fn uncles(nodes: Seq<Seq<u8>>, from: nat, node: int, count: nat) -> Seq<Seq<u8>> {
    Seq::new(
        count,
        |j: int| level_of(nodes, from + j as nat)[sibling(ancestor(node, j as nat))],
    )
}

/// The nodes of a layer, filled up to a power of two.
pub open spec fn full_layer(layer: Seq<Seq<u8>>, base_layer: nat) -> Seq<Seq<u8>> {
    let least = if layer.len() == 0 {
        1
    } else {
        layer.len()
    };
    padded(layer, next_power_of_two(least), zero_of(base_layer))
}

/// The hashes that answer a request, or nothing where it has to be rejected:
/// only the piece layer is served, in aligned runs of a power of two between
/// two and 512, and no further up than the root.
pub open spec fn hash_answer(m: MetaModel, request: HashRequest) -> Option<Seq<Seq<u8>>> {
    let root = request.pieces_root@;
    let length = request.length as int;
    let index = request.index as int;
    if request.base_layer != floor_log2((m.piece_length / 16384) as nat) || length < 2
        || !is_power_of_two(length as nat) || length > 512 || index % length != 0
        || !m.piece_layers.contains_key(root) {
        None
    } else {
        let nodes = full_layer(m.piece_layers[root], request.base_layer as nat);
        if index + length > nodes.len() || request.proof_layers > floor_log2(nodes.len()) {
            None
        } else {
            let from = floor_log2(length as nat);
            let count = if request.proof_layers > from {
                (request.proof_layers - from) as nat
            } else {
                0
            };
            Some(
                nodes.subrange(index, index + length) + uncles(
                    nodes,
                    from,
                    index / length,
                    count,
                ),
            )
        }
    }
}

/// Digests one behind the other.
pub open spec fn joined(digests: Seq<Seq<u8>>) -> Seq<u8>
    decreases digests.len(),
{
    if digests.len() == 0 {
        Seq::empty()
    } else {
        joined(digests.drop_last()) + digests.last()
    }
}

pub proof fn lemma_power_is_pow2(n: nat)
    requires
        is_power_of_two(n),
    ensures
        n == pow2(floor_log2(n)),
    decreases n,
{
    if n > 1 {
        lemma_power_is_pow2(n / 2);
    }
}

proof fn lemma_pow2_positive(k: nat)
    ensures
        pow2(k) > 0,
    decreases k,
{
    if k > 0 {
        lemma_pow2_positive((k - 1) as nat);
    }
}

/// Each layer is half as wide as the one below.
proof fn lemma_level_width(nodes: Seq<Seq<u8>>, height: nat, k: nat)
    requires
        nodes.len() == pow2(height),
        k <= height,
    ensures
        level_of(nodes, k).len() == pow2((height - k) as nat),
    decreases k,
{
    if k > 0 {
        lemma_level_width(nodes, height, (k - 1) as nat);
        assert(pow2((height - k + 1) as nat) == 2 * pow2((height - k) as nat));
    }
}

/// An ancestor stays inside its layer.
proof fn lemma_ancestor_range(node: int, height: nat, k: nat)
    requires
        0 <= node < pow2(height),
        k <= height,
    ensures
        0 <= ancestor(node, k) < pow2((height - k) as nat),
    decreases k,
{
    if k > 0 {
        lemma_ancestor_range(node, height, (k - 1) as nat);
        assert(pow2((height - k + 1) as nat) == 2 * pow2((height - k) as nat));
    }
}

/// The root of a full layer stands alone on the topmost layer.
proof fn lemma_root_is_top(nodes: Seq<Seq<u8>>, height: nat)
    requires
        nodes.len() == pow2(height),
    ensures
        root_of(nodes) == level_of(nodes, height)[0],
    decreases height,
{
    if height > 0 {
        lemma_pow2_positive((height - 1) as nat);
        let above = parents(nodes);
        assert(above.len() == pow2((height - 1) as nat));
        lemma_root_is_top(above, (height - 1) as nat);
        lemma_level_shift(nodes, (height - 1) as nat);
    }
}

/// The layers above the parents are the layers above, one further up.
proof fn lemma_level_shift(nodes: Seq<Seq<u8>>, k: nat)
    ensures
        level_of(parents(nodes), k) == level_of(nodes, k + 1),
    decreases k,
{
    reveal_with_fuel(level_of, 2);
    if k > 0 {
        lemma_level_shift(nodes, (k - 1) as nat);
    }
}

/// The layers above a run of nodes are the run's part of the layers above.
proof fn lemma_level_of_run(nodes: Seq<Seq<u8>>, start: int, height: nat, total: nat, k: nat)
    requires
        nodes.len() == pow2(total),
        height <= total,
        k <= height,
        0 <= start,
        (start + 1) * pow2(height) <= nodes.len(),
    ensures
        ({
            let run = nodes.subrange(start * pow2(height), (start + 1) * pow2(height));
            let width = pow2((height - k) as nat);
            level_of(run, k) == level_of(nodes, k).subrange(
                start * width,
                (start + 1) * width,
            ) && 0 <= start * width <= (start + 1) * width <= level_of(nodes, k).len()
        }),
    decreases k,
{
    let size = pow2(height);
    let run = nodes.subrange(start * size, (start + 1) * size);
    let width = pow2((height - k) as nat);
    lemma_pow2_positive((height - k) as nat);
    lemma_pow2_positive(height);
    lemma_level_width(nodes, total, k);
    assert(0 <= start * size && (start + 1) * size == start * size + size) by (nonlinear_arith)
        requires
            start >= 0,
            size > 0,
    ;
    assert(0 <= start * width && (start + 1) * width == start * width + width)
        by (nonlinear_arith)
        requires
            start >= 0,
            width > 0,
    ;
    lemma_pow2_adds((height - k) as nat, k);
    lemma_pow2_adds((total - k) as nat, k);
    lemma_pow2_positive(k);
    assert((start + 1) * width <= pow2((total - k) as nat)) by (nonlinear_arith)
        requires
            (start + 1) * size <= pow2(total),
            size == width * pow2(k),
            pow2(total) == pow2((total - k) as nat) * pow2(k),
            pow2(k) > 0,
    ;
    if k == 0 {
        assert(level_of(run, 0) =~= nodes.subrange(start * width, (start + 1) * width));
    } else {
        lemma_level_of_run(nodes, start, height, total, (k - 1) as nat);
        let below = level_of(nodes, (k - 1) as nat);
        let wide = pow2((height - k + 1) as nat);
        assert(wide == 2 * width);
        let part = below.subrange(start * wide, (start + 1) * wide);
        let above = level_of(nodes, k);
        assert(start * wide == 2 * (start * width)) by (nonlinear_arith)
            requires
                wide == 2 * width,
        ;
        assert((start + 1) * wide == start * wide + wide) by (nonlinear_arith);
        assert(parents(part) =~= above.subrange(start * width, (start + 1) * width)) by {
            assert forall|i: int| 0 <= i < width implies parents(part)[i] == above.subrange(
                start * width,
                (start + 1) * width,
            )[i] by {
                assert(part[2 * i] == below[start * wide + 2 * i]);
                assert(part[2 * i + 1] == below[start * wide + 2 * i + 1]);
                assert(above[start * width + i] == pair_of(
                    below[2 * (start * width + i)],
                    below[2 * (start * width + i) + 1],
                ));
            }
        }
    }
}

proof fn lemma_pow2_adds(a: nat, b: nat)
    ensures
        pow2(a + b) == pow2(a) * pow2(b),
    decreases b,
{
    if b > 0 {
        lemma_pow2_adds(a, (b - 1) as nat);
        assert(pow2(a) * (2 * pow2((b - 1) as nat)) == 2 * (pow2(a) * pow2((b - 1) as nat)))
            by (nonlinear_arith);
    } else {
        assert(pow2(a) * 1 == pow2(a)) by (nonlinear_arith);
    }
}

/// What whoever asked computes: the root of the run, combined with each uncle
/// on its side of the way up.
pub open spec fn climbed(
    start: Seq<u8>,
    node: int,
    uncles: Seq<Seq<u8>>,
) -> Seq<u8>
    decreases uncles.len(),
{
    if uncles.len() == 0 {
        start
    } else {
        let below = climbed(start, node, uncles.drop_last());
        if ancestor(node, (uncles.len() - 1) as nat) % 2 == 0 {
            pair_of(below, uncles.last())
        } else {
            pair_of(uncles.last(), below)
        }
    }
}

/// Climbing from a node of a layer along its uncles reaches its ancestor.
proof fn lemma_climb(nodes: Seq<Seq<u8>>, total: nat, from: nat, node: int, count: nat)
    requires
        nodes.len() == pow2(total),
        from + count <= total,
        0 <= node < pow2((total - from) as nat),
    ensures
        climbed(level_of(nodes, from)[node], node, uncles(nodes, from, node, count)) == level_of(
            nodes,
            from + count,
        )[ancestor(node, count)],
    decreases count,
{
    if count > 0 {
        let prior = (count - 1) as nat;
        lemma_climb(nodes, total, from, node, prior);
        let all = uncles(nodes, from, node, count);
        assert(all.drop_last() =~= uncles(nodes, from, node, prior));
        lemma_ancestor_range(node, (total - from) as nat, prior);
        let at = ancestor(node, prior);
        let below = level_of(nodes, from + prior);
        lemma_level_width(nodes, total, from + prior);
        assert(pow2((total - from - prior) as nat) == 2 * pow2((total - from - count) as nat));
        let above = level_of(nodes, from + count);
        assert(above == parents(below));
        assert(all.last() == below[sibling(at)]);
        assert(above[at / 2] == pair_of(below[2 * (at / 2)], below[2 * (at / 2) + 1]));
    } else {
        assert(uncles(nodes, from, node, 0) =~= Seq::empty());
    }
}

/// The hashes of an answer prove themselves: the root of the run, combined
/// with the uncles, is the node of the tree `proof_layers` above the run. A
/// proof that goes all the way up reaches the root of the layer, which for an
/// accepted document is the root that was asked about.
pub proof fn law_answer_proves_itself(m: MetaModel, request: HashRequest)
    requires
        hash_answer(m, request) is Some,
        request.proof_layers >= floor_log2(request.length as nat),
    ensures
        ({
            let answer = hash_answer(m, request)->0;
            let layer = m.piece_layers[request.pieces_root@];
            let nodes = full_layer(layer, request.base_layer as nat);
            let length = request.length as int;
            let reached = climbed(
                root_of(answer.take(length)),
                request.index as int / length,
                answer.skip(length),
            );
            &&& reached == level_of(nodes, request.proof_layers as nat)[ancestor(
                request.index as int / length,
                (request.proof_layers - floor_log2(length as nat)) as nat,
            )]
            &&& request.proof_layers == floor_log2(nodes.len()) ==> reached == layer_root(
                layer,
                request.base_layer as nat,
            )
        }),
{
    let answer = hash_answer(m, request)->0;
    let layer = m.piece_layers[request.pieces_root@];
    let nodes = full_layer(layer, request.base_layer as nat);
    let length = request.length as int;
    let index = request.index as int;
    let node = index / length;
    let least = if layer.len() == 0 {
        1
    } else {
        layer.len()
    };
    lemma_power_of_two_from(least, 1);
    lemma_power_is_pow2(nodes.len());
    lemma_power_is_pow2(length as nat);
    let total = floor_log2(nodes.len());
    let from = floor_log2(length as nat);
    let count = (request.proof_layers - from) as nat;
    assert(index == node * length) by (nonlinear_arith)
        requires
            index % length == 0,
            length > 0,
            node == index / length,
    ;
    assert(index + length == (node + 1) * length) by (nonlinear_arith)
        requires
            index == node * length,
    ;
    assert(from <= total) by {
        if from > total {
            lemma_pow2_monotone(total, from);
        }
    }
    lemma_pow2_adds((total - from) as nat, from);
    assert(node < pow2((total - from) as nat)) by (nonlinear_arith)
        requires
            (node + 1) * length <= pow2((total - from) as nat) * length,
            length > 0,
    ;
    assert(node >= 0) by (nonlinear_arith)
        requires
            index >= 0,
            length > 0,
            node == index / length,
    ;
    lemma_level_of_run(nodes, node, from, total, from);
    let run = nodes.subrange(index, index + length);
    assert(answer.take(length) =~= run);
    lemma_root_is_top(run, from);
    assert(pow2(0) == 1);
    assert(node * 1 == node && (node + 1) * 1 == node + 1) by (nonlinear_arith);
    assert(level_of(run, from)[0] == level_of(nodes, from)[node]);
    assert(answer.skip(length) =~= uncles(nodes, from, node, count));
    lemma_climb(nodes, total, from, node, count);
    if request.proof_layers == total {
        lemma_root_is_top(nodes, total);
        lemma_ancestor_range(node, (total - from) as nat, count);
    }
}

pub proof fn lemma_pow2_monotone(a: nat, b: nat)
    requires
        a < b,
    ensures
        pow2(a) < pow2(b),
    decreases b,
{
    lemma_pow2_positive((b - 1) as nat);
    if a < b - 1 {
        lemma_pow2_monotone(a, (b - 1) as nat);
    }
}

/// A layer filled up to a power of two.
fn fill_layer(layer: &Vec<Sha256Hash>, base_layer: u32) -> (nodes: Vec<Sha256Hash>)
    requires
        layer@.len() <= usize::MAX / 2,
    ensures
        digests(nodes@) == full_layer(digests(layer@), base_layer as nat),
        is_power_of_two(nodes@.len()),
{
    let zero = zero_hash(base_layer);
    let least: usize = if layer.len() == 0 { 1 } else { layer.len() };
    let width: usize = round_up_to_power_of_two(least);
    let mut nodes: Vec<Sha256Hash> = Vec::new();
    let mut i: usize = 0;
    while i < width
        invariant
            i <= width,
            layer@.len() <= width,
            nodes@.len() == i,
            zero@ == zero_of(base_layer as nat),
            forall|k: int|
                0 <= k < i ==> (#[trigger] nodes@[k])@ == (if k < layer@.len() {
                    layer@[k]@
                } else {
                    zero@
                }),
        decreases width - i,
    {
        if i < layer.len() {
            nodes.push(layer[i]);
        } else {
            nodes.push(zero);
        }
        i += 1;
    }
    assert(digests(nodes@) =~= padded(digests(layer@), width as nat, zero@));
    nodes
}

fn copy_nodes(nodes: &Vec<Sha256Hash>) -> (copy: Vec<Sha256Hash>)
    ensures
        digests(copy@) == digests(nodes@),
{
    let mut copy: Vec<Sha256Hash> = Vec::new();
    let mut i: usize = 0;
    while i < nodes.len()
        invariant
            i <= nodes@.len(),
            copy@.len() == i,
            forall|k: int| 0 <= k < i ==> (#[trigger] copy@[k])@ == nodes@[k]@,
        decreases nodes@.len() - i,
    {
        copy.push(nodes[i]);
        i += 1;
    }
    assert(digests(copy@) =~= digests(nodes@));
    copy
}

fn push_digest(output: &mut Vec<u8>, hash: &Sha256Hash, Ghost(before): Ghost<Seq<Seq<u8>>>)
    requires
        old(output)@ == joined(before),
    ensures
        final(output)@ == joined(before.push(hash@)),
{
    output.extend_from_slice(hash.as_bytes());
    assert(before.push(hash@).drop_last() =~= before);
    assert(output@ =~= joined(before) + hash@);
}

/// Answers a hash request with digests one behind the other, or rejects it.
pub fn answer_hash_request(metainfo: &Metainfo, request: HashRequest) -> (result: Option<Vec<u8>>)
    requires
        metainfo.wf(),
        metainfo.piece_length >= 16384,
    ensures
        match (result, hash_answer(metainfo@, request)) {
            (Some(bytes), Some(answer)) => bytes@ == joined(answer),
            (None, None) => true,
            _ => false,
        },
{
    let piece_layer_base: u32 = ilog2(metainfo.piece_length / 16384);
    if request.base_layer != piece_layer_base || request.length < 2 || !power_of_two(request.length)
        || request.length > 512 || request.index % request.length != 0 {
        return None;
    }
    let layer = match metainfo.piece_layers.get(&request.pieces_root) {
        Some(layer) => layer,
        None => {
            return None;
        },
    };
    proof {
        assert(metainfo.piece_layers@.contains_key(request.pieces_root@));
        assert(digests(layer@).len() == layer@.len());
    }
    let first = fill_layer(layer, request.base_layer);
    let ghost nodes = full_layer(digests(layer@), request.base_layer as nat);
    assert(digests(first@).len() == first@.len());
    let width: usize = first.len();
    let start: usize = request.index as usize;
    let length: usize = request.length as usize;
    if length > width || start > width - length || request.proof_layers > ilog2_usize(width) {
        return None;
    }
    let from: u32 = ilog2(request.length);
    let ghost total = floor_log2(width as nat);
    let ghost node = request.index as int / (request.length as int);
    let ghost run = nodes.subrange(start as int, start + length);
    proof {
        lemma_power_is_pow2(width as nat);
        lemma_power_is_pow2(length as nat);
        assert(from <= total) by {
            if from > total {
                lemma_pow2_monotone(total, from as nat);
            }
        }
        lemma_node_range(request.index as int, length as int, total, from as nat);
    }
    let mut output: Vec<u8> = Vec::new();
    let mut i: usize = start;
    proof {
        assert(run.take(0) =~= Seq::empty());
    }
    while i < start + length
        invariant
            start + length <= width == first@.len(),
            nodes == digests(first@),
            run == nodes.subrange(start as int, start + length),
            start <= i <= start + length,
            output@ == joined(run.take(i - start)),
        decreases start + length - i,
    {
        proof {
            assert(run.take(i + 1 - start) =~= run.take(i - start).push(first@[i as int]@));
        }
        push_digest(&mut output, &first[i], Ghost(run.take(i - start)));
        i += 1;
    }
    assert(run.take(run.len() as int) =~= run);
    let mut level: u32 = 0;
    let mut current = copy_nodes(&first);
    while level < from
        invariant
            from <= total,
            level <= from,
            nodes.len() == pow2(total),
            digests(current@) == level_of(nodes, level as nat),
        decreases from - level,
    {
        current = reduce_layer(&current);
        level = level + 1;
    }
    let mut at: usize = start / length;
    let ghost mut done: nat = 0;
    proof {
        assert(uncles(nodes, from as nat, node, 0) =~= Seq::empty());
        assert(run + uncles(nodes, from as nat, node, 0) =~= run);
    }
    while level < request.proof_layers
        invariant
            from <= level,
            level <= request.proof_layers || level == from,
            request.proof_layers <= total,
            done == level - from,
            nodes.len() == pow2(total),
            0 <= node < pow2((total - from) as nat),
            digests(current@) == level_of(nodes, level as nat),
            at == ancestor(node, done),
            output@ == joined(run + uncles(nodes, from as nat, node, done)),
        decreases request.proof_layers - level,
    {
        proof {
            lemma_level_width(nodes, total, level as nat);
            lemma_ancestor_range(node, (total - from) as nat, done);
            assert(pow2((total - level) as nat) == 2 * pow2((total - level - 1) as nat));
            assert(digests(current@).len() == current@.len());
        }
        let other: usize = if at % 2 == 0 { at + 1 } else { at - 1 };
        proof {
            let more = uncles(nodes, from as nat, node, done + 1);
            assert(more =~= uncles(nodes, from as nat, node, done).push(
                current@[other as int]@,
            ));
            assert(run + more =~= (run + uncles(nodes, from as nat, node, done)).push(
                current@[other as int]@,
            ));
        }
        push_digest(
            &mut output,
            &current[other],
            Ghost(run + uncles(nodes, from as nat, node, done)),
        );
        current = reduce_layer(&current);
        at = at / 2;
        level = level + 1;
        proof {
            done = done + 1;
        }
    }
    Some(output)
}

/// The number of a run is inside its layer.
proof fn lemma_node_range(index: int, length: int, total: nat, from: nat)
    requires
        0 <= index,
        length == pow2(from),
        from <= total,
        index + length <= pow2(total),
        index % length == 0,
    ensures
        0 <= index / length < pow2((total - from) as nat),
{
    lemma_pow2_adds((total - from) as nat, from);
    lemma_pow2_positive(from);
    let node = index / length;
    assert(index == node * length && node >= 0) by (nonlinear_arith)
        requires
            index % length == 0,
            length > 0,
            index >= 0,
            node == index / length,
    ;
    assert(node < pow2((total - from) as nat)) by (nonlinear_arith)
        requires
            node * length + length <= pow2((total - from) as nat) * length,
            length > 0,
    ;
}

} // verus!
