//! What is fetched of a torrent before its pieces are.

use crate::hash::{
    floor_log2, is_power_of_two, lemma_power_of_two_from, next_power_of_two, pow2,
};
use crate::hash_laws::{law_answer_begins_with_the_run, lemma_log_of_pow2};
use crate::hash_tree::{hash_answer, lemma_pow2_monotone, lemma_power_is_pow2, HashRequest};
use crate::metadata::{block_data, block_length, next_run, NextLayer};
use crate::metainfo::MetaModel;
use crate::num::{div_ceil_of, lemma_div_ceil};
use vstd::arithmetic::div_mod::{lemma_fundamental_div_mod, lemma_mod_multiples_basic};
use vstd::prelude::*;

verus! {

/// Metadata is put together from its blocks in order: byte for byte, the block of
/// a number begins 16384 bytes behind the block before it.
pub proof fn law_metadata_is_its_blocks(
    total: int,
    blocks: Seq<Option<Seq<u8>>>,
    n: int,
    i: int,
    t: int,
)
    requires
        0 <= i < n <= blocks.len(),
        (n - 1) * 16384 < total,
        forall|k: int|
            0 <= k < n ==> (#[trigger] blocks[k]) is Some && blocks[k]->0.len() == block_length(
                total,
                k,
            ),
        0 <= t < blocks[i]->0.len(),
    ensures
        block_data(blocks, n).len() == if n * 16384 <= total {
            n * 16384
        } else {
            total
        },
        block_data(blocks, n)[16384 * i + t] == blocks[i]->0[t],
    decreases n,
{
    lemma_blocks_length(total, blocks, n);
    lemma_blocks_length(total, blocks, n - 1);
    if i < n - 1 {
        law_metadata_is_its_blocks(total, blocks, n - 1, i, t);
    }
}

proof fn lemma_blocks_length(total: int, blocks: Seq<Option<Seq<u8>>>, n: int)
    requires
        0 <= n <= blocks.len(),
        (n - 1) * 16384 < total,
        forall|k: int|
            0 <= k < n ==> (#[trigger] blocks[k]) is Some && blocks[k]->0.len() == block_length(
                total,
                k,
            ),
    ensures
        block_data(blocks, n).len() == if n * 16384 <= total {
            n * 16384
        } else if n == 0 {
            0
        } else {
            total
        },
    decreases n,
{
    if n > 0 {
        assert(blocks[n - 1] is Some);
        lemma_blocks_length(total, blocks, n - 1);
    }
}

proof fn lemma_next_power(n: nat)
    requires
        n >= 1,
    ensures
        is_power_of_two(next_power_of_two(n)),
        n <= next_power_of_two(n),
        next_power_of_two(n) < 2 * n,
        next_power_of_two(n) == pow2(floor_log2(next_power_of_two(n))),
{
    lemma_power_of_two_from(n, 1);
    lemma_power_is_pow2(next_power_of_two(n));
}

/// A power of two above another is a multiple of it.
proof fn lemma_power_divides(a: nat, b: nat)
    requires
        a <= b,
    ensures
        pow2(b) % pow2(a) == 0,
        pow2(a) > 0,
        pow2(b) >= pow2(a),
    decreases b,
{
    lemma_positive(a);
    if a < b {
        lemma_power_divides(a, (b - 1) as nat);
        let (x, y) = (pow2(a) as int, pow2((b - 1) as nat) as int);
        lemma_fundamental_div_mod(y, x);
        lemma_mod_multiples_basic(2 * (y / x), x);
        assert(2 * (y / x) * x == 2 * y) by (nonlinear_arith)
            requires
                y == x * (y / x),
        ;
    } else {
        let x = pow2(a) as int;
        assert(x % x == 0) by (nonlinear_arith)
            requires
                x > 0,
        ;
    }
}

proof fn lemma_positive(k: nat)
    ensures
        pow2(k) > 0,
    decreases k,
{
    if k > 0 {
        lemma_positive((k - 1) as nat);
    }
}

proof fn lemma_512()
    ensures
        pow2(9) == 512,
        pow2(1) == 2,
{
    reveal_with_fuel(pow2, 10);
}

/// A request for a run of a layer, made of what is asked for next, is one that
/// whoever has the layer answers, and the answer begins with the hashes that
/// are still needed: the next ones of the layer.
pub proof fn law_next_run_is_answered(
    m: MetaModel,
    file: int,
    index: int,
    request: HashRequest,
    layer: Seq<Seq<u8>>,
    holder: MetaModel,
)
    requires
        0 <= file < m.files.len(),
        m.piece_length > 0,
        m.files[file].length > m.piece_length,
        m.files[file].pieces_root is Some,
        0 <= index,
        index % 512 == 0,
        index < layer.len(),
        (layer.len() - 1) * m.piece_length < m.files[file].length,
        m.files[file].length <= layer.len() * m.piece_length,
        layer.len() <= usize::MAX / 2,
        next_run(m, file, index) matches NextLayer::Run {
            file: _,
            root,
            base_layer,
            index: from,
            length,
            proof_layers,
            needed,
        } && request.pieces_root@ == root && request.base_layer == base_layer && request.index
            == from && request.length == length && request.proof_layers == proof_layers,
        holder.piece_length == m.piece_length,
        holder.piece_layers.contains_key(m.files[file].pieces_root->0),
        holder.piece_layers[m.files[file].pieces_root->0] == layer,
    ensures
        hash_answer(holder, request) is Some,
        next_run(m, file, index) matches NextLayer::Run {
            file: _,
            root: _,
            base_layer: _,
            index: _,
            length: _,
            proof_layers: _,
            needed,
        } && 0 < needed <= 512 && index + needed <= layer.len() && (index + needed < layer.len()
            ==> needed == 512) && forall|i: int|
            0 <= i < needed ==> #[trigger] hash_answer(holder, request)->0[i] == layer[index + i],
{
    let count = layer.len();
    let length = m.files[file].length;
    lemma_div_ceil(length, m.piece_length);
    assert(div_ceil_of(length, m.piece_length) == count) by (nonlinear_arith)
        requires
            (count - 1) * m.piece_length < length <= count * m.piece_length,
            (div_ceil_of(length, m.piece_length) - 1) * m.piece_length < length,
            length <= div_ceil_of(length, m.piece_length) * m.piece_length,
            m.piece_length > 0,
    ;
    assert(count >= 2) by (nonlinear_arith)
        requires
            length > m.piece_length,
            length <= count * m.piece_length,
            m.piece_length > 0,
    ;
    lemma_next_power(count);
    let width = next_power_of_two(count);
    let top = floor_log2(width);
    let remaining = (count - index) as nat;
    lemma_next_power(remaining);
    let run = request.length as int;
    lemma_512();
    lemma_log_of_pow2(9);
    lemma_log_of_pow2(1);
    let low = if remaining > 512 {
        9
    } else if next_power_of_two(remaining) < 2 {
        1
    } else {
        floor_log2(next_power_of_two(remaining))
    };
    assert(run == pow2(low));
    lemma_log_of_pow2(low);
    if low > 9 {
        lemma_pow2_monotone(10, low);
        assert(pow2(10) == 2 * pow2(9));
    }
    lemma_power_divides(low, 9);
    assert(index % run == 0) by (nonlinear_arith)
        requires
            index % 512 == 0,
            512int % run == 0,
            run > 0,
    ;
    if index == 0 {
        if top < low {
            lemma_pow2_monotone(top, (low - 1) as nat);
            assert(pow2(low) == 2 * pow2((low - 1) as nat));
        }
    } else {
        if top < 9 {
            lemma_pow2_monotone(top, 9);
        }
        lemma_power_divides(9, top);
    }
    assert(index + run <= width);
    assert(hash_answer(holder, request) is Some);
    law_answer_begins_with_the_run(holder, request, low);
}

} // verus!
