//! Piece bitfields: one bit for each piece, the first piece in the highest
//! bit of the first byte.

use crate::num::{div_ceil_of, div_ceil_usize};
use vstd::prelude::*;

verus! {

/// The bit of a byte that stands `k` places from its highest one.
pub open spec fn byte_bit(byte: u8, k: int) -> bool {
    byte & (0x80u8 >> (k as u8)) != 0
}

/// Whether the bit of a piece is set. Pieces beyond the end have none.
pub open spec fn has_bit(bitfield: Seq<u8>, piece: int) -> bool {
    0 <= piece / 8 < bitfield.len() && byte_bit(bitfield[piece / 8], piece % 8)
}

/// Whether the bits of the first `pieces` pieces are all set.
pub open spec fn has_all(bitfield: Seq<u8>, pieces: int) -> bool {
    forall|i: int| 0 <= i < pieces ==> #[trigger] has_bit(bitfield, i)
}

/// Whether a peer has a piece that is missing here.
pub open spec fn is_useful(remote: Seq<u8>, local: Seq<u8>, piece: int) -> bool {
    has_bit(remote, piece) && !has_bit(local, piece)
}

/// How many of the first `pieces` pieces a peer has that are missing here.
pub open spec fn useful_count(remote: Seq<u8>, local: Seq<u8>, pieces: nat) -> nat
    decreases pieces,
{
    if pieces == 0 {
        0
    } else {
        useful_count(remote, local, (pieces - 1) as nat) + if is_useful(
            remote,
            local,
            pieces - 1,
        ) {
            1nat
        } else {
            0nat
        }
    }
}

pub proof fn lemma_byte_or(byte: u8, k: u8, j: u8)
    by (bit_vector)
    requires
        k < 8,
        j < 8,
    ensures
        ((byte | (0x80u8 >> k)) & (0x80u8 >> j) != 0) == (byte & (0x80u8 >> j) != 0 || k == j),
{
}

proof fn lemma_byte_tail(spare: u8, j: u8)
    by (bit_vector)
    requires
        spare < 8,
        j < 8,
    ensures
        ((0xffu8 << spare) & (0x80u8 >> j) != 0) == (j + spare < 8),
{
}

proof fn lemma_byte_full(j: u8)
    by (bit_vector)
    requires
        j < 8,
    ensures
        0xffu8 & (0x80u8 >> j) != 0,
{
}

pub proof fn lemma_byte_zero(j: u8)
    by (bit_vector)
    ensures
        0u8 & (0x80u8 >> j) == 0,
{
}

pub fn bit_is_set(bitfield: &[u8], index: usize) -> (result: bool)
    ensures
        result == has_bit(bitfield@, index as int),
{
    let at: usize = index / 8;
    if at >= bitfield.len() {
        return false;
    }
    let k: u8 = (index % 8) as u8;
    bitfield[at] & (0x80u8 >> k) != 0
}

/// The bitfield with the bit of a piece set. A piece beyond the end has no bit.
pub open spec fn with_bit(bitfield: Seq<u8>, piece: int) -> Seq<u8> {
    if 0 <= piece / 8 < bitfield.len() {
        bitfield.update(piece / 8, bitfield[piece / 8] | (0x80u8 >> ((piece % 8) as u8)))
    } else {
        bitfield
    }
}

/// Setting the bit of a piece changes no other bit.
pub proof fn lemma_with_bit(bitfield: Seq<u8>, piece: int, i: int)
    requires
        0 <= piece,
    ensures
        has_bit(with_bit(bitfield, piece), i) == (has_bit(bitfield, i) || (i == piece && piece / 8
            < bitfield.len())),
{
    if 0 <= piece / 8 < bitfield.len() && i / 8 == piece / 8 {
        lemma_byte_or(bitfield[piece / 8], (piece % 8) as u8, (i % 8) as u8);
    }
}

/// Sets the bit of a piece; every other bit stays as it was. A piece beyond
/// the end has no bit to set.
pub fn set_bit(bitfield: &mut Vec<u8>, index: usize)
    ensures
        final(bitfield)@ == with_bit(old(bitfield)@, index as int),
        final(bitfield)@.len() == old(bitfield)@.len(),
        forall|i: int|
            0 <= i ==> #[trigger] has_bit(final(bitfield)@, i) == (has_bit(old(bitfield)@, i) || (i
                == index && index / 8 < old(bitfield)@.len())),
{
    let at: usize = index / 8;
    if at < bitfield.len() {
        let k: u8 = (index % 8) as u8;
        let byte: u8 = bitfield[at];
        bitfield[at] = byte | (0x80u8 >> k);
        assert forall|i: int| 0 <= i implies #[trigger] has_bit(bitfield@, i) == (has_bit(
            old(bitfield)@,
            i,
        ) || i == index) by {
            lemma_with_bit(old(bitfield)@, index as int, i);
        }
    }
}

pub fn all_complete(bitfield: &[u8], pieces: usize) -> (result: bool)
    ensures
        result == has_all(bitfield@, pieces as int),
{
    let mut index: usize = 0;
    while index < pieces
        invariant
            index <= pieces,
            has_all(bitfield@, index as int),
        decreases pieces - index,
    {
        if !bit_is_set(bitfield, index) {
            assert(!has_bit(bitfield@, index as int));
            return false;
        }
        index += 1;
    }
    true
}

/// The bitfield of someone who has every piece: the spare bits are clear.
pub fn complete_bitfield(pieces: usize) -> (bitfield: Vec<u8>)
    ensures
        bitfield@.len() == div_ceil_of(pieces as int, 8),
        forall|i: int| 0 <= i ==> #[trigger] has_bit(bitfield@, i) == (i < pieces),
{
    let bytes: usize = div_ceil_usize(pieces, 8);
    let mut bitfield: Vec<u8> = vec![0xffu8; bytes];
    if bytes > 0 {
        let used: u8 = (pieces % 8) as u8;
        let spare: u8 = if used == 0 { 0 } else { 8 - used };
        bitfield[bytes - 1] = 0xffu8 << spare;
        assert forall|i: int| 0 <= i implies #[trigger] has_bit(bitfield@, i) == (i < pieces) by {
            lemma_byte_tail(spare, (i % 8) as u8);
            lemma_byte_full((i % 8) as u8);
        }
    }
    bitfield
}

/// An empty bitfield for a number of pieces.
pub fn empty_bitfield(pieces: usize) -> (bitfield: Vec<u8>)
    ensures
        bitfield@.len() == div_ceil_of(pieces as int, 8),
        forall|i: int| 0 <= i ==> !#[trigger] has_bit(bitfield@, i),
        forall|i: int| 0 <= i < bitfield@.len() ==> bitfield@[i] == 0,
{
    let bitfield: Vec<u8> = vec![0u8; div_ceil_usize(pieces, 8)];
    assert forall|i: int| 0 <= i implies !#[trigger] has_bit(bitfield@, i) by {
        lemma_byte_zero((i % 8) as u8);
    }
    bitfield
}

pub fn useful_piece_count(remote: &[u8], local: &[u8], pieces: usize) -> (count: usize)
    ensures
        count == useful_count(remote@, local@, pieces as nat),
{
    let mut useful: usize = 0;
    let mut index: usize = 0;
    while index < pieces
        invariant
            index <= pieces,
            useful <= index,
            useful == useful_count(remote@, local@, index as nat),
        decreases pieces - index,
    {
        if bit_is_set(remote, index) && !bit_is_set(local, index) {
            useful += 1;
        }
        index += 1;
    }
    useful
}

/// A peer is of no use exactly when everything it has is already here.
pub proof fn law_useless_peer(remote: Seq<u8>, local: Seq<u8>, pieces: nat)
    ensures
        useful_count(remote, local, pieces) <= pieces,
        useful_count(remote, local, pieces) == 0 <==> forall|i: int|
            0 <= i < pieces && has_bit(remote, i) ==> #[trigger] has_bit(local, i),
    decreases pieces,
{
    if pieces > 0 {
        law_useless_peer(remote, local, (pieces - 1) as nat);
        if useful_count(remote, local, pieces) == 0 {
            assert forall|i: int| 0 <= i < pieces && has_bit(remote, i) implies #[trigger] has_bit(
                local,
                i,
            ) by {
                if i == pieces - 1 {
                    assert(!is_useful(remote, local, i));
                }
            }
        } else if forall|i: int|
            0 <= i < pieces && has_bit(remote, i) ==> #[trigger] has_bit(local, i) {
            assert(!is_useful(remote, local, pieces - 1)) by {
                if has_bit(remote, pieces - 1) {
                    assert(has_bit(local, pieces - 1));
                }
            }
        }
    }
}

/// Nothing that a complete local side lacks can be had from anyone.
pub proof fn law_complete_needs_nothing(remote: Seq<u8>, local: Seq<u8>, pieces: nat)
    requires
        has_all(local, pieces as int),
    ensures
        useful_count(remote, local, pieces) == 0,
{
    law_useless_peer(remote, local, pieces);
}

/// One for a bit that is set, nothing for one that is not.
pub open spec fn worth(set: bool) -> int {
    if set {
        1
    } else {
        0
    }
}

proof fn lemma_byte_is_its_bits(byte: u8)
    ensures
        byte == 128 * worth(byte_bit(byte, 0)) + 64 * worth(byte_bit(byte, 1)) + 32 * worth(
            byte_bit(byte, 2),
        ) + 16 * worth(byte_bit(byte, 3)) + 8 * worth(byte_bit(byte, 4)) + 4 * worth(
            byte_bit(byte, 5),
        ) + 2 * worth(byte_bit(byte, 6)) + worth(byte_bit(byte, 7)),
{
    assert(byte == (if byte & (0x80u8 >> 0u8) != 0 { 128int } else { 0 }) + (if byte & (0x80u8
        >> 1u8) != 0 { 64int } else { 0 }) + (if byte & (0x80u8 >> 2u8) != 0 { 32int } else { 0 })
        + (if byte & (0x80u8 >> 3u8) != 0 { 16int } else { 0 }) + (if byte & (0x80u8 >> 4u8) != 0 {
        8int
    } else {
        0
    }) + (if byte & (0x80u8 >> 5u8) != 0 { 4int } else { 0 }) + (if byte & (0x80u8 >> 6u8) != 0 {
        2int
    } else {
        0
    }) + (if byte & (0x80u8 >> 7u8) != 0 { 1int } else { 0 })) by (bit_vector);
}

/// Eight pieces share a byte, the first of them its most significant bit, and a
/// byte is the sum of its bits.
pub proof fn law_first_piece_is_the_highest_bit(bitfield: Seq<u8>, b: int)
    requires
        0 <= b < bitfield.len(),
    ensures
        bitfield[b] == 128 * worth(has_bit(bitfield, 8 * b)) + 64 * worth(
            has_bit(bitfield, 8 * b + 1),
        ) + 32 * worth(has_bit(bitfield, 8 * b + 2)) + 16 * worth(has_bit(bitfield, 8 * b + 3)) + 8
            * worth(has_bit(bitfield, 8 * b + 4)) + 4 * worth(has_bit(bitfield, 8 * b + 5)) + 2
            * worth(has_bit(bitfield, 8 * b + 6)) + worth(has_bit(bitfield, 8 * b + 7)),
        forall|piece: int| piece >= 8 * bitfield.len() ==> !#[trigger] has_bit(bitfield, piece),
{
    lemma_byte_is_its_bits(bitfield[b]);
}

/// Marking a piece sets its bit and leaves every other bit and the length alone.
pub proof fn law_marking_sets_one_bit(bitfield: Seq<u8>, piece: int, other: int)
    requires
        0 <= piece < 8 * bitfield.len(),
    ensures
        with_bit(bitfield, piece).len() == bitfield.len(),
        has_bit(with_bit(bitfield, piece), piece),
        other != piece ==> has_bit(with_bit(bitfield, piece), other) == has_bit(bitfield, other),
{
    lemma_with_bit(bitfield, piece, piece);
    lemma_with_bit(bitfield, piece, other);
}

/// The pieces of use are counted one by one: those that the peer has and that
/// are missing here.
pub proof fn law_useful_pieces_are_counted(remote: Seq<u8>, local: Seq<u8>, pieces: nat)
    ensures
        useful_count(remote, local, pieces) == Seq::new(pieces, |i: int| i).filter(
            |i: int| has_bit(remote, i) && !has_bit(local, i),
        ).len(),
    decreases pieces,
{
    reveal(Seq::filter);
    if pieces > 0 {
        law_useful_pieces_are_counted(remote, local, (pieces - 1) as nat);
        assert(Seq::new(pieces, |i: int| i).drop_last() =~= Seq::new(
            (pieces - 1) as nat,
            |i: int| i,
        ));
    }
}

} // verus!
