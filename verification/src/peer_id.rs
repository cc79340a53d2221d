//! Chance, and the peer id that is drawn from it.

use crate::address::PeerId;
use vstd::prelude::*;
use vstd::utf8::{encode_utf8, is_ascii_chars, is_ascii_chars_encode_utf8};

verus! {

/// `rand::random`: bytes of which nothing is promised.
#[verifier::external_body]
fn random_bytes() -> (bytes: [u8; 12]) {
    rand::random()
}

/// A number of which nothing is promised.
pub(crate) fn random_number() -> (number: u64) {
    number_from(random_bytes())
}

/// The number that the first eight bytes write, the most significant first.
pub open spec fn number_of(bytes: Seq<u8>) -> int {
    bytes[0] * 0x100_0000_0000_0000 + bytes[1] * 0x1_0000_0000_0000 + bytes[2] * 0x100_0000_0000
        + bytes[3] * 0x1_0000_0000 + bytes[4] * 0x100_0000 + bytes[5] * 0x1_0000 + bytes[6] * 0x100
        + bytes[7]
}

/// A number from the first eight of twelve random bytes.
pub fn number_from(random: [u8; 12]) -> (number: u64)
    ensures
        number == number_of(random@),
{
    (random[0] as u64) * 0x100_0000_0000_0000 + (random[1] as u64) * 0x1_0000_0000_0000 + (
    random[2] as u64) * 0x100_0000_0000 + (random[3] as u64) * 0x1_0000_0000 + (random[4] as u64)
        * 0x100_0000 + (random[5] as u64) * 0x1_0000 + (random[6] as u64) * 0x100 + (
    random[7] as u64)
}

/// The letter that stands for a number below 62: digits, then capital letters,
/// then small ones.
pub open spec fn letter(n: int) -> u8 {
    if n < 10 {
        (0x30 + n) as u8
    } else if n < 36 {
        (0x41 + n - 10) as u8
    } else {
        (0x61 + n - 36) as u8
    }
}

/// What every peer id of this client begins with.
pub open spec fn id_prefix() -> Seq<u8> {
    seq![0x2du8, 0x53u8, 0x59u8, 0x32u8, 0x30u8, 0x30u8, 0x30u8, 0x2du8]
}

/// A peer id from twelve random bytes.
pub fn peer_id_from(random: [u8; 12]) -> (id: PeerId)
    ensures
        id.bytes@ == id_prefix() + Seq::new(12, |i: int| letter(random@[i] as int % 62)),
{
    let mut bytes: [u8; 20] = [
        0x2d,
        0x53,
        0x59,
        0x32,
        0x30,
        0x30,
        0x30,
        0x2d,
        0,
        0,
        0,
        0,
        0,
        0,
        0,
        0,
        0,
        0,
        0,
        0,
    ];
    let mut i: usize = 0;
    while i < 12
        invariant
            i <= 12,
            forall|k: int| 0 <= k < 8 ==> bytes@[k] == id_prefix()[k],
            forall|k: int|
                0 <= k < i ==> #[trigger] bytes@[k + 8] == letter(random@[k] as int % 62),
        decreases 12 - i,
    {
        let value: u8 = random[i] % 62;
        let symbol: u8 = if value < 10 {
            0x30 + value
        } else if value < 36 {
            0x41 + (value - 10)
        } else {
            0x61 + (value - 36)
        };
        let ghost before = bytes@;
        bytes[8 + i] = symbol;
        assert forall|k: int| 0 <= k < i + 1 implies #[trigger] bytes@[k + 8] == letter(
            random@[k] as int % 62,
        ) by {
            if k < i {
                assert(bytes@[k + 8] == before[k + 8]);
            }
        }
        i += 1;
    }
    proof {
        let tail = Seq::new(12, |i: int| letter(random@[i] as int % 62));
        assert forall|k: int| 0 <= k < 20 implies bytes@[k] == (id_prefix() + tail)[k] by {
            if k >= 8 {
                assert(bytes@[k - 8 + 8] == letter(random@[k - 8] as int % 62));
            }
        }
        assert(bytes@ =~= id_prefix() + tail);
    }
    PeerId::from_bytes(bytes)
}

/// Whether a byte is a digit or a letter.
pub open spec fn is_alphanumeric(byte: u8) -> bool {
    0x30 <= byte <= 0x39 || 0x41 <= byte <= 0x5a || 0x61 <= byte <= 0x7a
}

/// A fresh peer id: the client's prefix and twelve random letters or digits.
pub fn generate_peer_id() -> (id: PeerId)
    ensures
        id.bytes@.take(8) == id_prefix(),
        forall|i: int| 8 <= i < 20 ==> is_alphanumeric(#[trigger] id.bytes@[i]),
{
    let random = random_bytes();
    let id = peer_id_from(random);
    proof {
        let tail = Seq::new(12, |i: int| letter(random@[i] as int % 62));
        assert(id.bytes@.take(8) =~= id_prefix());
        assert forall|i: int| 8 <= i < 20 implies is_alphanumeric(#[trigger] id.bytes@[i]) by {
            assert(id.bytes@[i] == tail[i - 8]);
        }
    }
    id
}

/// The letters are told apart by their numbers, and are digits and letters of
/// the alphabet.
pub proof fn law_letters_are_distinct(a: int, b: int)
    requires
        0 <= a < 62,
        0 <= b < 62,
    ensures
        letter(a) == letter(b) ==> a == b,
        is_alphanumeric(letter(a)),
{
}

/// Every peer id of this client begins with its name and version.
pub proof fn law_prefix_is_the_name()
    ensures
        id_prefix() == encode_utf8("-SY2000-"@),
{
    reveal_strlit("-SY2000-");
    let text = "-SY2000-"@;
    assert(is_ascii_chars(text));
    is_ascii_chars_encode_utf8(text);
    let bytes = encode_utf8(text);
    assert(bytes.len() == 8);
    assert forall|i: int| 0 <= i < 8 implies id_prefix()[i] == bytes[i] by {
        assert(text[i] as u8 == bytes[i]);
    }
    assert(id_prefix() =~= bytes);
}

} // verus!
