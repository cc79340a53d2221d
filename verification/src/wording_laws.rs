//! What numbers and hashes are when they are written out.

use crate::error::number_text;
use crate::magnet_laws::{number_of, writes_bytes, writes_digit};
use crate::wording::{hex_text, path_text};
use vstd::prelude::*;

verus! {

/// The values of decimal digits.
pub open spec fn are_digits(text: Seq<char>, values: Seq<int>) -> bool {
    &&& text.len() == values.len()
    &&& forall|i: int|
        0 <= i < text.len() ==> 0 <= #[trigger] values[i] <= 9 && text[i] as int == '0' as int
            + values[i]
}

proof fn lemma_digits(n: nat) -> (values: Seq<int>)
    ensures
        are_digits(number_text(n), values),
        number_of(values, 10) == n,
        values.len() > 0,
        n > 0 ==> values[0] > 0,
        n == 0 ==> values.len() == 1,
    decreases n,
{
    reveal_with_fuel(number_of, 2);
    if n < 10 {
        let values = seq![n as int];
        assert(values.drop_last() =~= Seq::<int>::empty());
        values
    } else {
        let front = lemma_digits(n / 10);
        let values = front.push((n % 10) as int);
        assert(values.drop_last() =~= front);
        values
    }
}

/// A number is written in decimal digits that come to it, with no zero in front.
pub proof fn law_number_is_written_in_decimal(n: nat)
    ensures
        exists|values: Seq<int>| #[trigger]
            are_digits(number_text(n), values) && number_of(values, 10) == n && values.len() > 0
                && (values.len() > 1 ==> values[0] > 0),
{
    let values = lemma_digits(n);
}

/// Bytes are written in hexadecimal digits, two for each byte, in order.
pub proof fn law_hash_is_written_in_hex(bytes: Seq<u8>)
    ensures
        writes_bytes(hex_text(bytes), bytes),
    decreases bytes.len(),
{
    if bytes.len() > 0 {
        let front = bytes.drop_last();
        law_hash_is_written_in_hex(front);
        let text = hex_text(bytes);
        let n = front.len() as int;
        assert(bytes.last() as int / 16 < 16);
        assert forall|i: int| 0 <= i < bytes.len() implies writes_digit(
            text[2 * i],
            #[trigger] bytes[i] as int / 16,
        ) && writes_digit(text[2 * i + 1], bytes[i] as int % 16) by {
            if i < n {
                assert(front[i] == bytes[i]);
                assert(text[2 * i] == hex_text(front)[2 * i]);
                assert(text[2 * i + 1] == hex_text(front)[2 * i + 1]);
            }
        }
    }
}

/// A path is written as its components with a slash between each two.
pub proof fn law_path_is_written_with_slashes(components: Seq<Seq<char>>, more: Seq<char>)
    ensures
        components.len() == 0 ==> path_text(components) == Seq::<char>::empty(),
        path_text(seq![more]) == more,
        components.len() > 0 ==> path_text(components.push(more)) == path_text(components) + seq![
            '/',
        ] + more,
{
    reveal_strlit("/");
    assert("/"@ =~= seq!['/']);
    assert(components.push(more).drop_last() =~= components);
    reveal_with_fuel(path_text, 2);
}

} // verus!
