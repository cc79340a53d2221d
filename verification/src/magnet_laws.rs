//! What a magnet link says, told by the query that it carries.

use crate::magnet::{
    base32_bytes, base32_digit, base32_number, begins_with, bytes_number, hex_bytes, hex_digit,
    is_hex, link_of, multibase_of, read_pairs, uppercase_of, v1_topic, v2_topic, MagnetFailure,
    MagnetModel,
};
use vstd::arithmetic::power::{lemma_pow_multiplies, pow};
use vstd::prelude::*;
use vstd::utf8::{encode_utf8, is_ascii_chars, is_ascii_chars_encode_utf8};

verus! {

/// A hexadecimal digit, of either case, has a value.
pub open spec fn writes_digit(c: char, value: int) -> bool {
    ||| '0' <= c <= '9' && value == c as int - '0' as int
    ||| 'a' <= c <= 'f' && value == c as int - 'a' as int + 10
    ||| 'A' <= c <= 'F' && value == c as int - 'A' as int + 10
}

/// A text writes bytes in hexadecimal digits, two for each byte, the upper half
/// first.
pub open spec fn writes_bytes(text: Seq<char>, bytes: Seq<u8>) -> bool {
    &&& text.len() == 2 * bytes.len()
    &&& forall|i: int|
        0 <= i < bytes.len() ==> writes_digit(text[2 * i], #[trigger] bytes[i] as int / 16)
            && writes_digit(text[2 * i + 1], bytes[i] as int % 16)
}

/// A symbol of the base-32 alphabet, of either case, has a value.
pub open spec fn writes_symbol(c: char, value: int) -> bool {
    ||| 'a' <= c <= 'z' && value == c as int - 'a' as int
    ||| 'A' <= c <= 'Z' && value == c as int - 'A' as int
    ||| '2' <= c <= '7' && value == c as int - '2' as int + 26
}

/// The number that digits write in a base, the first digit the most significant.
pub open spec fn number_of(digits: Seq<int>, base: int) -> int
    decreases digits.len(),
{
    if digits.len() == 0 {
        0
    } else {
        base * number_of(digits.drop_last(), base) + digits.last()
    }
}

/// A pair of a query carries a v1 topic, a v2 topic.
pub open spec fn is_v1_pair(pair: (Seq<char>, Seq<char>)) -> bool {
    pair.0 == "xt"@ && "urn:btih:"@.is_prefix_of(pair.1)
}

pub open spec fn is_v2_pair(pair: (Seq<char>, Seq<char>)) -> bool {
    pair.0 == "xt"@ && "urn:btmh:"@.is_prefix_of(pair.1)
}

proof fn lemma_prefixes(value: Seq<char>)
    ensures
        "urn:btih:"@.len() == 9,
        "urn:btmh:"@.len() == 9,
        "urn:btih:"@.is_prefix_of(value) == begins_with(value, "urn:btih:"@),
        "urn:btmh:"@.is_prefix_of(value) == begins_with(value, "urn:btmh:"@),
        !("urn:btih:"@.is_prefix_of(value) && "urn:btmh:"@.is_prefix_of(value)),
{
    reveal_strlit("urn:btih:");
    reveal_strlit("urn:btmh:");
    if value.len() >= 9 {
        assert(value.subrange(0, 9) =~= value.take(9));
    }
    if "urn:btih:"@.is_prefix_of(value) && "urn:btmh:"@.is_prefix_of(value) {
        assert(value[6] == "urn:btih:"@[6]);
        assert(value[6] == "urn:btmh:"@[6]);
        assert("urn:btih:"@[6] == 'i');
        assert("urn:btmh:"@[6] == 'm');
    }
}

proof fn lemma_keys_differ()
    ensures
        "xt"@ != "dn"@,
        "xt"@ != "tr"@,
        "xt"@ != "ws"@,
        "dn"@ != "tr"@,
        "dn"@ != "ws"@,
        "tr"@ != "ws"@,
{
    reveal_strlit("xt");
    reveal_strlit("dn");
    reveal_strlit("tr");
    reveal_strlit("ws");
    assert("xt"@[0] == 'x');
    assert("dn"@[0] == 'd');
    assert("tr"@[0] == 't');
    assert("ws"@[0] == 'w');
}

/// The topics of a link are those of the last pairs that carry one.
proof fn lemma_last_topics(pairs: Seq<(Seq<char>, Seq<char>)>, p: int)
    requires
        read_pairs(pairs) is Ok,
        0 <= p < pairs.len(),
    ensures
        is_v1_pair(pairs[p]) ==> v1_topic(encode_utf8(pairs[p].1.skip(9))) is Some,
        is_v2_pair(pairs[p]) ==> v2_topic(pairs[p].1.skip(9)) is Some,
        is_v1_pair(pairs[p]) && (forall|k: int|
            p < k < pairs.len() ==> !is_v1_pair(#[trigger] pairs[k])) ==> read_pairs(
            pairs,
        )->Ok_0.v1_info_hash == v1_topic(encode_utf8(pairs[p].1.skip(9))),
        is_v2_pair(pairs[p]) && (forall|k: int|
            p < k < pairs.len() ==> !is_v2_pair(#[trigger] pairs[k])) ==> read_pairs(
            pairs,
        )->Ok_0.v2_info_hash == v2_topic(pairs[p].1.skip(9)),
    decreases pairs.len(),
{
    lemma_prefixes(pairs.last().1);
    if p < pairs.len() - 1 {
        lemma_last_topics(pairs.drop_last(), p);
        assert(pairs.drop_last()[p] == pairs[p]);
        if is_v1_pair(pairs[p]) && (forall|k: int|
            p < k < pairs.len() ==> !is_v1_pair(#[trigger] pairs[k])) {
            assert(!is_v1_pair(pairs[pairs.len() - 1]));
            assert forall|k: int| p < k < pairs.drop_last().len() implies !is_v1_pair(
                #[trigger] pairs.drop_last()[k],
            ) by {
                assert(pairs.drop_last()[k] == pairs[k]);
            }
        }
        if is_v2_pair(pairs[p]) && (forall|k: int|
            p < k < pairs.len() ==> !is_v2_pair(#[trigger] pairs[k])) {
            assert(!is_v2_pair(pairs[pairs.len() - 1]));
            assert forall|k: int| p < k < pairs.drop_last().len() implies !is_v2_pair(
                #[trigger] pairs.drop_last()[k],
            ) by {
                assert(pairs.drop_last()[k] == pairs[k]);
            }
        }
    }
}

proof fn lemma_hex(digits: Seq<char>)
    requires
        is_ascii_chars(digits),
        is_hex(encode_utf8(digits)),
    ensures
        writes_bytes(digits, hex_bytes(encode_utf8(digits))),
{
    let text = encode_utf8(digits);
    let bytes = hex_bytes(text);
    is_ascii_chars_encode_utf8(digits);
    assert forall|i: int| 0 <= i < bytes.len() implies writes_digit(
        digits[2 * i],
        #[trigger] bytes[i] as int / 16,
    ) && writes_digit(digits[2 * i + 1], bytes[i] as int % 16) by {
        assert(hex_digit(text[2 * i]) is Some);
        assert(hex_digit(text[2 * i + 1]) is Some);
        assert(digits[2 * i] as u8 == text[2 * i]);
        assert(digits[2 * i + 1] as u8 == text[2 * i + 1]);
        assert('\0' <= digits[2 * i] <= '\u{7f}');
        assert('\0' <= digits[2 * i + 1] <= '\u{7f}');
        let high = hex_digit(text[2 * i])->0;
        let low = hex_digit(text[2 * i + 1])->0;
        assert(bytes[i] as int == high * 16 + low);
    }
}

proof fn lemma_is_hex(digits: Seq<char>, bytes: Seq<u8>)
    requires
        writes_bytes(digits, bytes),
    ensures
        is_ascii_chars(digits),
        is_hex(encode_utf8(digits)),
        hex_bytes(encode_utf8(digits)) == bytes,
{
    let text = encode_utf8(digits);
    assert forall|k: int| 0 <= k < digits.len() implies '\0' <= #[trigger] digits[k]
        <= '\u{7f}' by {
        let b = bytes[k / 2];
        assert(k == 2 * (k / 2) || k == 2 * (k / 2) + 1);
    }
    is_ascii_chars_encode_utf8(digits);
    assert forall|k: int| 0 <= k < text.len() implies hex_digit(#[trigger] text[k]) is Some by {
        let b = bytes[k / 2];
        assert(k == 2 * (k / 2) || k == 2 * (k / 2) + 1);
        assert(digits[k] as u8 == text[k]);
    }
    assert forall|i: int| 0 <= i < bytes.len() implies hex_bytes(text)[i] == bytes[i] by {
        let b = bytes[i];
        assert(digits[2 * i] as u8 == text[2 * i]);
        assert(digits[2 * i + 1] as u8 == text[2 * i + 1]);
    }
    assert(hex_bytes(text) =~= bytes);
}

/// The v2 hash of a link is what the last v2 topic writes: behind `1220`, two
/// hexadecimal digits for each byte of the hash, in order.
pub proof fn law_v2_hash_is_as_written(
    scheme: Seq<char>,
    pairs: Seq<(Seq<char>, Seq<char>)>,
    p: int,
    digits: Seq<char>,
)
    requires
        link_of(scheme, pairs) is Ok,
        0 <= p < pairs.len(),
        pairs[p] == ("xt"@, "urn:btmh:"@ + "1220"@ + digits),
        digits.len() == 64,
        is_ascii_chars(digits),
        forall|k: int| p < k < pairs.len() ==> !is_v2_pair(#[trigger] pairs[k]),
    ensures
        link_of(scheme, pairs)->Ok_0.v2_info_hash is Some,
        link_of(scheme, pairs)->Ok_0.v2_info_hash->0.len() == 32,
        writes_bytes(digits, link_of(scheme, pairs)->Ok_0.v2_info_hash->0),
{
    let topic = "1220"@ + digits;
    let value = pairs[p].1;
    reveal_strlit("urn:btmh:");
    reveal_strlit("1220");
    assert("urn:btmh:"@.is_prefix_of(value)) by {
        assert(value.subrange(0, 9) =~= "urn:btmh:"@);
    }
    assert(value.skip(9) =~= topic);
    lemma_last_topics(pairs, p);
    lemma_v2_digits(digits);
}

proof fn lemma_v2_digits(digits: Seq<char>)
    requires
        digits.len() == 64,
        is_ascii_chars(digits),
        v2_topic("1220"@ + digits) is Some,
    ensures
        v2_topic("1220"@ + digits)->0.len() == 32,
        writes_bytes(digits, v2_topic("1220"@ + digits)->0),
{
    reveal_strlit("1220");
    let topic = "1220"@ + digits;
    assert("1220"@[0] == '1' && "1220"@[1] == '2' && "1220"@[2] == '2' && "1220"@[3] == '0');
    assert forall|k: int| 0 <= k < topic.len() implies '\0' <= #[trigger] topic[k]
        <= '\u{7f}' by {
        if k >= 4 {
            assert(topic[k] == digits[k - 4]);
        }
    }
    is_ascii_chars_encode_utf8(topic);
    let text = encode_utf8(topic);
    assert(topic[0] as u8 == text[0]);
    assert(topic[1] as u8 == text[1]);
    assert(topic[2] as u8 == text[2]);
    assert(topic[3] as u8 == text[3]);
    assert(text.take(4) =~= seq![0x31u8, 0x32u8, 0x32u8, 0x30u8]);
    lemma_hex(topic);
    let bytes = hex_bytes(text);
    let hash = bytes.skip(2);
    assert(v2_topic(topic) == Some(hash));
    assert forall|i: int| 0 <= i < hash.len() implies writes_digit(
        digits[2 * i],
        #[trigger] hash[i] as int / 16,
    ) && writes_digit(digits[2 * i + 1], hash[i] as int % 16) by {
        assert(hash[i] == bytes[i + 2]);
        assert(topic[2 * (i + 2)] == digits[2 * i]);
        assert(topic[2 * (i + 2) + 1] == digits[2 * i + 1]);
    }
}

/// Every hash of thirty-two bytes can be handed on: the link whose one topic
/// writes it behind `1220` is accepted, and names that hash and nothing else.
pub proof fn law_v2_hash_is_read_back(digits: Seq<char>, hash: Seq<u8>)
    requires
        hash.len() == 32,
        writes_bytes(digits, hash),
    ensures
        ({
            let link = link_of("magnet"@, seq![("xt"@, "urn:btmh:"@ + "1220"@ + digits)]);
            &&& link is Ok
            &&& link->Ok_0.v2_info_hash == Some(hash)
            &&& link->Ok_0.v1_info_hash is None
            &&& link->Ok_0.display_name is None
            &&& link->Ok_0.trackers.len() == 0
            &&& link->Ok_0.web_seeds.len() == 0
        }),
{
    let value = "urn:btmh:"@ + "1220"@ + digits;
    let pairs = seq![("xt"@, value)];
    let topic = "1220"@ + digits;
    reveal_strlit("urn:btmh:");
    reveal_strlit("1220");
    assert("urn:btmh:"@.is_prefix_of(value)) by {
        assert(value.subrange(0, 9) =~= "urn:btmh:"@);
    }
    assert(value.skip(9) =~= topic);
    lemma_prefixes(value);
    lemma_is_hex(digits, hash);
    assert("1220"@[0] == '1' && "1220"@[1] == '2' && "1220"@[2] == '2' && "1220"@[3] == '0');
    let whole = seq![0x12u8, 0x20u8] + hash;
    assert(writes_bytes(topic, whole)) by {
        assert forall|i: int| 0 <= i < whole.len() implies writes_digit(
            topic[2 * i],
            #[trigger] whole[i] as int / 16,
        ) && writes_digit(topic[2 * i + 1], whole[i] as int % 16) by {
            if i >= 2 {
                assert(whole[i] == hash[i - 2]);
                assert(topic[2 * i] == digits[2 * (i - 2)]);
                assert(topic[2 * i + 1] == digits[2 * (i - 2) + 1]);
            }
        }
    }
    lemma_is_hex(topic, whole);
    let text = encode_utf8(topic);
    is_ascii_chars_encode_utf8(topic);
    assert(topic[0] as u8 == text[0]);
    assert(topic[1] as u8 == text[1]);
    assert(topic[2] as u8 == text[2]);
    assert(topic[3] as u8 == text[3]);
    assert(text.take(4) =~= seq![0x31u8, 0x32u8, 0x32u8, 0x30u8]);
    assert(whole.skip(2) =~= hash);
    assert(v2_topic(topic) == Some(hash));
    assert(pairs.drop_last() =~= Seq::<(Seq<char>, Seq<char>)>::empty());
    reveal_with_fuel(read_pairs, 2);
}

/// The v1 hash of a link is what the last v1 topic of forty digits writes: two
/// hexadecimal digits for each byte of the hash, in order.
pub proof fn law_v1_hash_is_as_written(
    scheme: Seq<char>,
    pairs: Seq<(Seq<char>, Seq<char>)>,
    p: int,
    digits: Seq<char>,
)
    requires
        link_of(scheme, pairs) is Ok,
        0 <= p < pairs.len(),
        pairs[p] == ("xt"@, "urn:btih:"@ + digits),
        digits.len() == 40,
        is_ascii_chars(digits),
        forall|k: int| p < k < pairs.len() ==> !is_v1_pair(#[trigger] pairs[k]),
    ensures
        link_of(scheme, pairs)->Ok_0.v1_info_hash is Some,
        link_of(scheme, pairs)->Ok_0.v1_info_hash->0.len() == 20,
        writes_bytes(digits, link_of(scheme, pairs)->Ok_0.v1_info_hash->0),
{
    let value = pairs[p].1;
    reveal_strlit("urn:btih:");
    assert("urn:btih:"@.is_prefix_of(value)) by {
        assert(value.subrange(0, 9) =~= "urn:btih:"@);
    }
    assert(value.skip(9) =~= digits);
    lemma_last_topics(pairs, p);
    is_ascii_chars_encode_utf8(digits);
    lemma_hex(digits);
}

/// Every hash of twenty bytes can be handed on: the link whose one topic writes
/// it in hexadecimal digits is accepted, and names that hash and nothing else.
pub proof fn law_v1_hash_is_read_back(digits: Seq<char>, hash: Seq<u8>)
    requires
        hash.len() == 20,
        writes_bytes(digits, hash),
    ensures
        ({
            let link = link_of("magnet"@, seq![("xt"@, "urn:btih:"@ + digits)]);
            &&& link is Ok
            &&& link->Ok_0.v1_info_hash == Some(hash)
            &&& link->Ok_0.v2_info_hash is None
            &&& link->Ok_0.display_name is None
            &&& link->Ok_0.trackers.len() == 0
            &&& link->Ok_0.web_seeds.len() == 0
        }),
{
    let value = "urn:btih:"@ + digits;
    let pairs = seq![("xt"@, value)];
    reveal_strlit("urn:btih:");
    assert("urn:btih:"@.is_prefix_of(value)) by {
        assert(value.subrange(0, 9) =~= "urn:btih:"@);
    }
    assert(value.skip(9) =~= digits);
    lemma_prefixes(value);
    lemma_is_hex(digits, hash);
    is_ascii_chars_encode_utf8(digits);
    assert(pairs.drop_last() =~= Seq::<(Seq<char>, Seq<char>)>::empty());
    reveal_with_fuel(read_pairs, 2);
}

/// The values of the pairs with a key, all of them and in order.
pub open spec fn are_values(
    values: Seq<Seq<char>>,
    pairs: Seq<(Seq<char>, Seq<char>)>,
    key: Seq<char>,
    kept: Seq<int>,
) -> bool {
    &&& values.len() == kept.len()
    &&& forall|i: int|
        0 <= i < kept.len() ==> 0 <= #[trigger] kept[i] < pairs.len() && pairs[kept[i]] == (
            key,
            values[i],
        )
    &&& forall|i: int, j: int| 0 <= i < j < kept.len() ==> #[trigger] kept[i] < #[trigger] kept[j]
    &&& forall|k: int|
        0 <= k < pairs.len() && (#[trigger] pairs[k]).0 == key ==> exists|i: int|
            0 <= i < kept.len() && #[trigger] kept[i] == k
}

proof fn lemma_values(pairs: Seq<(Seq<char>, Seq<char>)>) -> (r: (Seq<int>, Seq<int>))
    requires
        read_pairs(pairs) is Ok,
    ensures
        are_values(read_pairs(pairs)->Ok_0.trackers, pairs, "tr"@, r.0),
        are_values(read_pairs(pairs)->Ok_0.web_seeds, pairs, "ws"@, r.1),
    decreases pairs.len(),
{
    if pairs.len() == 0 {
        (Seq::empty(), Seq::empty())
    } else {
        lemma_keys_differ();
        let front = pairs.drop_last();
        let (a, b) = lemma_values(front);
        let last = pairs.len() - 1;
        let before = read_pairs(front)->Ok_0;
        let after = read_pairs(pairs)->Ok_0;
        lemma_kept(before.trackers, front, pairs.last(), "tr"@, a);
        lemma_kept(before.web_seeds, front, pairs.last(), "ws"@, b);
        assert(front.push(pairs.last()) =~= pairs);
        if pairs.last().0 == "tr"@ {
            (a.push(last), b)
        } else if pairs.last().0 == "ws"@ {
            (a, b.push(last))
        } else {
            (a, b)
        }
    }
}

proof fn lemma_kept(
    values: Seq<Seq<char>>,
    pairs: Seq<(Seq<char>, Seq<char>)>,
    more: (Seq<char>, Seq<char>),
    key: Seq<char>,
    kept: Seq<int>,
)
    requires
        are_values(values, pairs, key, kept),
    ensures
        more.0 == key ==> are_values(
            values.push(more.1),
            pairs.push(more),
            key,
            kept.push(pairs.len() as int),
        ),
        more.0 != key ==> are_values(values, pairs.push(more), key, kept),
{
    let all = pairs.push(more);
    let longer = kept.push(pairs.len() as int);
    assert forall|k: int| 0 <= k < pairs.len() && (#[trigger] all[k]).0 == key implies exists|
        i: int,
    | 0 <= i < kept.len() && #[trigger] kept[i] == k by {
        assert(pairs[k] == all[k]);
    }
    if more.0 == key {
        assert forall|k: int| 0 <= k < all.len() && (#[trigger] all[k]).0 == key implies exists|
            i: int,
        | 0 <= i < longer.len() && #[trigger] longer[i] == k by {
            if k < pairs.len() {
                let i = choose|i: int| 0 <= i < kept.len() && #[trigger] kept[i] == k;
                assert(longer[i] == k);
            } else {
                assert(longer[kept.len() as int] == k);
            }
        }
        assert forall|i: int| 0 <= i < longer.len() implies 0 <= #[trigger] longer[i] < all.len()
            && all[longer[i]] == (key, values.push(more.1)[i]) by {
            if i < kept.len() {
                assert(longer[i] == kept[i]);
            }
        }
    }
}

/// The trackers of a link are the values of all its `tr` pairs, and its web seeds
/// those of all its `ws` pairs, in the order of the query.
pub proof fn law_trackers_and_seeds_are_as_written(
    scheme: Seq<char>,
    pairs: Seq<(Seq<char>, Seq<char>)>,
)
    requires
        link_of(scheme, pairs) is Ok,
    ensures
        exists|kept: Seq<int>| #[trigger]
            are_values(link_of(scheme, pairs)->Ok_0.trackers, pairs, "tr"@, kept),
        exists|kept: Seq<int>| #[trigger]
            are_values(link_of(scheme, pairs)->Ok_0.web_seeds, pairs, "ws"@, kept),
{
    let (a, b) = lemma_values(pairs);
}

/// The name that a link displays is that of its last `dn` pair; without one it
/// displays none.
pub proof fn law_name_is_as_written(scheme: Seq<char>, pairs: Seq<(Seq<char>, Seq<char>)>)
    requires
        link_of(scheme, pairs) is Ok,
    ensures
        match link_of(scheme, pairs)->Ok_0.display_name {
            Some(name) => exists|p: int|
                0 <= p < pairs.len() && #[trigger] pairs[p] == ("dn"@, name) && forall|k: int|
                    p < k < pairs.len() ==> (#[trigger] pairs[k]).0 != "dn"@,
            None => forall|k: int| 0 <= k < pairs.len() ==> (#[trigger] pairs[k]).0 != "dn"@,
        },
{
    lemma_name(pairs);
}

proof fn lemma_name(pairs: Seq<(Seq<char>, Seq<char>)>)
    requires
        read_pairs(pairs) is Ok,
    ensures
        match read_pairs(pairs)->Ok_0.display_name {
            Some(name) => exists|p: int|
                0 <= p < pairs.len() && #[trigger] pairs[p] == ("dn"@, name) && forall|k: int|
                    p < k < pairs.len() ==> (#[trigger] pairs[k]).0 != "dn"@,
            None => forall|k: int| 0 <= k < pairs.len() ==> (#[trigger] pairs[k]).0 != "dn"@,
        },
    decreases pairs.len(),
{
    if pairs.len() > 0 {
        lemma_keys_differ();
        let front = pairs.drop_last();
        lemma_name(front);
        let last = pairs.len() - 1;
        if pairs.last().0 == "dn"@ {
            assert(pairs[last] == ("dn"@, pairs.last().1));
        } else {
            match read_pairs(front)->Ok_0.display_name {
                Some(name) => {
                    let p = choose|p: int|
                        0 <= p < front.len() && #[trigger] front[p] == ("dn"@, name) && forall|
                            k: int,
                        | p < k < front.len() ==> (#[trigger] front[k]).0 != "dn"@;
                    assert(pairs[p] == ("dn"@, name));
                    assert forall|k: int| p < k < pairs.len() implies (#[trigger] pairs[k]).0
                        != "dn"@ by {
                        if k < last {
                            assert(front[k] == pairs[k]);
                        }
                    }
                },
                None => {
                    assert forall|k: int| 0 <= k < pairs.len() implies (#[trigger] pairs[k]).0
                        != "dn"@ by {
                        if k < last {
                            assert(front[k] == pairs[k]);
                        }
                    }
                },
            }
        }
    }
}

/// A v2 topic that is not sixty-eight digits is written in a multibase, and the
/// hash is what stands there behind the two bytes that announce a SHA-256 digest.
pub proof fn law_multibase_hash_is_as_written(
    scheme: Seq<char>,
    pairs: Seq<(Seq<char>, Seq<char>)>,
    p: int,
    topic: Seq<char>,
)
    requires
        link_of(scheme, pairs) is Ok,
        0 <= p < pairs.len(),
        pairs[p] == ("xt"@, "urn:btmh:"@ + topic),
        topic.len() != 68,
        is_ascii_chars(topic),
        forall|k: int| p < k < pairs.len() ==> !is_v2_pair(#[trigger] pairs[k]),
    ensures
        link_of(scheme, pairs)->Ok_0.v2_info_hash is Some,
        link_of(scheme, pairs)->Ok_0.v2_info_hash->0.len() == 32,
        multibase_of(topic) == Some(
            seq![0x12u8, 0x20u8] + link_of(scheme, pairs)->Ok_0.v2_info_hash->0,
        ),
{
    let value = pairs[p].1;
    reveal_strlit("urn:btmh:");
    assert("urn:btmh:"@.is_prefix_of(value)) by {
        assert(value.subrange(0, 9) =~= "urn:btmh:"@);
    }
    assert(value.skip(9) =~= topic);
    lemma_last_topics(pairs, p);
    is_ascii_chars_encode_utf8(topic);
    let bytes = multibase_of(topic)->0;
    assert(seq![0x12u8, 0x20u8] + bytes.skip(2) =~= bytes);
}

/// A v1 topic of thirty-two symbols writes the hash as one number: in base 32 by
/// its symbols, in base 256 by the bytes of the hash.
pub proof fn law_base32_hash_is_as_written(
    scheme: Seq<char>,
    pairs: Seq<(Seq<char>, Seq<char>)>,
    p: int,
    symbols: Seq<char>,
    values: Seq<int>,
)
    requires
        link_of(scheme, pairs) is Ok,
        0 <= p < pairs.len(),
        pairs[p] == ("xt"@, "urn:btih:"@ + symbols),
        symbols.len() == 32,
        values.len() == 32,
        forall|k: int| 0 <= k < 32 ==> writes_symbol(symbols[k], #[trigger] values[k]),
        forall|k: int| p < k < pairs.len() ==> !is_v1_pair(#[trigger] pairs[k]),
    ensures
        link_of(scheme, pairs)->Ok_0.v1_info_hash is Some,
        ({
            let hash = link_of(scheme, pairs)->Ok_0.v1_info_hash->0;
            &&& hash.len() == 20
            &&& number_of(Seq::new(hash.len(), |i: int| hash[i] as int), 256) == number_of(
                values,
                32,
            )
        }),
{
    let value = pairs[p].1;
    reveal_strlit("urn:btih:");
    assert("urn:btih:"@.is_prefix_of(value)) by {
        assert(value.subrange(0, 9) =~= "urn:btih:"@);
    }
    assert(value.skip(9) =~= symbols);
    lemma_last_topics(pairs, p);
    assert forall|k: int| 0 <= k < symbols.len() implies '\0' <= #[trigger] symbols[k]
        <= '\u{7f}' by {
        assert(writes_symbol(symbols[k], values[k]));
    }
    is_ascii_chars_encode_utf8(symbols);
    let text = uppercase_of(encode_utf8(symbols));
    assert forall|k: int| 0 <= k < text.len() implies base32_digit(#[trigger] text[k]) == Some(
        values[k],
    ) by {
        assert(writes_symbol(symbols[k], values[k]));
        assert(symbols[k] as u8 == encode_utf8(symbols)[k]);
    }
    lemma_number_of_symbols(text, values);
    lemma_bytes_for(base32_number(text), 20);
    let made = choose|bytes: Seq<u8>| bytes.len() == 20 && #[trigger] bytes_number(bytes)
        == base32_number(text);
    assert(base32_bytes(text, made));
    let hash = choose|hash: Seq<u8>| base32_bytes(text, hash);
    assert(base32_bytes(text, hash));
    lemma_number_of_bytes(hash);
}

proof fn lemma_number_of_symbols(text: Seq<u8>, values: Seq<int>)
    requires
        text.len() == values.len(),
        forall|k: int| 0 <= k < text.len() ==> base32_digit(#[trigger] text[k]) == Some(values[k]),
    ensures
        base32_number(text) == number_of(values, 32),
        0 <= base32_number(text) < pow(32, text.len()),
    decreases text.len(),
{
    reveal(pow);
    if text.len() > 0 {
        assert(base32_digit(text[text.len() - 1]) == Some(values[values.len() - 1]));
        lemma_number_of_symbols(text.drop_last(), values.drop_last());
    }
}

proof fn lemma_number_of_bytes(bytes: Seq<u8>)
    ensures
        bytes_number(bytes) == number_of(Seq::new(bytes.len(), |i: int| bytes[i] as int), 256),
    decreases bytes.len(),
{
    let digits = Seq::new(bytes.len(), |i: int| bytes[i] as int);
    if bytes.len() > 0 {
        let front = bytes.drop_last();
        lemma_number_of_bytes(front);
        assert(digits.drop_last() =~= Seq::new(front.len(), |i: int| front[i] as int));
    }
}

proof fn lemma_bytes_for(n: int, len: nat)
    requires
        0 <= n < pow(32, 32),
        len == 20,
    ensures
        exists|bytes: Seq<u8>| bytes.len() == len && #[trigger] bytes_number(bytes) == n,
{
    assert(pow(2, 5) == 32 && pow(2, 8) == 256) by {
        reveal_with_fuel(pow, 9);
    }
    lemma_pow_multiplies(2, 5, 32);
    lemma_pow_multiplies(2, 8, 20);
    lemma_some_bytes(n, len);
}

proof fn lemma_some_bytes(n: int, len: nat)
    requires
        0 <= n < pow(256, len),
    ensures
        exists|bytes: Seq<u8>| bytes.len() == len && #[trigger] bytes_number(bytes) == n,
    decreases len,
{
    reveal(pow);
    if len == 0 {
        assert(bytes_number(Seq::<u8>::empty()) == n);
    } else {
        lemma_some_bytes(n / 256, (len - 1) as nat);
        let front = choose|bytes: Seq<u8>|
            bytes.len() == len - 1 && #[trigger] bytes_number(bytes) == n / 256;
        let bytes = front.push((n % 256) as u8);
        assert(bytes.drop_last() =~= front);
        assert(bytes_number(bytes) == n);
    }
}

/// A text is a link only under the scheme `magnet`, and only with a topic.
pub proof fn law_link_needs_scheme_and_topic(
    scheme: Seq<char>,
    pairs: Seq<(Seq<char>, Seq<char>)>,
)
    ensures
        scheme != "magnet"@ ==> link_of(scheme, pairs) == Err::<MagnetModel, MagnetFailure>(
            MagnetFailure::Scheme,
        ),
        scheme == "magnet"@ && (forall|k: int|
            0 <= k < pairs.len() ==> !is_v1_pair(#[trigger] pairs[k]) && !is_v2_pair(pairs[k]))
            ==> link_of(scheme, pairs) == Err::<MagnetModel, MagnetFailure>(
            MagnetFailure::MissingTopic,
        ),
{
    if forall|k: int|
        0 <= k < pairs.len() ==> !is_v1_pair(#[trigger] pairs[k]) && !is_v2_pair(pairs[k]) {
        lemma_no_topic(pairs);
    }
}

proof fn lemma_no_topic(pairs: Seq<(Seq<char>, Seq<char>)>)
    requires
        forall|k: int|
            0 <= k < pairs.len() ==> !is_v1_pair(#[trigger] pairs[k]) && !is_v2_pair(pairs[k]),
    ensures
        read_pairs(pairs) is Ok,
        read_pairs(pairs)->Ok_0.v1_info_hash is None,
        read_pairs(pairs)->Ok_0.v2_info_hash is None,
    decreases pairs.len(),
{
    if pairs.len() > 0 {
        lemma_prefixes(pairs.last().1);
        assert(!is_v1_pair(pairs[pairs.len() - 1]));
        assert forall|k: int| 0 <= k < pairs.drop_last().len() implies !is_v1_pair(
            #[trigger] pairs.drop_last()[k],
        ) && !is_v2_pair(pairs.drop_last()[k]) by {
            assert(pairs.drop_last()[k] == pairs[k]);
        }
        lemma_no_topic(pairs.drop_last());
    }
}

} // verus!
