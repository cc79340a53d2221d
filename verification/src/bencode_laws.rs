//! What decoding means: the one-to-one correspondence between decoded values
//! and the canonical bytes they are written as.

use crate::bencode::{
    all_digits, bytes_less, digits_end, digits_value, find_from, first_match, integer_value,
    is_canonical_number, is_digit, lemma_digits_end, lookup, parse_bytes, parse_entries,
    parse_integer, parse_item, parse_items, parse_prefix, parse_whole, BencodeLimits, Content,
    DecodeError, Item, Progress,
};
use vstd::prelude::*;

verus! {

/// A number in base ten, without leading zeros.
pub open spec fn decimal(n: nat) -> Seq<u8>
    decreases n,
{
    if n < 10 {
        seq![(0x30 + n) as u8]
    } else {
        decimal(n / 10).push((0x30 + n % 10) as u8)
    }
}

pub open spec fn signed_decimal(n: int) -> Seq<u8> {
    if n < 0 {
        seq![0x2du8] + decimal((-n) as nat)
    } else {
        decimal(n as nat)
    }
}

pub open spec fn encode_bytes(bytes: Seq<u8>) -> Seq<u8> {
    decimal(bytes.len()) + seq![0x3au8] + bytes
}

/// The canonical bytes of a value.
pub open spec fn encode(content: Content) -> Seq<u8>
    decreases content,
{
    match content {
        Content::Integer(value) => seq![0x69u8] + signed_decimal(value) + seq![0x65u8],
        Content::Bytes(bytes) => encode_bytes(bytes),
        Content::List(items) => seq![0x6cu8] + encode_items(items) + seq![0x65u8],
        Content::Dictionary(entries) => seq![0x64u8] + encode_entries(entries) + seq![0x65u8],
    }
}

pub open spec fn encode_items(items: Seq<Item>) -> Seq<u8>
    decreases items,
{
    if items.len() == 0 {
        Seq::empty()
    } else {
        encode_items(items.drop_last()) + encode(items.last().content)
    }
}

pub open spec fn encode_entries(entries: Seq<(Seq<u8>, Item)>) -> Seq<u8>
    decreases entries,
{
    if entries.len() == 0 {
        Seq::empty()
    } else {
        encode_entries(entries.drop_last()) + encode_bytes(entries.last().0) + encode(
            entries.last().1.content,
        )
    }
}

/// How many values a document holds, dictionary keys counted too.
pub open spec fn node_count(content: Content) -> nat
    decreases content,
{
    match content {
        Content::List(items) => 1 + items_count(items),
        Content::Dictionary(entries) => 1 + entries_count(entries),
        _ => 1,
    }
}

pub open spec fn items_count(items: Seq<Item>) -> nat
    decreases items,
{
    if items.len() == 0 {
        0
    } else {
        items_count(items.drop_last()) + node_count(items.last().content)
    }
}

pub open spec fn entries_count(entries: Seq<(Seq<u8>, Item)>) -> nat
    decreases entries,
{
    if entries.len() == 0 {
        0
    } else {
        entries_count(entries.drop_last()) + 1 + node_count(entries.last().1.content)
    }
}

/// A value that respects every limit but the one on the number of values:
/// integers of 64 bits, bounded depth, byte strings and collections, and keys
/// in strictly increasing order where that is asked for.
pub open spec fn within(content: Content, l: BencodeLimits, depth: nat) -> bool
    decreases content,
{
    &&& depth <= l.depth
    &&& match content {
        Content::Integer(value) => i64::MIN <= value <= i64::MAX,
        Content::Bytes(bytes) => bytes.len() <= l.byte_string_bytes,
        Content::List(items) => items.len() <= l.collection_items && items_within(
            items,
            l,
            depth + 1,
        ),
        Content::Dictionary(entries) => entries.len() <= l.collection_items && entries_within(
            entries,
            l,
            depth + 1,
        ),
    }
}

pub open spec fn items_within(items: Seq<Item>, l: BencodeLimits, depth: nat) -> bool
    decreases items,
{
    items.len() > 0 ==> items_within(items.drop_last(), l, depth) && within(
        items.last().content,
        l,
        depth,
    )
}

pub open spec fn entries_within(
    entries: Seq<(Seq<u8>, Item)>,
    l: BencodeLimits,
    depth: nat,
) -> bool
    decreases entries,
{
    entries.len() > 0 ==> {
        &&& entries_within(entries.drop_last(), l, depth)
        &&& depth <= l.depth
        &&& entries.last().0.len() <= l.byte_string_bytes
        &&& within(entries.last().1.content, l, depth)
        &&& l.canonical_dictionaries && entries.len() > 1 ==> bytes_less(
            entries[entries.len() - 2].0,
            entries.last().0,
        )
    }
}

/// The value with every span set to where its bytes stand when its encoding
/// begins at `at`.
pub open spec fn place(content: Content, at: int) -> Item
    decreases content,
{
    Item {
        start: at,
        end: at + encode(content).len(),
        content: match content {
            Content::List(items) => Content::List(place_items(items, at + 1)),
            Content::Dictionary(entries) => Content::Dictionary(place_entries(entries, at + 1)),
            other => other,
        },
    }
}

pub open spec fn place_items(items: Seq<Item>, at: int) -> Seq<Item>
    decreases items,
{
    if items.len() == 0 {
        Seq::empty()
    } else {
        place_items(items.drop_last(), at).push(
            place(items.last().content, at + encode_items(items.drop_last()).len()),
        )
    }
}

pub open spec fn place_entries(entries: Seq<(Seq<u8>, Item)>, at: int) -> Seq<(Seq<u8>, Item)>
    decreases entries,
{
    if entries.len() == 0 {
        Seq::empty()
    } else {
        place_entries(entries.drop_last(), at).push(
            (
                entries.last().0,
                place(
                    entries.last().1.content,
                    at + encode_entries(entries.drop_last()).len() + encode_bytes(
                        entries.last().0,
                    ).len(),
                ),
            ),
        )
    }
}

/// Whether `part` stands in `s` at position `at`.
pub open spec fn holds_at(s: Seq<u8>, at: int, part: Seq<u8>) -> bool {
    0 <= at && at + part.len() <= s.len() && s.subrange(at, at + part.len()) == part
}

pub proof fn lemma_holds_concat(s: Seq<u8>, at: int, a: Seq<u8>, b: Seq<u8>)
    ensures
        holds_at(s, at, a + b) <==> holds_at(s, at, a) && holds_at(s, at + a.len(), b),
{
    if holds_at(s, at, a + b) {
        let whole = s.subrange(at, at + (a + b).len());
        assert(whole.subrange(0, a.len() as int) =~= a);
        assert(whole.subrange(a.len() as int, whole.len() as int) =~= b);
        assert(s.subrange(at, at + a.len()) =~= a);
        assert(s.subrange(at + a.len(), at + a.len() + b.len()) =~= b);
    }
    if holds_at(s, at, a) && holds_at(s, at + a.len(), b) {
        assert(s.subrange(at, at + (a + b).len()) =~= s.subrange(at, at + a.len()) + s.subrange(
            at + a.len(),
            at + a.len() + b.len(),
        ));
    }
}

proof fn lemma_holds_byte(s: Seq<u8>, at: int, byte: u8)
    ensures
        holds_at(s, at, seq![byte]) <==> 0 <= at < s.len() && s[at] == byte,
{
    if 0 <= at < s.len() {
        let part = s.subrange(at, at + 1);
        if s[at] == byte {
            assert(part =~= seq![byte]);
        }
        if part == seq![byte] {
            assert(part[0] == byte);
        }
    }
}

/// Writing a number and reading its digits gives the number back.
pub proof fn lemma_decimal(n: nat)
    ensures
        is_canonical_number(decimal(n)),
        digits_value(decimal(n)) == n,
        decimal(n)[0] == 0x30 <==> n == 0,
    decreases n,
{
    reveal_with_fuel(digits_value, 2);
    if n < 10 {
        assert(decimal(n).drop_last() =~= Seq::<u8>::empty());
    } else {
        lemma_decimal(n / 10);
        assert(decimal(n).drop_last() =~= decimal(n / 10));
        assert(decimal(n)[0] == decimal(n / 10)[0]);
    }
}

/// Reading canonical digits and writing the number gives the digits back.
pub proof fn lemma_decimal_of_value(s: Seq<u8>)
    requires
        is_canonical_number(s),
    ensures
        decimal(digits_value(s)) == s,
        s.len() > 1 ==> digits_value(s) > 0,
    decreases s.len(),
{
    let init = s.drop_last();
    let digit = (s.last() - 0x30) as nat;
    assert(is_digit(s.last()));
    if init.len() == 0 {
        reveal_with_fuel(digits_value, 2);
        assert(digits_value(init) == 0);
        assert(decimal(digit) =~= s);
    } else {
        assert(init[0] == s[0]);
        assert(all_digits(init)) by {
            assert forall|i: int| 0 <= i < init.len() implies is_digit(#[trigger] init[i]) by {
                assert(init[i] == s[i]);
            }
        }
        lemma_decimal_of_value(init);
        let value = digits_value(init);
        if init.len() == 1 {
            reveal_with_fuel(digits_value, 2);
            assert(init.drop_last().len() == 0);
            assert(value == (init.last() - 0x30) as nat);
        }
        assert(value > 0);
        assert(digits_value(s) == value * 10 + digit);
        assert(digits_value(s) / 10 == value);
        assert(digits_value(s) % 10 == digit);
        assert(decimal(digits_value(s)) =~= s);
    }
}

proof fn lemma_signed_decimal(n: int)
    requires
        i64::MIN <= n <= i64::MAX,
    ensures
        integer_value(signed_decimal(n)) == Some(n),
        forall|i: int|
            0 <= i < signed_decimal(n).len() ==> #[trigger] signed_decimal(n)[i] != 0x65,
{
    if n < 0 {
        lemma_decimal((-n) as nat);
        assert(signed_decimal(n).drop_first() =~= decimal((-n) as nat));
        assert forall|i: int| 0 <= i < signed_decimal(n).len() implies #[trigger] signed_decimal(
            n,
        )[i] != 0x65 by {
            if i > 0 {
                assert(is_digit(decimal((-n) as nat)[i - 1]));
            }
        }
    } else {
        lemma_decimal(n as nat);
        assert(is_digit(decimal(n as nat)[0]));
    }
}

proof fn lemma_integer_value_written(s: Seq<u8>)
    requires
        integer_value(s) is Some,
    ensures
        signed_decimal(integer_value(s)->0) == s,
        i64::MIN <= integer_value(s)->0 <= i64::MAX,
{
    if s[0] == 0x2d {
        lemma_decimal_of_value(s.drop_first());
        assert(seq![0x2du8] + s.drop_first() =~= s);
    } else {
        lemma_decimal_of_value(s);
    }
}

proof fn lemma_find_from(s: Seq<u8>, from: int, byte: u8)
    requires
        0 <= from <= s.len(),
    ensures
        from <= find_from(s, from, byte) <= s.len(),
        find_from(s, from, byte) < s.len() ==> s[find_from(s, from, byte)] == byte,
        forall|i: int| from <= i < find_from(s, from, byte) ==> #[trigger] s[i] != byte,
    decreases s.len() - from,
{
    if from < s.len() && s[from] != byte {
        lemma_find_from(s, from + 1, byte);
    }
}

proof fn lemma_parse_integer_sound(s: Seq<u8>, start: int)
    requires
        0 <= start < s.len(),
        s[start] == 0x69,
        parse_integer(s, start) is Ok,
    ensures
        ({
            let (value, end) = parse_integer(s, start)->Ok_0;
            &&& i64::MIN <= value <= i64::MAX
            &&& holds_at(s, start, encode(Content::Integer(value)))
            &&& end == start + encode(Content::Integer(value)).len()
        }),
{
    lemma_find_from(s, start + 1, 0x65);
    let end = find_from(s, start + 1, 0x65);
    let text = s.subrange(start + 1, end);
    lemma_integer_value_written(text);
    lemma_holds_byte(s, start, 0x69);
    lemma_holds_concat(s, start, seq![0x69u8], text);
    lemma_holds_byte(s, end, 0x65);
    lemma_holds_concat(s, start, seq![0x69u8] + text, seq![0x65u8]);
}

proof fn lemma_parse_integer_complete(s: Seq<u8>, start: int, value: int)
    requires
        i64::MIN <= value <= i64::MAX,
        holds_at(s, start, encode(Content::Integer(value))),
    ensures
        s[start] == 0x69,
        start + encode(Content::Integer(value)).len() <= s.len(),
        encode(Content::Integer(value)).len() > 1,
        parse_integer(s, start) == Ok::<(int, int), DecodeError>(
            (value, start + encode(Content::Integer(value)).len()),
        ),
{
    let text = signed_decimal(value);
    lemma_signed_decimal(value);
    lemma_holds_concat(s, start, seq![0x69u8] + text, seq![0x65u8]);
    lemma_holds_concat(s, start, seq![0x69u8], text);
    lemma_holds_byte(s, start, 0x69);
    let end = start + 1 + text.len();
    lemma_holds_byte(s, end, 0x65);
    lemma_find_from(s, start + 1, 0x65);
    let found = find_from(s, start + 1, 0x65);
    if found < end {
        assert(s.subrange(start + 1, end)[found - start - 1] == s[found]);
    }
    assert(found == end);
}

proof fn lemma_digits_end_at(s: Seq<u8>, from: int, end: int)
    requires
        0 <= from <= end < s.len(),
        !is_digit(s[end]),
        forall|i: int| from <= i < end ==> is_digit(#[trigger] s[i]),
    ensures
        digits_end(s, from) == end,
    decreases end - from,
{
    if from < end {
        lemma_digits_end_at(s, from + 1, end);
    }
}

proof fn lemma_parse_bytes_sound(s: Seq<u8>, l: BencodeLimits, start: int)
    requires
        0 <= start < s.len(),
        is_digit(s[start]),
        parse_bytes(s, l, start) is Ok,
    ensures
        ({
            let (bytes, end) = parse_bytes(s, l, start)->Ok_0;
            &&& bytes.len() <= l.byte_string_bytes
            &&& holds_at(s, start, encode_bytes(bytes))
            &&& end == start + encode_bytes(bytes).len()
        }),
{
    lemma_digits_end(s, start);
    let colon = digits_end(s, start);
    let digits = s.subrange(start, colon);
    let (bytes, end) = parse_bytes(s, l, start)->Ok_0;
    assert(all_digits(digits));
    assert(digits.len() > 0);
    assert(digits[0] == s[start]);
    lemma_decimal_of_value(digits);
    assert(bytes.len() == digits_value(digits));
    lemma_holds_byte(s, colon, 0x3a);
    lemma_holds_concat(s, start, digits, seq![0x3au8]);
    lemma_holds_concat(s, start, digits + seq![0x3au8], bytes);
}

proof fn lemma_parse_bytes_complete(s: Seq<u8>, l: BencodeLimits, start: int, bytes: Seq<u8>)
    requires
        bytes.len() <= l.byte_string_bytes,
        holds_at(s, start, encode_bytes(bytes)),
    ensures
        is_digit(s[start]),
        encode_bytes(bytes).len() > 1,
        start + encode_bytes(bytes).len() <= s.len(),
        parse_bytes(s, l, start) == Ok::<(Seq<u8>, int), DecodeError>(
            (bytes, start + encode_bytes(bytes).len()),
        ),
{
    let digits = decimal(bytes.len());
    lemma_decimal(bytes.len());
    lemma_holds_concat(s, start, digits + seq![0x3au8], bytes);
    lemma_holds_concat(s, start, digits, seq![0x3au8]);
    let colon = start + digits.len();
    lemma_holds_byte(s, colon, 0x3a);
    assert forall|i: int| start <= i < colon implies is_digit(#[trigger] s[i]) by {
        assert(s.subrange(start, colon)[i - start] == s[i]);
        assert(is_digit(digits[i - start]));
    }
    lemma_digits_end_at(s, start, colon);
    assert(s.subrange(start, colon) == digits);
    assert(digits[0] == s[start]);
}

/// What a successful read at `offset` says of the bytes, the spans, the
/// limits and the count.
pub open spec fn sound_item(
    s: Seq<u8>,
    l: BencodeLimits,
    depth: nat,
    offset: int,
    nodes: nat,
    p: Progress<Item>,
) -> bool {
    &&& holds_at(s, offset, encode(p.found.content))
    &&& p.found == place(p.found.content, offset)
    &&& offset < p.offset <= s.len()
    &&& p.offset == p.found.end
    &&& within(p.found.content, l, depth)
    &&& p.nodes == nodes + node_count(p.found.content)
    &&& p.nodes <= l.nodes
}

proof fn lemma_item_sound(s: Seq<u8>, l: BencodeLimits, depth: nat, offset: int, nodes: nat)
    requires
        parse_item(s, l, depth, offset, nodes) is Ok,
    ensures
        sound_item(s, l, depth, offset, nodes, parse_item(s, l, depth, offset, nodes)->Ok_0),
    decreases s.len() - offset, 0int,
{
    let p = parse_item(s, l, depth, offset, nodes)->Ok_0;
    if s[offset] == 0x69 {
        lemma_parse_integer_sound(s, offset);
    } else if s[offset] == 0x6c {
        let list = parse_items(s, l, depth + 1, offset + 1, nodes + 1, Seq::empty())->Ok_0;
        assert(s.subrange(offset + 1, offset + 1) =~= Seq::empty());
        lemma_items_sound(s, l, depth + 1, offset + 1, nodes + 1, Seq::empty(), offset + 1);
        lemma_holds_byte(s, offset, 0x6c);
        lemma_holds_concat(s, offset, seq![0x6cu8], encode_items(list.found));
        lemma_holds_byte(s, list.offset - 1, 0x65);
        lemma_holds_concat(s, offset, seq![0x6cu8] + encode_items(list.found), seq![0x65u8]);
    } else if s[offset] == 0x64 {
        let list = parse_entries(s, l, depth + 1, offset + 1, nodes + 1, Seq::empty())->Ok_0;
        assert(s.subrange(offset + 1, offset + 1) =~= Seq::empty());
        lemma_entries_sound(s, l, depth + 1, offset + 1, nodes + 1, Seq::empty(), offset + 1);
        lemma_holds_byte(s, offset, 0x64);
        lemma_holds_concat(s, offset, seq![0x64u8], encode_entries(list.found));
        lemma_holds_byte(s, list.offset - 1, 0x65);
        lemma_holds_concat(s, offset, seq![0x64u8] + encode_entries(list.found), seq![0x65u8]);
    } else {
        lemma_parse_bytes_sound(s, l, offset);
    }
}

proof fn lemma_items_sound(
    s: Seq<u8>,
    l: BencodeLimits,
    depth: nat,
    offset: int,
    nodes: nat,
    before: Seq<Item>,
    base: int,
)
    requires
        parse_items(s, l, depth, offset, nodes, before) is Ok,
        holds_at(s, base, encode_items(before)),
        base + encode_items(before).len() == offset,
        before == place_items(before, base),
        items_within(before, l, depth),
        before.len() <= l.collection_items,
        nodes <= l.nodes,
    ensures
        ({
            let p = parse_items(s, l, depth, offset, nodes, before)->Ok_0;
            &&& holds_at(s, base, encode_items(p.found))
            &&& p.found == place_items(p.found, base)
            &&& offset < p.offset <= s.len()
            &&& p.offset == base + encode_items(p.found).len() + 1
            &&& s[p.offset - 1] == 0x65
            &&& items_within(p.found, l, depth)
            &&& p.found.len() <= l.collection_items
            &&& p.nodes + items_count(before) == nodes + items_count(p.found)
            &&& p.nodes <= l.nodes
        }),
    decreases s.len() - offset, 1int,
{
    if s[offset] != 0x65 {
        let item = parse_item(s, l, depth, offset, nodes)->Ok_0;
        lemma_item_sound(s, l, depth, offset, nodes);
        let grown = before.push(item.found);
        assert(grown.drop_last() =~= before);
        lemma_holds_concat(s, base, encode_items(before), encode(item.found.content));
        lemma_items_sound(s, l, depth, item.offset, item.nodes, grown, base);
    }
}

proof fn lemma_entries_sound(
    s: Seq<u8>,
    l: BencodeLimits,
    depth: nat,
    offset: int,
    nodes: nat,
    before: Seq<(Seq<u8>, Item)>,
    base: int,
)
    requires
        parse_entries(s, l, depth, offset, nodes, before) is Ok,
        holds_at(s, base, encode_entries(before)),
        base + encode_entries(before).len() == offset,
        before == place_entries(before, base),
        entries_within(before, l, depth),
        before.len() <= l.collection_items,
        nodes <= l.nodes,
    ensures
        ({
            let p = parse_entries(s, l, depth, offset, nodes, before)->Ok_0;
            &&& holds_at(s, base, encode_entries(p.found))
            &&& p.found == place_entries(p.found, base)
            &&& offset < p.offset <= s.len()
            &&& p.offset == base + encode_entries(p.found).len() + 1
            &&& s[p.offset - 1] == 0x65
            &&& entries_within(p.found, l, depth)
            &&& p.found.len() <= l.collection_items
            &&& p.nodes + entries_count(before) == nodes + entries_count(p.found)
            &&& p.nodes <= l.nodes
        }),
    decreases s.len() - offset, 1int,
{
    if s[offset] != 0x65 {
        let key = parse_item(s, l, depth, offset, nodes)->Ok_0;
        lemma_item_sound(s, l, depth, offset, nodes);
        let name = key.found.content->Bytes_0;
        let item = parse_item(s, l, depth, key.offset, key.nodes)->Ok_0;
        lemma_item_sound(s, l, depth, key.offset, key.nodes);
        let grown = before.push((name, item.found));
        assert(grown.drop_last() =~= before);
        lemma_holds_concat(s, base, encode_entries(before), encode_bytes(name));
        lemma_holds_concat(
            s,
            base,
            encode_entries(before) + encode_bytes(name),
            encode(item.found.content),
        );
        assert(node_count(key.found.content) == 1);
        lemma_entries_sound(s, l, depth, item.offset, item.nodes, grown, base);
    }
}

proof fn lemma_encode_nonempty(content: Content)
    ensures
        encode(content).len() > 1,
        encode(content)[0] != 0x65,
        encode(content)[0] == 0x69 <==> content is Integer,
        encode(content)[0] == 0x6c <==> content is List,
        encode(content)[0] == 0x64 <==> content is Dictionary,
        is_digit(encode(content)[0]) <==> content is Bytes,
{
    if let Content::Bytes(bytes) = content {
        lemma_decimal(bytes.len());
        assert(is_digit(decimal(bytes.len())[0]));
        assert(encode(content)[0] == decimal(bytes.len())[0]);
    }
}

/// The first `n` items or entries of a collection are within the limits when all are.
proof fn lemma_items_within_prefix(items: Seq<Item>, l: BencodeLimits, depth: nat, n: int)
    requires
        items_within(items, l, depth),
        0 <= n < items.len(),
    ensures
        items_within(items.take(n), l, depth),
        within(items[n].content, l, depth),
        items_count(items.take(n)) + node_count(items[n].content) <= items_count(items),
        encode_items(items.take(n + 1)) == encode_items(items.take(n)) + encode(items[n].content),
        place_items(items.take(n + 1), 0) == place_items(items.take(n), 0).push(
            place(items[n].content, encode_items(items.take(n)).len() as int),
        ),
    decreases items.len(),
{
    assert(items.take(n + 1).drop_last() =~= items.take(n));
    if n + 1 == items.len() {
        assert(items.take(n + 1) =~= items);
        assert(items.drop_last() =~= items.take(n));
    } else {
        lemma_items_within_prefix(items.drop_last(), l, depth, n);
        assert(items.drop_last().take(n) =~= items.take(n));
    }
}

proof fn lemma_entries_within_prefix(
    entries: Seq<(Seq<u8>, Item)>,
    l: BencodeLimits,
    depth: nat,
    n: int,
)
    requires
        entries_within(entries, l, depth),
        0 <= n < entries.len(),
    ensures
        entries_within(entries.take(n + 1), l, depth),
        entries_count(entries.take(n + 1)) <= entries_count(entries),
    decreases entries.len(),
{
    if n + 1 == entries.len() {
        assert(entries.take(n + 1) =~= entries);
    } else {
        lemma_entries_within_prefix(entries.drop_last(), l, depth, n);
        assert(entries.drop_last().take(n + 1) =~= entries.take(n + 1));
    }
}

proof fn lemma_holds_items_prefix(s: Seq<u8>, base: int, items: Seq<Item>, n: int)
    requires
        holds_at(s, base, encode_items(items)),
        0 <= n <= items.len(),
    ensures
        holds_at(s, base, encode_items(items.take(n))),
        encode_items(items.take(n)).len() <= encode_items(items).len(),
    decreases items.len(),
{
    if n == items.len() {
        assert(items.take(n) =~= items);
    } else {
        lemma_holds_concat(
            s,
            base,
            encode_items(items.drop_last()),
            encode(items.last().content),
        );
        lemma_holds_items_prefix(s, base, items.drop_last(), n);
        assert(items.drop_last().take(n) =~= items.take(n));
    }
}

proof fn lemma_holds_entries_prefix(
    s: Seq<u8>,
    base: int,
    entries: Seq<(Seq<u8>, Item)>,
    n: int,
)
    requires
        holds_at(s, base, encode_entries(entries)),
        0 <= n <= entries.len(),
    ensures
        holds_at(s, base, encode_entries(entries.take(n))),
        encode_entries(entries.take(n)).len() <= encode_entries(entries).len(),
    decreases entries.len(),
{
    if n == entries.len() {
        assert(entries.take(n) =~= entries);
    } else {
        let init = encode_entries(entries.drop_last()) + encode_bytes(entries.last().0);
        lemma_holds_concat(s, base, init, encode(entries.last().1.content));
        lemma_holds_concat(
            s,
            base,
            encode_entries(entries.drop_last()),
            encode_bytes(entries.last().0),
        );
        lemma_holds_entries_prefix(s, base, entries.drop_last(), n);
        assert(entries.drop_last().take(n) =~= entries.take(n));
    }
}

proof fn lemma_item_complete(
    s: Seq<u8>,
    l: BencodeLimits,
    depth: nat,
    offset: int,
    nodes: nat,
    content: Content,
)
    requires
        holds_at(s, offset, encode(content)),
        within(content, l, depth),
        nodes + node_count(content) <= l.nodes,
    ensures
        parse_item(s, l, depth, offset, nodes) == Ok::<Progress<Item>, DecodeError>(
            Progress {
                found: place(content, offset),
                offset: offset + encode(content).len(),
                nodes: nodes + node_count(content),
            },
        ),
    decreases content, 0int,
{
    lemma_encode_nonempty(content);
    assert(s[offset] == s.subrange(offset, offset + encode(content).len())[0]);
    match content {
        Content::Integer(value) => {
            lemma_parse_integer_complete(s, offset, value);
        },
        Content::Bytes(bytes) => {
            lemma_parse_bytes_complete(s, l, offset, bytes);
        },
        Content::List(items) => {
            let head = seq![0x6cu8];
            lemma_holds_concat(s, offset, head + encode_items(items), seq![0x65u8]);
            lemma_holds_concat(s, offset, head, encode_items(items));
            lemma_holds_byte(s, offset + 1 + encode_items(items).len(), 0x65);
            lemma_items_complete(s, l, depth + 1, offset + 1, nodes + 1, items, 0);
            assert(items.take(0) =~= Seq::empty());
        },
        Content::Dictionary(entries) => {
            let head = seq![0x64u8];
            lemma_holds_concat(s, offset, head + encode_entries(entries), seq![0x65u8]);
            lemma_holds_concat(s, offset, head, encode_entries(entries));
            lemma_holds_byte(s, offset + 1 + encode_entries(entries).len(), 0x65);
            lemma_entries_complete(s, l, depth + 1, offset + 1, nodes + 1, entries, 0);
            assert(entries.take(0) =~= Seq::empty());
        },
    }
}

proof fn lemma_items_complete(
    s: Seq<u8>,
    l: BencodeLimits,
    depth: nat,
    base: int,
    nodes: nat,
    items: Seq<Item>,
    n: int,
)
    requires
        holds_at(s, base, encode_items(items)),
        base + encode_items(items).len() < s.len(),
        s[base + encode_items(items).len()] == 0x65,
        items_within(items, l, depth),
        items.len() <= l.collection_items,
        nodes + items_count(items) <= l.nodes,
        0 <= n <= items.len(),
    ensures
        parse_items(
            s,
            l,
            depth,
            base + encode_items(items.take(n)).len(),
            nodes + items_count(items.take(n)),
            place_items(items.take(n), base),
        ) == Ok::<Progress<Seq<Item>>, DecodeError>(
            Progress {
                found: place_items(items, base),
                offset: base + encode_items(items).len() + 1,
                nodes: nodes + items_count(items),
            },
        ),
    decreases items, 1int, items.len() - n,
{
    lemma_place_items_len(items.take(n), base);
    if n == items.len() {
        assert(items.take(n) =~= items);
    } else {
        let at = base + encode_items(items.take(n)).len();
        let content = items[n].content;
        let more = items.take(n + 1);
        assert(more.drop_last() =~= items.take(n));
        assert(more.last() == items[n]);
        lemma_items_within_prefix(items, l, depth, n);
        lemma_holds_items_prefix(s, base, items, n + 1);
        lemma_holds_concat(s, base, encode_items(items.take(n)), encode(content));
        lemma_encode_nonempty(content);
        assert(s[at] == s.subrange(at, at + encode(content).len())[0]);
        lemma_item_complete(s, l, depth, at, nodes + items_count(items.take(n)), content);
        lemma_items_complete(s, l, depth, base, nodes, items, n + 1);
    }
}

proof fn lemma_entries_complete(
    s: Seq<u8>,
    l: BencodeLimits,
    depth: nat,
    base: int,
    nodes: nat,
    entries: Seq<(Seq<u8>, Item)>,
    n: int,
)
    requires
        holds_at(s, base, encode_entries(entries)),
        base + encode_entries(entries).len() < s.len(),
        s[base + encode_entries(entries).len()] == 0x65,
        entries_within(entries, l, depth),
        entries.len() <= l.collection_items,
        nodes + entries_count(entries) <= l.nodes,
        0 <= n <= entries.len(),
    ensures
        parse_entries(
            s,
            l,
            depth,
            base + encode_entries(entries.take(n)).len(),
            nodes + entries_count(entries.take(n)),
            place_entries(entries.take(n), base),
        ) == Ok::<Progress<Seq<(Seq<u8>, Item)>>, DecodeError>(
            Progress {
                found: place_entries(entries, base),
                offset: base + encode_entries(entries).len() + 1,
                nodes: nodes + entries_count(entries),
            },
        ),
    decreases entries, 1int, entries.len() - n,
{
    lemma_place_entries_keys(entries.take(n), base);
    if n == entries.len() {
        assert(entries.take(n) =~= entries);
    } else {
        let before = entries.take(n);
        let at = base + encode_entries(before).len();
        let count = nodes + entries_count(before);
        let name = entries[n].0;
        let content = entries[n].1.content;
        let more = entries.take(n + 1);
        assert(more.drop_last() =~= before);
        assert(more.last() == entries[n]);
        lemma_entries_within_prefix(entries, l, depth, n);
        lemma_holds_entries_prefix(s, base, entries, n + 1);
        let key_end = encode_entries(before) + encode_bytes(name);
        lemma_holds_concat(s, base, key_end, encode(content));
        lemma_holds_concat(s, base, encode_entries(before), encode_bytes(name));
        let key = Content::Bytes(name);
        lemma_encode_nonempty(key);
        lemma_encode_nonempty(content);
        assert(s[at] == s.subrange(at, at + encode(key).len())[0]);
        assert(decreases_to!(entries => entries[n]));
        assert(node_count(key) == 1);
        lemma_parse_bytes_complete(s, l, at, name);
        lemma_item_complete(s, l, depth, at + encode(key).len(), count + 1, content);
        assert(parse_item(s, l, depth, at, count) == Ok::<Progress<Item>, DecodeError>(
            Progress { found: place(key, at), offset: at + encode(key).len(), nodes: count + 1 },
        ));
        let placed = place_entries(before, base);
        if n > 0 {
            assert(more[more.len() - 2] == before.last());
            assert(placed.last().0 == before.last().0);
        }
        let value = place(content, at + encode(key).len());
        assert(place_entries(more, base) == placed.push((name, value)));
        assert(entries_count(more) == entries_count(before) + 1 + node_count(content));
        lemma_entries_complete(s, l, depth, base, nodes, entries, n + 1);
    }
}

proof fn lemma_place_items_len(items: Seq<Item>, at: int)
    ensures
        place_items(items, at).len() == items.len(),
    decreases items.len(),
{
    if items.len() > 0 {
        lemma_place_items_len(items.drop_last(), at);
    }
}

pub proof fn lemma_place_entries_keys(entries: Seq<(Seq<u8>, Item)>, at: int)
    ensures
        place_entries(entries, at).len() == entries.len(),
        forall|i: int|
            0 <= i < entries.len() ==> (#[trigger] place_entries(entries, at)[i]).0
                == entries[i].0,
    decreases entries.len(),
{
    if entries.len() > 0 {
        lemma_place_entries_keys(entries.drop_last(), at);
    }
}

/// A decoded value re-encodes to exactly the bytes that were consumed, its
/// spans and those of everything inside it are where those bytes stand, and
/// it respects every limit.
pub proof fn law_decoded_is_canonical(input: Seq<u8>, limits: BencodeLimits)
    requires
        parse_prefix(input, limits) is Ok,
    ensures
        ({
            let (item, consumed) = parse_prefix(input, limits)->Ok_0;
            &&& 0 < consumed <= input.len() <= limits.input_bytes
            &&& input.take(consumed) == encode(item.content)
            &&& item == place(item.content, 0)
            &&& within(item.content, limits, 0)
            &&& node_count(item.content) <= limits.nodes
        }),
{
    lemma_item_sound(input, limits, 0, 0, 0);
}

/// Decoding gives back what was encoded, whatever follows it.
pub proof fn law_encoded_decodes(content: Content, tail: Seq<u8>, limits: BencodeLimits)
    requires
        within(content, limits, 0),
        node_count(content) <= limits.nodes,
        encode(content).len() + tail.len() <= limits.input_bytes,
    ensures
        parse_prefix(encode(content) + tail, limits) == Ok::<(Item, int), DecodeError>(
            (place(content, 0), encode(content).len() as int),
        ),
{
    let s = encode(content) + tail;
    assert(s.subrange(0, encode(content).len() as int) =~= encode(content));
    lemma_item_complete(s, limits, 0, 0, 0, content);
}

/// A document decodes as a whole exactly when its front decodes and nothing
/// follows, and then gives the same value.
pub proof fn law_whole_is_prefix_without_tail(input: Seq<u8>, limits: BencodeLimits)
    ensures
        parse_whole(input, limits) is Ok <==> (parse_prefix(input, limits) is Ok && parse_prefix(
            input,
            limits,
        )->Ok_0.1 == input.len()),
        parse_whole(input, limits) is Ok ==> parse_whole(input, limits)->Ok_0 == parse_prefix(
            input,
            limits,
        )->Ok_0.0 && input == encode(parse_whole(input, limits)->Ok_0.content),
{
    if parse_whole(input, limits) is Ok {
        law_decoded_is_canonical(input, limits);
        assert(input.take(input.len() as int) =~= input);
    }
}

/// Bytes after the first value do not change how it decodes.
pub proof fn law_tail_does_not_matter(
    input: Seq<u8>,
    tail: Seq<u8>,
    limits: BencodeLimits,
)
    requires
        parse_prefix(input, limits) is Ok,
        input.len() + tail.len() <= limits.input_bytes,
    ensures
        parse_prefix(input + tail, limits) == parse_prefix(input, limits),
{
    law_decoded_is_canonical(input, limits);
    let (item, consumed) = parse_prefix(input, limits)->Ok_0;
    let rest = input.skip(consumed) + tail;
    assert(encode(item.content) + rest =~= input + tail);
    law_encoded_decodes(item.content, rest, limits);
}

/// The value that is reached from another one by taking an item or the value of
/// an entry again and again, at the given positions.
pub open spec fn reached(item: Item, path: Seq<int>) -> Option<Item>
    decreases path.len(),
{
    if path.len() == 0 {
        Some(item)
    } else {
        match item.content {
            Content::List(items) => if 0 <= path[0] < items.len() {
                reached(items[path[0]], path.drop_first())
            } else {
                None
            },
            Content::Dictionary(entries) => if 0 <= path[0] < entries.len() {
                reached(entries[path[0]].1, path.drop_first())
            } else {
                None
            },
            _ => None,
        }
    }
}

/// A value with its spans, and those of everything inside it, moved.
pub open spec fn moved(item: Item, by: int) -> Item
    decreases item,
{
    Item {
        start: item.start + by,
        end: item.end + by,
        content: match item.content {
            Content::List(items) => Content::List(moved_items(items, by)),
            Content::Dictionary(entries) => Content::Dictionary(moved_entries(entries, by)),
            other => other,
        },
    }
}

pub open spec fn moved_items(items: Seq<Item>, by: int) -> Seq<Item>
    decreases items,
{
    if items.len() == 0 {
        Seq::empty()
    } else {
        moved_items(items.drop_last(), by).push(moved(items.last(), by))
    }
}

pub open spec fn moved_entries(entries: Seq<(Seq<u8>, Item)>, by: int) -> Seq<(Seq<u8>, Item)>
    decreases entries,
{
    if entries.len() == 0 {
        Seq::empty()
    } else {
        moved_entries(entries.drop_last(), by).push(
            (entries.last().0, moved(entries.last().1, by)),
        )
    }
}

proof fn lemma_moved_place(content: Content, at: int, by: int)
    ensures
        moved(place(content, at), by) == place(content, at + by),
    decreases content, 0int,
{
    match content {
        Content::List(items) => {
            lemma_moved_place_items(items, at + 1, by);
        },
        Content::Dictionary(entries) => {
            lemma_moved_place_entries(entries, at + 1, by);
        },
        _ => {},
    }
}

proof fn lemma_moved_place_items(items: Seq<Item>, at: int, by: int)
    ensures
        moved_items(place_items(items, at), by) == place_items(items, at + by),
    decreases items, 1int,
{
    if items.len() > 0 {
        let init = items.drop_last();
        lemma_moved_place_items(init, at, by);
        lemma_moved_place(items.last().content, at + encode_items(init).len(), by);
        let placed = place_items(items, at);
        assert(placed.drop_last() =~= place_items(init, at));
    }
}

proof fn lemma_moved_place_entries(entries: Seq<(Seq<u8>, Item)>, at: int, by: int)
    ensures
        moved_entries(place_entries(entries, at), by) == place_entries(entries, at + by),
    decreases entries, 1int,
{
    if entries.len() > 0 {
        let init = entries.drop_last();
        lemma_moved_place_entries(init, at, by);
        lemma_moved_place(
            entries.last().1.content,
            at + encode_entries(init).len() + encode_bytes(entries.last().0).len(),
            by,
        );
        let placed = place_entries(entries, at);
        assert(placed.drop_last() =~= place_entries(init, at));
    }
}

proof fn lemma_place_items_at(items: Seq<Item>, at: int, i: int)
    requires
        0 <= i < items.len(),
    ensures
        place_items(items, at).len() == items.len(),
        place_items(items, at)[i] == place(
            items[i].content,
            at + encode_items(items.take(i)).len(),
        ),
        encode_items(items.take(i + 1)) == encode_items(items.take(i)) + encode(items[i].content),
    decreases items.len(),
{
    lemma_place_items_len(items, at);
    let init = items.drop_last();
    lemma_place_items_len(init, at);
    assert(items.take(i + 1).drop_last() =~= items.take(i));
    assert(items.take(i + 1).last() == items[i]);
    if i < init.len() {
        lemma_place_items_at(init, at, i);
        assert(init.take(i) =~= items.take(i));
    } else {
        assert(init =~= items.take(i));
    }
}

proof fn lemma_place_entries_at(entries: Seq<(Seq<u8>, Item)>, at: int, i: int)
    requires
        0 <= i < entries.len(),
    ensures
        place_entries(entries, at).len() == entries.len(),
        place_entries(entries, at)[i].1 == place(
            entries[i].1.content,
            at + encode_entries(entries.take(i)).len() + encode_bytes(entries[i].0).len(),
        ),
        encode_entries(entries.take(i + 1)) == encode_entries(entries.take(i)) + encode_bytes(
            entries[i].0,
        ) + encode(entries[i].1.content),
    decreases entries.len(),
{
    lemma_place_entries_keys(entries, at);
    let init = entries.drop_last();
    lemma_place_entries_keys(init, at);
    assert(entries.take(i + 1).drop_last() =~= entries.take(i));
    assert(entries.take(i + 1).last() == entries[i]);
    if i < init.len() {
        lemma_place_entries_at(init, at, i);
        assert(init.take(i) =~= entries.take(i));
    } else {
        assert(init =~= entries.take(i));
    }
}

proof fn lemma_within_shallower(content: Content, l: BencodeLimits, depth: nat, less: nat)
    requires
        within(content, l, depth),
        less <= depth,
    ensures
        within(content, l, less),
    decreases content, 0int,
{
    match content {
        Content::List(items) => {
            lemma_items_within_shallower(items, l, depth + 1, less + 1);
        },
        Content::Dictionary(entries) => {
            lemma_entries_within_shallower(entries, l, depth + 1, less + 1);
        },
        _ => {},
    }
}

proof fn lemma_items_within_shallower(items: Seq<Item>, l: BencodeLimits, depth: nat, less: nat)
    requires
        items_within(items, l, depth),
        less <= depth,
    ensures
        items_within(items, l, less),
    decreases items, 1int,
{
    if items.len() > 0 {
        lemma_items_within_shallower(items.drop_last(), l, depth, less);
        lemma_within_shallower(items.last().content, l, depth, less);
    }
}

proof fn lemma_entries_within_shallower(
    entries: Seq<(Seq<u8>, Item)>,
    l: BencodeLimits,
    depth: nat,
    less: nat,
)
    requires
        entries_within(entries, l, depth),
        less <= depth,
    ensures
        entries_within(entries, l, less),
    decreases entries, 1int,
{
    if entries.len() > 0 {
        lemma_entries_within_shallower(entries.drop_last(), l, depth, less);
        lemma_within_shallower(entries.last().1.content, l, depth, less);
    }
}

/// Whether a value stands in the bytes where its spans say, within the limits.
pub open spec fn stands_in(s: Seq<u8>, l: BencodeLimits, item: Item) -> bool {
    &&& holds_at(s, item.start, encode(item.content))
    &&& item == place(item.content, item.start)
    &&& within(item.content, l, 0)
    &&& node_count(item.content) <= l.nodes
}

proof fn lemma_item_stands(s: Seq<u8>, l: BencodeLimits, item: Item, i: int)
    requires
        stands_in(s, l, item),
        item.content is List,
        0 <= i < item.content->List_0.len(),
    ensures
        stands_in(s, l, item.content->List_0[i]),
        ({
            let items = item.content->List_0;
            &&& items[i].start == if i == 0 {
                item.start + 1
            } else {
                items[i - 1].end
            }
            &&& i == items.len() - 1 ==> items[i].end == item.end - 1
        }),
{
    let items = item.content->List_0;
    let at = item.start + 1;
    let child = items[i].content;
    lemma_place_items_at(items, at, i);
    assert(items == place_items(items, at));
    let head = seq![0x6cu8];
    lemma_holds_concat(s, item.start, head + encode_items(items), seq![0x65u8]);
    lemma_holds_concat(s, item.start, head, encode_items(items));
    lemma_holds_items_prefix(s, at, items, i + 1);
    lemma_holds_concat(s, at, encode_items(items.take(i)), encode(child));
    lemma_items_within_prefix(items, l, 1, i);
    lemma_within_shallower(child, l, 1, 0);
    if i == 0 {
        assert(items.take(0) =~= Seq::empty());
    } else {
        lemma_place_items_at(items, at, i - 1);
    }
    if i == items.len() - 1 {
        assert(items.take(i + 1) =~= items);
    }
}

proof fn lemma_entry_stands(s: Seq<u8>, l: BencodeLimits, item: Item, i: int)
    requires
        stands_in(s, l, item),
        item.content is Dictionary,
        0 <= i < item.content->Dictionary_0.len(),
    ensures
        stands_in(s, l, item.content->Dictionary_0[i].1),
        ({
            let entries = item.content->Dictionary_0;
            let before = if i == 0 {
                item.start + 1
            } else {
                entries[i - 1].1.end
            };
            &&& entries[i].1.start == before + encode_bytes(entries[i].0).len()
            &&& holds_at(s, before, encode_bytes(entries[i].0))
            &&& i == entries.len() - 1 ==> entries[i].1.end == item.end - 1
        }),
{
    let entries = item.content->Dictionary_0;
    let at = item.start + 1;
    let name = entries[i].0;
    let child = entries[i].1.content;
    lemma_place_entries_at(entries, at, i);
    assert(entries == place_entries(entries, at));
    let head = seq![0x64u8];
    lemma_holds_concat(s, item.start, head + encode_entries(entries), seq![0x65u8]);
    lemma_holds_concat(s, item.start, head, encode_entries(entries));
    lemma_holds_entries_prefix(s, at, entries, i + 1);
    let key_end = encode_entries(entries.take(i)) + encode_bytes(name);
    lemma_holds_concat(s, at, key_end, encode(child));
    lemma_holds_concat(s, at, encode_entries(entries.take(i)), encode_bytes(name));
    lemma_entries_within_prefix(entries, l, 1, i);
    let head_entries = entries.take(i + 1);
    assert(head_entries.drop_last() =~= entries.take(i));
    assert(head_entries.last() == entries[i]);
    lemma_within_shallower(child, l, 1, 0);
    if i == 0 {
        assert(entries.take(0) =~= Seq::empty());
    } else {
        lemma_place_entries_at(entries, at, i - 1);
    }
    if i == entries.len() - 1 {
        assert(entries.take(i + 1) =~= entries);
    }
}

proof fn lemma_reached_stands(s: Seq<u8>, l: BencodeLimits, item: Item, path: Seq<int>)
    requires
        stands_in(s, l, item),
        reached(item, path) is Some,
    ensures
        stands_in(s, l, reached(item, path)->0),
    decreases path.len(),
{
    if path.len() > 0 {
        match item.content {
            Content::List(items) => {
                lemma_item_stands(s, l, item, path[0]);
                lemma_reached_stands(s, l, items[path[0]], path.drop_first());
            },
            Content::Dictionary(entries) => {
                lemma_entry_stands(s, l, item, path[0]);
                lemma_reached_stands(s, l, entries[path[0]].1, path.drop_first());
            },
            _ => {},
        }
    }
}

/// The bytes of any value inside a document decode on their own, to the same
/// value with its spans moved to the front.
pub proof fn law_nested_bytes_decode(input: Seq<u8>, limits: BencodeLimits, path: Seq<int>)
    requires
        parse_whole(input, limits) is Ok,
        reached(parse_whole(input, limits)->Ok_0, path) is Some,
    ensures
        ({
            let root = parse_whole(input, limits)->Ok_0;
            let item = reached(root, path)->0;
            &&& root.start == 0 && root.end == input.len()
            &&& 0 <= item.start < item.end <= input.len()
            &&& parse_whole(input.subrange(item.start, item.end), limits) == Ok::<
                Item,
                DecodeError,
            >(moved(item, -item.start))
        }),
{
    law_decoded_is_canonical(input, limits);
    let root = parse_whole(input, limits)->Ok_0;
    assert(input.take(input.len() as int) =~= input);
    assert(input.subrange(0, encode(root.content).len() as int) =~= input);
    lemma_reached_stands(input, limits, root, path);
    let item = reached(root, path)->0;
    let content = item.content;
    lemma_encode_nonempty(content);
    let bytes = input.subrange(item.start, item.end);
    law_encoded_decodes(content, Seq::empty(), limits);
    assert(encode(content) + Seq::<u8>::empty() =~= bytes);
    lemma_moved_place(content, item.start, -item.start);
}

/// Whether the items of a list lie end to end between its marks, and the entries
/// of a dictionary, each value behind its key, seen at one position.
pub open spec fn lies_end_to_end(s: Seq<u8>, parent: Item, i: int) -> bool {
    match parent.content {
        Content::List(items) => {
            &&& items.len() == 0 ==> parent.end == parent.start + 2
            &&& 0 <= i < items.len() ==> {
                &&& parent.start < items[i].start < items[i].end < parent.end
                &&& items[i].start == if i == 0 {
                    parent.start + 1
                } else {
                    items[i - 1].end
                }
                &&& i == items.len() - 1 ==> items[i].end == parent.end - 1
            }
        },
        Content::Dictionary(entries) => {
            &&& entries.len() == 0 ==> parent.end == parent.start + 2
            &&& 0 <= i < entries.len() ==> {
                let before = if i == 0 {
                    parent.start + 1
                } else {
                    entries[i - 1].1.end
                };
                &&& parent.start < before < entries[i].1.start < entries[i].1.end < parent.end
                &&& s.subrange(before, entries[i].1.start) == encode_bytes(entries[i].0)
                &&& i == entries.len() - 1 ==> entries[i].1.end == parent.end - 1
            }
        },
        _ => true,
    }
}

/// The items of every list inside a document, and the entries of every
/// dictionary, lie end to end without gaps.
pub proof fn law_children_lie_end_to_end(
    input: Seq<u8>,
    limits: BencodeLimits,
    path: Seq<int>,
    i: int,
)
    requires
        parse_whole(input, limits) is Ok,
        reached(parse_whole(input, limits)->Ok_0, path) is Some,
    ensures
        lies_end_to_end(input, reached(parse_whole(input, limits)->Ok_0, path)->0, i),
{
    law_decoded_is_canonical(input, limits);
    let root = parse_whole(input, limits)->Ok_0;
    assert(input.take(input.len() as int) =~= input);
    assert(input.subrange(0, encode(root.content).len() as int) =~= input);
    lemma_reached_stands(input, limits, root, path);
    lemma_child_inside(input, limits, reached(root, path)->0, i);
}

proof fn lemma_child_inside(s: Seq<u8>, l: BencodeLimits, parent: Item, i: int)
    requires
        stands_in(s, l, parent),
    ensures
        lies_end_to_end(s, parent, i),
{
    match parent.content {
        Content::List(items) => if 0 <= i < items.len() {
            let at = parent.start + 1;
            lemma_item_stands(s, l, parent, i);
            lemma_encode_nonempty(items[i].content);
            lemma_place_items_at(items, at, i);
            assert(items == place_items(items, at));
            let head = seq![0x6cu8];
            lemma_holds_concat(s, parent.start, head + encode_items(items), seq![0x65u8]);
            lemma_holds_concat(s, parent.start, head, encode_items(items));
            lemma_holds_items_prefix(s, at, items, i + 1);
        },
        Content::Dictionary(entries) => if 0 <= i < entries.len() {
            let at = parent.start + 1;
            lemma_entry_stands(s, l, parent, i);
            lemma_encode_nonempty(entries[i].1.content);
            lemma_encode_nonempty(Content::Bytes(entries[i].0));
            lemma_place_entries_at(entries, at, i);
            assert(entries == place_entries(entries, at));
            let head = seq![0x64u8];
            lemma_holds_concat(s, parent.start, head + encode_entries(entries), seq![0x65u8]);
            lemma_holds_concat(s, parent.start, head, encode_entries(entries));
            lemma_holds_entries_prefix(s, at, entries, i + 1);
            if i > 0 {
                lemma_entry_stands(s, l, parent, i - 1);
                lemma_place_entries_at(entries, at, i - 1);
                lemma_encode_nonempty(entries[i - 1].1.content);
            }
        },
        _ => {},
    }
}

/// Whether reading ended because the input did, at or before its end.
pub open spec fn ran_out<T>(step: Result<T, DecodeError>, end: int) -> bool {
    step matches Err(DecodeError::UnexpectedEof { offset }) && offset <= end
}

/// Less digits write a smaller number.
proof fn lemma_digits_grow(s: Seq<u8>, n: int)
    requires
        all_digits(s),
        0 <= n <= s.len(),
    ensures
        digits_value(s.take(n)) <= digits_value(s),
    decreases s.len(),
{
    if n < s.len() {
        let init = s.drop_last();
        assert forall|i: int| 0 <= i < init.len() implies is_digit(#[trigger] init[i]) by {
            assert(init[i] == s[i]);
        }
        lemma_digits_grow(init, n);
        assert(init.take(n) =~= s.take(n));
        assert(is_digit(s[s.len() - 1]));
    } else {
        assert(s.take(n) =~= s);
    }
}

proof fn lemma_integer_cut(s: Seq<u8>, start: int, m: int)
    requires
        s.len() <= usize::MAX,
        parse_integer(s, start) is Ok,
        0 <= start < m < parse_integer(s, start)->Ok_0.1 <= s.len(),
    ensures
        ran_out(parse_integer(s.take(m), start), m),
{
    let t = s.take(m);
    lemma_find_from(s, start + 1, 0x65);
    lemma_find_from(t, start + 1, 0x65);
    let found = find_from(t, start + 1, 0x65);
    if found < t.len() {
        assert(s[found] == 0x65);
    }
}

proof fn lemma_bytes_cut(s: Seq<u8>, l: BencodeLimits, start: int, m: int)
    requires
        s.len() <= usize::MAX,
        is_digit(s[start]),
        parse_bytes(s, l, start) is Ok,
        0 <= start < m < parse_bytes(s, l, start)->Ok_0.1 <= s.len(),
    ensures
        ran_out(parse_bytes(s.take(m), l, start), m),
{
    let t = s.take(m);
    lemma_digits_end(s, start);
    lemma_digits_end(t, start);
    let colon = digits_end(s, start);
    let digits = s.subrange(start, colon);
    if colon < m {
        lemma_digits_end_at(t, start, colon);
        assert(t.subrange(start, colon) =~= digits);
    } else {
        let cut = digits_end(t, start);
        if cut < m {
            assert(is_digit(s[cut]));
            assert(t[cut] == s[cut]);
        }
        assert(t.subrange(start, cut) =~= digits.take(m - start));
        lemma_digits_grow(digits, m - start);
    }
}

proof fn lemma_same_item(
    s: Seq<u8>,
    l: BencodeLimits,
    depth: nat,
    offset: int,
    nodes: nat,
    m: int,
)
    requires
        parse_item(s, l, depth, offset, nodes) is Ok,
        parse_item(s, l, depth, offset, nodes)->Ok_0.offset <= m <= s.len(),
    ensures
        parse_item(s.take(m), l, depth, offset, nodes) == parse_item(s, l, depth, offset, nodes),
        offset < parse_item(s, l, depth, offset, nodes)->Ok_0.offset,
{
    lemma_item_sound(s, l, depth, offset, nodes);
    let p = parse_item(s, l, depth, offset, nodes)->Ok_0;
    let content = p.found.content;
    let end = offset + encode(content).len();
    assert(s.take(m).subrange(offset, end) =~= s.subrange(offset, end));
    lemma_item_complete(s.take(m), l, depth, offset, nodes, content);
}

proof fn lemma_item_cut(s: Seq<u8>, l: BencodeLimits, depth: nat, offset: int, nodes: nat, m: int)
    requires
        s.len() <= usize::MAX,
        parse_item(s, l, depth, offset, nodes) is Ok,
        0 <= offset <= m < parse_item(s, l, depth, offset, nodes)->Ok_0.offset,
    ensures
        ran_out(parse_item(s.take(m), l, depth, offset, nodes), m),
    decreases s.len() - offset, 0int,
{
    lemma_item_sound(s, l, depth, offset, nodes);
    let t = s.take(m);
    if offset < m {
        assert(t[offset] == s[offset]);
        if s[offset] == 0x69 {
            lemma_integer_cut(s, offset, m);
        } else if s[offset] == 0x6c {
            lemma_items_cut(s, l, depth + 1, offset + 1, nodes + 1, Seq::empty(), m);
        } else if s[offset] == 0x64 {
            lemma_entries_cut(s, l, depth + 1, offset + 1, nodes + 1, Seq::empty(), m);
        } else {
            lemma_bytes_cut(s, l, offset, m);
        }
    }
}

proof fn lemma_items_cut(
    s: Seq<u8>,
    l: BencodeLimits,
    depth: nat,
    offset: int,
    nodes: nat,
    before: Seq<Item>,
    m: int,
)
    requires
        s.len() <= usize::MAX,
        m <= s.len(),
        parse_items(s, l, depth, offset, nodes, before) is Ok,
        0 <= offset <= m < parse_items(s, l, depth, offset, nodes, before)->Ok_0.offset,
    ensures
        ran_out(parse_items(s.take(m), l, depth, offset, nodes, before), m),
    decreases s.len() - offset, 1int,
{
    if offset < m {
        assert(s.take(m)[offset] == s[offset]);
        let item = parse_item(s, l, depth, offset, nodes)->Ok_0;
        lemma_item_sound(s, l, depth, offset, nodes);
        if item.offset <= m {
            lemma_same_item(s, l, depth, offset, nodes, m);
            lemma_items_cut(s, l, depth, item.offset, item.nodes, before.push(item.found), m);
        } else {
            lemma_item_cut(s, l, depth, offset, nodes, m);
        }
    }
}

proof fn lemma_entries_cut(
    s: Seq<u8>,
    l: BencodeLimits,
    depth: nat,
    offset: int,
    nodes: nat,
    before: Seq<(Seq<u8>, Item)>,
    m: int,
)
    requires
        s.len() <= usize::MAX,
        m <= s.len(),
        parse_entries(s, l, depth, offset, nodes, before) is Ok,
        0 <= offset <= m < parse_entries(s, l, depth, offset, nodes, before)->Ok_0.offset,
    ensures
        ran_out(parse_entries(s.take(m), l, depth, offset, nodes, before), m),
    decreases s.len() - offset, 1int,
{
    if offset < m {
        assert(s.take(m)[offset] == s[offset]);
        let key = parse_item(s, l, depth, offset, nodes)->Ok_0;
        lemma_item_sound(s, l, depth, offset, nodes);
        if key.offset > m {
            lemma_item_cut(s, l, depth, offset, nodes, m);
        } else {
            lemma_same_item(s, l, depth, offset, nodes, m);
            let name = key.found.content->Bytes_0;
            let item = parse_item(s, l, depth, key.offset, key.nodes)->Ok_0;
            lemma_item_sound(s, l, depth, key.offset, key.nodes);
            if item.offset > m {
                lemma_item_cut(s, l, depth, key.offset, key.nodes, m);
            } else {
                lemma_same_item(s, l, depth, key.offset, key.nodes, m);
                lemma_entries_cut(
                    s,
                    l,
                    depth,
                    item.offset,
                    item.nodes,
                    before.push((name, item.found)),
                    m,
                );
            }
        }
    }
}

/// No part of a value that is cut off is accepted, and nothing is reported but
/// that the input ended.
pub proof fn law_cut_value_runs_out(input: Seq<u8>, limits: BencodeLimits, m: int)
    requires
        parse_prefix(input, limits) is Ok,
        0 <= m < parse_prefix(input, limits)->Ok_0.1,
    ensures
        ran_out(parse_prefix(input.take(m), limits), m),
        parse_whole(input.take(m), limits) == Err::<Item, DecodeError>(
            parse_prefix(input.take(m), limits)->Err_0,
        ),
{
    law_decoded_is_canonical(input, limits);
    lemma_item_cut(input, limits, 0, 0, 0, m);
}

/// Byte-string order is strict: it is never reflexive, and it is transitive.
pub proof fn lemma_bytes_less_strict(a: Seq<u8>, b: Seq<u8>, c: Seq<u8>)
    ensures
        !bytes_less(a, a),
        bytes_less(a, b) && bytes_less(b, c) ==> bytes_less(a, c),
    decreases a.len(),
{
    if a.len() > 0 && b.len() > 0 && c.len() > 0 {
        lemma_bytes_less_strict(a.drop_first(), b.drop_first(), c.drop_first());
    }
    if a.len() > 0 {
        lemma_bytes_less_strict(a.drop_first(), a.drop_first(), a.drop_first());
    }
}

/// In a canonical dictionary any earlier key orders strictly before any later one.
pub proof fn law_canonical_keys_increase(
    entries: Seq<(Seq<u8>, Item)>,
    l: BencodeLimits,
    depth: nat,
    i: int,
    j: int,
)
    requires
        l.canonical_dictionaries,
        entries_within(entries, l, depth),
        0 <= i < j < entries.len(),
    ensures
        bytes_less(entries[i].0, entries[j].0),
        entries[i].0 != entries[j].0,
    decreases j,
{
    lemma_entries_within_prefix(entries, l, depth, j);
    let head = entries.take(j + 1);
    assert(bytes_less(head[j - 1].0, head[j].0));
    if i < j - 1 {
        law_canonical_keys_increase(entries, l, depth, i, j - 1);
    }
    lemma_bytes_less_strict(entries[i].0, entries[j - 1].0, entries[j].0);
    lemma_bytes_less_strict(entries[i].0, entries[i].0, entries[i].0);
}

/// In a canonical dictionary looking up the key of any entry finds that entry.
pub proof fn law_canonical_lookup(
    entries: Seq<(Seq<u8>, Item)>,
    l: BencodeLimits,
    depth: nat,
    i: int,
)
    requires
        l.canonical_dictionaries,
        entries_within(entries, l, depth),
        0 <= i < entries.len(),
    ensures
        lookup(Content::Dictionary(entries), entries[i].0) == Some(entries[i].1),
{
    assert forall|k: int| 0 <= k < i implies (#[trigger] entries[k]).0 != entries[i].0 by {
        law_canonical_keys_increase(entries, l, depth, k, i);
    }
    lemma_first_match_at(entries, entries[i].0, 0, i);
}

proof fn lemma_first_match_at(entries: Seq<(Seq<u8>, Item)>, key: Seq<u8>, from: int, at: int)
    requires
        0 <= from <= at < entries.len(),
        entries[at].0 == key,
        forall|k: int| from <= k < at ==> (#[trigger] entries[k]).0 != key,
    ensures
        first_match(entries, key, from) == at,
    decreases at - from,
{
    if from < at {
        lemma_first_match_at(entries, key, from + 1, at);
    }
}

} // verus!
