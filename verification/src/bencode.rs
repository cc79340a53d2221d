//! Bounded, canonical bencode decoding that keeps the byte span of every value.

use std::ops::Range;
use vstd::prelude::*;
use vstd::slice::slice_subrange;

verus! {

#[derive(Clone, Copy, Debug)]
pub struct BencodeLimits {
    pub input_bytes: usize,
    pub depth: usize,
    pub nodes: usize,
    pub byte_string_bytes: usize,
    pub collection_items: usize,
    pub canonical_dictionaries: bool,
}

impl Default for BencodeLimits {
    fn default() -> (limits: Self)
        ensures
            limits.input_bytes == 64 * 1024 * 1024,
            limits.depth == 64,
            limits.nodes == 1_000_000,
            limits.byte_string_bytes == 64 * 1024 * 1024,
            limits.collection_items == 1_000_000,
            limits.canonical_dictionaries,
    {
        Self {
            input_bytes: 64 * 1024 * 1024,
            depth: 64,
            nodes: 1_000_000,
            byte_string_bytes: 64 * 1024 * 1024,
            collection_items: 1_000_000,
            canonical_dictionaries: true,
        }
    }
}

#[derive(Debug, Eq, PartialEq)]
pub struct SpannedValue<'a> {
    pub span: Range<usize>,
    pub value: BencodeValue<'a>,
}

#[derive(Debug, Eq, PartialEq)]
pub enum BencodeValue<'a> {
    Integer(i64),
    Bytes(&'a [u8]),
    List(Vec<SpannedValue<'a>>),
    Dictionary(Vec<(&'a [u8], SpannedValue<'a>)>),
}

#[derive(Clone, Copy, Debug, Eq, PartialEq, Structural)]
pub enum DecodeError {
    InputLimit { maximum: usize },
    UnexpectedEof { offset: usize },
    InvalidMarker { offset: usize, marker: u8 },
    InvalidInteger { offset: usize },
    InvalidByteStringLength { offset: usize },
    ByteStringLimit { maximum: usize },
    DepthLimit { maximum: usize },
    NodeLimit { maximum: usize },
    CollectionLimit { maximum: usize },
    NonCanonicalDictionary { offset: usize },
    TrailingData { offset: usize },
}

/// A decoded value together with the half-open byte range it was read from.
pub struct Item {
    pub start: int,
    pub end: int,
    pub content: Content,
}

/// What a bencoded value holds.
pub enum Content {
    Integer(int),
    Bytes(Seq<u8>),
    List(Seq<Item>),
    Dictionary(Seq<(Seq<u8>, Item)>),
}

/// A value read at some position: the position after it, and how many values
/// have been counted so far.
pub struct Progress<T> {
    pub found: T,
    pub offset: int,
    pub nodes: nat,
}

pub type Step<T> = Result<Progress<T>, DecodeError>;

impl<'a> SpannedValue<'a> {
    pub open spec fn view(&self) -> Item
        decreases self,
    {
        Item { start: self.span.start as int, end: self.span.end as int, content: self.value.view() }
    }
}

impl<'a> BencodeValue<'a> {
    pub open spec fn view(&self) -> Content
        decreases self,
    {
        match self {
            BencodeValue::Integer(value) => Content::Integer(*value as int),
            BencodeValue::Bytes(bytes) => Content::Bytes(bytes@),
            BencodeValue::List(values) => Content::List(
                Seq::new(
                    values@.len(),
                    |i: int|
                        if 0 <= i < values@.len() {
                            values@[i].view()
                        } else {
                            arbitrary()
                        },
                ),
            ),
            BencodeValue::Dictionary(values) => Content::Dictionary(
                Seq::new(
                    values@.len(),
                    |i: int|
                        if 0 <= i < values@.len() {
                            (values@[i].0@, values@[i].1.view())
                        } else {
                            arbitrary()
                        },
                ),
            ),
        }
    }
}

impl<'a> Clone for SpannedValue<'a> {
    fn clone(&self) -> (copy: Self)
        ensures
            copy@ == self@,
    {
        copy_spanned(self)
    }
}

impl<'a> Clone for BencodeValue<'a> {
    fn clone(&self) -> (copy: Self)
        ensures
            copy@ == self@,
    {
        copy_value(self)
    }
}

fn copy_spanned<'a>(spanned: &SpannedValue<'a>) -> (copy: SpannedValue<'a>)
    ensures
        copy@ == spanned@,
    decreases spanned,
{
    SpannedValue {
        span: spanned.span.start..spanned.span.end,
        value: copy_value(&spanned.value),
    }
}

fn copy_value<'a>(value: &BencodeValue<'a>) -> (copy: BencodeValue<'a>)
    ensures
        copy@ == value@,
    decreases value,
{
    match value {
        BencodeValue::Integer(number) => BencodeValue::Integer(*number),
        BencodeValue::Bytes(bytes) => BencodeValue::Bytes(*bytes),
        BencodeValue::List(values) => {
            let mut copies: Vec<SpannedValue<'a>> = Vec::new();
            let mut i: usize = 0;
            while i < values.len()
                invariant
                    *value == BencodeValue::List(*values),
                    i <= values@.len(),
                    copies@.len() == i,
                    forall|k: int| 0 <= k < i ==> (#[trigger] copies@[k])@ == values@[k]@,
                decreases values@.len() - i,
            {
                assert(decreases_to!(value => value->List_0@[i as int]));
                copies.push(copy_spanned(&values[i]));
                i += 1;
            }
            let copy = BencodeValue::List(copies);
            assert(copy@->List_0 =~= value@->List_0);
            copy
        },
        BencodeValue::Dictionary(values) => {
            let mut copies: Vec<(&'a [u8], SpannedValue<'a>)> = Vec::new();
            let mut i: usize = 0;
            while i < values.len()
                invariant
                    *value == BencodeValue::Dictionary(*values),
                    i <= values@.len(),
                    copies@.len() == i,
                    forall|k: int|
                        0 <= k < i ==> (#[trigger] copies@[k]).0@ == values@[k].0@
                            && copies@[k].1@ == values@[k].1@,
                decreases values@.len() - i,
            {
                assert(decreases_to!(value => value->Dictionary_0@[i as int].1));
                copies.push((values[i].0, copy_spanned(&values[i].1)));
                i += 1;
            }
            let copy = BencodeValue::Dictionary(copies);
            assert(copy@->Dictionary_0 =~= value@->Dictionary_0);
            copy
        },
    }
}

/// The items behind a vector of decoded values.
pub open spec fn items_view(values: Seq<SpannedValue>) -> Seq<Item> {
    Seq::new(values.len(), |i: int| values[i]@)
}

/// The entries behind a vector of decoded key-value pairs.
pub open spec fn entries_view(values: Seq<(&[u8], SpannedValue)>) -> Seq<(Seq<u8>, Item)> {
    Seq::new(values.len(), |i: int| (values[i].0@, values[i].1@))
}

pub open spec fn is_digit(byte: u8) -> bool {
    0x30 <= byte <= 0x39
}

pub open spec fn all_digits(s: Seq<u8>) -> bool {
    forall|i: int| 0 <= i < s.len() ==> is_digit(#[trigger] s[i])
}

/// The number that a run of ASCII digits writes in base ten.
pub open spec fn digits_value(s: Seq<u8>) -> nat
    decreases s.len(),
{
    if s.len() == 0 {
        0
    } else {
        digits_value(s.drop_last()) * 10 + (s.last() - 0x30) as nat
    }
}

/// The first position at or after `from` that holds `byte`, or the length.
pub open spec fn find_from(s: Seq<u8>, from: int, byte: u8) -> int
    decreases s.len() - from,
{
    if from < 0 || from >= s.len() || s[from] == byte {
        from
    } else {
        find_from(s, from + 1, byte)
    }
}

/// The first position at or after `from` that holds no ASCII digit, or the length.
pub open spec fn digits_end(s: Seq<u8>, from: int) -> int
    decreases s.len() - from,
{
    if from < 0 || from >= s.len() || !is_digit(s[from]) {
        from
    } else {
        digits_end(s, from + 1)
    }
}

/// Decimal digits with no superfluous leading zero.
pub open spec fn is_canonical_number(s: Seq<u8>) -> bool {
    s.len() > 0 && all_digits(s) && (s.len() > 1 ==> s[0] != 0x30)
}

/// The value of a canonical decimal integer: no leading zero, no plus sign,
/// no negative zero, and within the range of `i64`.
pub open spec fn integer_value(s: Seq<u8>) -> Option<int> {
    if s.len() > 0 && s[0] == 0x2d {
        let magnitude = s.drop_first();
        if is_canonical_number(magnitude) && 0 < digits_value(magnitude) <= -(i64::MIN as int) {
            Some(-(digits_value(magnitude) as int))
        } else {
            None
        }
    } else if is_canonical_number(s) && digits_value(s) <= i64::MAX {
        Some(digits_value(s) as int)
    } else {
        None
    }
}

/// Lexicographic order on byte strings.
pub open spec fn bytes_less(a: Seq<u8>, b: Seq<u8>) -> bool
    decreases a.len(),
{
    if b.len() == 0 {
        false
    } else if a.len() == 0 {
        true
    } else if a[0] != b[0] {
        a[0] < b[0]
    } else {
        bytes_less(a.drop_first(), b.drop_first())
    }
}

/// The integer whose marker stands at `start`.
pub open spec fn parse_integer(s: Seq<u8>, start: int) -> Result<(int, int), DecodeError> {
    let end = find_from(s, start + 1, 0x65);
    if end >= s.len() {
        Err(DecodeError::UnexpectedEof { offset: (start + 1) as usize })
    } else {
        match integer_value(s.subrange(start + 1, end)) {
            Some(value) => Ok((value, end + 1)),
            None => Err(DecodeError::InvalidInteger { offset: start as usize }),
        }
    }
}

/// The byte string whose length prefix begins at `start` with a digit.
pub open spec fn parse_bytes(s: Seq<u8>, l: BencodeLimits, start: int) -> Result<
    (Seq<u8>, int),
    DecodeError,
> {
    let end = digits_end(s, start);
    let length = digits_value(s.subrange(start, end));
    if s[start] == 0x30 && end > start + 1 {
        Err(DecodeError::InvalidByteStringLength { offset: start as usize })
    } else if length > usize::MAX {
        Err(DecodeError::ByteStringLimit { maximum: l.byte_string_bytes })
    } else if end >= s.len() {
        Err(DecodeError::UnexpectedEof { offset: end as usize })
    } else if s[end] != 0x3a {
        Err(DecodeError::InvalidByteStringLength { offset: start as usize })
    } else if length > l.byte_string_bytes {
        Err(DecodeError::ByteStringLimit { maximum: l.byte_string_bytes })
    } else if end + 1 + length > s.len() {
        Err(DecodeError::UnexpectedEof { offset: (end + 1) as usize })
    } else {
        Ok((s.subrange(end + 1, end + 1 + length), end + 1 + length))
    }
}

/// The value at `offset`, at nesting level `depth`, after `nodes` other values.
pub open spec fn parse_item(
    s: Seq<u8>,
    l: BencodeLimits,
    depth: nat,
    offset: int,
    nodes: nat,
) -> Step<Item>
    decreases s.len() - offset, 0int,
{
    if depth > l.depth {
        Err(DecodeError::DepthLimit { maximum: l.depth })
    } else if nodes + 1 > l.nodes {
        Err(DecodeError::NodeLimit { maximum: l.nodes })
    } else if offset < 0 || offset >= s.len() {
        Err(DecodeError::UnexpectedEof { offset: offset as usize })
    } else if s[offset] == 0x69 {
        match parse_integer(s, offset) {
            Ok((value, end)) => Ok(
                Progress {
                    found: Item { start: offset, end, content: Content::Integer(value) },
                    offset: end,
                    nodes: nodes + 1,
                },
            ),
            Err(error) => Err(error),
        }
    } else if s[offset] == 0x6c {
        match parse_items(s, l, depth + 1, offset + 1, nodes + 1, Seq::empty()) {
            Ok(list) => Ok(
                Progress {
                    found: Item {
                        start: offset,
                        end: list.offset,
                        content: Content::List(list.found),
                    },
                    offset: list.offset,
                    nodes: list.nodes,
                },
            ),
            Err(error) => Err(error),
        }
    } else if s[offset] == 0x64 {
        match parse_entries(s, l, depth + 1, offset + 1, nodes + 1, Seq::empty()) {
            Ok(list) => Ok(
                Progress {
                    found: Item {
                        start: offset,
                        end: list.offset,
                        content: Content::Dictionary(list.found),
                    },
                    offset: list.offset,
                    nodes: list.nodes,
                },
            ),
            Err(error) => Err(error),
        }
    } else if is_digit(s[offset]) {
        match parse_bytes(s, l, offset) {
            Ok((bytes, end)) => Ok(
                Progress {
                    found: Item { start: offset, end, content: Content::Bytes(bytes) },
                    offset: end,
                    nodes: nodes + 1,
                },
            ),
            Err(error) => Err(error),
        }
    } else {
        Err(DecodeError::InvalidMarker { offset: offset as usize, marker: s[offset] })
    }
}

/// The rest of a list from `offset` on, behind the items in `before`. A value
/// is never empty, so each one moves the offset forward.
pub open spec fn parse_items(
    s: Seq<u8>,
    l: BencodeLimits,
    depth: nat,
    offset: int,
    nodes: nat,
    before: Seq<Item>,
) -> Step<Seq<Item>>
    decreases s.len() - offset, 1int,
{
    if offset < 0 || offset >= s.len() {
        Err(DecodeError::UnexpectedEof { offset: offset as usize })
    } else if s[offset] == 0x65 {
        Ok(Progress { found: before, offset: offset + 1, nodes })
    } else if before.len() >= l.collection_items {
        Err(DecodeError::CollectionLimit { maximum: l.collection_items })
    } else {
        match parse_item(s, l, depth, offset, nodes) {
            Err(error) => Err(error),
            Ok(item) => if offset < item.offset <= s.len() {
                parse_items(s, l, depth, item.offset, item.nodes, before.push(item.found))
            } else {
                arbitrary()
            },
        }
    }
}

/// The rest of a dictionary from `offset` on, behind the entries in `before`.
pub open spec fn parse_entries(
    s: Seq<u8>,
    l: BencodeLimits,
    depth: nat,
    offset: int,
    nodes: nat,
    before: Seq<(Seq<u8>, Item)>,
) -> Step<Seq<(Seq<u8>, Item)>>
    decreases s.len() - offset, 1int,
{
    if offset < 0 || offset >= s.len() {
        Err(DecodeError::UnexpectedEof { offset: offset as usize })
    } else if s[offset] == 0x65 {
        Ok(Progress { found: before, offset: offset + 1, nodes })
    } else if before.len() >= l.collection_items {
        Err(DecodeError::CollectionLimit { maximum: l.collection_items })
    } else {
        match parse_item(s, l, depth, offset, nodes) {
            Err(error) => Err(error),
            Ok(key) => match key.found.content {
                Content::Bytes(name) => if l.canonical_dictionaries && before.len() > 0
                    && !bytes_less(before.last().0, name) {
                    Err(DecodeError::NonCanonicalDictionary { offset: offset as usize })
                } else if offset < key.offset <= s.len() {
                    match parse_item(s, l, depth, key.offset, key.nodes) {
                        Err(error) => Err(error),
                        Ok(item) => if key.offset < item.offset <= s.len() {
                            parse_entries(
                                s,
                                l,
                                depth,
                                item.offset,
                                item.nodes,
                                before.push((name, item.found)),
                            )
                        } else {
                            arbitrary()
                        },
                    }
                } else {
                    arbitrary()
                },
                _ => Err(DecodeError::InvalidMarker { offset: offset as usize, marker: s[offset] }),
            },
        }
    }
}

/// One value at the front of `input`, and the number of bytes it takes.
pub open spec fn parse_prefix(input: Seq<u8>, limits: BencodeLimits) -> Result<
    (Item, int),
    DecodeError,
> {
    if input.len() > limits.input_bytes {
        Err(DecodeError::InputLimit { maximum: limits.input_bytes })
    } else {
        match parse_item(input, limits, 0, 0, 0) {
            Ok(progress) => Ok((progress.found, progress.offset)),
            Err(error) => Err(error),
        }
    }
}

/// One value that takes up the whole of `input`.
pub open spec fn parse_whole(input: Seq<u8>, limits: BencodeLimits) -> Result<Item, DecodeError> {
    match parse_prefix(input, limits) {
        Ok((item, consumed)) => if consumed != input.len() {
            Err(DecodeError::TrailingData { offset: consumed as usize })
        } else {
            Ok(item)
        },
        Err(error) => Err(error),
    }
}

pub fn decode<'a>(input: &'a [u8], limits: BencodeLimits) -> (result: Result<
    SpannedValue<'a>,
    DecodeError,
>)
    ensures
        match result {
            Ok(value) => parse_whole(input@, limits) == Ok::<Item, DecodeError>(value@),
            Err(error) => parse_whole(input@, limits) == Err::<Item, DecodeError>(error),
        },
{
    match decode_prefix(input, limits) {
        Ok((value, consumed)) => {
            if consumed != input.len() {
                return Err(DecodeError::TrailingData { offset: consumed });
            }
            Ok(value)
        },
        Err(error) => Err(error),
    }
}

/// Decode one value and return the number of consumed bytes. This is useful
/// for protocols such as BEP 9 that append an opaque payload after a bencoded
/// header.
pub fn decode_prefix<'a>(input: &'a [u8], limits: BencodeLimits) -> (result: Result<
    (SpannedValue<'a>, usize),
    DecodeError,
>)
    ensures
        match result {
            Ok((value, consumed)) => parse_prefix(input@, limits) == Ok::<(Item, int), DecodeError>(
                (value@, consumed as int),
            ) && consumed <= input@.len(),
            Err(error) => parse_prefix(input@, limits) == Err::<(Item, int), DecodeError>(error),
        },
{
    if input.len() > limits.input_bytes {
        return Err(DecodeError::InputLimit { maximum: limits.input_bytes });
    }
    let mut parser = Parser { input, limits, offset: 0, nodes: 0 };
    match parser.parse_value(0) {
        Ok(value) => Ok((value, parser.offset)),
        Err(error) => Err(error),
    }
}

struct Parser<'a> {
    input: &'a [u8],
    limits: BencodeLimits,
    offset: usize,
    nodes: usize,
}

fn is_ascii_digit(byte: u8) -> (result: bool)
    ensures
        result == is_digit(byte),
{
    0x30 <= byte && byte <= 0x39
}

/// Whether the first byte string orders strictly before the second.
pub fn is_less(a: &[u8], b: &[u8]) -> (result: bool)
    ensures
        result == bytes_less(a@, b@),
{
    let mut i: usize = 0;
    proof {
        assert(a@.subrange(0, a@.len() as int) =~= a@);
        assert(b@.subrange(0, b@.len() as int) =~= b@);
    }
    while i < a.len() && i < b.len() && a[i] == b[i]
        invariant
            i <= a@.len(),
            i <= b@.len(),
            bytes_less(a@, b@) == bytes_less(
                a@.subrange(i as int, a@.len() as int),
                b@.subrange(i as int, b@.len() as int),
            ),
        decreases a@.len() - i,
    {
        proof {
            let x = a@.subrange(i as int, a@.len() as int);
            let y = b@.subrange(i as int, b@.len() as int);
            assert(x.drop_first() =~= a@.subrange(i + 1, a@.len() as int));
            assert(y.drop_first() =~= b@.subrange(i + 1, b@.len() as int));
        }
        i += 1;
    }
    if i >= b.len() {
        false
    } else if i >= a.len() {
        true
    } else {
        a[i] < b[i]
    }
}

impl<'a> Parser<'a> {
    spec fn wf(&self) -> bool {
        self.offset <= self.input@.len()
    }

    /// The input and the limits never change while a document is read.
    spec fn same_source(&self, other: &Self) -> bool {
        self.input@ == other.input@ && self.limits == other.limits
    }

    fn parse_value(&mut self, depth: usize) -> (result: Result<SpannedValue<'a>, DecodeError>)
        requires
            old(self).wf(),
            depth <= old(self).offset,
        ensures
            final(self).wf(),
            final(self).same_source(old(self)),
            match result {
                Ok(value) => {
                    &&& parse_item(
                        old(self).input@,
                        old(self).limits,
                        depth as nat,
                        old(self).offset as int,
                        old(self).nodes as nat,
                    ) == Ok::<Progress<Item>, DecodeError>(
                        (Progress {
                            found: value@,
                            offset: final(self).offset as int,
                            nodes: final(self).nodes as nat,
                        }),
                    )
                    &&& final(self).offset > old(self).offset
                },
                Err(error) => parse_item(
                    old(self).input@,
                    old(self).limits,
                    depth as nat,
                    old(self).offset as int,
                    old(self).nodes as nat,
                ) == Err::<Progress<Item>, DecodeError>(error),
            },
        decreases old(self).input@.len() - old(self).offset, 0int,
    {
        if depth > self.limits.depth {
            return Err(DecodeError::DepthLimit { maximum: self.limits.depth });
        }
        if self.nodes >= self.limits.nodes {
            return Err(DecodeError::NodeLimit { maximum: self.limits.nodes });
        }
        self.nodes = self.nodes + 1;
        let start: usize = self.offset;
        let marker: u8 = match self.byte() {
            Ok(marker) => marker,
            Err(error) => {
                return Err(error);
            },
        };
        let value = if marker == 0x69 {
            match self.parse_integer(start) {
                Ok(value) => BencodeValue::Integer(value),
                Err(error) => {
                    return Err(error);
                },
            }
        } else if marker == 0x6c {
            match self.parse_list(depth) {
                Ok(values) => {
                    let value = BencodeValue::List(values);
                    assert(value@->List_0 =~= items_view(values@));
                    value
                },
                Err(error) => {
                    return Err(error);
                },
            }
        } else if marker == 0x64 {
            match self.parse_dictionary(depth) {
                Ok(values) => {
                    let value = BencodeValue::Dictionary(values);
                    assert(value@->Dictionary_0 =~= entries_view(values@));
                    value
                },
                Err(error) => {
                    return Err(error);
                },
            }
        } else if is_ascii_digit(marker) {
            match self.parse_bytes(start, marker) {
                Ok(bytes) => BencodeValue::Bytes(bytes),
                Err(error) => {
                    return Err(error);
                },
            }
        } else {
            return Err(DecodeError::InvalidMarker { offset: start, marker });
        };
        Ok(SpannedValue { span: start..self.offset, value })
    }

    fn parse_integer(&mut self, start: usize) -> (result: Result<i64, DecodeError>)
        requires
            old(self).wf(),
            old(self).offset == start + 1,
        ensures
            final(self).wf(),
            final(self).same_source(old(self)),
            final(self).nodes == old(self).nodes,
            match result {
                Ok(value) => parse_integer(old(self).input@, start as int) == Ok::<
                    (int, int),
                    DecodeError,
                >((value as int, final(self).offset as int)) && final(self).offset > start,
                Err(error) => parse_integer(old(self).input@, start as int) == Err::<
                    (int, int),
                    DecodeError,
                >(error),
            },
    {
        let digits_start: usize = self.offset;
        let end: usize = match self.find(0x65) {
            Ok(end) => end,
            Err(error) => {
                return Err(error);
            },
        };
        let bytes = slice_subrange(self.input, digits_start, end);
        assert(self.input@.len() == self.input.len());
        self.offset = end + 1;
        match read_integer(bytes) {
            Some(value) => Ok(value),
            None => Err(DecodeError::InvalidInteger { offset: start }),
        }
    }

    fn parse_bytes(&mut self, start: usize, first: u8) -> (result: Result<&'a [u8], DecodeError>)
        requires
            old(self).wf(),
            old(self).offset == start + 1,
            first == old(self).input@[start as int],
            is_digit(first),
        ensures
            final(self).wf(),
            final(self).same_source(old(self)),
            final(self).nodes == old(self).nodes,
            match result {
                Ok(value) => parse_bytes(old(self).input@, old(self).limits, start as int) == Ok::<
                    (Seq<u8>, int),
                    DecodeError,
                >((value@, final(self).offset as int)) && final(self).offset > start,
                Err(error) => parse_bytes(old(self).input@, old(self).limits, start as int) == Err::<
                    (Seq<u8>, int),
                    DecodeError,
                >(error),
            },
    {
        let ghost s = self.input@;
        let mut length: usize = (first - 0x30) as usize;
        let mut digits: usize = 1;
        proof {
            let one = s.subrange(start as int, start + 1);
            assert(one.drop_last() =~= Seq::<u8>::empty());
            reveal_with_fuel(digits_value, 2);
        }
        loop
            invariant_except_break
                start < self.offset <= s.len(),
                digits == self.offset - start,
                digits > 1 ==> first != 0x30,
                length == digits_value(s.subrange(start as int, self.offset as int)),
                digits_end(s, start as int) == digits_end(s, self.offset as int),
            invariant
                s == self.input@,
                self.same_source(old(self)),
                self.nodes == old(self).nodes,
                first == s[start as int],
            ensures
                start + 1 < self.offset <= s.len(),
                digits_end(s, start as int) == self.offset - 1,
                s[self.offset - 1] == 0x3a,
                self.offset - 1 > start + 1 ==> first != 0x30,
                length == digits_value(s.subrange(start as int, self.offset - 1)),
            decreases s.len() - self.offset,
        {
            let ghost at = self.offset as int;
            let next: u8 = match self.byte() {
                Ok(next) => next,
                Err(error) => {
                    return Err(error);
                },
            };
            if next == 0x3a {
                break;
            }
            if !is_ascii_digit(next) {
                return Err(DecodeError::InvalidByteStringLength { offset: start });
            }
            proof {
                lemma_digits_end(s, self.offset as int);
                let grown = s.subrange(start as int, at + 1);
                assert(grown.drop_last() =~= s.subrange(start as int, at));
                let run = s.subrange(start as int, digits_end(s, start as int));
                lemma_digits_value_prefix(run, grown.len() as int);
                assert(run.subrange(0, grown.len() as int) =~= grown);
            }
            if digits == 1 && first == 0x30 {
                return Err(DecodeError::InvalidByteStringLength { offset: start });
            }
            length = match length.checked_mul(10) {
                Some(scaled) => match scaled.checked_add((next - 0x30) as usize) {
                    Some(length) => length,
                    None => {
                        return Err(
                            DecodeError::ByteStringLimit { maximum: self.limits.byte_string_bytes },
                        );
                    },
                },
                None => {
                    return Err(
                        DecodeError::ByteStringLimit { maximum: self.limits.byte_string_bytes },
                    );
                },
            };
            digits += 1;
        }
        if length > self.limits.byte_string_bytes {
            return Err(DecodeError::ByteStringLimit { maximum: self.limits.byte_string_bytes });
        }
        if length > self.input.len() - self.offset {
            return Err(DecodeError::UnexpectedEof { offset: self.offset });
        }
        let end: usize = self.offset + length;
        let value = slice_subrange(self.input, self.offset, end);
        self.offset = end;
        Ok(value)
    }

    fn parse_list(&mut self, depth: usize) -> (result: Result<Vec<SpannedValue<'a>>, DecodeError>)
        requires
            old(self).wf(),
            depth < old(self).offset,
        ensures
            final(self).wf(),
            final(self).same_source(old(self)),
            match result {
                Ok(values) => {
                    &&& parse_items(
                        old(self).input@,
                        old(self).limits,
                        depth as nat + 1,
                        old(self).offset as int,
                        old(self).nodes as nat,
                        Seq::empty(),
                    ) == Ok::<Progress<Seq<Item>>, DecodeError>(
                        (Progress {
                            found: items_view(values@),
                            offset: final(self).offset as int,
                            nodes: final(self).nodes as nat,
                        }),
                    )
                    &&& final(self).offset > old(self).offset
                },
                Err(error) => parse_items(
                    old(self).input@,
                    old(self).limits,
                    depth as nat + 1,
                    old(self).offset as int,
                    old(self).nodes as nat,
                    Seq::empty(),
                ) == Err::<Progress<Seq<Item>>, DecodeError>(error),
            },
        decreases old(self).input@.len() - old(self).offset, 1int,
    {
        let ghost s = self.input@;
        let ghost limits = self.limits;
        let mut values: Vec<SpannedValue<'a>> = Vec::new();
        assert(items_view(values@) =~= Seq::empty());
        loop
            invariant
                self.wf(),
                self.same_source(old(self)),
                s == self.input@,
                limits == self.limits,
                depth < old(self).offset <= self.offset,
                parse_items(
                    s,
                    limits,
                    depth as nat + 1,
                    old(self).offset as int,
                    old(self).nodes as nat,
                    Seq::empty(),
                ) == parse_items(
                    s,
                    limits,
                    depth as nat + 1,
                    self.offset as int,
                    self.nodes as nat,
                    items_view(values@),
                ),
            decreases s.len() - self.offset,
        {
            let next: u8 = match self.peek() {
                Ok(next) => next,
                Err(error) => {
                    return Err(error);
                },
            };
            if next == 0x65 {
                assert(self.input@.len() == self.input.len());
                self.offset = self.offset + 1;
                return Ok(values);
            }
            if values.len() >= self.limits.collection_items {
                return Err(DecodeError::CollectionLimit { maximum: self.limits.collection_items });
            }
            let ghost before = values@;
            match self.parse_value(depth + 1) {
                Ok(value) => {
                    values.push(value);
                    assert(items_view(values@) =~= items_view(before).push(value@));
                },
                Err(error) => {
                    return Err(error);
                },
            }
        }
    }

    fn parse_dictionary(&mut self, depth: usize) -> (result: Result<
        Vec<(&'a [u8], SpannedValue<'a>)>,
        DecodeError,
    >)
        requires
            old(self).wf(),
            depth < old(self).offset,
        ensures
            final(self).wf(),
            final(self).same_source(old(self)),
            match result {
                Ok(values) => {
                    &&& parse_entries(
                        old(self).input@,
                        old(self).limits,
                        depth as nat + 1,
                        old(self).offset as int,
                        old(self).nodes as nat,
                        Seq::empty(),
                    ) == Ok::<Progress<Seq<(Seq<u8>, Item)>>, DecodeError>(
                        (Progress {
                            found: entries_view(values@),
                            offset: final(self).offset as int,
                            nodes: final(self).nodes as nat,
                        }),
                    )
                    &&& final(self).offset > old(self).offset
                },
                Err(error) => parse_entries(
                    old(self).input@,
                    old(self).limits,
                    depth as nat + 1,
                    old(self).offset as int,
                    old(self).nodes as nat,
                    Seq::empty(),
                ) == Err::<Progress<Seq<(Seq<u8>, Item)>>, DecodeError>(error),
            },
        decreases old(self).input@.len() - old(self).offset, 1int,
    {
        let ghost s = self.input@;
        let ghost limits = self.limits;
        let mut values: Vec<(&'a [u8], SpannedValue<'a>)> = Vec::new();
        let mut previous: Option<&'a [u8]> = None;
        assert(entries_view(values@) =~= Seq::empty());
        loop
            invariant
                self.wf(),
                self.same_source(old(self)),
                s == self.input@,
                limits == self.limits,
                depth < old(self).offset <= self.offset,
                match previous {
                    Some(key) => values@.len() > 0 && entries_view(values@).last().0 == key@,
                    None => values@.len() == 0,
                },
                parse_entries(
                    s,
                    limits,
                    depth as nat + 1,
                    old(self).offset as int,
                    old(self).nodes as nat,
                    Seq::empty(),
                ) == parse_entries(
                    s,
                    limits,
                    depth as nat + 1,
                    self.offset as int,
                    self.nodes as nat,
                    entries_view(values@),
                ),
            decreases s.len() - self.offset,
        {
            let next: u8 = match self.peek() {
                Ok(next) => next,
                Err(error) => {
                    return Err(error);
                },
            };
            if next == 0x65 {
                assert(self.input@.len() == self.input.len());
                self.offset = self.offset + 1;
                return Ok(values);
            }
            if values.len() >= self.limits.collection_items {
                return Err(DecodeError::CollectionLimit { maximum: self.limits.collection_items });
            }
            let ghost before = values@;
            let key_offset: usize = self.offset;
            let key = match self.parse_value(depth + 1) {
                Ok(value) => match value.value {
                    BencodeValue::Bytes(key) => key,
                    _ => {
                        return Err(
                            DecodeError::InvalidMarker {
                                offset: key_offset,
                                marker: self.input[key_offset],
                            },
                        );
                    },
                },
                Err(error) => {
                    return Err(error);
                },
            };
            if self.limits.canonical_dictionaries {
                if let Some(last) = previous {
                    if !is_less(last, key) {
                        return Err(DecodeError::NonCanonicalDictionary { offset: key_offset });
                    }
                }
            }
            previous = Some(key);
            match self.parse_value(depth + 1) {
                Ok(value) => {
                    values.push((key, value));
                    assert(entries_view(values@) =~= entries_view(before).push((key@, value@)));
                },
                Err(error) => {
                    return Err(error);
                },
            }
        }
    }

    fn byte(&mut self) -> (result: Result<u8, DecodeError>)
        requires
            old(self).wf(),
        ensures
            final(self).wf(),
            final(self).same_source(old(self)),
            final(self).nodes == old(self).nodes,
            match result {
                Ok(value) => {
                    &&& old(self).offset < old(self).input@.len()
                    &&& value == old(self).input@[old(self).offset as int]
                    &&& final(self).offset == old(self).offset + 1
                },
                Err(error) => {
                    &&& old(self).offset == old(self).input@.len()
                    &&& error == (DecodeError::UnexpectedEof { offset: old(self).offset })
                },
            },
    {
        if self.offset >= self.input.len() {
            return Err(DecodeError::UnexpectedEof { offset: self.offset });
        }
        let value: u8 = self.input[self.offset];
        self.offset = self.offset + 1;
        Ok(value)
    }

    fn peek(&self) -> (result: Result<u8, DecodeError>)
        requires
            self.wf(),
        ensures
            match result {
                Ok(value) => {
                    &&& self.offset < self.input@.len()
                    &&& value == self.input@[self.offset as int]
                },
                Err(error) => {
                    &&& self.offset == self.input@.len()
                    &&& error == (DecodeError::UnexpectedEof { offset: self.offset })
                },
            },
    {
        if self.offset >= self.input.len() {
            Err(DecodeError::UnexpectedEof { offset: self.offset })
        } else {
            Ok(self.input[self.offset])
        }
    }

    fn find(&self, needle: u8) -> (result: Result<usize, DecodeError>)
        requires
            self.wf(),
        ensures
            match result {
                Ok(at) => {
                    &&& at == find_from(self.input@, self.offset as int, needle)
                    &&& self.offset <= at < self.input@.len()
                },
                Err(error) => {
                    &&& find_from(self.input@, self.offset as int, needle) >= self.input@.len()
                    &&& error == (DecodeError::UnexpectedEof { offset: self.offset })
                },
            },
    {
        let mut at: usize = self.offset;
        while at < self.input.len()
            invariant
                self.offset <= at <= self.input@.len(),
                find_from(self.input@, self.offset as int, needle) == find_from(
                    self.input@,
                    at as int,
                    needle,
                ),
            decreases self.input@.len() - at,
        {
            if self.input[at] == needle {
                return Ok(at);
            }
            at += 1;
        }
        Err(DecodeError::UnexpectedEof { offset: self.offset })
    }
}

/// The end of a run of digits lies inside the input, and the run holds digits only.
pub proof fn lemma_digits_end(s: Seq<u8>, from: int)
    requires
        0 <= from <= s.len(),
    ensures
        from <= digits_end(s, from) <= s.len(),
        forall|i: int| from <= i < digits_end(s, from) ==> is_digit(#[trigger] s[i]),
        digits_end(s, from) < s.len() ==> !is_digit(s[digits_end(s, from)]),
    decreases s.len() - from,
{
    if from < s.len() && is_digit(s[from]) {
        lemma_digits_end(s, from + 1);
    }
}

/// A prefix of a run of digits writes no larger a number than the whole run.
pub proof fn lemma_digits_value_prefix(s: Seq<u8>, n: int)
    requires
        0 <= n <= s.len(),
    ensures
        digits_value(s.subrange(0, n)) <= digits_value(s),
    decreases s.len(),
{
    if n == s.len() {
        assert(s.subrange(0, n) =~= s);
    } else {
        lemma_digits_value_prefix(s.drop_last(), n);
        assert(s.drop_last().subrange(0, n) =~= s.subrange(0, n));
    }
}

/// A shorter canonical run of digits stays below the value of a longer one.
pub proof fn lemma_digits_value_step(s: Seq<u8>, n: int)
    requires
        0 <= n < s.len(),
    ensures
        digits_value(s.subrange(0, n + 1)) == digits_value(s.subrange(0, n)) * 10 + (s[n]
            - 0x30) as nat,
{
    let grown = s.subrange(0, n + 1);
    assert(grown.drop_last() =~= s.subrange(0, n));
    assert(grown.last() == s[n]);
}

/// Reads digits from `from` to the end, as long as the number stays at or
/// below `maximum`.
fn read_digits(bytes: &[u8], from: usize, maximum: u64) -> (result: Option<u64>)
    requires
        from < bytes@.len(),
    ensures
        ({
            let run = bytes@.subrange(from as int, bytes@.len() as int);
            match result {
                Some(value) => all_digits(run) && value == digits_value(run) && value <= maximum,
                None => !all_digits(run) || digits_value(run) > maximum,
            }
        }),
{
    let ghost run = bytes@.subrange(from as int, bytes@.len() as int);
    let mut i: usize = from;
    let mut value: u64 = 0;
    assert(run.subrange(0, 0) =~= Seq::<u8>::empty());
    while i < bytes.len()
        invariant
            from <= i <= bytes@.len(),
            run == bytes@.subrange(from as int, bytes@.len() as int),
            forall|k: int| 0 <= k < i - from ==> is_digit(#[trigger] run[k]),
            value == digits_value(run.subrange(0, i - from)),
            value <= maximum,
            decreases bytes@.len() - i,
    {
        let byte: u8 = bytes[i];
        assert(byte == run[i - from]);
        if !is_ascii_digit(byte) {
            return None;
        }
        proof {
            lemma_digits_value_step(run, i - from);
            lemma_digits_value_prefix(run, i - from + 1);
        }
        let grown: u128 = value as u128 * 10 + (byte - 0x30) as u128;
        if grown > maximum as u128 {
            return None;
        }
        value = grown as u64;
        i += 1;
    }
    assert(run.subrange(0, run.len() as int) =~= run);
    Some(value)
}

/// Reads a canonical decimal integer.
fn read_integer(bytes: &[u8]) -> (result: Option<i64>)
    ensures
        match result {
            Some(value) => integer_value(bytes@) == Some(value as int),
            None => integer_value(bytes@) is None,
        },
{
    if bytes.len() == 0 {
        return None;
    }
    let negative: bool = bytes[0] == 0x2d;
    let from: usize = if negative { 1 } else { 0 };
    if bytes.len() == from {
        return None;
    }
    proof {
        let run = bytes@.subrange(from as int, bytes@.len() as int);
        if negative {
            assert(run =~= bytes@.drop_first());
        } else {
            assert(run =~= bytes@);
        }
    }
    if bytes[from] == 0x30 && bytes.len() - from > 1 {
        return None;
    }
    let maximum: u64 = if negative { 0x8000_0000_0000_0000 } else { 0x7fff_ffff_ffff_ffff };
    match read_digits(bytes, from, maximum) {
        None => None,
        Some(magnitude) => {
            if negative {
                if magnitude == 0 {
                    None
                } else if magnitude == 0x8000_0000_0000_0000 {
                    Some(i64::MIN)
                } else {
                    Some(-(magnitude as i64))
                }
            } else {
                Some(magnitude as i64)
            }
        },
    }
}

impl<'a> BencodeValue<'a> {
    #[must_use]
    pub fn as_integer(&self) -> (result: Option<i64>)
        ensures
            match result {
                Some(value) => self@ == Content::Integer(value as int),
                None => !(self@ is Integer),
            },
    {
        match self {
            BencodeValue::Integer(value) => Some(*value),
            _ => None,
        }
    }

    #[must_use]
    pub fn as_bytes(&self) -> (result: Option<&'a [u8]>)
        ensures
            match result {
                Some(value) => self@ == Content::Bytes(value@),
                None => !(self@ is Bytes),
            },
    {
        match self {
            BencodeValue::Bytes(value) => Some(*value),
            _ => None,
        }
    }

    #[must_use]
    pub fn dictionary_get(&self, key: &[u8]) -> (result: Option<&SpannedValue<'a>>)
        ensures
            match result {
                Some(value) => lookup(self@, key@) == Some(value@),
                None => lookup(self@, key@) is None,
            },
    {
        match self {
            BencodeValue::Dictionary(values) => {
                let ghost entries = self@->Dictionary_0;
                let mut i: usize = 0;
                while i < values.len()
                    invariant
                        i <= values@.len(),
                        entries == self@->Dictionary_0,
                        self@ is Dictionary,
                        entries =~= entries_view(values@),
                        first_match(entries, key@, 0) == first_match(entries, key@, i as int),
                    decreases values@.len() - i,
                {
                    if bytes_equal(values[i].0, key) {
                        return Some(&values[i].1);
                    }
                    i += 1;
                }
                None
            },
            _ => None,
        }
    }
}

/// Whether two byte strings are the same.
pub fn bytes_equal(a: &[u8], b: &[u8]) -> (result: bool)
    ensures
        result == (a@ == b@),
{
    if a.len() != b.len() {
        return false;
    }
    let mut i: usize = 0;
    while i < a.len()
        invariant
            a@.len() == b@.len(),
            i <= a@.len(),
            forall|k: int| 0 <= k < i ==> a@[k] == b@[k],
        decreases a@.len() - i,
    {
        if a[i] != b[i] {
            return false;
        }
        i += 1;
    }
    assert(a@ =~= b@);
    true
}

/// The position of the first entry at or after `from` with that key, or the length.
pub open spec fn first_match(entries: Seq<(Seq<u8>, Item)>, key: Seq<u8>, from: int) -> int
    decreases entries.len() - from,
{
    if from < 0 || from >= entries.len() || entries[from].0 == key {
        from
    } else {
        first_match(entries, key, from + 1)
    }
}

/// The value that a dictionary holds under a key: the first one, if there are several.
pub open spec fn lookup(content: Content, key: Seq<u8>) -> Option<Item> {
    match content {
        Content::Dictionary(entries) => {
            let at = first_match(entries, key, 0);
            if at < entries.len() {
                Some(entries[at].1)
            } else {
                None
            }
        },
        _ => None,
    }
}

} // verus!
