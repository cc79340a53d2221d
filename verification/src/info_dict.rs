//! Info dictionaries on their own: putting a document around one, and taking
//! one out of its document.

use crate::bencode::{
    decode, first_match, lookup, parse_whole, BencodeLimits, BencodeValue, Content, DecodeError,
    Item,
};
use crate::bencode_laws::{
    decimal, encode, encode_bytes, encode_entries, law_encoded_decodes,
    law_whole_is_prefix_without_tail, lemma_holds_concat, node_count, place, place_entries,
    lemma_place_entries_keys, within,
};
use crate::error::{ActorError, Fault};
use crate::hash::{digests, Sha256Hash};
use crate::hash_tree::joined;
use crate::metainfo::{entries_of, find};
use crate::metainfo_laws::lemma_entry_holds;
use crate::metainfo_parse::lemma_info_span;
use crate::piece_layers::PieceLayers;
use crate::wording::decode_text;
use vstd::prelude::*;
use vstd::slice::{slice_subrange, slice_to_vec};
use vstd::utf8::encode_utf8;

verus! {

/// The limits for a document of up to `limit` bytes.
pub open spec fn limits_for(limit: usize) -> BencodeLimits {
    BencodeLimits {
        input_bytes: limit,
        depth: 64,
        nodes: 1_000_000,
        byte_string_bytes: limit,
        collection_items: 1_000_000,
        canonical_dictionaries: true,
    }
}

pub fn document_limits(limit: usize) -> (limits: BencodeLimits)
    ensures
        limits == limits_for(limit),
{
    BencodeLimits {
        input_bytes: limit,
        depth: 64,
        nodes: 1_000_000,
        byte_string_bytes: limit,
        collection_items: 1_000_000,
        canonical_dictionaries: true,
    }
}

/// The bytes of a document's info dictionary.
pub open spec fn raw_info_of(raw: Seq<u8>, limit: usize) -> Result<Seq<u8>, Fault> {
    match parse_whole(raw, limits_for(limit)) {
        Err(error) => Err(Fault::Metainfo(decode_text(error))),
        Ok(root) => match entries_of(root) {
            None => Err(Fault::Metainfo("metainfo root is not a dictionary"@)),
            Some(entries) => match find(entries, "info") {
                None => Err(Fault::Metainfo("metainfo has no info dictionary"@)),
                Some(info) => Ok(raw.subrange(info.start, info.end)),
            },
        },
    }
}

/// Takes the info dictionary out of a document.
pub fn raw_info_dictionary(raw: &[u8], limit: usize) -> (result: Result<Vec<u8>, ActorError>)
    ensures
        match result {
            Ok(info) => raw_info_of(raw@, limit) == Ok::<Seq<u8>, Fault>(info@),
            Err(error) => raw_info_of(raw@, limit) == Err::<Seq<u8>, Fault>(error@),
        },
{
    let root = match decode(raw, document_limits(limit)) {
        Ok(root) => root,
        Err(error) => {
            return Err(ActorError::Metainfo(error.message()));
        },
    };
    let ghost model = root@;
    match &root.value {
        BencodeValue::Dictionary(_) => {},
        _ => {
            return Err(ActorError::metainfo("metainfo root is not a dictionary"));
        },
    }
    let ghost entries = entries_of(model)->0;
    assert(lookup(model.content, encode_utf8("info"@)) == find(entries, "info"));
    match root.value.dictionary_get("info".as_bytes()) {
        Some(info) => {
            proof {
                lemma_info_span(raw@, limits_for(limit));
            }
            Ok(slice_to_vec(slice_subrange(raw, info.span.start, info.span.end)))
        },
        None => Err(ActorError::metainfo("metainfo has no info dictionary")),
    }
}

/// A number in base ten as bytes.
fn push_decimal(output: &mut Vec<u8>, n: usize)
    ensures
        final(output)@ == old(output)@ + decimal(n as nat),
    decreases n,
{
    if n < 10 {
        output.push(0x30 + n as u8);
        assert(output@ =~= old(output)@ + decimal(n as nat));
    } else {
        push_decimal(output, n / 10);
        output.push(0x30 + (n % 10) as u8);
        assert(output@ =~= old(output)@ + decimal(n as nat));
    }
}

/// A byte string with its length before it.
fn push_bytes(output: &mut Vec<u8>, bytes: &[u8])
    ensures
        final(output)@ == old(output)@ + encode_bytes(bytes@),
{
    assert(bytes@.len() == bytes.len());
    push_decimal(output, bytes.len());
    output.push(0x3a);
    output.extend_from_slice(bytes);
    assert(output@ =~= old(output)@ + encode_bytes(bytes@));
}

/// The value of the tracker entry.
pub open spec fn text_item(text: Seq<char>) -> Item {
    Item { start: 0, end: 0, content: Content::Bytes(encode_utf8(text)) }
}

/// The entries of the first `n` piece layers.
pub open spec fn layer_entries(layers: PieceLayers, n: int) -> Seq<(Seq<u8>, Item)>
    decreases n,
{
    if n <= 0 {
        Seq::empty()
    } else {
        layer_entries(layers, n - 1).push(
            (
                layers.spec_root_at(n - 1),
                Item {
                    start: 0,
                    end: 0,
                    content: Content::Bytes(joined(layers.spec_layer_at(n - 1))),
                },
            ),
        )
    }
}

/// The front of a document: its tracker, if it has one.
pub open spec fn tracker_entries(tracker: Option<Seq<char>>) -> Seq<(Seq<u8>, Item)> {
    match tracker {
        Some(text) => seq![(encode_utf8("announce"@), text_item(text))],
        None => Seq::empty(),
    }
}

/// The document around an info dictionary: its tracker, the dictionary and its
/// piece layers, whichever there are.
pub open spec fn document(
    tracker: Option<Seq<char>>,
    info: Content,
    layers: PieceLayers,
) -> Content {
    let front = tracker_entries(tracker).push(
        (encode_utf8("info"@), Item { start: 0, end: 0, content: info }),
    );
    if layers.spec_len() == 0 {
        Content::Dictionary(front)
    } else {
        Content::Dictionary(
            front.push(
                (
                    encode_utf8("piece layers"@),
                    Item {
                        start: 0,
                        end: 0,
                        content: Content::Dictionary(
                            layer_entries(layers, layers.spec_len() as int),
                        ),
                    },
                ),
            ),
        )
    }
}

/// The bytes around an info dictionary without piece layers.
pub open spec fn wrapped_bare(info: Seq<u8>, tracker: Option<Seq<char>>) -> Seq<u8> {
    seq![0x64u8] + encode_entries(tracker_entries(tracker)) + encode_bytes(encode_utf8("info"@))
        + info + seq![0x65u8]
}

/// Without layers nothing stands behind the info dictionary.
pub proof fn lemma_wrapped_bare(
    info: Seq<u8>,
    tracker: Option<Seq<char>>,
    layers: PieceLayers,
)
    requires
        layers.spec_len() == 0,
    ensures
        wrapped(info, tracker, layers) == wrapped_bare(info, tracker),
{
    assert(wrapped(info, tracker, layers) =~= wrapped_bare(info, tracker));
}

/// The bytes around an info dictionary, whatever its bytes are.
pub open spec fn wrapped(
    info: Seq<u8>,
    tracker: Option<Seq<char>>,
    layers: PieceLayers,
) -> Seq<u8> {
    let front = seq![0x64u8] + encode_entries(tracker_entries(tracker)) + encode_bytes(
        encode_utf8("info"@),
    ) + info;
    let tail = if layers.spec_len() == 0 {
        Seq::empty()
    } else {
        encode_bytes(encode_utf8("piece layers"@)) + (seq![0x64u8] + encode_entries(
            layer_entries(layers, layers.spec_len() as int),
        ) + seq![0x65u8])
    };
    front + tail + seq![0x65u8]
}

/// Puts a document around an info dictionary.
pub fn wrap_info_dictionary(
    info: &[u8],
    tracker: Option<&String>,
    piece_layers: &PieceLayers,
) -> (raw: Vec<u8>)
    ensures
        raw@ == wrapped(
            info@,
            match tracker {
                Some(tracker) => Some(tracker@),
                None => None,
            },
            *piece_layers,
        ),
{
    let ghost named = match tracker {
        Some(tracker) => Some(tracker@),
        None => None,
    };
    let mut raw: Vec<u8> = Vec::new();
    raw.push(0x64);
    assert(raw@ =~= seq![0x64u8]);
    if let Some(tracker) = tracker {
        push_bytes(&mut raw, "announce".as_bytes());
        push_bytes(&mut raw, tracker.as_str().as_bytes());
        proof {
            let entries = tracker_entries(named);
            lemma_one_entry(entries);
            assert(raw@ =~= seq![0x64u8] + encode_entries(entries));
        }
    } else {
        assert(raw@ =~= seq![0x64u8] + encode_entries(tracker_entries(named)));
    }
    push_bytes(&mut raw, "info".as_bytes());
    raw.extend_from_slice(info);
    let ghost front = seq![0x64u8] + encode_entries(tracker_entries(named)) + encode_bytes(
        encode_utf8("info"@),
    ) + info@;
    assert(raw@ =~= front);
    let count: usize = piece_layers.len();
    if count > 0 {
        push_bytes(&mut raw, "piece layers".as_bytes());
        raw.push(0x64);
        let ghost head = front + encode_bytes(encode_utf8("piece layers"@)) + seq![0x64u8];
        assert(raw@ =~= head + encode_entries(layer_entries(*piece_layers, 0)));
        let mut i: usize = 0;
        while i < count
            invariant
                count == piece_layers.spec_len(),
                i <= count,
                raw@ == head + encode_entries(layer_entries(*piece_layers, i as int)),
            decreases count - i,
        {
            let ghost before = raw@;
            push_bytes(&mut raw, piece_layers.root_at(i).as_bytes());
            let bytes = join_digests(piece_layers.layer_at(i));
            push_bytes(&mut raw, bytes.as_slice());
            proof {
                let more = layer_entries(*piece_layers, i + 1);
                let root = piece_layers.spec_root_at(i as int);
                let layer = joined(piece_layers.spec_layer_at(i as int));
                assert(more.drop_last() =~= layer_entries(*piece_layers, i as int));
                assert(more.last().0 == root);
                assert(more.last().1.content == Content::Bytes(layer));
                assert(encode(Content::Bytes(layer)) == encode_bytes(layer));
                assert(raw@ =~= before + encode_bytes(root) + encode_bytes(layer));
                assert(encode_entries(more) == encode_entries(more.drop_last()) + encode_bytes(
                    root,
                ) + encode_bytes(layer));
                assert(raw@ =~= head + encode_entries(more));
            }
            i += 1;
        }
        raw.push(0x65);
    }
    raw.push(0x65);
    assert(raw@ =~= wrapped(info@, named, *piece_layers));
    raw
}

proof fn lemma_one_entry(entries: Seq<(Seq<u8>, Item)>)
    requires
        entries.len() == 1,
    ensures
        encode_entries(entries) == encode_bytes(entries[0].0) + encode(entries[0].1.content),
{
    reveal_with_fuel(encode_entries, 2);
    assert(entries.drop_last() =~= Seq::empty());
    assert(Seq::<u8>::empty() + encode_bytes(entries[0].0) =~= encode_bytes(entries[0].0));
}

/// Digests one behind the other.
fn join_digests(hashes: &Vec<Sha256Hash>) -> (bytes: Vec<u8>)
    ensures
        bytes@ == joined(digests(hashes@)),
{
    let ghost all = digests(hashes@);
    let mut bytes: Vec<u8> = Vec::new();
    let mut i: usize = 0;
    assert(all.take(0) =~= Seq::empty());
    while i < hashes.len()
        invariant
            all == digests(hashes@),
            i <= hashes@.len(),
            bytes@ == joined(all.take(i as int)),
        decreases hashes@.len() - i,
    {
        proof {
            assert(all.take(i + 1).drop_last() =~= all.take(i as int));
            assert(all.take(i + 1).last() == hashes@[i as int]@);
        }
        let ghost before = bytes@;
        bytes.extend_from_slice(hashes[i].as_bytes());
        assert(bytes@ =~= before + hashes@[i as int]@);
        i += 1;
    }
    assert(all.take(all.len() as int) =~= all);
    bytes
}

/// Wrapping the canonical bytes of an info dictionary gives the canonical
/// bytes of the whole document.
pub proof fn law_wrapping_is_canonical(
    tracker: Option<Seq<char>>,
    info: Content,
    layers: PieceLayers,
)
    ensures
        wrapped(encode(info), tracker, layers) == encode(document(tracker, info, layers)),
{
    let front = tracker_entries(tracker);
    let item = (encode_utf8("info"@), Item { start: 0, end: 0, content: info });
    let middle = front.push(item);
    assert(middle.drop_last() =~= front);
    if layers.spec_len() == 0 {
        assert(wrapped(encode(info), tracker, layers) =~= seq![0x64u8] + encode_entries(middle)
            + seq![0x65u8]);
    } else {
        let tail = Content::Dictionary(layer_entries(layers, layers.spec_len() as int));
        let last = (
            encode_utf8("piece layers"@),
            Item { start: 0, end: 0, content: tail },
        );
        let all = middle.push(last);
        assert(all.drop_last() =~= middle);
        assert(encode(tail) == seq![0x64u8] + encode_entries(
            layer_entries(layers, layers.spec_len() as int),
        ) + seq![0x65u8]);
        assert(encode_entries(all) == encode_entries(middle) + encode_bytes(last.0) + encode(tail));
        assert(encode_entries(middle) == encode_entries(front) + encode_bytes(item.0) + encode(
            info,
        ));
        assert(wrapped(encode(info), tracker, layers) =~= seq![0x64u8] + encode_entries(all)
            + seq![0x65u8]);
    }
}

/// Taking the info dictionary out of a document that was put around it gives
/// the dictionary back byte for byte.
pub proof fn law_unwrapping_gives_info_back(
    tracker: Option<Seq<char>>,
    info: Content,
    layers: PieceLayers,
    limit: usize,
)
    requires
        within(document(tracker, info, layers), limits_for(limit), 0),
        node_count(document(tracker, info, layers)) <= 1_000_000,
        wrapped(encode(info), tracker, layers).len() <= limit,
    ensures
        raw_info_of(wrapped(encode(info), tracker, layers), limit) == Ok::<Seq<u8>, Fault>(
            encode(info),
        ),
{
    let content = document(tracker, info, layers);
    let raw = wrapped(encode(info), tracker, layers);
    let limits = limits_for(limit);
    law_wrapping_is_canonical(tracker, info, layers);
    law_encoded_decodes(content, Seq::empty(), limits);
    assert(encode(content) + Seq::<u8>::empty() =~= raw);
    let entries = content->Dictionary_0;
    let placed = place_entries(entries, 1);
    lemma_place_entries_keys(entries, 1);
    let key = encode_utf8("info"@);
    let at = tracker_entries(tracker).len() as int;
    assert(entries[at].0 == key);
    lemma_keys_differ();
    assert(first_match(placed, key, 0) == at) by {
        reveal_with_fuel(first_match, 3);
        assert(placed[at].0 == key);
        if at == 1 {
            assert(placed[0].0 == entries[0].0);
        }
    }
    let body = encode_entries(entries);
    assert(raw.subrange(0, raw.len() as int) =~= raw);
    lemma_holds_concat(raw, 0, seq![0x64u8] + body, seq![0x65u8]);
    lemma_holds_concat(raw, 0, seq![0x64u8], body);
    lemma_entry_holds(raw, entries, 1, at);
}

/// The keys of a document are told apart by their first byte.
proof fn lemma_keys_differ()
    ensures
        encode_utf8("announce"@) != encode_utf8("info"@),
{
    reveal_strlit("announce");
    reveal_strlit("info");
    vstd::utf8::encode_utf8_decode_utf8("announce"@);
    vstd::utf8::encode_utf8_decode_utf8("info"@);
    assert("announce"@.len() != "info"@.len());
}

} // verus!
