//! Bencode decoding.

use dendrite::bencode::{
    decode, decode_prefix, BencodeLimits, BencodeValue, DecodeError, SpannedValue,
};

#[test]
fn preserves_value_spans() {
    let input = b"d4:infod4:name4:teste4:spamli1ei2eee";
    let decoded = decode(input, BencodeLimits::default());
    let value = decoded.as_ref().ok().map(|root| &root.value);
    let info = value.and_then(|root| root.dictionary_get(b"info"));
    assert_eq!(
        info.map(|value| &input[value.span.clone()]),
        Some(&b"d4:name4:teste"[..])
    );
}

#[test]
fn rejects_noncanonical_values() {
    for value in [&b"i03e"[..], &b"i-0e"[..], &b"03:abc"[..]] {
        assert!(decode(value, BencodeLimits::default()).is_err());
    }
}

#[test]
fn rejects_unsorted_and_duplicate_keys() {
    assert!(decode(b"d1:bi1e1:ai2ee", BencodeLimits::default()).is_err());
    assert!(decode(b"d1:ai1e1:ai2ee", BencodeLimits::default()).is_err());
}

#[test]
fn enforces_depth_budget() {
    let limits = BencodeLimits {
        depth: 2,
        ..BencodeLimits::default()
    };
    assert!(matches!(
        decode(b"llli1eeee", limits),
        Err(DecodeError::DepthLimit { maximum: 2 })
    ));
}

#[test]
fn decodes_integers_up_to_their_limits() {
    let limits = BencodeLimits::default();
    let least = decode(b"i-9223372036854775808e", limits).unwrap();
    assert_eq!(least.value.as_integer(), Some(i64::MIN));
    assert_eq!(least.value.as_bytes(), None);
    let most = decode(b"i9223372036854775807e", limits).unwrap();
    assert_eq!(most.value.as_integer(), Some(i64::MAX));
    assert_eq!(
        decode(b"i9223372036854775808e", limits),
        Err(DecodeError::InvalidInteger { offset: 0 })
    );
}

#[test]
fn decodes_nested_lists() {
    let value = decode(b"l4:spami0elee", BencodeLimits::default()).unwrap();
    assert_eq!(value.span, 0..13);
    match &value.value {
        BencodeValue::List(items) => {
            assert_eq!(items.len(), 3);
            assert_eq!(items[0].value.as_bytes(), Some(&b"spam"[..]));
            assert_eq!(items[1].span, 7..10);
            assert_eq!(items[2].value, BencodeValue::List(Vec::new()));
        }
        other => panic!("unexpected {other:?}"),
    }
}

#[test]
fn looks_up_only_dictionaries() {
    let value = decode(b"d1:ai1ee", BencodeLimits::default()).unwrap();
    assert_eq!(
        value.value.dictionary_get(b"a").and_then(|item| item.value.as_integer()),
        Some(1)
    );
    assert!(value.value.dictionary_get(b"b").is_none());
    let list = decode(b"le", BencodeLimits::default()).unwrap();
    assert!(list.value.dictionary_get(b"a").is_none());
}

#[test]
fn prefix_leaves_the_rest_alone() {
    let (value, consumed) = decode_prefix(b"i7eJUNK", BencodeLimits::default()).unwrap();
    assert_eq!(value.value.as_integer(), Some(7));
    assert_eq!(consumed, 3);
    assert_eq!(
        decode(b"i7eJUNK", BencodeLimits::default()),
        Err(DecodeError::TrailingData { offset: 3 })
    );
}

#[test]
fn every_limit_is_enforced() {
    let limits = BencodeLimits::default();
    assert_eq!(
        decode(b"i1e", BencodeLimits { input_bytes: 2, ..limits }),
        Err(DecodeError::InputLimit { maximum: 2 })
    );
    assert_eq!(
        decode(b"5:hello", BencodeLimits { byte_string_bytes: 4, ..limits }),
        Err(DecodeError::ByteStringLimit { maximum: 4 })
    );
    assert_eq!(
        decode(b"li1ei2ee", BencodeLimits { nodes: 2, ..limits }),
        Err(DecodeError::NodeLimit { maximum: 2 })
    );
    assert_eq!(
        decode(b"li1ei2ee", BencodeLimits { collection_items: 1, ..limits }),
        Err(DecodeError::CollectionLimit { maximum: 1 })
    );
}

#[test]
fn every_malformed_input_has_its_error() {
    let limits = BencodeLimits::default();
    assert_eq!(decode(b"", limits), Err(DecodeError::UnexpectedEof { offset: 0 }));
    assert_eq!(
        decode(b"x", limits),
        Err(DecodeError::InvalidMarker { offset: 0, marker: b'x' })
    );
    assert_eq!(decode(b"ie", limits), Err(DecodeError::InvalidInteger { offset: 0 }));
    assert_eq!(
        decode(b"03:abc", limits),
        Err(DecodeError::InvalidByteStringLength { offset: 0 })
    );
    assert!(matches!(
        decode(b"d1:bi1e1:ai2ee", limits),
        Err(DecodeError::NonCanonicalDictionary { .. })
    ));
}

#[test]
fn unordered_keys_pass_where_they_are_allowed() {
    let limits = BencodeLimits {
        canonical_dictionaries: false,
        ..BencodeLimits::default()
    };
    let value = decode(b"d1:bi1e1:ai2ee", limits).unwrap();
    assert_eq!(
        value.value.dictionary_get(b"a").and_then(|item| item.value.as_integer()),
        Some(2)
    );
}

#[test]
fn errors_say_what_is_wrong() {
    assert_eq!(
        decode(b"i7eJUNK", BencodeLimits::default()).unwrap_err().message(),
        "trailing data begins at byte 3"
    );
}

/// A value with its spans and those of everything inside it moved to the front.
fn moved_to_the_front<'a>(value: &SpannedValue<'a>, start: usize) -> SpannedValue<'a> {
    let span = value.span.start - start..value.span.end - start;
    let value = match &value.value {
        BencodeValue::Integer(number) => BencodeValue::Integer(*number),
        BencodeValue::Bytes(bytes) => BencodeValue::Bytes(bytes),
        BencodeValue::List(items) => {
            BencodeValue::List(items.iter().map(|item| moved_to_the_front(item, start)).collect())
        }
        BencodeValue::Dictionary(entries) => BencodeValue::Dictionary(
            entries
                .iter()
                .map(|(key, item)| (*key, moved_to_the_front(item, start)))
                .collect(),
        ),
    };
    SpannedValue { span, value }
}

fn decodes_on_its_own(input: &[u8], value: &SpannedValue) {
    let limits = BencodeLimits::default();
    assert_eq!(
        decode(&input[value.span.clone()], limits),
        Ok(moved_to_the_front(value, value.span.start))
    );
    match &value.value {
        BencodeValue::List(items) => items.iter().for_each(|item| decodes_on_its_own(input, item)),
        BencodeValue::Dictionary(entries) => {
            entries.iter().for_each(|(_, item)| decodes_on_its_own(input, item));
        }
        _ => {}
    }
}

#[test]
fn what_is_nested_decodes_on_its_own() {
    let input = b"d4:infod4:name4:test4:sizei-7ee4:spamli1e3:abclee1:zdee";
    let root = decode(input, BencodeLimits::default()).unwrap();
    assert_eq!(root.span, 0..input.len());
    decodes_on_its_own(input, &root);
}

#[test]
fn children_lie_end_to_end() {
    let input = b"li1e3:abcli2eee";
    let root = decode(input, BencodeLimits::default()).unwrap();
    let BencodeValue::List(items) = root.value else {
        panic!("a list");
    };
    let spans: Vec<_> = items.iter().map(|item| item.span.clone()).collect();
    assert_eq!(spans, [1..4, 4..9, 9..14]);

    let input = b"d1:ai1e2:bb1:xe";
    let root = decode(input, BencodeLimits::default()).unwrap();
    let BencodeValue::Dictionary(entries) = root.value else {
        panic!("a dictionary");
    };
    let spans: Vec<_> = entries.iter().map(|(_, item)| item.span.clone()).collect();
    assert_eq!(spans, [4..7, 11..14]);
}

#[test]
fn every_cut_runs_out_of_input() {
    let limits = BencodeLimits::default();
    let input = b"d4:infod4:name4:test4:sizei-7ee4:spamli10e3:abclee1:zdee";
    assert!(decode(input, limits).is_ok());
    for length in 0..input.len() {
        let error = decode(&input[..length], limits).unwrap_err();
        assert!(
            matches!(error, DecodeError::UnexpectedEof { offset } if offset <= length),
            "{length}: {error:?}"
        );
        assert_eq!(decode_prefix(&input[..length], limits), Err(error));
    }
}

#[test]
fn a_copied_value_is_the_same_value() {
    let input = b"d1:ali1e3:abcd1:xi-2eee1:b0:e";
    let root = decode(input, BencodeLimits::default()).unwrap();
    assert_eq!(root.clone(), root);
    assert_eq!(root.value.clone(), root.value);
}
