//! Reading a metainfo document.

use crate::bencode::{
    bytes_equal, decode, entries_view, first_match, items_view, parse_whole, BencodeLimits,
    BencodeValue, Content, Item, SpannedValue,
};
use crate::bencode_laws::{
    encode, encode_bytes, encode_entries, law_decoded_is_canonical, lemma_place_entries_keys, place,
    place_entries,
};
use crate::hash::{
    digests, ilog2, is_power_of_two, merkle_root_from_layer, power_of_two, sha1_digest,
    sha256_digest, Sha1Hash, Sha256Hash,
};
use crate::metainfo::{
    aligned, assembled, bytes_at, chunks, content_of, copy_files, digest_view, duplicate_of,
    entries_of, file_at, file_paths, files_view, find, has_attribute, header_of, hybrid_failure,
    info_header_of, integer_at, is_large, layers_bounded, is_referenced, layer_failure,
    layers_failure, layers_of, layout_of, length_at, list_at, metainfo_of, missing, name_of,
    offsets_of, optional_integer_at, parts_of, piece_hashes_of, piece_layers_of, piece_length_of,
    pieces_root_of, same_content, sha1_views, text_of, tiers_of, tiers_view, total_of, trackers_of,
    tree_files, utf8_strings, v1_file, v1_files_of, v1_list, v1_side, v2_file, v2_files_of,
    web_seeds_of, with_offsets, Failure, FileEntry, FileModel, Header, Layout, MetaModel, Metainfo,
    MetainfoError, TorrentVersion,
};
use crate::metainfo_laws::law_files_are_laid_out;
use crate::num::div_ceil;
use crate::path::{copy_strings, texts, TorrentPath};
use crate::path_order::{find_collision, path_keys, path_views};
use crate::piece_layers::PieceLayers;
use vstd::prelude::*;
use vstd::slice::{slice_subrange, slice_to_vec};
use vstd::utf8::{decode_utf8, encode_utf8, valid_utf8};

verus! {

/// `String::from_utf8`: succeeds exactly on valid UTF-8, and then gives the
/// text that the bytes encode.
#[verifier::external_body]
pub(crate) fn string_from_utf8(bytes: &[u8]) -> (result: Option<String>)
    ensures
        match result {
            Some(text) => valid_utf8(bytes@) && text@ == decode_utf8(bytes@),
            None => !valid_utf8(bytes@),
        },
{
    String::from_utf8(bytes.to_vec()).ok()
}

fn text(value: &[u8], field: &'static str) -> (result: Result<String, MetainfoError>)
    ensures
        match result {
            Ok(text) => text_of(value@, field) == Ok::<Seq<char>, Failure>(text@),
            Err(error) => text_of(value@, field) == Err::<Seq<char>, Failure>(error@),
        },
{
    match string_from_utf8(value) {
        Some(text) => Ok(text),
        None => Err(MetainfoError::Utf8 { field }),
    }
}

fn dictionary<'a, 'b>(value: &'b SpannedValue<'a>) -> (result: Option<
    &'b Vec<(&'a [u8], SpannedValue<'a>)>,
>)
    ensures
        match result {
            Some(entries) => entries_of(value@) == Some(entries_view(entries@)),
            None => entries_of(value@) is None,
        },
{
    match &value.value {
        BencodeValue::Dictionary(values) => {
            assert(value@.content->Dictionary_0 =~= entries_view(values@));
            Some(values)
        },
        _ => None,
    }
}

fn list<'a, 'b>(value: &'b SpannedValue<'a>) -> (result: Option<&'b Vec<SpannedValue<'a>>>)
    ensures
        match result {
            Some(items) => value@.content == Content::List(items_view(items@)),
            None => !(value@.content is List),
        },
{
    match &value.value {
        BencodeValue::List(values) => {
            assert(value@.content->List_0 =~= items_view(values@));
            Some(values)
        },
        _ => None,
    }
}

fn get<'a, 'b>(dictionary: &'b Vec<(&'a [u8], SpannedValue<'a>)>, key: &str) -> (result: Option<
    &'b SpannedValue<'a>,
>)
    ensures
        match result {
            Some(value) => find(entries_view(dictionary@), key) == Some(value@),
            None => find(entries_view(dictionary@), key) is None,
        },
{
    let ghost entries = entries_view(dictionary@);
    let bytes = key.as_bytes();
    let mut i: usize = 0;
    while i < dictionary.len()
        invariant
            i <= dictionary@.len(),
            entries == entries_view(dictionary@),
            bytes@ == encode_utf8(key@),
            first_match(entries, bytes@, 0) == first_match(
                entries,
                bytes@,
                i as int,
            ),
        decreases dictionary@.len() - i,
    {
        if bytes_equal(dictionary[i].0, bytes) {
            return Some(&dictionary[i].1);
        }
        i += 1;
    }
    None
}

fn bytes_under<'a>(dictionary: &Vec<(&'a [u8], SpannedValue<'a>)>, key: &str) -> (result: Option<
    &'a [u8],
>)
    ensures
        match result {
            Some(bytes) => bytes_at(entries_view(dictionary@), key) == Some(bytes@),
            None => bytes_at(entries_view(dictionary@), key) is None,
        },
{
    match get(dictionary, key) {
        Some(value) => value.value.as_bytes(),
        None => None,
    }
}

fn required_bytes<'a>(
    dictionary: &Vec<(&'a [u8], SpannedValue<'a>)>,
    key: &str,
    field: &'static str,
) -> (result: Result<&'a [u8], MetainfoError>)
    ensures
        match result {
            Ok(bytes) => bytes_at(entries_view(dictionary@), key) == Some(bytes@),
            Err(error) => bytes_at(entries_view(dictionary@), key) is None && error@ == missing(
                field,
            ),
        },
{
    match bytes_under(dictionary, key) {
        Some(bytes) => Ok(bytes),
        None => Err(MetainfoError::Field(field)),
    }
}

fn required_integer(
    dictionary: &Vec<(&[u8], SpannedValue<'_>)>,
    key: &str,
    field: &'static str,
) -> (result: Result<i64, MetainfoError>)
    ensures
        match result {
            Ok(value) => integer_at(entries_view(dictionary@), key) == Some(value as int),
            Err(error) => integer_at(entries_view(dictionary@), key) is None && error@ == missing(
                field,
            ),
        },
{
    match get(dictionary, key) {
        Some(value) => match value.value.as_integer() {
            Some(value) => Ok(value),
            None => Err(MetainfoError::Field(field)),
        },
        None => Err(MetainfoError::Field(field)),
    }
}

fn optional_integer(
    dictionary: &Vec<(&[u8], SpannedValue<'_>)>,
    key: &str,
    field: &'static str,
) -> (result: Result<Option<i64>, MetainfoError>)
    ensures
        match result {
            Ok(value) => optional_integer_at(entries_view(dictionary@), key, field) == Ok::<
                Option<int>,
                Failure,
            >(
                match value {
                    Some(value) => Some(value as int),
                    None => None,
                },
            ),
            Err(error) => optional_integer_at(entries_view(dictionary@), key, field) == Err::<
                Option<int>,
                Failure,
            >(error@),
        },
{
    match get(dictionary, key) {
        Some(value) => match value.value.as_integer() {
            Some(value) => Ok(Some(value)),
            None => Err(MetainfoError::Field(field)),
        },
        None => Ok(None),
    }
}

fn nonnegative_u64(value: i64, field: &'static str) -> (result: Result<u64, MetainfoError>)
    ensures
        match result {
            Ok(length) => length == value,
            Err(error) => value < 0 && error@ == Failure::Plain(
                MetainfoError::IntegerRange { field },
            ),
        },
{
    if value < 0 {
        Err(MetainfoError::IntegerRange { field })
    } else {
        Ok(value as u64)
    }
}

/// A length that must be there and not be negative.
fn required_length(
    dictionary: &Vec<(&[u8], SpannedValue<'_>)>,
    key: &str,
    field: &'static str,
) -> (result: Result<u64, MetainfoError>)
    ensures
        match result {
            Ok(length) => length_at(entries_view(dictionary@), key, field) == Ok::<int, Failure>(
                length as int,
            ),
            Err(error) => length_at(entries_view(dictionary@), key, field) == Err::<int, Failure>(
                error@,
            ),
        },
{
    match required_integer(dictionary, key, field) {
        Ok(value) => nonnegative_u64(value, field),
        Err(error) => Err(error),
    }
}

fn contains_byte(bytes: &[u8], letter: u8) -> (result: bool)
    ensures
        result == bytes@.contains(letter),
{
    let mut i: usize = 0;
    while i < bytes.len()
        invariant
            i <= bytes@.len(),
            forall|k: int| 0 <= k < i ==> bytes@[k] != letter,
        decreases bytes@.len() - i,
    {
        if bytes[i] == letter {
            return true;
        }
        i += 1;
    }
    false
}

fn attribute(dictionary: &Vec<(&[u8], SpannedValue<'_>)>, letter: u8) -> (result: bool)
    ensures
        result == has_attribute(entries_view(dictionary@), letter),
{
    match bytes_under(dictionary, "attr") {
        Some(attributes) => contains_byte(attributes, letter),
        None => false,
    }
}

fn parse_v1_piece_hashes(info: &Vec<(&[u8], SpannedValue<'_>)>, has_v1: bool) -> (result: Result<
    Vec<Sha1Hash>,
    MetainfoError,
>)
    ensures
        !has_v1 ==> result is Ok && result->Ok_0@.len() == 0,
        has_v1 ==> match result {
            Ok(hashes) => piece_hashes_of(entries_view(info@)) == Ok::<Seq<Seq<u8>>, Failure>(
                sha1_views(hashes@),
            ),
            Err(error) => piece_hashes_of(entries_view(info@)) == Err::<Seq<Seq<u8>>, Failure>(
                error@,
            ),
        },
{
    if !has_v1 {
        return Ok(Vec::new());
    }
    let pieces = match required_bytes(info, "pieces", "info.pieces") {
        Ok(pieces) => pieces,
        Err(error) => {
            return Err(error);
        },
    };
    if pieces.len() % 20 != 0 {
        return Err(MetainfoError::InvalidV1Pieces);
    }
    let mut hashes: Vec<Sha1Hash> = Vec::new();
    let mut at: usize = 0;
    while at < pieces.len()
        invariant
            pieces@.len() % 20 == 0,
            at <= pieces@.len(),
            at == hashes@.len() * 20,
            forall|k: int|
                0 <= k < hashes@.len() ==> (#[trigger] hashes@[k])@ == pieces@.subrange(
                    k * 20,
                    k * 20 + 20,
                ),
        decreases pieces@.len() - at,
    {
        let chunk = slice_subrange(pieces, at, at + 20);
        match Sha1Hash::from_slice(chunk) {
            Some(hash) => hashes.push(hash),
            None => {
                return Err(MetainfoError::InvalidV1Pieces);
            },
        }
        at += 20;
    }
    assert(sha1_views(hashes@) =~= chunks(pieces@, 20));
    Ok(hashes)
}

/// The digests of a piece layer, if its bytes are whole digests.
fn parse_layer(bytes: &[u8]) -> (result: Option<Vec<Sha256Hash>>)
    ensures
        match result {
            Some(hashes) => bytes@.len() % 32 == 0 && digests(hashes@) == chunks(bytes@, 32),
            None => bytes@.len() % 32 != 0,
        },
{
    if bytes.len() % 32 != 0 {
        return None;
    }
    let mut hashes: Vec<Sha256Hash> = Vec::new();
    let mut at: usize = 0;
    while at < bytes.len()
        invariant
            bytes@.len() % 32 == 0,
            at <= bytes@.len(),
            at == hashes@.len() * 32,
            forall|k: int|
                0 <= k < hashes@.len() ==> (#[trigger] hashes@[k])@ == bytes@.subrange(
                    k * 32,
                    k * 32 + 32,
                ),
        decreases bytes@.len() - at,
    {
        let chunk = slice_subrange(bytes, at, at + 32);
        match Sha256Hash::from_slice(chunk) {
            Some(hash) => hashes.push(hash),
            None => {
                return None;
            },
        }
        at += 32;
    }
    assert(digests(hashes@) =~= chunks(bytes@, 32));
    Some(hashes)
}

fn make_file(
    components: Vec<String>,
    length: u64,
    pieces_root: Option<Sha256Hash>,
    padding: bool,
) -> (result: Result<FileEntry, MetainfoError>)
    ensures
        match result {
            Ok(file) => file.path.wf() && file_at(
                texts(components@),
                length as int,
                digest_view(pieces_root),
                padding,
            ) == Ok::<FileModel, Failure>(file@),
            Err(error) => file_at(
                texts(components@),
                length as int,
                digest_view(pieces_root),
                padding,
            ) == Err::<FileModel, Failure>(error@),
        },
{
    match TorrentPath::new(components) {
        Ok(path) => Ok(FileEntry { path, length, pieces_root, padding, wire_offset: 0 }),
        Err(error) => Err(MetainfoError::Path(error)),
    }
}

/// The components of a v1 path, below the torrent's name.
fn parse_parts(parts: &Vec<SpannedValue<'_>>, name: &String) -> (result: Result<
    Vec<String>,
    MetainfoError,
>)
    ensures
        match result {
            Ok(components) => parts_of(items_view(parts@)) is Ok && texts(components@)
                == seq![name@] + parts_of(items_view(parts@))->Ok_0,
            Err(error) => parts_of(items_view(parts@)) == Err::<Seq<Seq<char>>, Failure>(error@),
        },
{
    let ghost items = items_view(parts@);
    let mut components: Vec<String> = Vec::new();
    components.push(name.clone());
    let mut i: usize = 0;
    proof {
        assert(items.take(0) =~= Seq::empty());
        assert(texts(components@) =~= seq![name@] + Seq::<Seq<char>>::empty());
    }
    while i < parts.len()
        invariant
            items == items_view(parts@),
            i <= parts@.len(),
            parts_of(items.take(i as int)) is Ok,
            texts(components@) == seq![name@] + parts_of(items.take(i as int))->Ok_0,
        decreases parts@.len() - i,
    {
        proof {
            assert(items.take(i + 1).drop_last() =~= items.take(i as int));
            assert(items.take(i + 1).last() == parts@[i as int]@);
            lemma_parts_prefix(items, i + 1);
        }
        let ghost before = components@;
        match parts[i].value.as_bytes() {
            Some(bytes) => match text(bytes, "info.files[].path[]") {
                Ok(part) => {
                    components.push(part);
                    assert(texts(components@) =~= texts(before).push(part@));
                    assert(texts(components@) =~= seq![name@] + parts_of(
                        items.take(i + 1),
                    )->Ok_0);
                },
                Err(error) => {
                    return Err(error);
                },
            },
            None => {
                return Err(MetainfoError::Field("info.files[].path[]"));
            },
        }
        i += 1;
    }
    assert(items.take(items.len() as int) =~= items);
    Ok(components)
}

/// The first bad component decides.
proof fn lemma_parts_prefix(items: Seq<Item>, n: int)
    requires
        0 <= n <= items.len(),
    ensures
        parts_of(items.take(n)) is Err ==> parts_of(items) == parts_of(items.take(n)),
    decreases items.len(),
{
    if n < items.len() {
        lemma_parts_prefix(items.drop_last(), n);
        assert(items.drop_last().take(n) =~= items.take(n));
    } else {
        assert(items.take(n) =~= items);
    }
}

fn parse_v1_file(file: &SpannedValue<'_>, name: &String) -> (result: Result<
    FileEntry,
    MetainfoError,
>)
    ensures
        match result {
            Ok(entry) => entry.path.wf() && v1_file(file@, name@) == Ok::<FileModel, Failure>(
                entry@,
            ),
            Err(error) => v1_file(file@, name@) == Err::<FileModel, Failure>(error@),
        },
{
    let dict = match dictionary(file) {
        Some(dict) => dict,
        None => {
            return Err(MetainfoError::Field("info.files[]"));
        },
    };
    let length: u64 = match required_length(dict, "length", "info.files[].length") {
        Ok(length) => length,
        Err(error) => {
            return Err(error);
        },
    };
    let parts = match get(dict, "path") {
        Some(value) => match list(value) {
            Some(parts) => parts,
            None => {
                return Err(MetainfoError::Field("info.files[].path"));
            },
        },
        None => {
            return Err(MetainfoError::Field("info.files[].path"));
        },
    };
    let components = match parse_parts(parts, name) {
        Ok(components) => components,
        Err(error) => {
            return Err(error);
        },
    };
    let padding: bool = attribute(dict, 0x70);
    make_file(components, length, None, padding)
}

/// The first bad file decides.
proof fn lemma_v1_list_prefix(items: Seq<Item>, name: Seq<char>, n: int)
    requires
        0 <= n <= items.len(),
    ensures
        v1_list(items.take(n), name) is Err ==> v1_list(items, name) == v1_list(
            items.take(n),
            name,
        ),
    decreases items.len(),
{
    if n < items.len() {
        lemma_v1_list_prefix(items.drop_last(), name, n);
        assert(items.drop_last().take(n) =~= items.take(n));
    } else {
        assert(items.take(n) =~= items);
    }
}

/// Whether every path of a list of files is valid.
pub open spec fn paths_wf(files: Seq<FileEntry>) -> bool {
    forall|i: int| 0 <= i < files.len() ==> (#[trigger] files[i]).path.wf()
}

fn parse_v1_files(info: &Vec<(&[u8], SpannedValue<'_>)>, name: &String) -> (result: Result<
    Vec<FileEntry>,
    MetainfoError,
>)
    ensures
        match result {
            Ok(files) => paths_wf(files@) && v1_files_of(entries_view(info@), name@) == Ok::<
                Seq<FileModel>,
                Failure,
            >(files_view(files@)),
            Err(error) => v1_files_of(entries_view(info@), name@) == Err::<
                Seq<FileModel>,
                Failure,
            >(error@),
        },
{
    if let Some(value) = get(info, "files") {
        let values = match list(value) {
            Some(values) => values,
            None => {
                return Err(MetainfoError::Field("info.files"));
            },
        };
        if values.len() == 0 {
            return Err(MetainfoError::EmptyFiles);
        }
        let ghost items = items_view(values@);
        let mut files: Vec<FileEntry> = Vec::new();
        let mut i: usize = 0;
        proof {
            assert(items.take(0) =~= Seq::empty());
            assert(files_view(files@) =~= Seq::empty());
        }
        while i < values.len()
            invariant
                items == items_view(values@),
                items.len() > 0,
                v1_files_of(entries_view(info@), name@) == v1_list(items, name@),
                i <= values@.len(),
                paths_wf(files@),
                v1_list(items.take(i as int), name@) == Ok::<Seq<FileModel>, Failure>(
                    files_view(files@),
                ),
            decreases values@.len() - i,
        {
            proof {
                assert(items.take(i + 1).drop_last() =~= items.take(i as int));
                assert(items.take(i + 1).last() == values@[i as int]@);
                lemma_v1_list_prefix(items, name@, i + 1);
            }
            let ghost before = files@;
            match parse_v1_file(&values[i], name) {
                Ok(file) => {
                    files.push(file);
                    assert(files_view(files@) =~= files_view(before).push(file@));
                },
                Err(error) => {
                    return Err(error);
                },
            }
            i += 1;
        }
        assert(items.take(items.len() as int) =~= items);
        Ok(files)
    } else {
        let length: u64 = match required_length(info, "length", "info.length") {
            Ok(length) => length,
            Err(error) => {
                return Err(error);
            },
        };
        let mut components: Vec<String> = Vec::new();
        components.push(name.clone());
        assert(texts(components@) =~= seq![name@]);
        match make_file(components, length, None, false) {
            Ok(file) => {
                let mut files: Vec<FileEntry> = Vec::new();
                files.push(file);
                assert(files_view(files@) =~= seq![file@]);
                Ok(files)
            },
            Err(error) => Err(error),
        }
    }
}

proof fn lemma_total_step(files: Seq<FileModel>, n: int)
    requires
        0 <= n < files.len(),
    ensures
        total_of(files.take(n + 1)) == total_of(files.take(n)) + files[n].length,
{
    assert(files.take(n + 1).drop_last() =~= files.take(n));
}

/// With no negative length, the files up to some point take no more than all of them.
pub proof fn lemma_total_monotone(files: Seq<FileModel>, n: int)
    requires
        0 <= n <= files.len(),
        forall|i: int| 0 <= i < files.len() ==> (#[trigger] files[i]).length >= 0,
    ensures
        0 <= total_of(files.take(n)) <= total_of(files),
    decreases files.len(),
{
    if n < files.len() {
        assert forall|i: int| 0 <= i < files.drop_last().len() implies (
        #[trigger] files.drop_last()[i]).length >= 0 by {
            assert(files.drop_last()[i] == files[i]);
        }
        lemma_total_monotone(files.drop_last(), n);
        assert(files.drop_last().take(n) =~= files.take(n));
        assert(files.last() == files[files.len() - 1]);
    } else {
        assert(files.take(n) =~= files);
        if n > 0 {
            assert forall|i: int| 0 <= i < files.drop_last().len() implies (
            #[trigger] files.drop_last()[i]).length >= 0 by {
                assert(files.drop_last()[i] == files[i]);
            }
            lemma_total_monotone(files.drop_last(), n - 1);
            assert(files.drop_last().take(n - 1) =~= files.drop_last());
            assert(files.last() == files[files.len() - 1]);
        }
    }
}

fn sum_file_lengths(files: &Vec<FileEntry>) -> (result: Result<u64, MetainfoError>)
    ensures
        match result {
            Ok(total) => total == total_of(files_view(files@)),
            Err(error) => total_of(files_view(files@)) > u64::MAX && error@ == Failure::Plain(
                MetainfoError::TotalLengthOverflow,
            ),
        },
{
    let ghost models = files_view(files@);
    let mut total: u64 = 0;
    let mut i: usize = 0;
    assert(models.take(0) =~= Seq::empty());
    while i < files.len()
        invariant
            models == files_view(files@),
            i <= files@.len(),
            total == total_of(models.take(i as int)),
        decreases files@.len() - i,
    {
        proof {
            lemma_total_step(models, i as int);
            lemma_total_monotone(models, i + 1);
        }
        total = match total.checked_add(files[i].length) {
            Some(total) => total,
            None => {
                return Err(MetainfoError::TotalLengthOverflow);
            },
        };
        i += 1;
    }
    assert(models.take(models.len() as int) =~= models);
    Ok(total)
}

fn assign_wire_offsets(files: &mut Vec<FileEntry>) -> (result: Result<(), MetainfoError>)
    ensures
        match result {
            Ok(()) => {
                &&& offsets_of(files_view(old(files)@)) == Ok::<Seq<FileModel>, Failure>(
                    files_view(final(files)@),
                )
                &&& paths_wf(old(files)@) ==> paths_wf(final(files)@)
            },
            Err(error) => offsets_of(files_view(old(files)@)) == Err::<Seq<FileModel>, Failure>(
                error@,
            ),
        },
{
    let ghost before = files@;
    let ghost models = files_view(files@);
    let mut offset: u64 = 0;
    let mut i: usize = 0;
    assert(models.take(0) =~= Seq::empty());
    while i < files.len()
        invariant
            models == files_view(before),
            before == old(files)@,
            files@.len() == before.len(),
            i <= files@.len(),
            offset == total_of(models.take(i as int)),
            forall|k: int|
                i <= k < files@.len() ==> files@[k] == before[k],
            forall|k: int|
                0 <= k < i ==> (#[trigger] files@[k])@ == (FileModel {
                    wire_offset: total_of(models.take(k)),
                    ..models[k]
                }),
            forall|k: int| 0 <= k < files@.len() ==> (#[trigger] files@[k]).path == before[k].path,
        decreases files@.len() - i,
    {
        proof {
            lemma_total_step(models, i as int);
            lemma_total_monotone(models, i + 1);
        }
        let length: u64 = files[i].length;
        files[i].wire_offset = offset;
        offset = match offset.checked_add(length) {
            Some(offset) => offset,
            None => {
                return Err(MetainfoError::TotalLengthOverflow);
            },
        };
        i += 1;
    }
    assert(models.take(models.len() as int) =~= models);
    assert(files_view(files@) =~= with_offsets(models));
    Ok(())
}

fn validate_unique_paths(files: &Vec<FileEntry>) -> (result: Result<(), MetainfoError>)
    ensures
        match result {
            Ok(()) => duplicate_of(files_view(files@)) is None,
            Err(error) => duplicate_of(files_view(files@)) == Some(error@),
        },
{
    let mut paths: Vec<&TorrentPath> = Vec::new();
    let mut i: usize = 0;
    while i < files.len()
        invariant
            i <= files@.len(),
            paths@.len() == i,
            forall|k: int| 0 <= k < i ==> (#[trigger] paths@[k])@ == files@[k].path@,
        decreases files@.len() - i,
    {
        paths.push(&files[i].path);
        i += 1;
    }
    assert(path_views(paths@) =~= file_paths(files_view(files@)));
    match find_collision(&paths) {
        Some(at) => Err(MetainfoError::DuplicatePath(files[at].path.clone())),
        None => Ok(()),
    }
}

/// The positions of the files that hold content.
fn content_positions(files: &Vec<FileEntry>) -> (positions: Vec<usize>)
    ensures
        positions@.len() == content_of(files_view(files@)).len(),
        forall|k: int|
            0 <= k < positions@.len() ==> {
                &&& (#[trigger] positions@[k]) < files@.len()
                &&& files@[positions@[k] as int]@ == content_of(files_view(files@))[k]
            },
{
    let ghost models = files_view(files@);
    let mut positions: Vec<usize> = Vec::new();
    let mut i: usize = 0;
    assert(models.take(0) =~= Seq::empty());
    while i < files.len()
        invariant
            models == files_view(files@),
            i <= files@.len(),
            positions@.len() == content_of(models.take(i as int)).len(),
            forall|k: int|
                0 <= k < positions@.len() ==> {
                    &&& (#[trigger] positions@[k]) < files@.len()
                    &&& files@[positions@[k] as int]@ == content_of(models.take(i as int))[k]
                },
        decreases files@.len() - i,
    {
        proof {
            assert(models.take(i + 1).drop_last() =~= models.take(i as int));
            assert(models.take(i + 1).last() == files@[i as int]@);
        }
        if !files[i].padding {
            positions.push(i);
        }
        i += 1;
    }
    assert(models.take(models.len() as int) =~= models);
    positions
}

fn validate_hybrid_layout(
    v1_files: &Vec<FileEntry>,
    v2_files: &Vec<FileEntry>,
    piece_length: u32,
) -> (result: Result<(), MetainfoError>)
    requires
        piece_length > 0,
        total_of(files_view(v1_files@)) <= u64::MAX,
    ensures
        match result {
            Ok(()) => hybrid_failure(
                files_view(v1_files@),
                files_view(v2_files@),
                piece_length as int,
            ) is None,
            Err(error) => hybrid_failure(
                files_view(v1_files@),
                files_view(v2_files@),
                piece_length as int,
            ) == Some(error@),
        },
{
    let ghost v1 = files_view(v1_files@);
    let ghost v2 = files_view(v2_files@);
    let v1_content = content_positions(v1_files);
    let v2_content = content_positions(v2_files);
    if v1_content.len() != v2_content.len() {
        return Err(MetainfoError::HybridFileMismatch);
    }
    let mut i: usize = 0;
    while i < v1_content.len()
        invariant
            v1 == files_view(v1_files@),
            v2 == files_view(v2_files@),
            v1_content@.len() == v2_content@.len(),
            v1_content@.len() == content_of(v1).len(),
            v2_content@.len() == content_of(v2).len(),
            forall|k: int|
                0 <= k < v1_content@.len() ==> {
                    &&& (#[trigger] v1_content@[k]) < v1_files@.len()
                    &&& v1_files@[v1_content@[k] as int]@ == content_of(v1)[k]
                },
            forall|k: int|
                0 <= k < v2_content@.len() ==> {
                    &&& (#[trigger] v2_content@[k]) < v2_files@.len()
                    &&& v2_files@[v2_content@[k] as int]@ == content_of(v2)[k]
                },
            i <= v1_content@.len(),
            forall|k: int|
                0 <= k < i ==> (#[trigger] content_of(v1)[k]).path == (#[trigger] content_of(
                    v2,
                )[k]).path && content_of(v1)[k].length == content_of(v2)[k].length,
        decreases v1_content@.len() - i,
    {
        let left = &v1_files[v1_content[i]];
        let right = &v2_files[v2_content[i]];
        assert(left@ == content_of(v1)[i as int]);
        assert(right@ == content_of(v2)[i as int]);
        if !left.path.same(&right.path) || left.length != right.length {
            return Err(MetainfoError::HybridFileMismatch);
        }
        i += 1;
    }
    assert(same_content(v1, v2));
    let alignment: u64 = piece_length as u64;
    let mut offset: u64 = 0;
    let mut at: usize = 0;
    assert(v1.take(0) =~= Seq::empty());
    while at < v1_files.len()
        invariant
            v1 == files_view(v1_files@),
            same_content(v1, files_view(v2_files@)),
            total_of(v1) <= u64::MAX,
            alignment == piece_length,
            alignment > 0,
            at <= v1_files@.len(),
            offset == total_of(v1.take(at as int)),
            forall|k: int|
                0 <= k < at && !(#[trigger] v1[k]).padding && v1[k].length > 0 ==> total_of(
                    v1.take(k),
                ) % (alignment as int) == 0,
        decreases v1_files@.len() - at,
    {
        let file = &v1_files[at];
        assert(file@ == v1[at as int]);
        if !file.padding && file.length > 0 && offset % alignment != 0 {
            assert(!aligned(v1, piece_length as int));
            return Err(MetainfoError::HybridAlignment);
        }
        proof {
            lemma_total_step(v1, at as int);
            lemma_total_monotone(v1, at + 1);
        }
        offset = offset + file.length;
        at += 1;
    }
    assert(aligned(v1, piece_length as int));
    Ok(())
}

fn parse_pieces_root(attributes: &Vec<(&[u8], SpannedValue<'_>)>) -> (result: Result<
    Option<Sha256Hash>,
    MetainfoError,
>)
    ensures
        match result {
            Ok(root) => pieces_root_of(entries_view(attributes@)) == Ok::<
                Option<Seq<u8>>,
                Failure,
            >(digest_view(root)),
            Err(error) => pieces_root_of(entries_view(attributes@)) == Err::<
                Option<Seq<u8>>,
                Failure,
            >(error@),
        },
{
    match get(attributes, "pieces root") {
        None => Ok(None),
        Some(value) => match value.value.as_bytes() {
            None => Err(MetainfoError::Field("info.file tree.pieces root")),
            Some(bytes) => match Sha256Hash::from_slice(bytes) {
                Some(root) => Ok(Some(root)),
                None => Err(MetainfoError::Field("info.file tree.pieces root")),
            },
        },
    }
}

fn parse_v2_file(value: &SpannedValue<'_>, components: &Vec<String>) -> (result: Result<
    FileEntry,
    MetainfoError,
>)
    ensures
        match result {
            Ok(entry) => entry.path.wf() && v2_file(value@, texts(components@)) == Ok::<
                FileModel,
                Failure,
            >(entry@),
            Err(error) => v2_file(value@, texts(components@)) == Err::<FileModel, Failure>(error@),
        },
{
    let attributes = match dictionary(value) {
        Some(attributes) => attributes,
        None => {
            return Err(MetainfoError::Field("info.file tree file"));
        },
    };
    let length: u64 = match required_length(attributes, "length", "info.file tree.length") {
        Ok(length) => length,
        Err(error) => {
            return Err(error);
        },
    };
    if attribute(attributes, 0x6c) {
        return Err(MetainfoError::SymlinkUnsupported);
    }
    let pieces_root = match parse_pieces_root(attributes) {
        Ok(root) => root,
        Err(error) => {
            return Err(error);
        },
    };
    let padding: bool = attribute(attributes, 0x70);
    make_file(copy_strings(components), length, pieces_root, padding)
}

/// The first bad entry decides.
proof fn lemma_tree_prefix(tree: Seq<(Seq<u8>, Item)>, path: Seq<Seq<char>>, depth: nat, n: int)
    requires
        0 <= n <= tree.len(),
        depth <= 64,
    ensures
        tree_files(tree.take(n), path, depth) is Err ==> tree_files(tree, path, depth)
            == tree_files(tree.take(n), path, depth),
    decreases tree.len(),
{
    if n < tree.len() {
        lemma_tree_prefix(tree.drop_last(), path, depth, n);
        assert(tree.drop_last().take(n) =~= tree.take(n));
    } else {
        assert(tree.take(n) =~= tree);
    }
}

fn walk_v2_tree(
    tree: &Vec<(&[u8], SpannedValue<'_>)>,
    components: &mut Vec<String>,
    files: &mut Vec<FileEntry>,
    depth: usize,
) -> (result: Result<(), MetainfoError>)
    requires
        depth <= 65,
    ensures
        match result {
            Ok(()) => {
                &&& tree_files(
                    entries_view(tree@),
                    texts(old(components)@),
                    depth as nat,
                ) is Ok
                &&& files_view(final(files)@) == files_view(old(files)@) + tree_files(
                    entries_view(tree@),
                    texts(old(components)@),
                    depth as nat,
                )->Ok_0
                &&& final(components)@ == old(components)@
                &&& paths_wf(old(files)@) ==> paths_wf(final(files)@)
            },
            Err(error) => tree_files(
                entries_view(tree@),
                texts(old(components)@),
                depth as nat,
            ) == Err::<Seq<FileModel>, Failure>(error@),
        },
    decreases 65 - depth,
{
    if depth > 64 {
        return Err(MetainfoError::FileTreeDepth);
    }
    let ghost entries = entries_view(tree@);
    let ghost base = components@;
    let ghost path = texts(base);
    let ghost before = files_view(files@);
    let mut i: usize = 0;
    proof {
        assert(entries.take(0) =~= Seq::empty());
        assert(before + Seq::<FileModel>::empty() =~= before);
    }
    while i < tree.len()
        invariant
            depth <= 64,
            entries == entries_view(tree@),
            base == old(components)@,
            path == texts(base),
            before == files_view(old(files)@),
            components@ == base,
            i <= tree@.len(),
            tree_files(entries.take(i as int), path, depth as nat) is Ok,
            files_view(files@) == before + tree_files(
                entries.take(i as int),
                path,
                depth as nat,
            )->Ok_0,
            paths_wf(old(files)@) ==> paths_wf(files@),
        decreases tree@.len() - i,
    {
        let ghost so_far = files@;
        let ghost done = tree_files(entries.take(i as int), path, depth as nat)->Ok_0;
        proof {
            assert(entries.take(i + 1).drop_last() =~= entries.take(i as int));
            assert(entries.take(i + 1).last() == (tree@[i as int].0@, tree@[i as int].1@));
            lemma_tree_prefix(entries, path, depth as nat, i + 1);
        }
        let key: &[u8] = tree[i].0;
        let value = &tree[i].1;
        if key.len() == 0 {
            match parse_v2_file(value, components) {
                Ok(file) => {
                    files.push(file);
                    assert(files_view(files@) =~= files_view(so_far).push(file@));
                    assert(files_view(files@) =~= before + done.push(file@));
                },
                Err(error) => {
                    return Err(error);
                },
            }
        } else {
            let component = match text(key, "info.file tree path") {
                Ok(component) => component,
                Err(error) => {
                    return Err(error);
                },
            };
            let subtree = match dictionary(value) {
                Some(subtree) => subtree,
                None => {
                    return Err(MetainfoError::Field("info.file tree directory"));
                },
            };
            components.push(component);
            assert(texts(components@) =~= path.push(component@));
            match walk_v2_tree(subtree, components, files, depth + 1) {
                Ok(()) => {},
                Err(error) => {
                    return Err(error);
                },
            }
            let ghost more = tree_files(
                entries_view(subtree@),
                path.push(component@),
                depth as nat + 1,
            )->Ok_0;
            assert(files_view(files@) =~= before + (done + more));
            components.pop();
            assert(components@ =~= base);
        }
        i += 1;
    }
    assert(entries.take(entries.len() as int) =~= entries);
    Ok(())
}

fn parse_v2_files(info: &Vec<(&[u8], SpannedValue<'_>)>, name: &String) -> (result: Result<
    Vec<FileEntry>,
    MetainfoError,
>)
    ensures
        match result {
            Ok(files) => paths_wf(files@) && v2_files_of(entries_view(info@), name@) == Ok::<
                Seq<FileModel>,
                Failure,
            >(files_view(files@)),
            Err(error) => v2_files_of(entries_view(info@), name@) == Err::<
                Seq<FileModel>,
                Failure,
            >(error@),
        },
{
    let tree = match get(info, "file tree") {
        Some(value) => match dictionary(value) {
            Some(tree) => tree,
            None => {
                return Err(MetainfoError::Field("info.file tree"));
            },
        },
        None => {
            return Err(MetainfoError::Field("info.file tree"));
        },
    };
    let mut files: Vec<FileEntry> = Vec::new();
    let mut components: Vec<String> = Vec::new();
    components.push(name.clone());
    assert(texts(components@) =~= seq![name@]);
    let ghost none = files_view(files@);
    match walk_v2_tree(tree, &mut components, &mut files, 0) {
        Ok(()) => {},
        Err(error) => {
            return Err(error);
        },
    }
    assert(files_view(files@) =~= tree_files(entries_view(tree@), seq![name@], 0)->Ok_0);
    if files.len() == 0 {
        return Err(MetainfoError::EmptyFiles);
    }
    Ok(files)
}

/// The first bad layer decides.
proof fn lemma_layers_prefix(entries: Seq<(Seq<u8>, Item)>, n: int)
    requires
        0 <= n <= entries.len(),
    ensures
        layers_of(entries.take(n)) is Err ==> layers_of(entries) == layers_of(entries.take(n)),
    decreases entries.len(),
{
    if n < entries.len() {
        lemma_layers_prefix(entries.drop_last(), n);
        assert(entries.drop_last().take(n) =~= entries.take(n));
    } else {
        assert(entries.take(n) =~= entries);
    }
}

fn read_layers(dictionary: &Vec<(&[u8], SpannedValue<'_>)>) -> (result: Result<
    PieceLayers,
    MetainfoError,
>)
    ensures
        match result {
            Ok(layers) => layers_of(entries_view(dictionary@)) == Ok::<
                Map<Seq<u8>, Seq<Seq<u8>>>,
                Failure,
            >(layers@) && layers_bounded(layers@),
            Err(error) => layers_of(entries_view(dictionary@)) == Err::<
                Map<Seq<u8>, Seq<Seq<u8>>>,
                Failure,
            >(error@),
        },
{
    let ghost entries = entries_view(dictionary@);
    let mut layers = PieceLayers::new();
    let mut i: usize = 0;
    assert(entries.take(0) =~= Seq::empty());
    while i < dictionary.len()
        invariant
            entries == entries_view(dictionary@),
            i <= dictionary@.len(),
            layers_of(entries.take(i as int)) == Ok::<Map<Seq<u8>, Seq<Seq<u8>>>, Failure>(
                layers@,
            ),
            layers_bounded(layers@),
        decreases dictionary@.len() - i,
    {
        proof {
            assert(entries.take(i + 1).drop_last() =~= entries.take(i as int));
            assert(entries.take(i + 1).last() == (
                dictionary@[i as int].0@,
                dictionary@[i as int].1@,
            ));
            lemma_layers_prefix(entries, i + 1);
        }
        let root = match Sha256Hash::from_slice(dictionary[i].0) {
            Some(root) => root,
            None => {
                return Err(MetainfoError::Field("piece layers key"));
            },
        };
        let bytes = match dictionary[i].1.value.as_bytes() {
            Some(bytes) => bytes,
            None => {
                return Err(MetainfoError::PieceLayer(root));
            },
        };
        assert(bytes@.len() == bytes.len());
        let hashes = match parse_layer(bytes) {
            Some(hashes) => hashes,
            None => {
                return Err(MetainfoError::PieceLayer(root));
            },
        };
        layers.insert(root, hashes);
        i += 1;
    }
    assert(entries.take(entries.len() as int) =~= entries);
    Ok(layers)
}

/// Checks the layer of one file, and finds where it stands.
fn check_layer(
    file: &FileEntry,
    layers: &PieceLayers,
    piece_length: u32,
    required: bool,
) -> (result: Result<Option<usize>, MetainfoError>)
    requires
        piece_length >= 16384,
        layers_bounded(layers@),
    ensures
        match result {
            Ok(position) => {
                &&& layer_failure(file@, layers@, piece_length as int, required) is None
                &&& match position {
                    Some(at) => at < layers.spec_len() && is_large(file@, piece_length as int)
                        && file@.pieces_root == Some(layers.spec_root_at(at as int)),
                    None => is_large(file@, piece_length as int) ==> !layers@.contains_key(
                        file@.pieces_root->0,
                    ),
                }
            },
            Err(error) => layer_failure(file@, layers@, piece_length as int, required) == Some(
                error@,
            ),
        },
{
    if file.padding || file.length == 0 {
        return Ok(None);
    }
    let root = match file.pieces_root {
        Some(root) => root,
        None => {
            return Err(MetainfoError::MissingPiecesRoot);
        },
    };
    if file.length <= piece_length as u64 {
        return Ok(None);
    }
    let expected: u64 = div_ceil(file.length, piece_length as u64);
    match layers.get(&root) {
        None => {
            if required {
                return Err(MetainfoError::PieceLayer(root));
            }
            Ok(None)
        },
        Some(layer) => {
            assert(digests(layer@).len() == layer@.len());
            if layer.len() as u64 != expected {
                return Err(MetainfoError::PieceLayer(root));
            }
            let base_layer: u32 = ilog2(piece_length / 16384);
            if !merkle_root_from_layer(layer.as_slice(), base_layer).same(&root) {
                return Err(MetainfoError::PieceLayerRoot(root));
            }
            Ok(layers.find(&root))
        },
    }
}

/// The first bad file decides.
proof fn lemma_layers_failure_prefix(
    files: Seq<FileModel>,
    layers: Map<Seq<u8>, Seq<Seq<u8>>>,
    piece_length: int,
    required: bool,
    n: int,
)
    requires
        0 <= n <= files.len(),
    ensures
        layers_failure(files.take(n), layers, piece_length, required) is Some ==> layers_failure(
            files,
            layers,
            piece_length,
            required,
        ) == layers_failure(files.take(n), layers, piece_length, required),
    decreases files.len(),
{
    if n < files.len() {
        lemma_layers_failure_prefix(files.drop_last(), layers, piece_length, required, n);
        assert(files.drop_last().take(n) =~= files.take(n));
    } else {
        assert(files.take(n) =~= files);
    }
}

fn parse_piece_layers(
    root: &Vec<(&[u8], SpannedValue<'_>)>,
    files: &Vec<FileEntry>,
    piece_length: u32,
    required: bool,
) -> (result: Result<PieceLayers, MetainfoError>)
    requires
        piece_length >= 16384,
    ensures
        match result {
            Ok(layers) => layers_bounded(layers@) && piece_layers_of(
                entries_view(root@),
                files_view(files@),
                piece_length as int,
                required,
            ) == Ok::<Map<Seq<u8>, Seq<Seq<u8>>>, Failure>(layers@),
            Err(error) => piece_layers_of(
                entries_view(root@),
                files_view(files@),
                piece_length as int,
                required,
            ) == Err::<Map<Seq<u8>, Seq<Seq<u8>>>, Failure>(error@),
        },
{
    let layers = match get(root, "piece layers") {
        Some(value) => match dictionary(value) {
            Some(entries) => match read_layers(entries) {
                Ok(layers) => layers,
                Err(error) => {
                    return Err(error);
                },
            },
            None => {
                return Err(MetainfoError::Field("piece layers"));
            },
        },
        None => PieceLayers::new(),
    };
    let ghost models = files_view(files@);
    let ghost length = piece_length as int;
    let total: usize = layers.len();
    let mut referenced: Vec<bool> = Vec::new();
    let mut at: usize = 0;
    while at < total
        invariant
            at <= total,
            referenced@.len() == at,
            forall|k: int| 0 <= k < at ==> !#[trigger] referenced@[k],
        decreases total - at,
    {
        referenced.push(false);
        at += 1;
    }
    let mut i: usize = 0;
    assert(models.take(0) =~= Seq::empty());
    while i < files.len()
        invariant
            models == files_view(files@),
            length == piece_length,
            piece_length >= 16384,
            layers_bounded(layers@),
            total == layers.spec_len(),
            layers.sorted_roots(),
            referenced@.len() == total,
            i <= files@.len(),
            layers_failure(models.take(i as int), layers@, length, required) is None,
            forall|k: int|
                0 <= k < total ==> (#[trigger] referenced@[k]) == is_referenced(
                    models.take(i as int),
                    length,
                    layers.spec_root_at(k),
                ),
            forall|j: int|
                0 <= j < i && is_large(#[trigger] models[j], length) ==> models[j].pieces_root
                    is Some,
            piece_layers_of(entries_view(root@), models, length, required) == (
            match layers_failure(models, layers@, length, required) {
                Some(failure) => Err(failure),
                None => if exists|key: Seq<u8>|
                    layers@.contains_key(key) && !is_referenced(models, length, key) {
                    Err(Failure::Plain(MetainfoError::UnreferencedPieceLayer))
                } else {
                    Ok(layers@)
                },
            }),
        decreases files@.len() - i,
    {
        let ghost so_far = models.take(i as int);
        let ghost next = models.take(i + 1);
        proof {
            assert(next.drop_last() =~= so_far);
            assert(next.last() == files@[i as int]@);
            lemma_layers_failure_prefix(models, layers@, length, required, i + 1);
        }
        let ghost marks = referenced@;
        match check_layer(&files[i], &layers, piece_length, required) {
            Ok(position) => {
                if let Some(found) = position {
                    referenced[found] = true;
                }
                assert forall|k: int| 0 <= k < total implies (#[trigger] referenced@[k])
                    == is_referenced(next, length, layers.spec_root_at(k)) by {
                    let key = layers.spec_root_at(k);
                    layers.lemma_roots(key);
                    assert(layers@.contains_key(key));
                    if is_referenced(so_far, length, key) {
                        let j = choose|j: int|
                            0 <= j < so_far.len() && is_large(#[trigger] so_far[j], length)
                                && so_far[j].pieces_root == Some(key);
                        assert(next[j] == so_far[j]);
                        assert(is_referenced(next, length, key));
                    }
                    if is_referenced(next, length, key) {
                        let j = choose|j: int|
                            0 <= j < next.len() && is_large(#[trigger] next[j], length)
                                && next[j].pieces_root == Some(key);
                        if j < i {
                            assert(next[j] == so_far[j]);
                            assert(is_referenced(so_far, length, key));
                        } else {
                            assert(position is Some);
                            layers.lemma_distinct(k, position->0 as int);
                        }
                    }
                    if position == Some(k as usize) {
                        assert(is_large(next[i as int], length));
                    }
                }
            },
            Err(error) => {
                return Err(error);
            },
        }
        i += 1;
    }
    assert(models.take(models.len() as int) =~= models);
    let mut slot: usize = 0;
    while slot < total
        invariant
            slot <= total,
            layers_bounded(layers@),
            total == layers.spec_len(),
            referenced@.len() == total,
            layers_failure(models, layers@, length, required) is None,
            forall|k: int|
                0 <= k < total ==> (#[trigger] referenced@[k]) == is_referenced(
                    models,
                    length,
                    layers.spec_root_at(k),
                ),
            forall|k: int| 0 <= k < slot ==> #[trigger] referenced@[k],
            length == piece_length,
            models == files_view(files@),
            piece_layers_of(entries_view(root@), models, length, required) == (
            match layers_failure(models, layers@, length, required) {
                Some(failure) => Err(failure),
                None => if exists|key: Seq<u8>|
                    layers@.contains_key(key) && !is_referenced(models, length, key) {
                    Err(Failure::Plain(MetainfoError::UnreferencedPieceLayer))
                } else {
                    Ok(layers@)
                },
            }),
        decreases total - slot,
    {
        if !referenced[slot] {
            proof {
                let key = layers.spec_root_at(slot as int);
                layers.lemma_roots(key);
                assert(layers@.contains_key(key) && !is_referenced(models, length, key));
            }
            return Err(MetainfoError::UnreferencedPieceLayer);
        }
        slot += 1;
    }
    proof {
        assert forall|key: Seq<u8>| layers@.contains_key(key) implies is_referenced(
            models,
            length,
            key,
        ) by {
            layers.lemma_roots(key);
            let k = choose|k: int|
                0 <= k < layers.spec_len() && #[trigger] layers.spec_root_at(k) == key;
            assert(referenced@[k]);
        }
    }
    Ok(layers)
}

fn read_strings(values: &Vec<SpannedValue<'_>>) -> (strings: Vec<String>)
    ensures
        texts(strings@) == utf8_strings(items_view(values@)),
{
    let ghost items = items_view(values@);
    let mut strings: Vec<String> = Vec::new();
    let mut i: usize = 0;
    assert(items.take(0) =~= Seq::empty());
    assert(texts(strings@) =~= Seq::empty());
    while i < values.len()
        invariant
            items == items_view(values@),
            i <= values@.len(),
            texts(strings@) == utf8_strings(items.take(i as int)),
        decreases values@.len() - i,
    {
        proof {
            assert(items.take(i + 1).drop_last() =~= items.take(i as int));
            assert(items.take(i + 1).last() == values@[i as int]@);
        }
        let ghost before = strings@;
        if let Some(bytes) = values[i].value.as_bytes() {
            if let Some(string) = string_from_utf8(bytes) {
                strings.push(string);
                assert(texts(strings@) =~= texts(before).push(string@));
            }
        }
        i += 1;
    }
    assert(items.take(items.len() as int) =~= items);
    strings
}

fn read_tiers(values: &Vec<SpannedValue<'_>>) -> (tiers: Vec<Vec<String>>)
    ensures
        tiers_view(tiers@) == tiers_of(items_view(values@)),
{
    let ghost items = items_view(values@);
    let mut tiers: Vec<Vec<String>> = Vec::new();
    let mut i: usize = 0;
    assert(items.take(0) =~= Seq::empty());
    assert(tiers_view(tiers@) =~= Seq::empty());
    while i < values.len()
        invariant
            items == items_view(values@),
            i <= values@.len(),
            tiers_view(tiers@) == tiers_of(items.take(i as int)),
        decreases values@.len() - i,
    {
        proof {
            assert(items.take(i + 1).drop_last() =~= items.take(i as int));
            assert(items.take(i + 1).last() == values@[i as int]@);
        }
        let ghost before = tiers@;
        if let Some(trackers) = list(&values[i]) {
            let tier = read_strings(trackers);
            assert(texts(tier@).len() == tier@.len());
            if tier.len() > 0 {
                tiers.push(tier);
                assert(tiers_view(tiers@) =~= tiers_view(before).push(texts(tier@)));
            }
        }
        i += 1;
    }
    assert(items.take(items.len() as int) =~= items);
    tiers
}

fn parse_trackers(root: &Vec<(&[u8], SpannedValue<'_>)>) -> (trackers: Vec<Vec<String>>)
    ensures
        tiers_view(trackers@) == trackers_of(entries_view(root@)),
{
    if let Some(value) = get(root, "announce-list") {
        if let Some(tiers) = list(value) {
            let parsed = read_tiers(tiers);
            assert(tiers_view(parsed@).len() == parsed@.len());
            if parsed.len() > 0 {
                return parsed;
            }
        }
    }
    let mut trackers: Vec<Vec<String>> = Vec::new();
    if let Some(bytes) = bytes_under(root, "announce") {
        if let Some(tracker) = string_from_utf8(bytes) {
            let mut tier: Vec<String> = Vec::new();
            tier.push(tracker);
            assert(texts(tier@) =~= seq![tracker@]);
            trackers.push(tier);
            assert(tiers_view(trackers@) =~= seq![seq![tracker@]]);
            return trackers;
        }
    }
    assert(tiers_view(trackers@) =~= Seq::empty());
    trackers
}

fn parse_web_seeds(root: &Vec<(&[u8], SpannedValue<'_>)>) -> (seeds: Vec<String>)
    ensures
        texts(seeds@) == web_seeds_of(entries_view(root@)),
{
    let mut seeds: Vec<String> = Vec::new();
    if let Some(value) = get(root, "url-list") {
        if let Some(values) = list(value) {
            return read_strings(values);
        }
        if let Some(bytes) = value.value.as_bytes() {
            if let Some(seed) = string_from_utf8(bytes) {
                seeds.push(seed);
                assert(texts(seeds@) =~= seq![seed@]);
                return seeds;
            }
        }
    }
    assert(texts(seeds@) =~= Seq::empty());
    seeds
}

fn parse_piece_length(info: &Vec<(&[u8], SpannedValue<'_>)>, has_v2: bool) -> (result: Result<
    u32,
    MetainfoError,
>)
    ensures
        match result {
            Ok(length) => length > 0 && (has_v2 ==> length >= 16384) && piece_length_of(
                entries_view(info@),
                has_v2,
            ) == Ok::<int, Failure>(length as int),
            Err(error) => piece_length_of(entries_view(info@), has_v2) == Err::<int, Failure>(
                error@,
            ),
        },
{
    let raw: i64 = match required_integer(info, "piece length", "info.piece length") {
        Ok(raw) => raw,
        Err(error) => {
            return Err(error);
        },
    };
    if raw <= 0 || raw > 0xffff_ffff {
        return Err(MetainfoError::IntegerRange { field: "info.piece length" });
    }
    let length: u32 = raw as u32;
    if has_v2 && (length < 16384 || !power_of_two(length)) {
        return Err(MetainfoError::InvalidV2PieceLength);
    }
    Ok(length)
}

/// The v1 piece hashes and files, laid end to end.
fn parse_v1_side(
    info: &Vec<(&[u8], SpannedValue<'_>)>,
    name: &String,
    has_v1: bool,
    Ghost(h): Ghost<Header>,
) -> (result: Result<(Vec<Sha1Hash>, Vec<FileEntry>), MetainfoError>)
    requires
        h.info == entries_view(info@),
        h.name == name@,
        h.has_v1 == has_v1,
    ensures
        match result {
            Ok((hashes, files)) => paths_wf(files@) && v1_side(h) == Ok::<
                (Seq<Seq<u8>>, Seq<FileModel>),
                Failure,
            >((sha1_views(hashes@), files_view(files@))),
            Err(error) => v1_side(h) == Err::<(Seq<Seq<u8>>, Seq<FileModel>), Failure>(error@),
        },
{
    let hashes = match parse_v1_piece_hashes(info, has_v1) {
        Ok(hashes) => hashes,
        Err(error) => {
            return Err(error);
        },
    };
    if !has_v1 {
        let files: Vec<FileEntry> = Vec::new();
        assert(sha1_views(hashes@) =~= Seq::empty());
        assert(files_view(files@) =~= Seq::empty());
        return Ok((hashes, files));
    }
    let mut files = match parse_v1_files(info, name) {
        Ok(files) => files,
        Err(error) => {
            return Err(error);
        },
    };
    match assign_wire_offsets(&mut files) {
        Ok(()) => Ok((hashes, files)),
        Err(error) => Err(error),
    }
}

/// The files of a document that has a v2 side, or of one that has none.
fn parse_files(
    info: &Vec<(&[u8], SpannedValue<'_>)>,
    name: &String,
    has_v2: bool,
    v1_files: &Vec<FileEntry>,
) -> (result: Result<Vec<FileEntry>, MetainfoError>)
    requires
        paths_wf(v1_files@),
    ensures
        !has_v2 ==> result is Ok && files_view(result->Ok_0@) == files_view(v1_files@),
        result is Ok ==> paths_wf(result->Ok_0@),
        has_v2 ==> match (result, v2_files_of(entries_view(info@), name@)) {
            (Ok(files), Ok(listed)) => offsets_of(listed) == Ok::<Seq<FileModel>, Failure>(
                files_view(files@),
            ),
            (Err(error), Ok(listed)) => offsets_of(listed) == Err::<Seq<FileModel>, Failure>(
                error@,
            ),
            (Err(error), Err(failure)) => failure == error@,
            (Ok(_), Err(_)) => false,
        },
{
    if !has_v2 {
        let files = copy_files(v1_files);
        assert(files_view(files@).len() == files_view(v1_files@).len());
        assert forall|k: int| 0 <= k < files@.len() implies (#[trigger] files@[k]).path.wf() by {
            assert(files_view(files@)[k] == files_view(v1_files@)[k]);
            assert(v1_files@[k].path.wf());
        }
        return Ok(files);
    }
    let mut files = match parse_v2_files(info, name) {
        Ok(files) => files,
        Err(error) => {
            return Err(error);
        },
    };
    match assign_wire_offsets(&mut files) {
        Ok(()) => Ok(files),
        Err(error) => Err(error),
    }
}

pub proof fn lemma_offsets_total(files: Seq<FileModel>)
    ensures
        total_of(with_offsets(files)) == total_of(files),
    decreases files.len(),
{
    if files.len() > 0 {
        let init = files.drop_last();
        lemma_offsets_total(init);
        assert(with_offsets(files).drop_last() =~= with_offsets(init)) by {
            assert forall|i: int| 0 <= i < init.len() implies with_offsets(files).drop_last()[i]
                == with_offsets(init)[i] by {
                assert(init.take(i) =~= files.take(i));
            }
        }
    }
}

impl Metainfo {
    /// Parse a complete metainfo document.
    pub fn parse(input: &[u8], limits: BencodeLimits) -> (result: Result<Self, MetainfoError>)
        ensures
            match result {
                Ok(metainfo) => metainfo_of(input@, limits, true) == Ok::<MetaModel, Failure>(
                    metainfo@,
                ) && metainfo.paths_wf() && metainfo.wf(),
                Err(error) => metainfo_of(input@, limits, true) == Err::<
                    MetaModel,
                    Failure,
                >(error@),
            },
    {
        Self::parse_internal(input, limits, true)
    }

    /// Parse BEP 9's info-only metadata before BEP 52 piece layers have been
    /// fetched from a peer. Any present layers are still fully validated.
    pub fn parse_allow_missing_piece_layers(input: &[u8], limits: BencodeLimits) -> (result: Result<
        Self,
        MetainfoError,
    >)
        ensures
            match result {
                Ok(metainfo) => metainfo_of(input@, limits, false) == Ok::<
                    MetaModel,
                    Failure,
                >(metainfo@) && metainfo.paths_wf() && metainfo.wf(),
                Err(error) => metainfo_of(input@, limits, false) == Err::<
                    MetaModel,
                    Failure,
                >(error@),
            },
    {
        Self::parse_internal(input, limits, false)
    }

    /// Every file has a path that stays inside the torrent's directory.
    pub open spec fn paths_wf(&self) -> bool {
        &&& forall|i: int| 0 <= i < self.files@.len() ==> (#[trigger] self.files@[i]).path.wf()
        &&& forall|i: int|
            0 <= i < self.v1_files@.len() ==> (#[trigger] self.v1_files@[i]).path.wf()
    }

    fn parse_internal(
        input: &[u8],
        limits: BencodeLimits,
        require_piece_layers: bool,
    ) -> (result: Result<Self, MetainfoError>)
        ensures
            match result {
                Ok(metainfo) => metainfo_of(input@, limits, require_piece_layers) == Ok::<
                    MetaModel,
                    Failure,
                >(metainfo@) && metainfo.paths_wf() && metainfo.wf(),
                Err(error) => metainfo_of(input@, limits, require_piece_layers) == Err::<
                    MetaModel,
                    Failure,
                >(error@),
            },
    {
        let root = match decode(input, limits) {
            Ok(root) => root,
            Err(error) => {
                return Err(MetainfoError::Bencode(error));
            },
        };
        let root_dict = match dictionary(&root) {
            Some(entries) => entries,
            None => {
                return Err(MetainfoError::RootType);
            },
        };
        let info = match get(root_dict, "info") {
            Some(info) => info,
            None => {
                return Err(MetainfoError::Field("info"));
            },
        };
        let info_dict = match dictionary(info) {
            Some(entries) => entries,
            None => {
                return Err(MetainfoError::Field("info"));
            },
        };
        let name = match required_bytes(info_dict, "name", "info.name") {
            Ok(bytes) => match text(bytes, "info.name") {
                Ok(name) => name,
                Err(error) => {
                    return Err(error);
                },
            },
            Err(error) => {
                return Err(error);
            },
        };
        proof {
            lemma_info_span(input@, limits);
        }
        let raw_info = slice_subrange(input, info.span.start, info.span.end);
        let meta_version = match optional_integer(info_dict, "meta version", "info.meta version") {
            Ok(version) => version,
            Err(error) => {
                return Err(error);
            },
        };
        let has_v1: bool = get(info_dict, "pieces").is_some();
        let has_v2: bool = match meta_version {
            Some(version) => version == 2,
            None => false,
        };
        let version = if has_v1 && has_v2 {
            TorrentVersion::Hybrid
        } else if has_v1 {
            TorrentVersion::V1
        } else if has_v2 {
            TorrentVersion::V2
        } else {
            return Err(MetainfoError::Field("info.pieces or info.meta version"));
        };
        let piece_length: u32 = match parse_piece_length(info_dict, has_v2) {
            Ok(length) => length,
            Err(error) => {
                return Err(error);
            },
        };
        let ghost h = Header {
            root: entries_view(root_dict@),
            info: entries_view(info_dict@),
            raw_info: raw_info@,
            name: name@,
            has_v1,
            has_v2,
            piece_length: piece_length as int,
        };
        assert(header_of(input@, root@) == Ok::<Header, Failure>(h));
        let (v1_piece_hashes, v1_files) = match parse_v1_side(info_dict, &name, has_v1, Ghost(h)) {
            Ok(side) => side,
            Err(error) => {
                return Err(error);
            },
        };
        let files = match parse_files(info_dict, &name, has_v2, &v1_files) {
            Ok(files) => files,
            Err(error) => {
                return Err(error);
            },
        };
        if has_v1 {
            match validate_unique_paths(&v1_files) {
                Ok(()) => {},
                Err(error) => {
                    return Err(error);
                },
            }
        }
        match validate_unique_paths(&files) {
            Ok(()) => {},
            Err(error) => {
                return Err(error);
            },
        }
        proof {
            if has_v1 {
                lemma_offsets_total(v1_files_of(h.info, h.name)->Ok_0);
            }
            if has_v2 {
                lemma_offsets_total(v2_files_of(h.info, h.name)->Ok_0);
            }
        }
        let total_length: u64 = match sum_file_lengths(&files) {
            Ok(total) => total,
            Err(error) => {
                return Err(error);
            },
        };
        let piece_space_length: u64 = if has_v1 {
            match sum_file_lengths(&v1_files) {
                Ok(total) => total,
                Err(error) => {
                    return Err(error);
                },
            }
        } else {
            total_length
        };
        if has_v1 && has_v2 {
            match validate_hybrid_layout(&v1_files, &files, piece_length) {
                Ok(()) => {},
                Err(error) => {
                    return Err(error);
                },
            }
        }
        let ghost layout = Layout {
            v1_piece_hashes: sha1_views(v1_piece_hashes@),
            v1_files: files_view(v1_files@),
            files: files_view(files@),
        };
        assert(layout_of(h) == Ok::<Layout, Failure>(layout));
        let piece_layers = if has_v2 {
            match parse_piece_layers(root_dict, &files, piece_length, require_piece_layers) {
                Ok(layers) => layers,
                Err(error) => {
                    return Err(error);
                },
            }
        } else {
            PieceLayers::new()
        };
        assert(metainfo_of(input@, limits, require_piece_layers) == assembled(
            input@,
            h,
            layout,
            piece_layers@,
        ));
        if has_v1 {
            let expected: u64 = div_ceil(piece_space_length, piece_length as u64);
            if v1_piece_hashes.len() as u64 != expected {
                return Err(
                    MetainfoError::V1PieceCount { expected, actual: v1_piece_hashes.len() },
                );
            }
        }
        let v1_info_hash = if has_v1 {
            Some(Sha1Hash::from_bytes(sha1_digest(raw_info)))
        } else {
            None
        };
        let v2_info_hash = if has_v2 {
            Some(Sha256Hash::from_bytes(sha256_digest(raw_info)))
        } else {
            None
        };
        let trackers = parse_trackers(root_dict);
        let web_seeds = parse_web_seeds(root_dict);
        let private: bool = match optional_integer(info_dict, "private", "info.private") {
            Ok(Some(flag)) => flag == 1,
            Ok(None) => false,
            Err(error) => {
                return Err(error);
            },
        };
        proof {
            assert(metainfo_of(input@, limits, require_piece_layers) is Ok);
            law_files_are_laid_out(input@, limits, require_piece_layers);
        }
        Ok(
            Self {
                raw: slice_to_vec(input),
                name,
                version,
                v1_info_hash,
                v2_info_hash,
                piece_length,
                v1_piece_hashes,
                piece_layers,
                files,
                v1_files,
                total_length,
                piece_space_length,
                trackers,
                web_seeds,
                private,
            },
        )
    }
}

/// The info dictionary lies inside the document.
pub proof fn lemma_info_span(input: Seq<u8>, limits: BencodeLimits)
    requires
        parse_whole(input, limits) is Ok,
        entries_of(parse_whole(input, limits)->Ok_0) is Some,
    ensures
        ({
            let entries = entries_of(parse_whole(input, limits)->Ok_0)->0;
            find(entries, "info") is Some ==> {
                let item = find(entries, "info")->0;
                0 <= item.start <= item.end <= input.len()
            }
        }),
{
    let item = parse_whole(input, limits)->Ok_0;
    let entries = entries_of(item)->0;
    law_decoded_is_canonical(input, limits);
    if find(entries, "info") is Some {
        let key = encode_utf8("info"@);
        let at = first_match(entries, key, 0);
        lemma_first_match_range(entries, key, 0);
        lemma_entry_span(entries, 1, at);
        assert(item.content == place(item.content, 0).content);
        assert(place_entries(entries, 1) == entries);
    }
}

pub proof fn lemma_first_match_range(entries: Seq<(Seq<u8>, Item)>, key: Seq<u8>, from: int)
    requires
        0 <= from <= entries.len(),
    ensures
        from <= first_match(entries, key, from) <= entries.len(),
    decreases entries.len() - from,
{
    if from < entries.len() && entries[from].0 != key {
        lemma_first_match_range(entries, key, from + 1);
    }
}

/// The value of a placed entry lies between the ends of the entries.
proof fn lemma_entry_span(entries: Seq<(Seq<u8>, Item)>, at: int, i: int)
    requires
        0 <= i < entries.len(),
    ensures
        place_entries(entries, at).len() == entries.len(),
        at <= place_entries(entries, at)[i].1.start <= place_entries(entries, at)[i].1.end <= at
            + encode_entries(entries).len(),
    decreases entries.len(),
{
    lemma_place_entries_keys(entries, at);
    let init = entries.drop_last();
    lemma_place_entries_keys(init, at);
    if i < init.len() {
        lemma_entry_span(init, at, i);
        assert(place_entries(entries, at)[i] == place_entries(init, at)[i]);
    } else {
        let from = at + encode_entries(init).len() + encode_bytes(entries.last().0).len();
        let value = place(entries.last().1.content, from);
        assert(place_entries(entries, at) == place_entries(init, at).push(
            (entries.last().0, value),
        ));
        assert(value.end == from + encode(entries.last().1.content).len());
    }
}

} // verus!
