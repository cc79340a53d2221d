//! Which documents are accepted, and what both sides of a hybrid one agree on.

use crate::bencode::{parse_whole, BencodeLimits, Content, Item};
use crate::claims_laws::{in_the_way, law_content_is_without_padding};
use crate::metainfo::{
    aligned, duplicate_of, file_paths, find, header_of, integer_at, layout_of, metainfo_of,
    name_of, same_content, total_of, v1_files_of, with_offsets, Failure, FileModel,
};
use crate::metainfo_fields::{is_absent, is_document, lemma_absent, lemma_under, stands_under};
use crate::metainfo_laws::lemma_stages;
use crate::metainfo_parse::lemma_offsets_total;
use crate::num::{div_ceil_of, lemma_div_ceil};
use crate::path::{lowercase_of, path_error};
use crate::path_order::{before, first_collision, key_prefix, path_key, path_keys};
use vstd::prelude::*;
use vstd::utf8::{encode_utf8, encode_utf8_decode_utf8, encode_utf8_valid_utf8};

verus! {

/// A hybrid document names the same files on both sides, padding aside: as many,
/// in the same order, with the same paths and lengths. Every file with content
/// begins on a multiple of the piece length on its v1 side.
pub proof fn law_hybrid_sides_name_the_same_files(
    input: Seq<u8>,
    limits: BencodeLimits,
    required: bool,
)
    requires
        metainfo_of(input, limits, required) is Ok,
        metainfo_of(input, limits, required)->Ok_0.v1_info_hash is Some,
        metainfo_of(input, limits, required)->Ok_0.v2_info_hash is Some,
    ensures
        ({
            let m = metainfo_of(input, limits, required)->Ok_0;
            let old_side = m.v1_files.filter(|file: FileModel| !file.padding);
            let new_side = m.files.filter(|file: FileModel| !file.padding);
            &&& old_side.len() == new_side.len()
            &&& forall|i: int|
                0 <= i < old_side.len() ==> (#[trigger] old_side[i]).path == (
                #[trigger] new_side[i]).path && old_side[i].length == new_side[i].length
            &&& forall|i: int|
                0 <= i < m.v1_files.len() && !(#[trigger] m.v1_files[i]).padding
                    && m.v1_files[i].length > 0 ==> m.v1_files[i].wire_offset % m.piece_length == 0
        }),
{
    let (root, h, layout) = lemma_stages(input, limits, required);
    let m = metainfo_of(input, limits, required)->Ok_0;
    law_content_is_without_padding(m.v1_files);
    law_content_is_without_padding(m.files);
    assert(same_content(m.v1_files, m.files));
    assert(aligned(m.v1_files, m.piece_length));
    let plain = v1_files_of(h.info, h.name)->Ok_0;
    assert(m.v1_files == with_offsets(plain));
    assert forall|i: int|
        0 <= i < m.v1_files.len() && !(#[trigger] m.v1_files[i]).padding && m.v1_files[i].length
            > 0 implies m.v1_files[i].wire_offset % m.piece_length == 0 by {
        lemma_offsets_total(plain.take(i));
        assert(m.v1_files.take(i) =~= with_offsets(plain.take(i))) by {
            assert forall|k: int| 0 <= k < i implies m.v1_files.take(i)[k] == with_offsets(
                plain.take(i),
            )[k] by {
                assert(plain.take(i).take(k) =~= plain.take(k));
            }
        }
    }
}

/// Paths of which none gets in the way of another do not collide.
proof fn lemma_no_collision(files: Seq<FileModel>)
    requires
        forall|i: int, j: int|
            0 <= i < files.len() && 0 <= j < files.len() && i != j ==> !in_the_way(
                (#[trigger] files[i]).path,
                (#[trigger] files[j]).path,
            ),
    ensures
        duplicate_of(files) is None,
{
    let keys = path_keys(file_paths(files));
    assert forall|j: int| !first_collision(keys, j) by {
        if first_collision(keys, j) {
            let i = choose|i: int|
                0 <= i < keys.len() && i != j && #[trigger] before(keys, i, j) && key_prefix(
                    keys[i],
                    keys[j],
                );
            let a = files[i].path;
            let b = files[j].path;
            assert(keys[i] == path_key(a));
            assert(keys[j] == path_key(b));
            assert(in_the_way(a, b)) by {
                assert forall|k: int| 0 <= k < a.len() && k < b.len() implies encode_utf8(
                    lowercase_of(#[trigger] a[k]),
                ) == encode_utf8(lowercase_of(b[k])) by {
                    assert(path_key(b).take(path_key(a).len() as int)[k] == path_key(b)[k]);
                }
            }
        }
    }
}

/// The front of a document that is in order: it has a name, and a piece length
/// that fits.
pub open spec fn has_front(
    info: Seq<(Seq<u8>, Item)>,
    name: Seq<char>,
    piece_length: int,
) -> bool {
    &&& stands_under(info, "name", Content::Bytes(encode_utf8(name)))
    &&& stands_under(info, "piece length", Content::Integer(piece_length))
    &&& 0 < piece_length <= u32::MAX
    &&& is_absent(info, "private")
}

/// A document without a v2 side, whose one file is named and measured, and whose
/// piece hashes are as many as the file has pieces, is accepted.
pub proof fn law_single_file_document_is_accepted(
    input: Seq<u8>,
    limits: BencodeLimits,
    required: bool,
    root: Seq<(Seq<u8>, Item)>,
    info: Seq<(Seq<u8>, Item)>,
    name: Seq<char>,
    piece_length: int,
    length: int,
    pieces: Seq<u8>,
)
    requires
        is_document(input, limits, root, info),
        has_front(info, name, piece_length),
        path_error(seq![name]) is None,
        is_absent(info, "meta version"),
        is_absent(info, "files"),
        stands_under(info, "length", Content::Integer(length)),
        0 <= length <= u64::MAX,
        stands_under(info, "pieces", Content::Bytes(pieces)),
        pieces.len() % 20 == 0,
        (pieces.len() / 20 - 1) * piece_length < length <= (pieces.len() / 20) * piece_length,
    ensures
        metainfo_of(input, limits, required) is Ok,
{
    lemma_under(root, "info", Content::Dictionary(info));
    lemma_front(info, name, piece_length);
    lemma_absent(info, "meta version");
    lemma_absent(info, "files");
    lemma_under(info, "length", Content::Integer(length));
    lemma_under(info, "pieces", Content::Bytes(pieces));
    let parsed = parse_whole(input, limits)->Ok_0;
    assert(header_of(input, parsed) is Ok);
    let h = header_of(input, parsed)->Ok_0;
    let plain = seq![
        FileModel { path: seq![name], length, pieces_root: None, padding: false, wire_offset: 0 },
    ];
    assert(v1_files_of(info, name) == Ok::<Seq<FileModel>, Failure>(plain));
    assert(plain.drop_last() =~= Seq::<FileModel>::empty());
    reveal_with_fuel(total_of, 2);
    assert(total_of(plain) == length);
    lemma_offsets_total(plain);
    lemma_no_collision(with_offsets(plain));
    assert(layout_of(h) is Ok);
    let count = (pieces.len() / 20) as int;
    lemma_count(length, piece_length, count);
}

proof fn lemma_count(total: int, size: int, count: int)
    requires
        0 < size,
        0 <= total,
        (count - 1) * size < total <= count * size,
    ensures
        div_ceil_of(total, size) == count,
{
    lemma_div_ceil(total, size);
    let found = div_ceil_of(total, size);
    if total == 0 {
        assert(count == 0) by (nonlinear_arith)
            requires
                (count - 1) * size < 0,
                0 <= count * size,
                0 < size,
        ;
        assert(found == 0) by (nonlinear_arith)
            requires
                total == 0,
                size > 0,
                found == total / size + if total % size == 0 { 0int } else { 1int },
        ;
    } else {
        assert(found == count) by (nonlinear_arith)
            requires
                (count - 1) * size < total <= count * size,
                (found - 1) * size < total <= found * size,
                0 < size,
        ;
    }
}

proof fn lemma_front(info: Seq<(Seq<u8>, Item)>, name: Seq<char>, piece_length: int)
    requires
        has_front(info, name, piece_length),
    ensures
        name_of(info) == Ok::<Seq<char>, Failure>(name),
        integer_at(info, "piece length") == Some(piece_length),
        find(info, "private") is None,
{
    lemma_under(info, "name", Content::Bytes(encode_utf8(name)));
    lemma_under(info, "piece length", Content::Integer(piece_length));
    lemma_absent(info, "private");
    encode_utf8_valid_utf8(name);
    encode_utf8_decode_utf8(name);
}

} // verus!
