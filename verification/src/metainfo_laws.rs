//! What holds of every document that is accepted.

use crate::bencode::{first_match, parse_whole, BencodeLimits, DecodeError, Item};
use crate::bencode_laws::{
    encode, encode_bytes, encode_entries, holds_at, law_decoded_is_canonical, lemma_holds_concat,
    lemma_place_entries_keys, place, place_entries,
};
use crate::hash::{floor_log2, is_power_of_two, layer_root, sha1_of, sha256_of};
use crate::metainfo::{
    aligned, assembled, duplicate_of, entries_of, file_paths, find, header_of, is_large,
    is_referenced, laid_out, layer_failure, layers_failure, layout_of, list_at, metainfo_of,
    piece_layers_of, same_content, text_of, total_of, tree_files, v1_files_of, v1_list, v2_files_of,
    with_offsets, Failure, FileModel, Header, Layout, MetaModel,
};
use crate::metainfo_parse::{lemma_first_match_range, lemma_offsets_total};
use crate::num::div_ceil_of;
use crate::path::path_error;
use crate::path_order::{
    collides, first_collision, key_prefix, law_no_collision, lemma_some_first_collision, path_keys,
};
use vstd::prelude::*;
use vstd::utf8::encode_utf8;

verus! {

/// The stages that an accepted document went through.
pub proof fn lemma_stages(input: Seq<u8>, limits: BencodeLimits, required: bool) -> (r: (
    Item,
    Header,
    Layout,
))
    requires
        metainfo_of(input, limits, required) is Ok,
    ensures
        ({
            let (root, h, layout) = r;
            let m = metainfo_of(input, limits, required)->Ok_0;
            &&& parse_whole(input, limits) == Ok::<Item, DecodeError>(root)
            &&& header_of(input, root) == Ok::<Header, Failure>(h)
            &&& layout_of(h) == Ok::<Layout, Failure>(layout)
            &&& Ok::<MetaModel, Failure>(m) == assembled(input, h, layout, m.piece_layers)
            &&& h.has_v2 ==> piece_layers_of(
                h.root,
                layout.files,
                h.piece_length,
                required,
            ) == Ok::<Map<Seq<u8>, Seq<Seq<u8>>>, Failure>(m.piece_layers)
            &&& !h.has_v2 ==> m.piece_layers == Map::<Seq<u8>, Seq<Seq<u8>>>::empty()
        }),
{
    let root = parse_whole(input, limits)->Ok_0;
    let h = header_of(input, root)->Ok_0;
    (root, h, layout_of(h)->Ok_0)
}

proof fn lemma_laid_out(files: Seq<FileModel>)
    requires
        total_of(files) <= u64::MAX,
    ensures
        laid_out(with_offsets(files)),
        total_of(with_offsets(files)) == total_of(files),
{
    reveal(laid_out);
    lemma_offsets_total(files);
    assert forall|i: int| 0 <= i < files.len() implies (#[trigger] with_offsets(
        files,
    )[i]).wire_offset == total_of(with_offsets(files).take(i)) by {
        lemma_offsets_total(files.take(i));
        assert(with_offsets(files).take(i) =~= with_offsets(files.take(i))) by {
            assert forall|k: int| 0 <= k < i implies with_offsets(files).take(i)[k]
                == with_offsets(files.take(i))[k] by {
                assert(files.take(i).take(k) =~= files.take(k));
            }
        }
    }
}

/// The files of an accepted document lie end to end in the space that peers
/// exchange, and the recorded totals are the sums of the lengths.
pub proof fn law_files_are_laid_out(input: Seq<u8>, limits: BencodeLimits, required: bool)
    requires
        metainfo_of(input, limits, required) is Ok,
    ensures
        ({
            let m = metainfo_of(input, limits, required)->Ok_0;
            &&& laid_out(m.files)
            &&& laid_out(m.v1_files)
            &&& m.total_length == total_of(m.files)
            &&& m.piece_space_length == (if m.v1_info_hash is Some {
                total_of(m.v1_files)
            } else {
                total_of(m.files)
            })
        }),
{
    let (root, h, layout) = lemma_stages(input, limits, required);
    reveal(laid_out);
    if h.has_v1 {
        lemma_laid_out(v1_files_of(h.info, h.name)->Ok_0);
    }
    if h.has_v2 {
        lemma_laid_out(v2_files_of(h.info, h.name)->Ok_0);
    }
}

/// The info hash is the digest of exactly the bytes that the info dictionary
/// takes up in the document, and those bytes are its canonical encoding.
pub proof fn law_info_hash_is_exact(input: Seq<u8>, limits: BencodeLimits, required: bool)
    requires
        metainfo_of(input, limits, required) is Ok,
    ensures
        ({
            let m = metainfo_of(input, limits, required)->Ok_0;
            let entries = entries_of(parse_whole(input, limits)->Ok_0)->0;
            let info = find(entries, "info")->0;
            &&& m.raw == input
            &&& holds_at(input, info.start, encode(info.content))
            &&& info.end == info.start + encode(info.content).len()
            &&& m.v1_info_hash is Some ==> m.v1_info_hash == Some(sha1_of(encode(info.content)))
            &&& m.v2_info_hash is Some ==> m.v2_info_hash == Some(sha256_of(encode(info.content)))
            &&& m.v1_info_hash is Some || m.v2_info_hash is Some
        }),
{
    let (root, h, layout) = lemma_stages(input, limits, required);
    let entries = entries_of(root)->0;
    let key = encode_utf8("info"@);
    let at = first_match(entries, key, 0);
    let info = find(entries, "info")->0;
    law_decoded_is_canonical(input, limits);
    lemma_first_match_range(entries, key, 0);
    assert(root.content == place(root.content, 0).content);
    assert(place_entries(entries, 1) == entries);
    assert(input.take(input.len() as int) =~= input);
    assert(input == encode(root.content));
    let body = encode_entries(entries);
    lemma_holds_concat(input, 0, seq![0x64u8] + body, seq![0x65u8]);
    lemma_holds_concat(input, 0, seq![0x64u8], body);
    assert(input.subrange(0, input.len() as int) =~= input);
    lemma_entry_holds(input, entries, 1, at);
    assert(input.subrange(info.start, info.end) == encode(info.content));
}

/// An entry of an encoded dictionary stands where its span says.
pub proof fn lemma_entry_holds(s: Seq<u8>, entries: Seq<(Seq<u8>, Item)>, at: int, i: int)
    requires
        holds_at(s, at, encode_entries(entries)),
        0 <= i < entries.len(),
    ensures
        ({
            let value = place_entries(entries, at)[i].1;
            &&& holds_at(s, value.start, encode(entries[i].1.content))
            &&& value.end == value.start + encode(entries[i].1.content).len()
        }),
    decreases entries.len(),
{
    let init = entries.drop_last();
    let head = encode_entries(init) + encode_bytes(entries.last().0);
    lemma_place_entries_keys(init, at);
    lemma_holds_concat(s, at, head, encode(entries.last().1.content));
    lemma_holds_concat(s, at, encode_entries(init), encode_bytes(entries.last().0));
    let value = place(
        entries.last().1.content,
        at + encode_entries(init).len() + encode_bytes(entries.last().0).len(),
    );
    assert(place_entries(entries, at) == place_entries(init, at).push((entries.last().0, value)));
    if i < init.len() {
        lemma_entry_holds(s, init, at, i);
        assert(place_entries(entries, at)[i] == place_entries(init, at)[i]);
    } else {
        assert(value.start == at + head.len());
    }
}

/// The version says which hashes and layouts a document has.
pub proof fn law_version_tells_sides(input: Seq<u8>, limits: BencodeLimits, required: bool)
    requires
        metainfo_of(input, limits, required) is Ok,
    ensures
        ({
            let m = metainfo_of(input, limits, required)->Ok_0;
            &&& m.v1_info_hash is Some <==> m.version is V1 || m.version is Hybrid
            &&& m.v2_info_hash is Some <==> m.version is V2 || m.version is Hybrid
            &&& m.version is V1 ==> m.files == m.v1_files
            &&& m.version is V2 ==> m.v1_files.len() == 0 && m.v1_piece_hashes.len() == 0
            &&& 0 < m.piece_length <= u32::MAX
            &&& !(m.version is V1) ==> m.piece_length >= 16384 && is_power_of_two(
                m.piece_length as nat,
            )
            &&& !(m.version is V2) ==> m.v1_piece_hashes.len() == div_ceil_of(
                m.piece_space_length,
                m.piece_length,
            )
        }),
{
    let (root, h, layout) = lemma_stages(input, limits, required);
}

/// The v1 and v2 sides of a hybrid document name the same files with the same
/// lengths, and every file with content begins a piece.
pub proof fn law_hybrid_sides_agree(input: Seq<u8>, limits: BencodeLimits, required: bool)
    requires
        metainfo_of(input, limits, required) is Ok,
        metainfo_of(input, limits, required)->Ok_0.version is Hybrid,
    ensures
        ({
            let m = metainfo_of(input, limits, required)->Ok_0;
            &&& same_content(m.v1_files, m.files)
            &&& aligned(m.v1_files, m.piece_length)
        }),
{
    let (root, h, layout) = lemma_stages(input, limits, required);
}

/// No path of an accepted document equals or leads another, whatever the case
/// of their letters.
pub proof fn law_paths_do_not_collide(
    input: Seq<u8>,
    limits: BencodeLimits,
    required: bool,
    i: int,
    j: int,
)
    requires
        metainfo_of(input, limits, required) is Ok,
        0 <= i < metainfo_of(input, limits, required)->Ok_0.files.len(),
        0 <= j < metainfo_of(input, limits, required)->Ok_0.files.len(),
        i != j,
    ensures
        ({
            let keys = path_keys(file_paths(metainfo_of(input, limits, required)->Ok_0.files));
            !key_prefix(keys[i], keys[j])
        }),
{
    let (root, h, layout) = lemma_stages(input, limits, required);
    let keys = path_keys(file_paths(layout.files));
    assert(duplicate_of(layout.files) is None);
    assert forall|k: int| 0 <= k < keys.len() implies !collides(keys, k) by {
        if collides(keys, k) {
            let first = lemma_some_first_collision(keys, k);
            assert(first_collision(keys, first));
        }
    }
    law_no_collision(keys, i, j);
}

/// No accepted path is empty or has a component that would leave the
/// torrent's directory.
pub proof fn law_paths_are_safe(input: Seq<u8>, limits: BencodeLimits, required: bool, i: int)
    requires
        metainfo_of(input, limits, required) is Ok,
        0 <= i < metainfo_of(input, limits, required)->Ok_0.files.len(),
    ensures
        ({
            let file = metainfo_of(input, limits, required)->Ok_0.files[i];
            path_error(file.path) is None && file.length >= 0
        }),
{
    let (root, h, layout) = lemma_stages(input, limits, required);
    if h.has_v2 {
        let tree = entries_of(find(h.info, "file tree")->0)->0;
        lemma_tree_files_safe(tree, seq![h.name], 0);
    } else {
        lemma_v1_files_safe(h.info, h.name);
    }
}

/// Whether a file has a safe path and a length that is not negative.
pub open spec fn safe_file(file: FileModel) -> bool {
    path_error(file.path) is None && file.length >= 0
}

pub open spec fn safe_files(files: Seq<FileModel>) -> bool {
    forall|i: int| 0 <= i < files.len() ==> safe_file(#[trigger] files[i])
}

proof fn lemma_tree_files_safe(
    tree: Seq<(Seq<u8>, Item)>,
    path: Seq<Seq<char>>,
    depth: nat,
)
    ensures
        tree_files(tree, path, depth) is Ok ==> safe_files(tree_files(tree, path, depth)->Ok_0),
    decreases 65 - depth, tree.len(),
{
    if depth <= 64 && tree.len() > 0 && tree_files(tree, path, depth) is Ok {
        lemma_tree_files_safe(tree.drop_last(), path, depth);
        if tree.last().0.len() > 0 {
            let component = text_of(
                tree.last().0,
                "info.file tree path",
            )->Ok_0;
            let subtree = entries_of(tree.last().1)->0;
            lemma_tree_files_safe(subtree, path.push(component), depth + 1);
        }
    }
}

proof fn lemma_v1_list_safe(items: Seq<Item>, name: Seq<char>)
    ensures
        v1_list(items, name) is Ok ==> safe_files(v1_list(items, name)->Ok_0),
    decreases items.len(),
{
    if items.len() > 0 {
        lemma_v1_list_safe(items.drop_last(), name);
    }
}

proof fn lemma_v1_files_safe(info: Seq<(Seq<u8>, Item)>, name: Seq<char>)
    ensures
        v1_files_of(info, name) is Ok ==> safe_files(v1_files_of(info, name)->Ok_0),
{
    if find(info, "files") is Some && list_at(info, "files") is Some {
        lemma_v1_list_safe(list_at(info, "files")->0, name);
    }
}

/// Every file of a v2 or hybrid document that spans several pieces has a layer
/// of one digest per piece that hashes up to the file's root, and there is no
/// other layer. A document whose layers may still be missing keeps this for
/// the layers that are there.
pub proof fn law_layers_match_roots(
    input: Seq<u8>,
    limits: BencodeLimits,
    required: bool,
    i: int,
)
    requires
        metainfo_of(input, limits, required) is Ok,
        metainfo_of(input, limits, required)->Ok_0.v2_info_hash is Some,
        0 <= i < metainfo_of(input, limits, required)->Ok_0.files.len(),
        is_large(
            metainfo_of(input, limits, required)->Ok_0.files[i],
            metainfo_of(input, limits, required)->Ok_0.piece_length,
        ),
    ensures
        ({
            let m = metainfo_of(input, limits, required)->Ok_0;
            let root = m.files[i].pieces_root->0;
            &&& m.files[i].pieces_root is Some
            &&& required ==> m.piece_layers.contains_key(root)
            &&& m.piece_layers.contains_key(root) ==> {
                &&& m.piece_layers[root].len() == div_ceil_of(m.files[i].length, m.piece_length)
                &&& layer_root(
                    m.piece_layers[root],
                    floor_log2((m.piece_length / 16384) as nat),
                ) == root
            }
            &&& forall|key: Seq<u8>| #[trigger]
                m.piece_layers.contains_key(key) ==> is_referenced(m.files, m.piece_length, key)
        }),
{
    let (root, h, layout) = lemma_stages(input, limits, required);
    let layers = metainfo_of(input, limits, required)->Ok_0.piece_layers;
    lemma_no_layer_failure(layout.files, layers, h.piece_length, required, i);
}

proof fn lemma_no_layer_failure(
    files: Seq<FileModel>,
    layers: Map<Seq<u8>, Seq<Seq<u8>>>,
    piece_length: int,
    required: bool,
    i: int,
)
    requires
        layers_failure(files, layers, piece_length, required) is None,
        0 <= i < files.len(),
    ensures
        layer_failure(files[i], layers, piece_length, required) is None,
    decreases files.len(),
{
    if i < files.len() - 1 {
        lemma_no_layer_failure(files.drop_last(), layers, piece_length, required, i);
    }
}

/// A document that is accepted with its layers is also accepted, with the same
/// contents, where layers may still be missing.
pub proof fn law_missing_layers_only_relax(input: Seq<u8>, limits: BencodeLimits)
    requires
        metainfo_of(input, limits, true) is Ok,
    ensures
        metainfo_of(input, limits, false) == metainfo_of(input, limits, true),
{
    let (root, h, layout) = lemma_stages(input, limits, true);
    if h.has_v2 {
        let layers = metainfo_of(input, limits, true)->Ok_0.piece_layers;
        lemma_required_relaxes(layout.files, layers, h.piece_length);
    }
}

proof fn lemma_required_relaxes(
    files: Seq<FileModel>,
    layers: Map<Seq<u8>, Seq<Seq<u8>>>,
    piece_length: int,
)
    requires
        layers_failure(files, layers, piece_length, true) is None,
    ensures
        layers_failure(files, layers, piece_length, false) is None,
    decreases files.len(),
{
    if files.len() > 0 {
        lemma_required_relaxes(files.drop_last(), layers, piece_length);
    }
}

/// Whether the layer of a file is missing.
pub open spec fn lacks_layer(
    file: FileModel,
    layers: Map<Seq<u8>, Seq<Seq<u8>>>,
    piece_length: int,
) -> bool {
    is_large(file, piece_length) && file.pieces_root is Some && !layers.contains_key(
        file.pieces_root->0,
    )
}

/// Whether a file is the first whose layer is missing.
pub open spec fn is_first_lacking(
    files: Seq<FileModel>,
    layers: Map<Seq<u8>, Seq<Seq<u8>>>,
    piece_length: int,
    i: int,
) -> bool {
    &&& 0 <= i < files.len()
    &&& lacks_layer(files[i], layers, piece_length)
    &&& forall|k: int| 0 <= k < i ==> !lacks_layer(#[trigger] files[k], layers, piece_length)
}

/// A document that is accepted where layers may still be missing is accepted
/// with its layers, with the same contents, exactly if no large file lacks its
/// layer. Otherwise the root of the first that does is reported.
pub proof fn law_only_missing_layers_are_reported(input: Seq<u8>, limits: BencodeLimits)
    requires
        metainfo_of(input, limits, false) is Ok,
    ensures
        ({
            let m = metainfo_of(input, limits, false)->Ok_0;
            match metainfo_of(input, limits, true) {
                Ok(strict) => strict == m && (m.v2_info_hash is Some ==> forall|i: int|
                    0 <= i < m.files.len() ==> !lacks_layer(
                        #[trigger] m.files[i],
                        m.piece_layers,
                        m.piece_length,
                    )),
                Err(failure) => m.v2_info_hash is Some && exists|i: int| #[trigger]
                    is_first_lacking(m.files, m.piece_layers, m.piece_length, i) && failure
                        == Failure::Layer(m.files[i].pieces_root->0),
            }
        }),
{
    let (root, h, layout) = lemma_stages(input, limits, false);
    if h.has_v2 {
        let layers = metainfo_of(input, limits, false)->Ok_0.piece_layers;
        lemma_first_lacking(layout.files, layers, h.piece_length);
        let m = metainfo_of(input, limits, false)->Ok_0;
        assert(m.files == layout.files);
        assert(m.piece_length == h.piece_length);
        assert(m.v2_info_hash is Some);
        if let Some(failure) = layers_failure(layout.files, layers, h.piece_length, true) {
            assert(metainfo_of(input, limits, true) == Err::<MetaModel, Failure>(failure));
        } else {
            assert(metainfo_of(input, limits, true) == Ok::<MetaModel, Failure>(m));
        }
    }
}

proof fn lemma_first_lacking(
    files: Seq<FileModel>,
    layers: Map<Seq<u8>, Seq<Seq<u8>>>,
    piece_length: int,
)
    requires
        piece_length >= 0,
        layers_failure(files, layers, piece_length, false) is None,
    ensures
        match layers_failure(files, layers, piece_length, true) {
            None => forall|i: int|
                0 <= i < files.len() ==> !lacks_layer(
                    #[trigger] files[i],
                    layers,
                    piece_length,
                ),
            Some(failure) => exists|i: int| #[trigger]
                is_first_lacking(files, layers, piece_length, i) && failure == Failure::Layer(
                    files[i].pieces_root->0,
                ),
        },
    decreases files.len(),
{
    if files.len() > 0 {
        let front = files.drop_last();
        lemma_first_lacking(front, layers, piece_length);
        match layers_failure(front, layers, piece_length, true) {
            Some(failure) => {
                let i = choose|i: int| #[trigger]
                    is_first_lacking(front, layers, piece_length, i) && failure == Failure::Layer(
                        front[i].pieces_root->0,
                    );
                assert forall|k: int| 0 <= k < i implies !lacks_layer(
                    #[trigger] files[k],
                    layers,
                    piece_length,
                ) by {
                    assert(front[k] == files[k]);
                }
                assert(is_first_lacking(files, layers, piece_length, i));
            },
            None => {
                assert forall|k: int| 0 <= k < front.len() implies !lacks_layer(
                    #[trigger] files[k],
                    layers,
                    piece_length,
                ) by {
                    assert(front[k] == files[k]);
                }
                let last = files.len() - 1;
                if layer_failure(files[last], layers, piece_length, true) is Some {
                    assert(is_first_lacking(files, layers, piece_length, last));
                }
            },
        }
    }
}

} // verus!
