//! What an accepted document says, field by field: how each part of the result
//! reads off the values that stand in the document.

use crate::bencode::{first_match, parse_whole, BencodeLimits, Content, Item};
use crate::hash::is_power_of_two;
use crate::metainfo::{
    assembled, bytes_at, chunks, find, has_attribute, header_of, layers_of, layout_of, list_at,
    metainfo_of, parts_of, piece_layers_of, text_of, tiers_of, total_of, tree_files, utf8_strings,
    v1_file, v1_files_of, v1_list, v2_file, v2_files_of, with_offsets, Failure, FileModel, Header,
    Layout, MetaModel,
};
use crate::metainfo_laws::lemma_stages;
use crate::metainfo_parse::lemma_offsets_total;
use vstd::arithmetic::power2::{lemma2_to64, lemma_pow2_unfold, pow2};
use vstd::prelude::*;
use vstd::utf8::{decode_utf8_encode_utf8, encode_utf8, encode_utf8_valid_utf8, valid_utf8};

verus! {

/// A key has a value in a dictionary: the first entry with that key holds it.
pub open spec fn stands_under(
    entries: Seq<(Seq<u8>, Item)>,
    key: &str,
    content: Content,
) -> bool {
    exists|i: int|
        0 <= i < entries.len() && (#[trigger] entries[i]).0 == encode_utf8(key@)
            && entries[i].1.content == content && forall|k: int|
            0 <= k < i ==> (#[trigger] entries[k]).0 != encode_utf8(key@)
}

/// A key has no value in a dictionary.
pub open spec fn is_absent(entries: Seq<(Seq<u8>, Item)>, key: &str) -> bool {
    forall|i: int| 0 <= i < entries.len() ==> (#[trigger] entries[i]).0 != encode_utf8(key@)
}

/// The bytes are a document whose dictionary is `root`, with an info dictionary.
pub open spec fn is_document(
    input: Seq<u8>,
    limits: BencodeLimits,
    root: Seq<(Seq<u8>, Item)>,
    info: Seq<(Seq<u8>, Item)>,
) -> bool {
    &&& parse_whole(input, limits) is Ok
    &&& parse_whole(input, limits)->Ok_0.content == Content::Dictionary(root)
    &&& stands_under(root, "info", Content::Dictionary(info))
}

/// A file is marked as padding by the letter `p` among its attributes.
pub open spec fn is_padded(entries: Seq<(Seq<u8>, Item)>) -> bool {
    exists|letters: Seq<u8>|
        #[trigger] stands_under(entries, "attr", Content::Bytes(letters)) && exists|k: int|
            0 <= k < letters.len() && #[trigger] letters[k] == 0x70
}

proof fn lemma_first(entries: Seq<(Seq<u8>, Item)>, key: Seq<u8>, from: int, at: int)
    requires
        0 <= from <= at <= entries.len(),
        forall|k: int| from <= k < at ==> (#[trigger] entries[k]).0 != key,
        at < entries.len() ==> entries[at].0 == key,
    ensures
        first_match(entries, key, from) == at,
    decreases at - from,
{
    if from < at {
        lemma_first(entries, key, from + 1, at);
    }
}

/// What stands under a key is what is found there.
pub proof fn lemma_under(entries: Seq<(Seq<u8>, Item)>, key: &str, content: Content)
    requires
        stands_under(entries, key, content),
    ensures
        find(entries, key) is Some,
        find(entries, key)->0.content == content,
{
    let at = choose|i: int|
        0 <= i < entries.len() && (#[trigger] entries[i]).0 == encode_utf8(key@)
            && entries[i].1.content == content && forall|k: int|
            0 <= k < i ==> (#[trigger] entries[k]).0 != encode_utf8(key@);
    lemma_first(entries, encode_utf8(key@), 0, at);
}

pub proof fn lemma_absent(entries: Seq<(Seq<u8>, Item)>, key: &str)
    requires
        is_absent(entries, key),
    ensures
        find(entries, key) is None,
{
    lemma_first(entries, encode_utf8(key@), 0, entries.len() as int);
}

proof fn lemma_match(entries: Seq<(Seq<u8>, Item)>, key: Seq<u8>, from: int)
    requires
        0 <= from <= entries.len(),
    ensures
        ({
            let at = first_match(entries, key, from);
            &&& from <= at <= entries.len()
            &&& forall|k: int| from <= k < at ==> (#[trigger] entries[k]).0 != key
            &&& at < entries.len() ==> entries[at].0 == key
        }),
    decreases entries.len() - from,
{
    if from < entries.len() && entries[from].0 != key {
        lemma_match(entries, key, from + 1);
    }
}

/// What is found under a key stands there; where nothing is found, nothing does.
proof fn lemma_found(entries: Seq<(Seq<u8>, Item)>, key: &str)
    ensures
        find(entries, key) is Some ==> stands_under(entries, key, find(entries, key)->0.content),
        find(entries, key) is None ==> is_absent(entries, key),
{
    lemma_match(entries, encode_utf8(key@), 0);
    let at = first_match(entries, encode_utf8(key@), 0);
    if at < entries.len() {
        assert(entries[at].0 == encode_utf8(key@));
    }
}

proof fn lemma_padded(entries: Seq<(Seq<u8>, Item)>)
    ensures
        has_attribute(entries, 0x70) == is_padded(entries),
{
    lemma_found(entries, "attr");
    if has_attribute(entries, 0x70) {
        let letters = bytes_at(entries, "attr")->0;
        assert(stands_under(entries, "attr", Content::Bytes(letters)));
    }
    if is_padded(entries) {
        let letters = choose|letters: Seq<u8>|
            #[trigger] stands_under(entries, "attr", Content::Bytes(letters)) && exists|k: int|
                0 <= k < letters.len() && #[trigger] letters[k] == 0x70;
        lemma_under(entries, "attr", Content::Bytes(letters));
    }
}

/// The header of a document holds its two dictionaries.
proof fn lemma_document(
    input: Seq<u8>,
    limits: BencodeLimits,
    required: bool,
    root: Seq<(Seq<u8>, Item)>,
    info: Seq<(Seq<u8>, Item)>,
) -> (r: (Header, Layout))
    requires
        metainfo_of(input, limits, required) is Ok,
        is_document(input, limits, root, info),
    ensures
        ({
            let (h, layout) = r;
            let m = metainfo_of(input, limits, required)->Ok_0;
            &&& h.root == root
            &&& h.info == info
            &&& header_of(input, parse_whole(input, limits)->Ok_0) == Ok::<Header, Failure>(h)
            &&& layout_of(h) == Ok::<Layout, Failure>(layout)
            &&& Ok::<MetaModel, Failure>(m) == assembled(input, h, layout, m.piece_layers)
            &&& h.has_v2 ==> piece_layers_of(root, layout.files, h.piece_length, required) == Ok::<
                Map<Seq<u8>, Seq<Seq<u8>>>,
                Failure,
            >(m.piece_layers)
        }),
{
    let (item, h, layout) = lemma_stages(input, limits, required);
    lemma_under(root, "info", Content::Dictionary(info));
    (h, layout)
}

proof fn lemma_power(n: nat)
    requires
        is_power_of_two(n),
    ensures
        exists|k: nat| n == #[trigger] pow2(k),
    decreases n,
{
    if n == 1 {
        lemma2_to64();
        assert(pow2(0) == n);
    } else {
        lemma_power(n / 2);
        let k = choose|k: nat| n / 2 == #[trigger] pow2(k);
        lemma_pow2_unfold(k + 1);
        assert(n == pow2(k + 1));
    }
}

/// The lengths of files that are not negative add up to no negative length.
proof fn lemma_total_positive(files: Seq<FileModel>)
    requires
        forall|i: int| 0 <= i < files.len() ==> (#[trigger] files[i]).length >= 0,
    ensures
        total_of(files) >= 0,
    decreases files.len(),
{
    if files.len() > 0 {
        lemma_total_positive(files.drop_last());
    }
}

/// A file of a v1 list, as its entry describes it: under the torrent's name lie
/// the components of its path, in order.
pub open spec fn is_listed(file: FileModel, name: Seq<char>, item: Item) -> bool {
    match item.content {
        Content::Dictionary(entries) => {
            &&& stands_under(entries, "length", Content::Integer(file.length))
            &&& file.length >= 0
            &&& file.pieces_root is None
            &&& file.padding <==> is_padded(entries)
            &&& exists|parts: Seq<Item>| #[trigger]
                stands_under(entries, "path", Content::List(parts)) && file.path.len()
                    == parts.len() + 1 && file.path[0] == name && forall|k: int|
                    0 <= k < parts.len() ==> (#[trigger] parts[k]).content == Content::Bytes(
                        encode_utf8(file.path[k + 1]),
                    )
        },
        _ => false,
    }
}

proof fn lemma_parts(items: Seq<Item>)
    requires
        parts_of(items) is Ok,
    ensures
        parts_of(items)->Ok_0.len() == items.len(),
        forall|k: int|
            0 <= k < items.len() ==> (#[trigger] items[k]).content == Content::Bytes(
                encode_utf8(parts_of(items)->Ok_0[k]),
            ),
    decreases items.len(),
{
    if items.len() > 0 {
        lemma_parts(items.drop_last());
        let n = items.len() - 1;
        match items.last().content {
            Content::Bytes(bytes) => {
                decode_utf8_encode_utf8(bytes);
            },
            _ => {},
        }
        assert forall|k: int| 0 <= k < items.len() implies (#[trigger] items[k]).content
            == Content::Bytes(encode_utf8(parts_of(items)->Ok_0[k])) by {
            if k < n {
                assert(items.drop_last()[k] == items[k]);
            }
        }
    }
}

proof fn lemma_listed(item: Item, name: Seq<char>)
    requires
        v1_file(item, name) is Ok,
    ensures
        is_listed(v1_file(item, name)->Ok_0, name, item),
{
    let entries = item.content->Dictionary_0;
    let file = v1_file(item, name)->Ok_0;
    lemma_found(entries, "length");
    lemma_found(entries, "path");
    lemma_padded(entries);
    let parts = list_at(entries, "path")->0;
    lemma_parts(parts);
    assert(stands_under(entries, "path", Content::List(parts)));
}

proof fn lemma_list(items: Seq<Item>, name: Seq<char>)
    requires
        v1_list(items, name) is Ok,
    ensures
        v1_list(items, name)->Ok_0.len() == items.len(),
        forall|i: int|
            0 <= i < items.len() ==> is_listed(
                #[trigger] v1_list(items, name)->Ok_0[i],
                name,
                items[i],
            ),
    decreases items.len(),
{
    if items.len() > 0 {
        lemma_list(items.drop_last(), name);
        lemma_listed(items.last(), name);
        assert forall|i: int| 0 <= i < items.len() implies is_listed(
            #[trigger] v1_list(items, name)->Ok_0[i],
            name,
            items[i],
        ) by {
            if i < items.len() - 1 {
                assert(items.drop_last()[i] == items[i]);
            }
        }
    }
}

/// The files of a list are its entries, one for one and in order, each under the
/// torrent's name and then the components of its path.
pub proof fn law_v1_list_reads_off(
    input: Seq<u8>,
    limits: BencodeLimits,
    required: bool,
    root: Seq<(Seq<u8>, Item)>,
    info: Seq<(Seq<u8>, Item)>,
    items: Seq<Item>,
)
    requires
        metainfo_of(input, limits, required) is Ok,
        is_document(input, limits, root, info),
        !is_absent(info, "pieces"),
        stands_under(info, "files", Content::List(items)),
    ensures
        ({
            let m = metainfo_of(input, limits, required)->Ok_0;
            &&& items.len() > 0
            &&& m.v1_files.len() == items.len()
            &&& forall|i: int|
                0 <= i < items.len() ==> is_listed(#[trigger] m.v1_files[i], m.name, items[i])
            &&& m.v2_info_hash is None ==> m.files == m.v1_files
        }),
{
    let (h, layout) = lemma_document(input, limits, required, root, info);
    lemma_found(info, "pieces");
    lemma_under(info, "files", Content::List(items));
    lemma_list(items, h.name);
    let plain = v1_files_of(info, h.name)->Ok_0;
    let m = metainfo_of(input, limits, required)->Ok_0;
    assert forall|i: int| 0 <= i < items.len() implies is_listed(
        #[trigger] m.v1_files[i],
        m.name,
        items[i],
    ) by {
        assert(is_listed(plain[i], h.name, items[i]));
        assert(m.v1_files == with_offsets(plain));
    }
}

/// A document with a v1 side and no list of files has one file: it has the
/// torrent's name and the length of the `length` key.
pub proof fn law_single_v1_file_reads_off(
    input: Seq<u8>,
    limits: BencodeLimits,
    required: bool,
    root: Seq<(Seq<u8>, Item)>,
    info: Seq<(Seq<u8>, Item)>,
)
    requires
        metainfo_of(input, limits, required) is Ok,
        is_document(input, limits, root, info),
        !is_absent(info, "pieces"),
        is_absent(info, "files"),
    ensures
        ({
            let m = metainfo_of(input, limits, required)->Ok_0;
            &&& m.v1_files.len() == 1
            &&& m.v1_files[0].path == seq![m.name]
            &&& stands_under(info, "length", Content::Integer(m.v1_files[0].length))
            &&& m.v1_files[0].length >= 0
            &&& !m.v1_files[0].padding
            &&& m.v2_info_hash is None ==> m.files == m.v1_files
        }),
{
    let (h, layout) = lemma_document(input, limits, required, root, info);
    lemma_found(info, "pieces");
    lemma_absent(info, "files");
    lemma_found(info, "length");
    let plain = v1_files_of(info, h.name)->Ok_0;
    assert(layout.v1_files == with_offsets(plain));
}

/// The name is the text of the `name` key, the piece length the number of the
/// `piece length` key, and a document is private if its `private` key is one.
/// It has a v1 side if there is a `pieces` key, and a v2 side if its
/// `meta version` is two.
pub proof fn law_header_reads_off(
    input: Seq<u8>,
    limits: BencodeLimits,
    required: bool,
    root: Seq<(Seq<u8>, Item)>,
    info: Seq<(Seq<u8>, Item)>,
)
    requires
        metainfo_of(input, limits, required) is Ok,
        is_document(input, limits, root, info),
    ensures
        ({
            let m = metainfo_of(input, limits, required)->Ok_0;
            &&& stands_under(info, "name", Content::Bytes(encode_utf8(m.name)))
            &&& stands_under(info, "piece length", Content::Integer(m.piece_length))
            &&& 0 < m.piece_length <= u32::MAX
            &&& m.private <==> stands_under(info, "private", Content::Integer(1))
            &&& m.v1_info_hash is Some <==> !is_absent(info, "pieces")
            &&& m.v2_info_hash is Some <==> stands_under(info, "meta version", Content::Integer(2))
            &&& m.v2_info_hash is Some ==> m.piece_length >= 16384 && exists|k: nat|
                m.piece_length == #[trigger] pow2(k)
        }),
{
    let (h, layout) = lemma_document(input, limits, required, root, info);
    lemma_found(info, "name");
    lemma_found(info, "piece length");
    lemma_found(info, "private");
    lemma_found(info, "pieces");
    lemma_found(info, "meta version");
    decode_utf8_encode_utf8(bytes_at(info, "name")->0);
    if stands_under(info, "private", Content::Integer(1)) {
        lemma_under(info, "private", Content::Integer(1));
    }
    if stands_under(info, "meta version", Content::Integer(2)) {
        lemma_under(info, "meta version", Content::Integer(2));
    }
    if is_absent(info, "pieces") {
        lemma_absent(info, "pieces");
    }
    if h.has_v2 {
        lemma_power(h.piece_length as nat);
    }
}

/// The v1 piece hashes, one after another, are the bytes of the `pieces` key,
/// twenty to a piece, and there is one for every piece that the v1 files fill.
pub proof fn law_v1_hashes_read_off(
    input: Seq<u8>,
    limits: BencodeLimits,
    required: bool,
    root: Seq<(Seq<u8>, Item)>,
    info: Seq<(Seq<u8>, Item)>,
    pieces: Seq<u8>,
)
    requires
        metainfo_of(input, limits, required) is Ok,
        is_document(input, limits, root, info),
        stands_under(info, "pieces", Content::Bytes(pieces)),
    ensures
        ({
            let m = metainfo_of(input, limits, required)->Ok_0;
            let n = m.v1_piece_hashes.len() as int;
            &&& 20 * n == pieces.len()
            &&& (n - 1) * m.piece_length < m.piece_space_length <= n * m.piece_length
            &&& forall|i: int|
                0 <= i < n ==> (#[trigger] m.v1_piece_hashes[i]).len() == 20
            &&& forall|i: int, k: int|
                0 <= i < n && 0 <= k < 20 ==> #[trigger] m.v1_piece_hashes[i][k] == pieces[20 * i
                    + k]
        }),
{
    let (h, layout) = lemma_document(input, limits, required, root, info);
    lemma_under(info, "pieces", Content::Bytes(pieces));
    let m = metainfo_of(input, limits, required)->Ok_0;
    assert(m.v1_piece_hashes == chunks(pieces, 20));
    let n = m.v1_piece_hashes.len() as int;
    let total = m.piece_space_length;
    let size = m.piece_length;
    assert(0 < size);
    lemma_found(info, "files");
    if is_absent(info, "files") {
        law_single_v1_file_reads_off(input, limits, required, root, info);
    } else {
        let items = list_at(info, "files")->0;
        law_v1_list_reads_off(input, limits, required, root, info, items);
    }
    lemma_total_positive(m.v1_files);
    assert((n - 1) * size < total <= n * size) by (nonlinear_arith)
        requires
            0 < size,
            total >= 0,
            n == total / size + if total % size == 0 { 0int } else { 1int },
    ;
}


/// Each file begins where the one before it ends, the first at the front, and
/// the length of all of them is where the last one ends.
pub open spec fn lies_end_to_end(files: Seq<FileModel>, total: int) -> bool {
    &&& files.len() > 0
    &&& files[0].wire_offset == 0
    &&& forall|i: int|
        0 < i < files.len() ==> (#[trigger] files[i]).wire_offset == files[i - 1].wire_offset
            + files[i - 1].length
    &&& total == files.last().wire_offset + files.last().length
}

proof fn lemma_end_to_end(files: Seq<FileModel>)
    requires
        files.len() > 0,
    ensures
        lies_end_to_end(with_offsets(files), total_of(files)),
{
    let placed = with_offsets(files);
    assert(files.take(0) =~= Seq::<FileModel>::empty());
    assert forall|i: int| 0 < i < placed.len() implies (#[trigger] placed[i]).wire_offset
        == placed[i - 1].wire_offset + placed[i - 1].length by {
        assert(files.take(i).drop_last() =~= files.take(i - 1));
    }
    assert(files.take(files.len() - 1) =~= files.drop_last());
}

/// The files that are exchanged lie end to end from the front, as do those of
/// the v1 side, and the totals are where they end.
pub proof fn law_offsets_follow_lengths(input: Seq<u8>, limits: BencodeLimits, required: bool)
    requires
        metainfo_of(input, limits, required) is Ok,
    ensures
        ({
            let m = metainfo_of(input, limits, required)->Ok_0;
            &&& lies_end_to_end(m.files, m.total_length)
            &&& m.v1_info_hash is Some ==> lies_end_to_end(m.v1_files, m.piece_space_length)
            &&& m.v1_info_hash is None ==> m.piece_space_length == m.total_length
                && m.v1_files.len() == 0
        }),
{
    let (root, h, layout) = lemma_stages(input, limits, required);
    if h.has_v1 {
        let plain = v1_files_of(h.info, h.name)->Ok_0;
        lemma_offsets_total(plain);
        if find(h.info, "files") is Some {
            lemma_list(list_at(h.info, "files")->0, h.name);
        }
        lemma_end_to_end(plain);
    }
    if h.has_v2 {
        let plain = v2_files_of(h.info, h.name)->Ok_0;
        lemma_offsets_total(plain);
        lemma_end_to_end(plain);
    }
}

/// The dictionary of the file that a route of positions leads to in a file tree:
/// every step but the last takes the subtree under a key, and the last takes the
/// value under the empty key.
pub open spec fn leaf_at(tree: Seq<(Seq<u8>, Item)>, route: Seq<int>) -> Option<
    Seq<(Seq<u8>, Item)>,
>
    decreases route.len(),
{
    if route.len() == 0 || !(0 <= route[0] < tree.len()) {
        None
    } else {
        match tree[route[0]].1.content {
            Content::Dictionary(below) => if route.len() == 1 {
                if tree[route[0]].0.len() == 0 {
                    Some(below)
                } else {
                    None
                }
            } else if tree[route[0]].0.len() == 0 {
                None
            } else {
                leaf_at(below, route.drop_first())
            },
            _ => None,
        }
    }
}

/// The key of each step of a route but the last.
pub open spec fn keys_along(tree: Seq<(Seq<u8>, Item)>, route: Seq<int>) -> Seq<Seq<u8>>
    decreases route.len(),
{
    if route.len() <= 1 {
        Seq::empty()
    } else {
        match tree[route[0]].1.content {
            Content::Dictionary(below) => seq![tree[route[0]].0] + keys_along(
                below,
                route.drop_first(),
            ),
            _ => Seq::empty(),
        }
    }
}

/// One route turns off before another at the first step where they part.
pub open spec fn turns_off_before(a: Seq<int>, b: Seq<int>) -> bool {
    exists|k: int|
        0 <= k < a.len() && k < b.len() && #[trigger] a[k] < b[k] && forall|j: int|
            0 <= j < k ==> #[trigger] a[j] == b[j]
}

/// A file as its dictionary in the tree describes it, under a path that ends in
/// some keys.
pub open spec fn is_leaf(
    file: FileModel,
    above: Seq<Seq<char>>,
    keys: Seq<Seq<u8>>,
    entries: Seq<(Seq<u8>, Item)>,
) -> bool {
    &&& file.path.len() == above.len() + keys.len()
    &&& forall|k: int| 0 <= k < above.len() ==> #[trigger] file.path[k] == above[k]
    &&& forall|k: int|
        0 <= k < keys.len() ==> encode_utf8(file.path[above.len() + k]) == #[trigger] keys[k]
    &&& stands_under(entries, "length", Content::Integer(file.length))
    &&& file.length >= 0
    &&& file.padding <==> is_padded(entries)
    &&& match file.pieces_root {
        Some(root) => root.len() == 32 && stands_under(entries, "pieces root", Content::Bytes(root)),
        None => is_absent(entries, "pieces root"),
    }
}

/// All the files of a tree, each by the route to it, in the order of the routes.
pub open spec fn are_all_leaves(
    files: Seq<FileModel>,
    above: Seq<Seq<char>>,
    tree: Seq<(Seq<u8>, Item)>,
    routes: Seq<Seq<int>>,
) -> bool {
    &&& files.len() == routes.len()
    &&& forall|i: int|
        0 <= i < routes.len() ==> leaf_at(tree, #[trigger] routes[i]) is Some && is_leaf(
            files[i],
            above,
            keys_along(tree, routes[i]),
            leaf_at(tree, routes[i])->0,
        )
    &&& forall|i: int, j: int|
        0 <= i < j < routes.len() ==> turns_off_before(#[trigger] routes[i], #[trigger] routes[j])
    &&& forall|route: Seq<int>| #[trigger]
        leaf_at(tree, route) is Some ==> exists|i: int|
            0 <= i < routes.len() && #[trigger] routes[i] == route
}

proof fn lemma_v2_file(item: Item, path: Seq<Seq<char>>)
    requires
        v2_file(item, path) is Ok,
    ensures
        item.content is Dictionary,
        is_leaf(v2_file(item, path)->Ok_0, path, Seq::empty(), item.content->Dictionary_0),
{
    let entries = item.content->Dictionary_0;
    lemma_found(entries, "length");
    lemma_found(entries, "pieces root");
    lemma_padded(entries);
}

/// Without its last entry a tree has the routes that do not begin there.
proof fn lemma_route_of_front(tree: Seq<(Seq<u8>, Item)>, route: Seq<int>)
    requires
        tree.len() > 0,
    ensures
        leaf_at(tree.drop_last(), route) is Some ==> leaf_at(tree, route) == leaf_at(
            tree.drop_last(),
            route,
        ) && keys_along(tree, route) == keys_along(tree.drop_last(), route) && 0 <= route[0]
            < tree.len() - 1,
        leaf_at(tree, route) is Some && route[0] < tree.len() - 1 ==> leaf_at(
            tree.drop_last(),
            route,
        ) is Some,
{
    if route.len() > 0 && 0 <= route[0] < tree.len() - 1 {
        assert(tree.drop_last()[route[0]] == tree[route[0]]);
    }
}

/// A tree that ends in a file has the files before it and then that file.
proof fn lemma_joined_file(
    tree: Seq<(Seq<u8>, Item)>,
    path: Seq<Seq<char>>,
    files: Seq<FileModel>,
    routes: Seq<Seq<int>>,
    file: FileModel,
)
    requires
        tree.len() > 0,
        are_all_leaves(files, path, tree.drop_last(), routes),
        tree.last().0.len() == 0,
        tree.last().1.content is Dictionary,
        is_leaf(file, path, Seq::empty(), tree.last().1.content->Dictionary_0),
    ensures
        are_all_leaves(files.push(file), path, tree, routes.push(seq![tree.len() - 1])),
{
    let last = tree.len() - 1;
    let all = routes.push(seq![last]);
    assert(leaf_at(tree, seq![last]) == Some(tree.last().1.content->Dictionary_0));
    assert forall|i: int| 0 <= i < all.len() implies leaf_at(tree, #[trigger] all[i]) is Some
        && is_leaf(
        files.push(file)[i],
        path,
        keys_along(tree, all[i]),
        leaf_at(tree, all[i])->0,
    ) by {
        if i < routes.len() {
            lemma_route_of_front(tree, routes[i]);
        }
    }
    assert forall|i: int, j: int| 0 <= i < j < all.len() implies turns_off_before(
        #[trigger] all[i],
        #[trigger] all[j],
    ) by {
        if j == routes.len() {
            lemma_route_of_front(tree, routes[i]);
            assert(leaf_at(tree.drop_last(), routes[i]) is Some);
            assert(all[i][0] < all[j][0]);
        } else {
            assert(turns_off_before(routes[i], routes[j]));
        }
    }
    assert forall|route: Seq<int>| #[trigger] leaf_at(tree, route) is Some implies exists|i: int|
        0 <= i < all.len() && #[trigger] all[i] == route by {
        lemma_route_of_front(tree, route);
        if route[0] < last {
            let i = choose|i: int| 0 <= i < routes.len() && #[trigger] routes[i] == route;
            assert(all[i] == route);
        } else {
            assert(route =~= seq![last]);
            assert(all[routes.len() as int] == route);
        }
    }
}

/// A tree that ends in a subtree has the files before it and then those below.
proof fn lemma_joined_subtree(
    tree: Seq<(Seq<u8>, Item)>,
    path: Seq<Seq<char>>,
    component: Seq<char>,
    files: Seq<FileModel>,
    routes: Seq<Seq<int>>,
    more: Seq<FileModel>,
    inner: Seq<Seq<int>>,
)
    requires
        tree.len() > 0,
        are_all_leaves(files, path, tree.drop_last(), routes),
        tree.last().0.len() > 0,
        tree.last().0 == encode_utf8(component),
        tree.last().1.content is Dictionary,
        are_all_leaves(more, path.push(component), tree.last().1.content->Dictionary_0, inner),
    ensures
        are_all_leaves(
            files + more,
            path,
            tree,
            routes + Seq::new(inner.len(), |i: int| seq![tree.len() - 1] + inner[i]),
        ),
{
    let last = tree.len() - 1;
    let below = tree.last().1.content->Dictionary_0;
    let all = routes + Seq::new(inner.len(), |i: int| seq![last] + inner[i]);
    let n = routes.len() as int;
    assert forall|i: int| 0 <= i < all.len() implies leaf_at(tree, #[trigger] all[i]) is Some
        && is_leaf(
        (files + more)[i],
        path,
        keys_along(tree, all[i]),
        leaf_at(tree, all[i])->0,
    ) by {
        if i < n {
            lemma_route_of_front(tree, routes[i]);
        } else {
            let route = inner[i - n];
            assert(leaf_at(below, route) is Some);
            assert(all[i].drop_first() =~= route);
            let keys = keys_along(below, route);
            assert(keys_along(tree, all[i]) == seq![tree.last().0] + keys);
            let file = more[i - n];
            assert(is_leaf(file, path.push(component), keys, leaf_at(below, route)->0));
            let longer = seq![tree.last().0] + keys;
            assert forall|k: int| 0 <= k < path.len() implies #[trigger] file.path[k]
                == path[k] by {
                assert(file.path[k] == path.push(component)[k]);
            }
            assert forall|k: int| 0 <= k < longer.len() implies encode_utf8(
                file.path[path.len() + k],
            ) == #[trigger] longer[k] by {
                if k == 0 {
                    assert(file.path[path.len() as int] == path.push(component)[path.len() as int]);
                } else {
                    assert(longer[k] == keys[k - 1]);
                }
            }
        }
    }
    assert forall|i: int, j: int| 0 <= i < j < all.len() implies turns_off_before(
        #[trigger] all[i],
        #[trigger] all[j],
    ) by {
        if j < n {
            assert(turns_off_before(routes[i], routes[j]));
        } else if i < n {
            lemma_route_of_front(tree, routes[i]);
            assert(leaf_at(tree.drop_last(), routes[i]) is Some);
            assert(all[i][0] < all[j][0]);
        } else {
            let a = inner[i - n];
            let b = inner[j - n];
            assert(turns_off_before(a, b));
            let k = choose|k: int|
                0 <= k < a.len() && k < b.len() && #[trigger] a[k] < b[k] && forall|j: int|
                    0 <= j < k ==> #[trigger] a[j] == b[j];
            assert(all[i][k + 1] < all[j][k + 1]);
            assert forall|t: int| 0 <= t < k + 1 implies #[trigger] all[i][t] == all[j][t] by {
                if t > 0 {
                    assert(a[t - 1] == b[t - 1]);
                }
            }
        }
    }
    assert forall|route: Seq<int>| #[trigger] leaf_at(tree, route) is Some implies exists|i: int|
        0 <= i < all.len() && #[trigger] all[i] == route by {
        lemma_route_of_front(tree, route);
        if route[0] < last {
            let i = choose|i: int| 0 <= i < n && #[trigger] routes[i] == route;
            assert(all[i] == route);
        } else {
            assert(leaf_at(below, route.drop_first()) is Some);
            let i = choose|i: int|
                0 <= i < inner.len() && #[trigger] inner[i] == route.drop_first();
            assert(route =~= seq![last] + inner[i]);
            assert(all[n + i] == route);
        }
    }
}

proof fn lemma_walk(tree: Seq<(Seq<u8>, Item)>, path: Seq<Seq<char>>, depth: nat) -> (routes: Seq<
    Seq<int>,
>)
    requires
        tree_files(tree, path, depth) is Ok,
    ensures
        are_all_leaves(tree_files(tree, path, depth)->Ok_0, path, tree, routes),
    decreases 65 - depth, tree.len(),
{
    if tree.len() == 0 {
        Seq::empty()
    } else {
        let front = lemma_walk(tree.drop_last(), path, depth);
        let files = tree_files(tree.drop_last(), path, depth)->Ok_0;
        if tree.last().0.len() == 0 {
            lemma_v2_file(tree.last().1, path);
            let file = v2_file(tree.last().1, path)->Ok_0;
            lemma_joined_file(tree, path, files, front, file);
            front.push(seq![tree.len() - 1])
        } else {
            let below = tree.last().1.content->Dictionary_0;
            let component = text_of(tree.last().0, "info.file tree path")->Ok_0;
            decode_utf8_encode_utf8(tree.last().0);
            let inner = lemma_walk(below, path.push(component), depth + 1);
            let more = tree_files(below, path.push(component), depth + 1)->Ok_0;
            lemma_joined_subtree(tree, path, component, files, front, more, inner);
            front + Seq::new(inner.len(), |i: int| seq![tree.len() - 1] + inner[i])
        }
    }
}

proof fn lemma_v2_routes(
    input: Seq<u8>,
    limits: BencodeLimits,
    required: bool,
    root: Seq<(Seq<u8>, Item)>,
    info: Seq<(Seq<u8>, Item)>,
    tree: Seq<(Seq<u8>, Item)>,
) -> (routes: Seq<Seq<int>>)
    requires
        metainfo_of(input, limits, required) is Ok,
        is_document(input, limits, root, info),
        stands_under(info, "meta version", Content::Integer(2)),
        stands_under(info, "file tree", Content::Dictionary(tree)),
    ensures
        ({
            let m = metainfo_of(input, limits, required)->Ok_0;
            are_all_leaves(m.files, seq![m.name], tree, routes)
        }),
{
    let (h, layout) = lemma_document(input, limits, required, root, info);
    lemma_under(info, "meta version", Content::Integer(2));
    lemma_under(info, "file tree", Content::Dictionary(tree));
    let routes = lemma_walk(tree, seq![h.name], 0);
    let plain = v2_files_of(info, h.name)->Ok_0;
    let m = metainfo_of(input, limits, required)->Ok_0;
    assert(m.files == with_offsets(plain));
    assert forall|i: int| 0 <= i < routes.len() implies leaf_at(tree, #[trigger] routes[i]) is Some
        && is_leaf(
        m.files[i],
        seq![m.name],
        keys_along(tree, routes[i]),
        leaf_at(tree, routes[i])->0,
    ) by {
        assert(is_leaf(
            plain[i],
            seq![m.name],
            keys_along(tree, routes[i]),
            leaf_at(tree, routes[i])->0,
        ));
    }
    routes
}

/// The files of a v2 document are those that its file tree leads to, all of
/// them, each once and in the order of the tree. The path of each is the
/// torrent's name and then every key on the way to it, and its length, pieces
/// root and padding are those of its dictionary.
pub proof fn law_v2_files_read_off(
    input: Seq<u8>,
    limits: BencodeLimits,
    required: bool,
    root: Seq<(Seq<u8>, Item)>,
    info: Seq<(Seq<u8>, Item)>,
    tree: Seq<(Seq<u8>, Item)>,
)
    requires
        metainfo_of(input, limits, required) is Ok,
        is_document(input, limits, root, info),
        stands_under(info, "meta version", Content::Integer(2)),
        stands_under(info, "file tree", Content::Dictionary(tree)),
    ensures
        exists|routes: Seq<Seq<int>>| #[trigger]
            are_all_leaves(
                metainfo_of(input, limits, required)->Ok_0.files,
                seq![metainfo_of(input, limits, required)->Ok_0.name],
                tree,
                routes,
            ),
{
    let routes = lemma_v2_routes(input, limits, required, root, info, tree);
}

/// A tree with one file alone, however deep, gives that one file, and its path
/// is the torrent's name and every key on the way down, none left out.
pub proof fn law_lone_v2_file_keeps_every_key(
    input: Seq<u8>,
    limits: BencodeLimits,
    required: bool,
    root: Seq<(Seq<u8>, Item)>,
    info: Seq<(Seq<u8>, Item)>,
    tree: Seq<(Seq<u8>, Item)>,
    route: Seq<int>,
)
    requires
        metainfo_of(input, limits, required) is Ok,
        is_document(input, limits, root, info),
        stands_under(info, "meta version", Content::Integer(2)),
        stands_under(info, "file tree", Content::Dictionary(tree)),
        leaf_at(tree, route) is Some,
        forall|other: Seq<int>| #[trigger] leaf_at(tree, other) is Some ==> other == route,
    ensures
        ({
            let m = metainfo_of(input, limits, required)->Ok_0;
            let keys = keys_along(tree, route);
            &&& m.files.len() == 1
            &&& keys.len() == route.len() - 1
            &&& m.files[0].path.len() == route.len()
            &&& m.files[0].path[0] == m.name
            &&& forall|k: int|
                0 <= k < keys.len() ==> encode_utf8(m.files[0].path[k + 1]) == #[trigger] keys[k]
            &&& stands_under(
                leaf_at(tree, route)->0,
                "length",
                Content::Integer(m.files[0].length),
            )
        }),
{
    let m = metainfo_of(input, limits, required)->Ok_0;
    let routes = lemma_v2_routes(input, limits, required, root, info, tree);
    let at = choose|i: int| 0 <= i < routes.len() && #[trigger] routes[i] == route;
    assert(routes[0] == route);
    if routes.len() > 1 {
        assert(routes[1] == route);
        assert(turns_off_before(routes[0], routes[1]));
        assert(false);
    }
    let keys = keys_along(tree, route);
    lemma_key_for_every_step(tree, route);
    assert forall|k: int| 0 <= k < keys.len() implies encode_utf8(m.files[0].path[k + 1])
        == #[trigger] keys[k] by {
        assert(seq![m.name].len() + k == k + 1);
    }
}

proof fn lemma_key_for_every_step(tree: Seq<(Seq<u8>, Item)>, route: Seq<int>)
    requires
        leaf_at(tree, route) is Some,
    ensures
        keys_along(tree, route).len() == route.len() - 1,
        forall|k: int|
            0 <= k < keys_along(tree, route).len() ==> (#[trigger] keys_along(tree, route)[k]).len()
                > 0,
    decreases route.len(),
{
    if route.len() > 1 {
        lemma_key_for_every_step(
            tree[route[0]].1.content->Dictionary_0,
            route.drop_first(),
        );
    }
}

/// A byte string that is text.
pub open spec fn is_text(item: Item) -> bool {
    item.content is Bytes && valid_utf8(item.content->Bytes_0)
}

/// Positions below a bound, in order.
pub open spec fn are_positions(kept: Seq<int>, bound: int) -> bool {
    &&& forall|i: int| 0 <= i < kept.len() ==> 0 <= #[trigger] kept[i] < bound
    &&& forall|i: int, j: int| 0 <= i < j < kept.len() ==> #[trigger] kept[i] < #[trigger] kept[j]
}

/// The texts of a list, all of them and in order; what is no text is passed over.
pub open spec fn are_texts(texts: Seq<Seq<char>>, items: Seq<Item>, kept: Seq<int>) -> bool {
    &&& are_positions(kept, items.len() as int)
    &&& texts.len() == kept.len()
    &&& forall|i: int|
        0 <= i < kept.len() ==> items[#[trigger] kept[i]].content == Content::Bytes(
            encode_utf8(texts[i]),
        )
    &&& forall|k: int|
        0 <= k < items.len() && is_text(#[trigger] items[k]) ==> exists|i: int|
            0 <= i < kept.len() && #[trigger] kept[i] == k
}

/// Lists of texts, of which some hold none.
pub open spec fn holds_text(item: Item) -> bool {
    item.content is List && exists|k: int|
        0 <= k < item.content->List_0.len() && is_text(#[trigger] item.content->List_0[k])
}

/// The tiers of a list: the texts of each of its lists that holds any, in order.
pub open spec fn are_tiers(
    tiers: Seq<Seq<Seq<char>>>,
    items: Seq<Item>,
    kept: Seq<int>,
) -> bool {
    &&& are_positions(kept, items.len() as int)
    &&& tiers.len() == kept.len()
    &&& forall|i: int|
        0 <= i < kept.len() ==> holds_text(items[#[trigger] kept[i]]) && exists|inner: Seq<int>|
            #[trigger] are_texts(tiers[i], items[kept[i]].content->List_0, inner)
    &&& forall|k: int|
        0 <= k < items.len() && holds_text(#[trigger] items[k]) ==> exists|i: int|
            0 <= i < kept.len() && #[trigger] kept[i] == k
}

proof fn lemma_texts(items: Seq<Item>) -> (kept: Seq<int>)
    ensures
        are_texts(utf8_strings(items), items, kept),
    decreases items.len(),
{
    if items.len() == 0 {
        Seq::empty()
    } else {
        let front = lemma_texts(items.drop_last());
        let last = items.len() - 1;
        let kept = if is_text(items.last()) {
            decode_utf8_encode_utf8(items.last().content->Bytes_0);
            front.push(last)
        } else {
            front
        };
        assert forall|i: int| 0 <= i < kept.len() implies items[#[trigger] kept[i]].content
            == Content::Bytes(encode_utf8(utf8_strings(items)[i])) by {
            if i < front.len() {
                assert(kept[i] == front[i]);
                assert(items.drop_last()[front[i]] == items[kept[i]]);
            }
        }
        assert forall|k: int| 0 <= k < items.len() && is_text(#[trigger] items[k]) implies exists|
            i: int,
        | 0 <= i < kept.len() && #[trigger] kept[i] == k by {
            if k < last {
                assert(is_text(items.drop_last()[k]));
                let i = choose|i: int| 0 <= i < front.len() && #[trigger] front[i] == k;
                assert(kept[i] == k);
            } else {
                assert(kept[front.len() as int] == k);
            }
        }
        kept
    }
}

proof fn lemma_tiers(items: Seq<Item>) -> (kept: Seq<int>)
    ensures
        are_tiers(tiers_of(items), items, kept),
    decreases items.len(),
{
    if items.len() == 0 {
        Seq::empty()
    } else {
        let front = lemma_tiers(items.drop_last());
        let last = items.len() - 1;
        let tiers = tiers_of(items);
        let is_tier = items.last().content is List && utf8_strings(
            items.last().content->List_0,
        ).len() > 0;
        let kept = if is_tier {
            front.push(last)
        } else {
            front
        };
        if items.last().content is List {
            let values = items.last().content->List_0;
            let inner = lemma_texts(values);
            if is_tier {
                assert(values[inner[0]].content == Content::Bytes(
                    encode_utf8(utf8_strings(values)[0]),
                ));
                encode_utf8_valid_utf8(utf8_strings(values)[0]);
                assert(is_text(values[inner[0]]));
            }
            if holds_text(items.last()) {
                let k = choose|k: int| 0 <= k < values.len() && is_text(#[trigger] values[k]);
                let i = choose|i: int| 0 <= i < inner.len() && #[trigger] inner[i] == k;
            }
        }
        assert forall|i: int| 0 <= i < kept.len() implies holds_text(items[#[trigger] kept[i]])
            && exists|inner: Seq<int>| #[trigger]
            are_texts(tiers[i], items[kept[i]].content->List_0, inner) by {
            if i < front.len() {
                assert(kept[i] == front[i]);
                assert(items.drop_last()[front[i]] == items[kept[i]]);
                assert(tiers[i] == tiers_of(items.drop_last())[i]);
            } else {
                let inner = lemma_texts(items.last().content->List_0);
                assert(are_texts(tiers[i], items[kept[i]].content->List_0, inner));
            }
        }
        assert forall|k: int| 0 <= k < items.len() && holds_text(#[trigger] items[k]) implies exists|
            i: int,
        | 0 <= i < kept.len() && #[trigger] kept[i] == k by {
            if k < last {
                assert(holds_text(items.drop_last()[k]));
                let i = choose|i: int| 0 <= i < front.len() && #[trigger] front[i] == k;
                assert(kept[i] == k);
            } else {
                assert(kept[front.len() as int] == k);
            }
        }
        kept
    }
}

/// Where the tracker list has a tier with a tracker, the trackers are its tiers.
pub proof fn law_tracker_tiers_read_off(
    input: Seq<u8>,
    limits: BencodeLimits,
    required: bool,
    root: Seq<(Seq<u8>, Item)>,
    info: Seq<(Seq<u8>, Item)>,
    items: Seq<Item>,
)
    requires
        metainfo_of(input, limits, required) is Ok,
        is_document(input, limits, root, info),
        stands_under(root, "announce-list", Content::List(items)),
        exists|k: int| 0 <= k < items.len() && holds_text(#[trigger] items[k]),
    ensures
        exists|kept: Seq<int>| #[trigger]
            are_tiers(metainfo_of(input, limits, required)->Ok_0.trackers, items, kept),
{
    let (h, layout) = lemma_document(input, limits, required, root, info);
    lemma_under(root, "announce-list", Content::List(items));
    let kept = lemma_tiers(items);
    let k = choose|k: int| 0 <= k < items.len() && holds_text(#[trigger] items[k]);
    let i = choose|i: int| 0 <= i < kept.len() && #[trigger] kept[i] == k;
    assert(are_tiers(metainfo_of(input, limits, required)->Ok_0.trackers, items, kept));
}

/// Where no tracker list has a tracker, the only tracker is the one announced,
/// if it is text, and else there is none.
pub proof fn law_lone_tracker_reads_off(
    input: Seq<u8>,
    limits: BencodeLimits,
    required: bool,
    root: Seq<(Seq<u8>, Item)>,
    info: Seq<(Seq<u8>, Item)>,
)
    requires
        metainfo_of(input, limits, required) is Ok,
        is_document(input, limits, root, info),
        forall|items: Seq<Item>, k: int|
            #[trigger] stands_under(root, "announce-list", Content::List(items)) && 0 <= k
                < items.len() ==> !holds_text(#[trigger] items[k]),
    ensures
        ({
            let m = metainfo_of(input, limits, required)->Ok_0;
            if exists|b: Seq<u8>| #[trigger]
                stands_under(root, "announce", Content::Bytes(b)) && valid_utf8(b) {
                &&& m.trackers.len() == 1
                &&& m.trackers[0].len() == 1
                &&& stands_under(
                    root,
                    "announce",
                    Content::Bytes(encode_utf8(m.trackers[0][0])),
                )
            } else {
                m.trackers.len() == 0
            }
        }),
{
    let (h, layout) = lemma_document(input, limits, required, root, info);
    lemma_found(root, "announce-list");
    lemma_found(root, "announce");
    if list_at(root, "announce-list") is Some {
        let items = list_at(root, "announce-list")->0;
        let kept = lemma_tiers(items);
        assert(stands_under(root, "announce-list", Content::List(items)));
        if tiers_of(items).len() > 0 {
            assert(holds_text(items[kept[0]]));
            assert(false);
        }
    }
    if exists|b: Seq<u8>| #[trigger]
        stands_under(root, "announce", Content::Bytes(b)) && valid_utf8(b) {
        let b = choose|b: Seq<u8>| #[trigger]
            stands_under(root, "announce", Content::Bytes(b)) && valid_utf8(b);
        lemma_under(root, "announce", Content::Bytes(b));
        decode_utf8_encode_utf8(b);
    }
}

/// The web seeds are the one text of the `url-list` key, or the texts of its
/// list, all of them and in order, and there are none without that key.
pub proof fn law_web_seeds_read_off(
    input: Seq<u8>,
    limits: BencodeLimits,
    required: bool,
    root: Seq<(Seq<u8>, Item)>,
    info: Seq<(Seq<u8>, Item)>,
)
    requires
        metainfo_of(input, limits, required) is Ok,
        is_document(input, limits, root, info),
    ensures
        ({
            let seeds = metainfo_of(input, limits, required)->Ok_0.web_seeds;
            &&& is_absent(root, "url-list") ==> seeds.len() == 0
            &&& forall|b: Seq<u8>| #[trigger]
                stands_under(root, "url-list", Content::Bytes(b)) ==> if valid_utf8(b) {
                    seeds.len() == 1 && encode_utf8(seeds[0]) == b
                } else {
                    seeds.len() == 0
                }
            &&& forall|items: Seq<Item>| #[trigger]
                stands_under(root, "url-list", Content::List(items)) ==> exists|kept: Seq<int>|
                    #[trigger] are_texts(seeds, items, kept)
        }),
{
    let (h, layout) = lemma_document(input, limits, required, root, info);
    let seeds = metainfo_of(input, limits, required)->Ok_0.web_seeds;
    if is_absent(root, "url-list") {
        lemma_absent(root, "url-list");
    }
    assert forall|b: Seq<u8>| #[trigger]
        stands_under(root, "url-list", Content::Bytes(b)) implies if valid_utf8(b) {
        seeds.len() == 1 && encode_utf8(seeds[0]) == b
    } else {
        seeds.len() == 0
    } by {
        lemma_under(root, "url-list", Content::Bytes(b));
        if valid_utf8(b) {
            decode_utf8_encode_utf8(b);
        }
    }
    assert forall|items: Seq<Item>| #[trigger]
        stands_under(root, "url-list", Content::List(items)) implies exists|kept: Seq<int>|
        #[trigger] are_texts(seeds, items, kept) by {
        lemma_under(root, "url-list", Content::List(items));
        let kept = lemma_texts(items);
        assert(are_texts(seeds, items, kept));
    }
}

/// The hashes of a layer, one after another, are a byte string.
pub open spec fn is_layer(layer: Seq<Seq<u8>>, bytes: Seq<u8>) -> bool {
    &&& 32 * layer.len() == bytes.len()
    &&& forall|i: int| 0 <= i < layer.len() ==> (#[trigger] layer[i]).len() == 32
    &&& forall|i: int, k: int|
        0 <= i < layer.len() && 0 <= k < 32 ==> #[trigger] layer[i][k] == bytes[32 * i + k]
}

/// No later entry has the same key.
pub open spec fn is_final(entries: Seq<(Seq<u8>, Item)>, i: int) -> bool {
    forall|j: int| i < j < entries.len() ==> (#[trigger] entries[j]).0 != entries[i].0
}

/// A layer stands under a root as an entry writes it down.
pub open spec fn holds_layer(
    layers: Map<Seq<u8>, Seq<Seq<u8>>>,
    entry: (Seq<u8>, Item),
) -> bool {
    &&& layers.contains_key(entry.0)
    &&& entry.1.content is Bytes
    &&& is_layer(layers[entry.0], entry.1.content->Bytes_0)
}

proof fn lemma_layer(bytes: Seq<u8>)
    requires
        bytes.len() % 32 == 0,
    ensures
        is_layer(chunks(bytes, 32), bytes),
{
}

proof fn lemma_written_layers(entries: Seq<(Seq<u8>, Item)>)
    requires
        layers_of(entries) is Ok,
    ensures
        forall|i: int|
            0 <= i < entries.len() && is_final(entries, i) ==> holds_layer(
                layers_of(entries)->Ok_0,
                #[trigger] entries[i],
            ),
        forall|key: Seq<u8>| #[trigger]
            layers_of(entries)->Ok_0.contains_key(key) ==> exists|i: int|
                0 <= i < entries.len() && (#[trigger] entries[i]).0 == key,
    decreases entries.len(),
{
    if entries.len() > 0 {
        let front = entries.drop_last();
        lemma_written_layers(front);
        let layers = layers_of(entries)->Ok_0;
        let before = layers_of(front)->Ok_0;
        let n = entries.len() - 1;
        let bytes = entries[n].1.content->Bytes_0;
        lemma_layer(bytes);
        assert(layers == before.insert(entries[n].0, chunks(bytes, 32)));
        assert forall|i: int| 0 <= i < entries.len() && is_final(entries, i) implies holds_layer(
            layers,
            #[trigger] entries[i],
        ) by {
            if i < n {
                assert(entries[n].0 != entries[i].0);
                assert(is_final(front, i)) by {
                    assert forall|j: int| i < j < front.len() implies (#[trigger] front[j]).0
                        != front[i].0 by {
                        assert(front[j] == entries[j]);
                    }
                }
                assert(holds_layer(before, front[i]));
            }
        }
        assert forall|key: Seq<u8>| #[trigger] layers.contains_key(key) implies exists|i: int|
            0 <= i < entries.len() && (#[trigger] entries[i]).0 == key by {
            if key == entries[n].0 {
                assert(entries[n].0 == key);
            } else {
                assert(before.contains_key(key));
                let i = choose|i: int| 0 <= i < front.len() && (#[trigger] front[i]).0 == key;
                assert(entries[i].0 == key);
            }
        }
    }
}

/// The piece layers are those that the document writes down, each under its
/// root and none besides: the hashes of one, one after another, are its bytes.
pub proof fn law_piece_layers_read_off(
    input: Seq<u8>,
    limits: BencodeLimits,
    required: bool,
    root: Seq<(Seq<u8>, Item)>,
    info: Seq<(Seq<u8>, Item)>,
    entries: Seq<(Seq<u8>, Item)>,
)
    requires
        metainfo_of(input, limits, required) is Ok,
        is_document(input, limits, root, info),
        stands_under(info, "meta version", Content::Integer(2)),
        stands_under(root, "piece layers", Content::Dictionary(entries)),
    ensures
        ({
            let layers = metainfo_of(input, limits, required)->Ok_0.piece_layers;
            &&& forall|i: int|
                0 <= i < entries.len() && is_final(entries, i) ==> holds_layer(
                    layers,
                    #[trigger] entries[i],
                )
            &&& forall|key: Seq<u8>| #[trigger]
                layers.contains_key(key) ==> exists|i: int|
                    0 <= i < entries.len() && (#[trigger] entries[i]).0 == key
        }),
{
    let (h, layout) = lemma_document(input, limits, required, root, info);
    lemma_under(info, "meta version", Content::Integer(2));
    lemma_under(root, "piece layers", Content::Dictionary(entries));
    lemma_written_layers(entries);
}

} // verus!
