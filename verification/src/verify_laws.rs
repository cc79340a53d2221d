//! What it means for a piece to be verified, said of its bytes.

use crate::hash::{openssl_sha256_of, parents, pow2, root_of, sha256_of};
use crate::layout::{lengths_ok, overlap, piece_count_of, pieces_before};
use crate::layout_laws::law_v2_piece_stays_in_file;
use crate::metainfo::{FileModel, MetaModel};
use crate::num::{div_ceil_of, lemma_div_ceil};
use crate::verify::{checks_of, first_content, first_named, leaves_of, passes, Checks, RootCheck};
use vstd::prelude::*;

verus! {

/// How many bytes a tree of some height has leaves for.
pub open spec fn span_of(height: nat) -> int {
    16384 * pow2(height) as int
}

/// A check that a piece has to pass as a whole.
pub open spec fn whole_check(size: int, piece_length: int, expected: Seq<u8>) -> Checks {
    Checks { v1: None, v2: Some(RootCheck { expected, start: 0, end: size, piece_length }) }
}

proof fn lemma_parents_split(nodes: Seq<Seq<u8>>, half: int)
    requires
        half > 0,
        nodes.len() == 4 * half,
    ensures
        parents(nodes).take(half) == parents(nodes.take(2 * half)),
        parents(nodes).skip(half) == parents(nodes.skip(2 * half)),
{
    assert(parents(nodes).take(half) =~= parents(nodes.take(2 * half)));
    assert(parents(nodes).skip(half) =~= parents(nodes.skip(2 * half)));
}

/// The root of a tree is the digest of the roots of its halves.
pub proof fn lemma_root_splits(nodes: Seq<Seq<u8>>, height: nat)
    requires
        nodes.len() == 2 * pow2(height),
    ensures
        root_of(nodes) == sha256_of(
            root_of(nodes.take(pow2(height) as int)) + root_of(nodes.skip(pow2(height) as int)),
        ),
    decreases height,
{
    let half = pow2(height) as int;
    lemma_pow2_positive(height);
    if height == 0 {
        let above = parents(nodes);
        assert(above.len() == 1);
        assert(root_of(above) == above[0]);
        assert(nodes.take(1)[0] == nodes[0]);
        assert(nodes.skip(1)[0] == nodes[1]);
    } else {
        let quarter = pow2((height - 1) as nat) as int;
        lemma_pow2_positive((height - 1) as nat);
        lemma_root_splits(parents(nodes), (height - 1) as nat);
        lemma_parents_split(nodes, quarter);
        assert(root_of(nodes.take(half)) == root_of(parents(nodes.take(half))));
        assert(root_of(nodes.skip(half)) == root_of(parents(nodes.skip(half))));
    }
}

pub proof fn lemma_pow2_positive(k: nat)
    ensures
        pow2(k) > 0,
    decreases k,
{
    if k > 0 {
        lemma_pow2_positive((k - 1) as nat);
    }
}

/// The root of the tree above the bytes of a piece, from the top down: a tree
/// of more than one leaf is hashed from its halves, and a leaf from the bytes
/// of its block. A leaf without bytes is zero.
pub open spec fn hashed_up(data: Seq<u8>, height: nat) -> Seq<u8>
    decreases height,
{
    if height == 0 {
        if data.len() == 0 {
            Seq::new(32, |k: int| 0u8)
        } else {
            openssl_sha256_of(data)
        }
    } else {
        let half = span_of((height - 1) as nat);
        if data.len() <= half {
            sha256_of(
                hashed_up(data, (height - 1) as nat) + hashed_up(
                    Seq::empty(),
                    (height - 1) as nat,
                ),
            )
        } else {
            sha256_of(
                hashed_up(data.take(half), (height - 1) as nat) + hashed_up(
                    data.skip(half),
                    (height - 1) as nat,
                ),
            )
        }
    }
}

/// Whatever the length of a v2 piece, its root is hashed up from all of its
/// bytes.
pub proof fn law_piece_root_is_hashed_up(data: Seq<u8>, height: nat)
    requires
        data.len() <= span_of(height),
    ensures
        root_of(leaves_of(data, span_of(height))) == hashed_up(data, height),
    decreases height,
{
    let leaves = leaves_of(data, span_of(height));
    lemma_pow2_positive(height);
    assert(span_of(height) / 16384 == pow2(height));
    if height == 0 {
        assert(leaves.len() == 1);
        assert(leaves[0] == hashed_up(data, 0)) by {
            assert(data.subrange(0, data.len() as int) =~= data);
        }
    } else {
        let below = (height - 1) as nat;
        let half = span_of(below);
        let count = pow2(below) as int;
        lemma_pow2_positive(below);
        assert(half / 16384 == count);
        lemma_root_splits(leaves, below);
        let (front, back) = if data.len() <= half {
            (data, Seq::<u8>::empty())
        } else {
            (data.take(half), data.skip(half))
        };
        law_piece_root_is_hashed_up(front, below);
        law_piece_root_is_hashed_up(back, below);
        assert(leaves.take(count) =~= leaves_of(front, half)) by {
            assert forall|i: int| 0 <= i < count implies leaves.take(count)[i] == leaves_of(
                front,
                half,
            )[i] by {
                if i * 16384 < front.len() {
                    let end = if i * 16384 + 16384 < front.len() {
                        i * 16384 + 16384
                    } else {
                        front.len() as int
                    };
                    assert(front.subrange(i * 16384, end) =~= data.subrange(i * 16384, end));
                }
            }
        }
        assert(leaves.skip(count) =~= leaves_of(back, half)) by {
            assert forall|i: int| 0 <= i < count implies leaves.skip(count)[i] == leaves_of(
                back,
                half,
            )[i] by {
                if i * 16384 < back.len() {
                    let end = if i * 16384 + 16384 < back.len() {
                        i * 16384 + 16384
                    } else {
                        back.len() as int
                    };
                    assert(back.subrange(i * 16384, end) =~= data.subrange(
                        half + i * 16384,
                        half + end,
                    ));
                }
            }
        }
    }
}

/// A v2 piece passes exactly if its bytes hash up to the expected root.
pub proof fn law_v2_piece_passes_by_all_its_bytes(
    piece: Seq<u8>,
    height: nat,
    expected: Seq<u8>,
)
    requires
        piece.len() <= span_of(height),
    ensures
        passes(whole_check(piece.len() as int, span_of(height), expected), piece) <==> hashed_up(
            piece,
            height,
        ) == expected,
{
    law_piece_root_is_hashed_up(piece, height);
    assert(piece.subrange(0, piece.len() as int) =~= piece);
}

/// A piece of two full blocks passes exactly if the digest of the blocks' two
/// digests is the expected one.
pub proof fn law_two_blocks_make_a_root(a: Seq<u8>, b: Seq<u8>, expected: Seq<u8>)
    requires
        a.len() == 16384,
        b.len() == 16384,
    ensures
        passes(whole_check(32768, 32768, expected), a + b) <==> sha256_of(
            openssl_sha256_of(a) + openssl_sha256_of(b),
        ) == expected,
{
    assert(pow2(0) == 1);
    assert(pow2(1) == 2);
    assert((a + b).take(16384) =~= a);
    assert((a + b).skip(16384) =~= b);
    law_v2_piece_passes_by_all_its_bytes(a + b, 1, expected);
    assert(hashed_up(a + b, 1) == sha256_of(hashed_up(a, 0) + hashed_up(b, 0)));
}

/// A piece of two halves passes exactly if the digest of the halves' roots is
/// the expected one, at every size.
pub proof fn law_halves_make_a_root(
    a: Seq<u8>,
    b: Seq<u8>,
    height: nat,
    left: Seq<u8>,
    right: Seq<u8>,
    expected: Seq<u8>,
)
    requires
        a.len() == span_of(height),
        0 < b.len() <= span_of(height),
        passes(whole_check(a.len() as int, span_of(height), left), a),
        passes(whole_check(b.len() as int, span_of(height), right), b),
    ensures
        passes(
            whole_check((a.len() + b.len()) as int, span_of(height + 1), expected),
            a + b,
        ) <==> sha256_of(left + right) == expected,
{
    law_v2_piece_passes_by_all_its_bytes(a, height, left);
    law_v2_piece_passes_by_all_its_bytes(b, height, right);
    assert(span_of(height + 1) == 2 * span_of(height));
    law_v2_piece_passes_by_all_its_bytes(a + b, height + 1, expected);
    assert((a + b).take(span_of(height)) =~= a);
    assert((a + b).skip(span_of(height)) =~= b);
}

/// Whether two inputs of one length have the same digest, as leaves or as pairs
/// of nodes.
pub open spec fn is_collision(x: Seq<u8>, y: Seq<u8>) -> bool {
    x != y && (openssl_sha256_of(x) == openssl_sha256_of(y) || sha256_of(x) == sha256_of(y))
}

proof fn lemma_same_root_collides(x: Seq<u8>, y: Seq<u8>, height: nat) -> (r: (Seq<u8>, Seq<u8>))
    requires
        forall|z: Seq<u8>| (#[trigger] openssl_sha256_of(z)).len() == 32,
        forall|z: Seq<u8>| (#[trigger] sha256_of(z)).len() == 32,
        x.len() == y.len() <= span_of(height),
        x != y,
        hashed_up(x, height) == hashed_up(y, height),
    ensures
        is_collision(r.0, r.1),
    decreases height,
{
    if height == 0 {
        if x.len() == 0 {
            assert(x =~= y);
        }
        (x, y)
    } else {
        let below = (height - 1) as nat;
        let half = span_of(below);
        let (a, b, c, d) = if x.len() <= half {
            (x, Seq::<u8>::empty(), y, Seq::<u8>::empty())
        } else {
            (x.take(half), x.skip(half), y.take(half), y.skip(half))
        };
        let left = hashed_up(a, below) + hashed_up(b, below);
        let right = hashed_up(c, below) + hashed_up(d, below);
        lemma_root_length(a, below);
        lemma_root_length(b, below);
        lemma_root_length(c, below);
        lemma_root_length(d, below);
        assert(sha256_of(left) == sha256_of(right));
        if left != right {
            (left, right)
        } else {
            assert(left.take(32) =~= hashed_up(a, below));
            assert(right.take(32) =~= hashed_up(c, below));
            assert(left.skip(32) =~= hashed_up(b, below));
            assert(right.skip(32) =~= hashed_up(d, below));
            if a != c {
                lemma_same_root_collides(a, c, below)
            } else {
                assert(b != d) by {
                    if b == d && x.len() > half {
                        assert(x =~= a + b);
                        assert(y =~= c + d);
                    }
                }
                lemma_same_root_collides(b, d, below)
            }
        }
    }
}

proof fn lemma_root_length(data: Seq<u8>, height: nat)
    requires
        forall|z: Seq<u8>| (#[trigger] openssl_sha256_of(z)).len() == 32,
        forall|z: Seq<u8>| (#[trigger] sha256_of(z)).len() == 32,
    ensures
        hashed_up(data, height).len() == 32,
{
}

/// Two different pieces pass the same v2 check only if two different inputs
/// have the same digest: no byte of a piece goes unhashed. Digests are taken to
/// be thirty-two bytes long.
pub proof fn law_every_byte_of_a_v2_piece_counts(
    x: Seq<u8>,
    y: Seq<u8>,
    height: nat,
    expected: Seq<u8>,
)
    requires
        forall|z: Seq<u8>| (#[trigger] openssl_sha256_of(z)).len() == 32,
        forall|z: Seq<u8>| (#[trigger] sha256_of(z)).len() == 32,
        x.len() == y.len() <= span_of(height),
        x != y,
        passes(whole_check(x.len() as int, span_of(height), expected), x),
        passes(whole_check(x.len() as int, span_of(height), expected), y),
    ensures
        exists|a: Seq<u8>, b: Seq<u8>| is_collision(a, b),
{
    law_v2_piece_passes_by_all_its_bytes(x, height, expected);
    law_v2_piece_passes_by_all_its_bytes(y, height, expected);
    let (a, b) = lemma_same_root_collides(x, y, height);
    assert(is_collision(a, b));
}

/// The root that a piece of a file has to hash up to: the file's own where one
/// piece holds the file, else the entry of its layer that the piece's number in
/// the file selects.
pub open spec fn is_root_for(m: MetaModel, file: FileModel, local: int, expected: Seq<u8>) -> bool {
    match file.pieces_root {
        None => false,
        Some(root) => if file.length <= m.piece_length {
            expected == root
        } else {
            &&& m.piece_layers.contains_key(root)
            &&& 0 <= local < m.piece_layers[root].len()
            &&& expected == m.piece_layers[root][local]
        },
    }
}

/// A file has content in a range.
pub open spec fn has_content_in(file: FileModel, start: int, end: int) -> bool {
    &&& !file.padding
    &&& file.wire_offset < end
    &&& start < file.wire_offset + file.length
    &&& start < end
    &&& file.length > 0
}

proof fn lemma_first_content(files: Seq<FileModel>, start: int, end: int, from: int)
    requires
        0 <= from <= files.len(),
    ensures
        ({
            let at = first_content(files, start, end, from);
            &&& from <= at <= files.len()
            &&& at < files.len() ==> has_content_in(files[at], start, end)
            &&& forall|k: int| from <= k < at ==> !has_content_in(#[trigger] files[k], start, end)
        }),
    decreases files.len() - from,
{
    if from < files.len() && !(!files[from].padding && overlap(
        files[from],
        start,
        end,
    ).length > 0) {
        lemma_first_content(files, start, end, from + 1);
    }
}

proof fn lemma_first_named(files: Seq<FileModel>, path: Seq<Seq<char>>, length: int, from: int)
    requires
        0 <= from <= files.len(),
    ensures
        ({
            let at = first_named(files, path, length, from);
            &&& from <= at <= files.len()
            &&& at < files.len() ==> files[at].path == path && files[at].length == length
        }),
    decreases files.len() - from,
{
    if from < files.len() && !(files[from].path == path && files[from].length == length) {
        lemma_first_named(files, path, length, from + 1);
    }
}

/// A piece with a number among the v1 hashes is checked against the hash of that
/// number; one beyond them, or of a torrent without them, against none.
pub proof fn law_v1_check_is_the_listed_hash(m: MetaModel, index: int, size: int)
    requires
        index >= 0,
        checks_of(m, index, size) is Ok,
    ensures
        match checks_of(m, index, size)->Ok_0.v1 {
            Some(hash) => index < m.v1_piece_hashes.len() && hash == m.v1_piece_hashes[index],
            None => index >= m.v1_piece_hashes.len(),
        },
        m.v2_info_hash is None ==> checks_of(m, index, size)->Ok_0.v2 is None,
{
}

/// A piece of a hybrid torrent is checked as v2 on the content of the first file
/// that has any in it, and on nothing else: from where that content begins in
/// the piece to where it ends, against the root that the v2 file of the same
/// path and length has for it. A piece of padding alone has no such check.
pub proof fn law_hybrid_check_covers_the_content(m: MetaModel, index: int, size: int)
    requires
        m.v2_info_hash is Some,
        m.v1_piece_hashes.len() > 0,
        m.piece_length > 0,
        index >= 0,
        checks_of(m, index, size) is Ok,
    ensures
        ({
            let start = index * m.piece_length;
            let end = start + size;
            match checks_of(m, index, size)->Ok_0.v2 {
                None => forall|k: int|
                    0 <= k < m.v1_files.len() ==> !has_content_in(
                        #[trigger] m.v1_files[k],
                        start,
                        end,
                    ),
                Some(check) => exists|at: int, twin: int|
                    #![trigger m.v1_files[at], m.files[twin]]
                    {
                        let file = m.v1_files[at];
                        let first = if file.wire_offset > start { file.wire_offset } else { start };
                        let last = if file.wire_offset + file.length < end {
                            file.wire_offset + file.length
                        } else {
                            end
                        };
                        &&& 0 <= at < m.v1_files.len()
                        &&& 0 <= twin < m.files.len()
                        &&& has_content_in(file, start, end)
                        &&& forall|k: int|
                            0 <= k < at ==> !has_content_in(#[trigger] m.v1_files[k], start, end)
                        &&& check.start == first - start
                        &&& check.end == last - start
                        &&& check.piece_length == m.piece_length
                        &&& m.files[twin].path == file.path
                        &&& m.files[twin].length == file.length
                        &&& is_root_for(
                            m,
                            m.files[twin],
                            (first - file.wire_offset) / m.piece_length,
                            check.expected,
                        )
                    },
            }
        }),
{
    let start = index * m.piece_length;
    let end = start + size;
    lemma_first_content(m.v1_files, start, end, 0);
    let at = first_content(m.v1_files, start, end, 0);
    if at < m.v1_files.len() {
        let file = m.v1_files[at];
        let part = overlap(file, start, end);
        lemma_first_named(m.files, file.path, file.length, 0);
        let twin = first_named(m.files, file.path, file.length, 0);
        assert(part.file_offset / m.piece_length >= 0) by (nonlinear_arith)
            requires
                part.file_offset >= 0,
                m.piece_length > 0,
        ;
        assert(m.v1_files[at] == file && m.files[twin] == m.files[twin]);
    }
}

/// A piece of a v2 torrent, the `local`th of a file, is checked as a whole
/// against the root that the file has for it; padding is not checked.
pub proof fn law_v2_check_is_the_file_root(m: MetaModel, file: int, local: int, size: int)
    requires
        m.v2_info_hash is Some,
        m.v1_piece_hashes.len() == 0,
        m.piece_length > 0,
        lengths_ok(m.files),
        piece_count_of(m) is Ok,
        0 <= file < m.files.len(),
        0 <= local,
        local * m.piece_length < m.files[file].length,
        checks_of(m, pieces_before(m.files, m.piece_length, file) + local, size) is Ok,
    ensures
        ({
            let checks = checks_of(m, pieces_before(m.files, m.piece_length, file) + local, size);
            match checks->Ok_0.v2 {
                None => m.files[file].padding,
                Some(check) => {
                    &&& !m.files[file].padding
                    &&& check.start == 0
                    &&& check.end == size
                    &&& check.piece_length == m.piece_length
                    &&& is_root_for(m, m.files[file], local, check.expected)
                },
            }
        }),
{
    let length = m.files[file].length;
    lemma_div_ceil(length, m.piece_length);
    assert(local < div_ceil_of(length, m.piece_length)) by (nonlinear_arith)
        requires
            local * m.piece_length < length,
            m.piece_length > 0,
            length <= div_ceil_of(length, m.piece_length) * m.piece_length,
    ;
    law_v2_piece_stays_in_file(m, file, local);
}

} // verus!
