//! What holds of the pieces of a torrent as a whole.

use crate::error::Fault;
use crate::layout::{
    content_covered, content_size, lemma_pieces_before_monotone, lengths_ok, locate_from,
    location_of, overlap, piece_count_of, piece_size, pieces_before, segments_of, wire_hash_of,
    Location,
};
use crate::metainfo::{total_of, FileModel, MetaModel};
use crate::num::{div_ceil_of, lemma_div_ceil, min_of};
use vstd::prelude::*;

verus! {

/// How many bytes the first pieces hold.
pub open spec fn sizes_below(m: MetaModel, n: int) -> int
    decreases n,
{
    if n <= 0 {
        0
    } else {
        sizes_below(m, n - 1) + piece_size(m, n - 1)->Ok_0
    }
}

/// The pieces that run across files divide the piece space: every piece has a
/// length, all but the last are full, and together they are as long as the space.
pub proof fn law_v1_pieces_divide_space(m: MetaModel, n: int)
    requires
        m.v1_piece_hashes.len() > 0,
        m.piece_length > 0,
        0 <= m.piece_space_length <= u64::MAX,
        m.v1_piece_hashes.len() == div_ceil_of(m.piece_space_length, m.piece_length),
        0 <= n <= m.v1_piece_hashes.len(),
    ensures
        forall|i: int|
            0 <= i < n ==> #[trigger] piece_size(m, i) is Ok && 0 < piece_size(m, i)->Ok_0
                <= m.piece_length,
        sizes_below(m, n) == min_of(n * m.piece_length, m.piece_space_length),
        n == m.v1_piece_hashes.len() ==> sizes_below(m, n) == m.piece_space_length,
    decreases n,
{
    lemma_div_ceil(m.piece_space_length, m.piece_length);
    if n > 0 {
        law_v1_pieces_divide_space(m, n - 1);
        let start = (n - 1) * m.piece_length;
        assert(start < m.piece_space_length);
        assert(n * m.piece_length == start + m.piece_length) by (nonlinear_arith)
            requires
                start == (n - 1) * m.piece_length,
        ;
        assert(piece_size(m, n - 1) == Ok::<int, Fault>(
            min_of(m.piece_space_length - start, m.piece_length),
        ));
    } else {
        assert(n * m.piece_length == 0) by (nonlinear_arith)
            requires
                n == 0,
        ;
    }
}

/// Numbers that belong to one file are located in it.
proof fn lemma_locate_in_file(
    files: Seq<FileModel>,
    piece_length: int,
    index: int,
    from: int,
    file: int,
)
    requires
        piece_length > 0,
        lengths_ok(files),
        0 <= from <= file < files.len(),
        pieces_before(files, piece_length, file) <= index < pieces_before(
            files,
            piece_length,
            file + 1,
        ),
        pieces_before(files, piece_length, files.len() as int) <= usize::MAX,
    ensures
        locate_from(files, piece_length, index, pieces_before(files, piece_length, from), from)
            == Ok::<Location, Fault>(
            Location {
                file,
                local: index - pieces_before(files, piece_length, file),
                offset: (index - pieces_before(files, piece_length, file)) * piece_length,
            },
        ),
    decreases file - from,
{
    let first = pieces_before(files, piece_length, from);
    let pieces = div_ceil_of(files[from].length, piece_length);
    lemma_pieces_before_monotone(files, piece_length, from + 1, files.len() as int);
    lemma_div_ceil(files[from].length, piece_length);
    assert(first + pieces == pieces_before(files, piece_length, from + 1));
    if from < file {
        lemma_pieces_before_monotone(files, piece_length, from + 1, file);
        lemma_locate_in_file(files, piece_length, index, from + 1, file);
    }
}

/// The pieces of the first files hold those files exactly.
proof fn lemma_file_pieces(m: MetaModel, file: int, local: int)
    requires
        m.v1_piece_hashes.len() == 0,
        m.piece_length > 0,
        lengths_ok(m.files),
        pieces_before(m.files, m.piece_length, m.files.len() as int) <= usize::MAX,
        0 <= file < m.files.len(),
        0 <= local <= div_ceil_of(m.files[file].length, m.piece_length),
    ensures
        sizes_below(m, pieces_before(m.files, m.piece_length, file) + local) == sizes_below(
            m,
            pieces_before(m.files, m.piece_length, file),
        ) + min_of(local * m.piece_length, m.files[file].length),
    decreases local,
{
    let length = m.files[file].length;
    let base = pieces_before(m.files, m.piece_length, file);
    lemma_pieces_before_monotone(m.files, m.piece_length, 0, file);
    lemma_div_ceil(length, m.piece_length);
    if local > 0 {
        lemma_file_pieces(m, file, local - 1);
        lemma_locate_in_file(m.files, m.piece_length, base + local - 1, 0, file);
        let offset = (local - 1) * m.piece_length;
        assert(offset < length);
        assert(local * m.piece_length == offset + m.piece_length) by (nonlinear_arith)
            requires
                offset == (local - 1) * m.piece_length,
        ;
        assert(piece_size(m, base + local - 1) == Ok::<int, Fault>(
            min_of(length - offset, m.piece_length),
        ));
    } else {
        assert(local * m.piece_length == 0) by (nonlinear_arith)
            requires
                local == 0,
        ;
    }
}

/// The pieces that files each begin anew hold the files exactly: together
/// they are as long as all files.
pub proof fn law_v2_pieces_divide_files(m: MetaModel, n: int)
    requires
        m.v1_piece_hashes.len() == 0,
        m.piece_length > 0,
        lengths_ok(m.files),
        piece_count_of(m) is Ok,
        0 <= n <= m.files.len(),
    ensures
        sizes_below(m, pieces_before(m.files, m.piece_length, n)) == total_of(m.files.take(n)),
        n == m.files.len() ==> sizes_below(m, piece_count_of(m)->Ok_0) == total_of(m.files),
    decreases n,
{
    if n > 0 {
        law_v2_pieces_divide_files(m, n - 1);
        let length = m.files[n - 1].length;
        lemma_div_ceil(length, m.piece_length);
        lemma_file_pieces(m, n - 1, div_ceil_of(length, m.piece_length));
        assert(m.files.take(n).drop_last() =~= m.files.take(n - 1));
    } else {
        assert(m.files.take(0) =~= Seq::empty());
    }
    assert(m.files.take(m.files.len() as int) =~= m.files);
}

/// No v2 piece reaches across two files: a piece begins inside one file, on a
/// multiple of the piece length, and ends inside it.
pub proof fn law_v2_piece_stays_in_file(m: MetaModel, file: int, local: int)
    requires
        m.v1_piece_hashes.len() == 0,
        m.piece_length > 0,
        lengths_ok(m.files),
        piece_count_of(m) is Ok,
        0 <= file < m.files.len(),
        0 <= local < div_ceil_of(m.files[file].length, m.piece_length),
    ensures
        ({
            let index = pieces_before(m.files, m.piece_length, file) + local;
            &&& location_of(m, index) == Ok::<Location, Fault>(
                Location { file, local, offset: local * m.piece_length },
            )
            &&& piece_size(m, index) is Ok
            &&& 0 < piece_size(m, index)->Ok_0
            &&& local * m.piece_length + piece_size(m, index)->Ok_0 <= m.files[file].length
        }),
{
    lemma_div_ceil(m.files[file].length, m.piece_length);
    let base = pieces_before(m.files, m.piece_length, file);
    lemma_locate_in_file(m.files, m.piece_length, base + local, 0, file);
    assert(local * m.piece_length < m.files[file].length);
}

/// How much of a file that is not padding lies in a range.
pub open spec fn content_in(file: FileModel, start: int, end: int) -> int {
    let first = if file.wire_offset > start {
        file.wire_offset
    } else {
        start
    };
    let last = if file.wire_offset + file.length < end {
        file.wire_offset + file.length
    } else {
        end
    };
    if file.padding || last <= first {
        0
    } else {
        last - first
    }
}

/// How much content of some files lies in a range.
pub open spec fn content_between(files: Seq<FileModel>, start: int, end: int) -> int
    decreases files.len(),
{
    if files.len() == 0 {
        0
    } else {
        content_between(files.drop_last(), start, end) + content_in(files.last(), start, end)
    }
}

proof fn lemma_content_of_segments(files: Seq<FileModel>, start: int, end: int)
    ensures
        content_covered(segments_of(files, start, end)) == content_between(files, start, end),
    decreases files.len(),
{
    if files.len() > 0 {
        let front = files.drop_last();
        lemma_content_of_segments(front, start, end);
        let before = segments_of(front, start, end);
        let part = overlap(files.last(), start, end);
        assert(before.push(part).drop_last() =~= before);
    }
}

proof fn lemma_ranges_add_up(files: Seq<FileModel>, a: int, b: int, c: int)
    requires
        a <= b <= c,
        lengths_ok(files),
    ensures
        content_between(files, a, b) + content_between(files, b, c) == content_between(files, a, c),
    decreases files.len(),
{
    if files.len() > 0 {
        let front = files.drop_last();
        assert forall|k: int| 0 <= k < front.len() implies (#[trigger] front[k]).length >= 0 by {
            assert(front[k] == files[k]);
        }
        assert(files[files.len() - 1].length >= 0);
        lemma_ranges_add_up(front, a, b, c);
    }
}

/// How many bytes of content the first pieces hold.
pub open spec fn contents_below(m: MetaModel, n: int) -> int
    decreases n,
{
    if n <= 0 {
        0
    } else {
        contents_below(m, n - 1) + content_size(m, n - 1)->Ok_0
    }
}

/// The content of a piece that runs across files is what lies in it of files
/// that are not padding. The contents of the first pieces add up to what lies in
/// front of their end, so that each byte of content is counted in one piece.
pub proof fn law_content_is_counted_once(m: MetaModel, n: int)
    requires
        m.v1_piece_hashes.len() > 0,
        m.piece_length > 0,
        lengths_ok(m.v1_files),
        0 <= m.piece_space_length <= u64::MAX,
        m.v1_piece_hashes.len() == div_ceil_of(m.piece_space_length, m.piece_length),
        0 <= n <= m.v1_piece_hashes.len(),
    ensures
        forall|i: int|
            0 <= i < n ==> #[trigger] content_size(m, i) is Ok && content_size(m, i)->Ok_0
                == content_between(
                m.v1_files,
                i * m.piece_length,
                min_of((i + 1) * m.piece_length, m.piece_space_length),
            ),
        contents_below(m, n) == content_between(
            m.v1_files,
            0,
            min_of(n * m.piece_length, m.piece_space_length),
        ),
    decreases n,
{
    lemma_div_ceil(m.piece_space_length, m.piece_length);
    if n > 0 {
        law_content_is_counted_once(m, n - 1);
        law_v1_pieces_divide_space(m, n);
        let start = (n - 1) * m.piece_length;
        assert(start < m.piece_space_length);
        assert(n * m.piece_length == start + m.piece_length) by (nonlinear_arith)
            requires
                start == (n - 1) * m.piece_length,
        ;
        assert(start >= 0) by (nonlinear_arith)
            requires
                start == (n - 1) * m.piece_length,
                n >= 1,
                m.piece_length > 0,
        ;
        let end = min_of(n * m.piece_length, m.piece_space_length);
        assert(piece_size(m, n - 1) == Ok::<int, Fault>(end - start));
        lemma_content_of_segments(m.v1_files, start, end);
        lemma_ranges_add_up(m.v1_files, 0, start, end);
        assert((n - 1 + 1) * m.piece_length == n * m.piece_length);
    } else {
        assert(n * m.piece_length == 0) by (nonlinear_arith)
            requires
                n == 0,
        ;
        lemma_nothing_between(m.v1_files);
    }
}

proof fn lemma_nothing_between(files: Seq<FileModel>)
    ensures
        content_between(files, 0, 0) == 0,
    decreases files.len(),
{
    if files.len() > 0 {
        lemma_nothing_between(files.drop_last());
    }
}

/// Peers know a torrent by its v1 hash, and one without by the first twenty bytes
/// of its v2 hash.
pub proof fn law_wire_hash_is_a_prefix(m: MetaModel)
    requires
        m.v1_info_hash is Some || m.v2_info_hash is Some,
        m.v2_info_hash is Some ==> m.v2_info_hash->0.len() == 32,
    ensures
        wire_hash_of(m) is Ok,
        m.v1_info_hash is Some ==> wire_hash_of(m)->Ok_0 == m.v1_info_hash->0,
        m.v1_info_hash is None ==> wire_hash_of(m)->Ok_0.len() == 20 && forall|i: int|
            0 <= i < 20 ==> #[trigger] wire_hash_of(m)->Ok_0[i] == m.v2_info_hash->0[i],
{
}

} // verus!
