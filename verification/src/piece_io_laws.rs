//! Where the bytes of a piece end up in the files of a torrent.

use crate::layout::{
    contiguous, covered, law_segments_cover_range, lengths_ok, overlap, piece_count_of,
    pieces_before, segments_of, Segment,
};
use crate::layout_laws::law_v2_piece_stays_in_file;
use crate::metainfo::{laid_out, total_of, FileModel, MetaModel};
use crate::num::{div_ceil_of, lemma_div_ceil};
use crate::piece_io::{
    collected, piece_from, piece_segments, write_plan_of, writes_of, FileWrite,
};
use vstd::prelude::*;

verus! {

/// A write puts a byte at a place of a file.
pub open spec fn puts(write: FileWrite, file: FileModel, at: int, byte: u8) -> bool {
    &&& write.path == file.path
    &&& write.file_length == file.length
    &&& write.offset <= at < write.offset + write.data.len()
    &&& write.data[at - write.offset] == byte
}

/// The part of a file that lies in a range is one of the range's segments.
proof fn lemma_has_segment(files: Seq<FileModel>, start: int, end: int, k: int) -> (i: int)
    requires
        0 <= k < files.len(),
        overlap(files[k], start, end).length > 0,
    ensures
        0 <= i < segments_of(files, start, end).len(),
        segments_of(files, start, end)[i] == overlap(files[k], start, end),
    decreases files.len(),
{
    if k == files.len() - 1 {
        segments_of(files, start, end).len() - 1
    } else {
        assert(files.drop_last()[k] == files[k]);
        lemma_has_segment(files.drop_last(), start, end, k)
    }
}

/// Each segment with content is written, with the bytes that stand in its place.
proof fn lemma_has_write(segments: Seq<Segment>, piece: Seq<u8>, i: int) -> (w: int)
    requires
        0 <= i < segments.len(),
        !segments[i].file.padding,
    ensures
        0 <= w < writes_of(segments, piece).len(),
        writes_of(segments, piece)[w] == (FileWrite {
            path: segments[i].file.path,
            offset: segments[i].file_offset,
            data: piece.subrange(
                covered(segments.take(i)),
                covered(segments.take(i)) + segments[i].length,
            ),
            file_length: segments[i].file.length,
        }),
    decreases segments.len(),
{
    let front = segments.drop_last();
    if i == segments.len() - 1 {
        assert(segments.take(i) =~= front);
        writes_of(segments, piece).len() - 1
    } else {
        assert(front[i] == segments[i]);
        assert(front.take(i) =~= segments.take(i));
        lemma_has_write(front, piece, i)
    }
}

proof fn lemma_covered_prefix(segments: Seq<Segment>, i: int)
    requires
        0 <= i < segments.len(),
        forall|k: int| 0 <= k < segments.len() ==> (#[trigger] segments[k]).length >= 0,
    ensures
        0 <= covered(segments.take(i)),
        covered(segments.take(i)) + segments[i].length <= covered(segments),
    decreases segments.len(),
{
    let front = segments.drop_last();
    lemma_covered_positive(front);
    if i == segments.len() - 1 {
        assert(segments.take(i) =~= front);
    } else {
        assert(front[i] == segments[i]);
        assert(front.take(i) =~= segments.take(i));
        lemma_covered_prefix(front, i);
    }
}

proof fn lemma_covered_positive(segments: Seq<Segment>)
    requires
        forall|k: int| 0 <= k < segments.len() ==> (#[trigger] segments[k]).length >= 0,
    ensures
        covered(segments) >= 0,
    decreases segments.len(),
{
    if segments.len() > 0 {
        lemma_covered_positive(segments.drop_last());
    }
}

/// Every byte of a piece that runs across files is written to the file in whose
/// part of the space it lies, as far from the front of the file as it lies from
/// the front of that part, unless that file is padding.
pub proof fn law_every_byte_is_written_in_its_place(
    m: MetaModel,
    index: int,
    piece: Seq<u8>,
    k: int,
    p: int,
)
    requires
        m.v1_piece_hashes.len() > 0,
        laid_out(m.v1_files),
        lengths_ok(m.v1_files),
        0 <= index,
        0 < m.piece_length,
        index * m.piece_length + piece.len() <= total_of(m.v1_files),
        write_plan_of(m, index, piece) is Ok,
        0 <= p < piece.len(),
        0 <= k < m.v1_files.len(),
        !m.v1_files[k].padding,
        m.v1_files[k].wire_offset <= index * m.piece_length + p < m.v1_files[k].wire_offset
            + m.v1_files[k].length,
    ensures
        ({
            let writes = write_plan_of(m, index, piece)->Ok_0;
            exists|w: int|
                0 <= w < writes.len() && puts(
                    #[trigger] writes[w],
                    m.v1_files[k],
                    index * m.piece_length + p - m.v1_files[k].wire_offset,
                    piece[p],
                )
        }),
{
    let start = index * m.piece_length;
    let end = start + piece.len();
    let files = m.v1_files;
    assert(start >= 0) by (nonlinear_arith)
        requires
            start == index * m.piece_length,
            index >= 0,
            m.piece_length > 0,
    ;
    let segments = segments_of(files, start, end);
    law_segments_cover_range(files, start, end);
    let i = lemma_has_segment(files, start, end, k);
    let w = lemma_has_write(segments, piece, i);
    assert(contiguous(segments, start));
    assert(segments[i].length > 0);
    lemma_covered_prefix(segments, i);
    let writes = write_plan_of(m, index, piece)->Ok_0;
    assert(writes == writes_of(segments, piece));
    assert(puts(writes[w], files[k], start + p - files[k].wire_offset, piece[p]));
}

/// Every byte of a piece of a file that begins its own pieces is written to that
/// file, behind all the pieces of the file before it, unless the file is padding.
pub proof fn law_every_byte_of_a_file_piece_is_written(
    m: MetaModel,
    file: int,
    local: int,
    piece: Seq<u8>,
    p: int,
)
    requires
        m.v1_piece_hashes.len() == 0,
        m.piece_length > 0,
        lengths_ok(m.files),
        piece_count_of(m) is Ok,
        0 <= file < m.files.len(),
        !m.files[file].padding,
        0 <= local,
        local * m.piece_length < m.files[file].length,
        0 <= p < piece.len(),
    ensures
        ({
            let index = pieces_before(m.files, m.piece_length, file) + local;
            let writes = write_plan_of(m, index, piece);
            &&& writes is Ok
            &&& writes->Ok_0.len() == 1
            &&& puts(
                writes->Ok_0[0],
                m.files[file],
                local * m.piece_length + p,
                piece[p],
            )
        }),
{
    let length = m.files[file].length;
    lemma_div_ceil(length, m.piece_length);
    assert(local < div_ceil_of(length, m.piece_length)) by (nonlinear_arith)
        requires
            local * m.piece_length < length,
            m.piece_length > 0,
            length <= div_ceil_of(length, m.piece_length) * m.piece_length,
    ;
    law_v2_piece_stays_in_file(m, file, local);
    let index = pieces_before(m.files, m.piece_length, file) + local;
    let segments = piece_segments(m, index, piece.len() as int)->Ok_0;
    assert(segments.drop_last() =~= Seq::<Segment>::empty());
    reveal_with_fuel(writes_of, 2);
    reveal_with_fuel(covered, 2);
}

/// No write is empty, and none leaves its file.
pub proof fn law_writes_stay_in_files(m: MetaModel, index: int, piece: Seq<u8>, w: int)
    requires
        m.v1_piece_hashes.len() > 0,
        laid_out(m.v1_files),
        lengths_ok(m.v1_files),
        0 <= index,
        0 < m.piece_length,
        index * m.piece_length + piece.len() <= total_of(m.v1_files),
        write_plan_of(m, index, piece) is Ok,
        0 <= w < write_plan_of(m, index, piece)->Ok_0.len(),
    ensures
        ({
            let write = write_plan_of(m, index, piece)->Ok_0[w];
            &&& write.data.len() > 0
            &&& 0 <= write.offset
            &&& write.offset + write.data.len() <= write.file_length
        }),
{
    let start = index * m.piece_length;
    let end = start + piece.len();
    assert(start >= 0) by (nonlinear_arith)
        requires
            start == index * m.piece_length,
            index >= 0,
            m.piece_length > 0,
    ;
    let segments = segments_of(m.v1_files, start, end);
    law_segments_cover_range(m.v1_files, start, end);
    let i = lemma_write_source(segments, piece, w);
    assert(contiguous(segments, start));
    assert(segments[i].length > 0);
    lemma_covered_prefix(segments, i);
}

proof fn lemma_write_source(segments: Seq<Segment>, piece: Seq<u8>, w: int) -> (i: int)
    requires
        0 <= w < writes_of(segments, piece).len(),
    ensures
        0 <= i < segments.len(),
        !segments[i].file.padding,
        writes_of(segments, piece)[w] == (FileWrite {
            path: segments[i].file.path,
            offset: segments[i].file_offset,
            data: piece.subrange(
                covered(segments.take(i)),
                covered(segments.take(i)) + segments[i].length,
            ),
            file_length: segments[i].file.length,
        }),
    decreases segments.len(),
{
    let front = segments.drop_last();
    if w < writes_of(front, piece).len() {
        let i = lemma_write_source(front, piece, w);
        assert(front[i] == segments[i]);
        assert(front.take(i) =~= segments.take(i));
        i
    } else {
        assert(segments.take(segments.len() - 1) =~= front);
        segments.len() - 1
    }
}

proof fn lemma_collected_at(
    segments: Seq<Segment>,
    parts: Seq<Option<Seq<u8>>>,
    i: int,
    t: int,
)
    requires
        segments.len() <= parts.len(),
        collected(segments, parts) is Some,
        forall|k: int|
            0 <= k < segments.len() ==> (#[trigger] segments[k]).length >= 0 && (
            segments[k].file.padding || (parts[k] is Some && parts[k]->0.len()
                == segments[k].length)),
        0 <= i < segments.len(),
        0 <= t < segments[i].length,
    ensures
        collected(segments, parts)->0.len() == covered(segments),
        0 <= covered(segments.take(i)) + t < covered(segments),
        collected(segments, parts)->0[covered(segments.take(i)) + t] == (
        if segments[i].file.padding {
            0u8
        } else {
            parts[i]->0[t]
        }),
    decreases segments.len(),
{
    let front = segments.drop_last();
    lemma_collected_length(front, parts);
    lemma_covered_positive(front);
    assert(segments.last() == segments[segments.len() - 1]);
    if i == segments.len() - 1 {
        assert(segments.take(i) =~= front);
    } else {
        assert(front[i] == segments[i]);
        assert(front.take(i) =~= segments.take(i));
        lemma_collected_at(front, parts, i, t);
    }
}

proof fn lemma_collected_length(segments: Seq<Segment>, parts: Seq<Option<Seq<u8>>>)
    requires
        segments.len() <= parts.len(),
        collected(segments, parts) is Some,
        forall|k: int|
            0 <= k < segments.len() ==> (#[trigger] segments[k]).length >= 0 && (
            segments[k].file.padding || (parts[k] is Some && parts[k]->0.len()
                == segments[k].length)),
    ensures
        collected(segments, parts)->0.len() == covered(segments),
    decreases segments.len(),
{
    if segments.len() > 0 {
        let front = segments.drop_last();
        assert(segments.last() == segments[segments.len() - 1]);
        assert forall|k: int| 0 <= k < front.len() implies (#[trigger] front[k]).length >= 0 && (
        front[k].file.padding || (parts[k] is Some && parts[k]->0.len() == front[k].length)) by {
            assert(front[k] == segments[k]);
        }
        lemma_collected_length(front, parts);
    }
}

/// A piece is read from the files in whose parts of the space its bytes lie: each
/// byte is the one that the file has as far from its front as the byte lies from
/// the front of that part, and zero where the file is padding.
pub proof fn law_every_byte_is_read_from_its_place(
    m: MetaModel,
    index: int,
    size: int,
    parts: Seq<Option<Seq<u8>>>,
    k: int,
    p: int,
)
    requires
        m.v1_piece_hashes.len() > 0,
        laid_out(m.v1_files),
        lengths_ok(m.v1_files),
        0 <= index,
        0 < m.piece_length,
        0 <= p < size,
        index * m.piece_length + size <= total_of(m.v1_files),
        piece_segments(m, index, size) is Ok,
        piece_segments(m, index, size)->Ok_0.len() <= parts.len(),
        forall|i: int|
            0 <= i < piece_segments(m, index, size)->Ok_0.len()
                && !piece_segments(m, index, size)->Ok_0[i].file.padding ==> #[trigger] parts[i] is Some
                && parts[i]->0.len() == piece_segments(m, index, size)->Ok_0[i].length,
        piece_from(piece_segments(m, index, size)->Ok_0, parts, size) is Some,
        0 <= k < m.v1_files.len(),
        m.v1_files[k].wire_offset <= index * m.piece_length + p < m.v1_files[k].wire_offset
            + m.v1_files[k].length,
    ensures
        ({
            let segments = piece_segments(m, index, size)->Ok_0;
            let file = m.v1_files[k];
            let at = index * m.piece_length + p - file.wire_offset;
            exists|i: int|
                0 <= i < segments.len() && (#[trigger] segments[i]).file == file
                    && segments[i].file_offset <= at < segments[i].file_offset + segments[i].length
                    && piece_from(segments, parts, size)->0[p] == (if file.padding {
                    0u8
                } else {
                    parts[i]->0[at - segments[i].file_offset]
                })
        }),
{
    let start = index * m.piece_length;
    let end = start + size;
    assert(start >= 0) by (nonlinear_arith)
        requires
            start == index * m.piece_length,
            index >= 0,
            m.piece_length > 0,
    ;
    let segments = segments_of(m.v1_files, start, end);
    law_segments_cover_range(m.v1_files, start, end);
    let i = lemma_has_segment(m.v1_files, start, end, k);
    let file = m.v1_files[k];
    let at = start + p - file.wire_offset;
    assert(contiguous(segments, start));
    assert(segments[i].length > 0);
    assert forall|j: int| 0 <= j < segments.len() implies (#[trigger] segments[j]).length >= 0 && (
    segments[j].file.padding || (parts[j] is Some && parts[j]->0.len() == segments[j].length)) by {
        if !segments[j].file.padding {
            assert(parts[j] is Some);
        }
    }
    lemma_collected_at(segments, parts, i, at - segments[i].file_offset);
    assert(segments[i].file == file);
}

} // verus!
