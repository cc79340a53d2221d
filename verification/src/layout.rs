//! Where pieces lie: which files a range of the exchanged bytes covers, and
//! how long each piece is.

use crate::bitfield::{bit_is_set, has_bit};
use crate::error::{ActorError, Fault};
use crate::hash::Sha1Hash;
use crate::metainfo::{files_view, laid_out, total_of, FileEntry, FileModel, MetaModel, Metainfo};
use crate::metainfo_parse::lemma_total_monotone;
use crate::num::{
    div_ceil, div_ceil_of, lemma_div_ceil, max_of, max_u64, min_of, min_u64, to_usize,
};
use vstd::prelude::*;
use vstd::slice::slice_subrange;

verus! {

/// A range of one file.
pub struct FileSegment<'a> {
    pub file: &'a FileEntry,
    pub file_offset: u64,
    pub length: usize,
}

/// A range of one file, by its values.
pub struct Segment {
    pub file: FileModel,
    pub file_offset: int,
    pub length: int,
}

impl<'a> FileSegment<'a> {
    pub open spec fn view(&self) -> Segment {
        Segment {
            file: self.file@,
            file_offset: self.file_offset as int,
            length: self.length as int,
        }
    }
}

pub open spec fn segments_view(segments: Seq<FileSegment>) -> Seq<Segment> {
    Seq::new(segments.len(), |i: int| segments[i]@)
}

/// The part of a file that lies in the range from `start` to `end`.
pub open spec fn overlap(file: FileModel, start: int, end: int) -> Segment {
    let low = max_of(start, file.wire_offset);
    let high = min_of(end, file.wire_offset + file.length);
    Segment { file, file_offset: low - file.wire_offset, length: high - low }
}

/// The parts of files that lie in the range from `start` to `end`, in order.
pub open spec fn segments_of(files: Seq<FileModel>, start: int, end: int) -> Seq<Segment>
    decreases files.len(),
{
    if files.len() == 0 {
        Seq::empty()
    } else {
        let before = segments_of(files.drop_last(), start, end);
        let part = overlap(files.last(), start, end);
        if part.length > 0 {
            before.push(part)
        } else {
            before
        }
    }
}

/// Files that the range does not touch add nothing.
proof fn lemma_segments_skip(files: Seq<FileModel>, start: int, end: int, a: int, b: int)
    requires
        0 <= a <= b <= files.len(),
        forall|k: int| a <= k < b ==> overlap(#[trigger] files[k], start, end).length <= 0,
    ensures
        segments_of(files.take(a), start, end) == segments_of(files.take(b), start, end),
    decreases b - a,
{
    if a < b {
        lemma_segments_skip(files, start, end, a, b - 1);
        assert(files.take(b).drop_last() =~= files.take(b - 1));
        assert(files.take(b).last() == files[b - 1]);
    }
}

/// Files that lie end to end begin in increasing order.
pub proof fn lemma_offsets_increase(files: Seq<FileModel>, i: int, j: int)
    requires
        laid_out(files),
        0 <= i < j < files.len(),
        lengths_ok(files),
    ensures
        files[i].wire_offset + files[i].length <= files[j].wire_offset,
{
    reveal(laid_out);
    let head = files.take(j);
    assert forall|k: int| 0 <= k < head.len() implies (#[trigger] head[k]).length >= 0 by {
        assert(head[k] == files[k]);
    }
    lemma_total_monotone(head, i + 1);
    assert(head.take(i + 1) =~= files.take(i + 1));
    assert(files.take(i + 1).drop_last() =~= files.take(i));
}

/// The end of each file in 64 bits.
pub proof fn lemma_file_end(files: Seq<FileModel>, i: int)
    requires
        laid_out(files),
        0 <= i < files.len(),
        lengths_ok(files),
    ensures
        files[i].wire_offset + files[i].length == total_of(files.take(i + 1)),
        files[i].wire_offset + files[i].length <= total_of(files) <= u64::MAX,
        0 <= files[i].wire_offset == total_of(files.take(i)),
{
    reveal(laid_out);
    lemma_total_monotone(files, i + 1);
    lemma_total_monotone(files, i);
    assert(files.take(i + 1).drop_last() =~= files.take(i));
}

/// The first file that does not end at or before `start`.
fn first_after(files: &[FileEntry], start: u64) -> (first: usize)
    requires
        laid_out(files_view(files@)),
    ensures
        first <= files@.len(),
        forall|k: int|
            0 <= k < first ==> (#[trigger] files_view(files@)[k]).wire_offset + files_view(
                files@,
            )[k].length <= start,
        forall|k: int|
            first <= k < files@.len() ==> (#[trigger] files_view(files@)[k]).wire_offset
                + files_view(files@)[k].length > start,
{
    let ghost models = files_view(files@);
    let mut low: usize = 0;
    let mut high: usize = files.len();
    while low < high
        invariant
            models == files_view(files@),
            laid_out(models),
            lengths_ok(models),
            low <= high <= files@.len(),
            forall|k: int|
                0 <= k < low ==> (#[trigger] models[k]).wire_offset + models[k].length <= start,
            forall|k: int|
                high <= k < models.len() ==> (#[trigger] models[k]).wire_offset + models[k].length
                    > start,
        decreases high - low,
    {
        let middle: usize = low + (high - low) / 2;
        proof {
            lemma_file_end(models, middle as int);
            assert(models[middle as int] == files@[middle as int]@);
        }
        if files[middle].wire_offset + files[middle].length <= start {
            assert forall|k: int| 0 <= k < middle + 1 implies (
            #[trigger] models[k]).wire_offset + models[k].length <= start by {
                if k < middle {
                    lemma_offsets_increase(models, k, middle as int);
                }
            }
            low = middle + 1;
        } else {
            assert forall|k: int| middle <= k < models.len() implies (
            #[trigger] models[k]).wire_offset + models[k].length > start by {
                if k > middle {
                    lemma_offsets_increase(models, middle as int, k);
                }
            }
            high = middle;
        }
    }
    low
}

/// Whether no file has a negative length.
pub open spec fn lengths_ok(files: Seq<FileModel>) -> bool {
    forall|k: int| 0 <= k < files.len() ==> (#[trigger] files[k]).length >= 0
}

proof fn lemma_segments_step(files: Seq<FileModel>, start: int, end: int, i: int)
    requires
        0 <= i < files.len(),
    ensures
        ({
            let before = segments_of(files.take(i), start, end);
            let part = overlap(files[i], start, end);
            segments_of(files.take(i + 1), start, end) == if part.length > 0 {
                before.push(part)
            } else {
                before
            }
        }),
{
    assert(files.take(i + 1).drop_last() =~= files.take(i));
    assert(files.take(i + 1).last() == files[i]);
}

/// Once a file reaches the end of the range, the files behind it add nothing.
proof fn lemma_rest_untouched(files: Seq<FileModel>, start: int, end: int, i: int)
    requires
        laid_out(files),
        lengths_ok(files),
        0 <= i < files.len(),
        files[i].wire_offset + files[i].length >= end,
    ensures
        segments_of(files.take(i + 1), start, end) == segments_of(files, start, end),
{
    assert forall|k: int| i + 1 <= k < files.len() implies overlap(
        #[trigger] files[k],
        start,
        end,
    ).length <= 0 by {
        lemma_offsets_increase(files, i, k);
    }
    lemma_segments_skip(files, start, end, i + 1, files.len() as int);
    assert(files.take(files.len() as int) =~= files);
}

/// The part of a file that lies in a range, if any does.
fn file_part<'a>(file: &'a FileEntry, start: u64, end: u64) -> (result: Option<FileSegment<'a>>)
    requires
        file.wire_offset + file.length <= u64::MAX,
        end - start <= usize::MAX,
    ensures
        match result {
            Some(segment) => overlap(file@, start as int, end as int).length > 0 && segment@
                == overlap(file@, start as int, end as int),
            None => overlap(file@, start as int, end as int).length <= 0,
        },
{
    let file_end: u64 = file.wire_offset + file.length;
    let overlap_start: u64 = max_u64(start, file.wire_offset);
    let overlap_end: u64 = min_u64(end, file_end);
    if overlap_start < overlap_end {
        Some(
            FileSegment {
                file,
                file_offset: overlap_start - file.wire_offset,
                length: (overlap_end - overlap_start) as usize,
            },
        )
    } else {
        None
    }
}

/// The parts of files that a range of the exchanged bytes covers. Ranges that
/// do not fit in 64 bits are refused.
pub fn file_segments<'a>(files: &'a [FileEntry], start: u64, length: usize) -> (result: Result<
    Vec<FileSegment<'a>>,
    ActorError,
>)
    requires
        laid_out(files_view(files@)),
    ensures
        match result {
            Ok(segments) => start + length <= u64::MAX && segments_view(segments@) == segments_of(
                files_view(files@),
                start as int,
                start + length,
            ),
            Err(error) => start + length > u64::MAX && error@ == Fault::Arithmetic,
        },
{
    let end: u64 = match start.checked_add(length as u64) {
        Some(end) => end,
        None => {
            return Err(ActorError::Arithmetic);
        },
    };
    let ghost models = files_view(files@);
    assert(lengths_ok(models));
    let low: usize = first_after(files, start);
    let mut segments: Vec<FileSegment<'a>> = Vec::new();
    let mut i: usize = low;
    proof {
        lemma_segments_skip(models, start as int, end as int, 0, low as int);
        assert(models.take(0) =~= Seq::empty());
        assert(segments_view(segments@) =~= Seq::empty());
    }
    while i < files.len()
        invariant
            models == files_view(files@),
            laid_out(models),
            lengths_ok(models),
            end == start + length,
            i <= files@.len(),
            segments_view(segments@) == segments_of(
                models.take(i as int),
                start as int,
                end as int,
            ),
        decreases files@.len() - i,
    {
        let file = &files[i];
        proof {
            lemma_file_end(models, i as int);
            assert(models[i as int] == file@);
            lemma_segments_step(models, start as int, end as int, i as int);
        }
        let ghost before = segments@;
        if let Some(segment) = file_part(file, start, end) {
            segments.push(segment);
            assert(segments_view(segments@) =~= segments_view(before).push(segment@));
        }
        if file.wire_offset + file.length >= end {
            proof {
                lemma_rest_untouched(models, start as int, end as int, i as int);
            }
            return Ok(segments);
        }
        i += 1;
    }
    assert(models.take(models.len() as int) =~= models);
    Ok(segments)
}

/// How many bytes segments cover together.
pub open spec fn covered(segments: Seq<Segment>) -> int
    decreases segments.len(),
{
    if segments.len() == 0 {
        0
    } else {
        covered(segments.drop_last()) + segments.last().length
    }
}

/// Whether segments continue each other from `start` on without leaving their files.
pub open spec fn contiguous(segments: Seq<Segment>, start: int) -> bool {
    forall|i: int|
        0 <= i < segments.len() ==> {
            let segment = #[trigger] segments[i];
            &&& segment.length > 0
            &&& segment.file_offset >= 0
            &&& segment.file_offset + segment.length <= segment.file.length
            &&& segment.file.wire_offset + segment.file_offset == start + covered(
                segments.take(i),
            )
        }
}

/// A range inside the torrent is covered exactly: its segments continue each
/// other, none leaves its file, and together they are as long as the range.
pub proof fn law_segments_cover_range(files: Seq<FileModel>, start: int, end: int)
    requires
        laid_out(files),
        lengths_ok(files),
        0 <= start <= end <= total_of(files),
    ensures
        contiguous(segments_of(files, start, end), start),
        covered(segments_of(files, start, end)) == end - start,
{
    lemma_segments_prefix(files, start, end, files.len() as int);
    assert(files.take(files.len() as int) =~= files);
}

proof fn lemma_segments_prefix(files: Seq<FileModel>, start: int, end: int, n: int)
    requires
        laid_out(files),
        lengths_ok(files),
        0 <= start <= end,
        0 <= n <= files.len(),
    ensures
        contiguous(segments_of(files.take(n), start, end), start),
        covered(segments_of(files.take(n), start, end)) == max_of(
            0,
            min_of(end, total_of(files.take(n))) - start,
        ),
    decreases n,
{
    if n > 0 {
        lemma_segments_prefix(files, start, end, n - 1);
        lemma_file_end(files, n - 1);
        let file = files[n - 1];
        let before = segments_of(files.take(n - 1), start, end);
        let after = segments_of(files.take(n), start, end);
        assert(files.take(n).drop_last() =~= files.take(n - 1));
        assert(files.take(n).last() == file);
        let part = overlap(file, start, end);
        if part.length > 0 {
            assert(after.drop_last() =~= before);
            assert forall|i: int| 0 <= i < after.len() implies ({
                let segment = #[trigger] after[i];
                &&& segment.length > 0
                &&& segment.file_offset >= 0
                &&& segment.file_offset + segment.length <= segment.file.length
                &&& segment.file.wire_offset + segment.file_offset == start + covered(
                    after.take(i),
                )
            }) by {
                if i < before.len() {
                    assert(after[i] == before[i]);
                    assert(after.take(i) =~= before.take(i));
                } else {
                    assert(after.take(i) =~= before);
                }
            }
        }
    } else {
        assert(files.take(0) =~= Seq::empty());
    }
}

/// The files that pieces are cut from.
pub open spec fn wire_files_of(m: MetaModel) -> Seq<FileModel> {
    if m.v1_piece_hashes.len() == 0 {
        m.files
    } else {
        m.v1_files
    }
}

pub fn wire_files(metainfo: &Metainfo) -> (files: &Vec<FileEntry>)
    ensures
        files_view(files@) == wire_files_of(metainfo@),
        metainfo.wf() ==> laid_out(files_view(files@)),
{
    assert(metainfo@.v1_piece_hashes.len() == metainfo.v1_piece_hashes@.len());
    if metainfo.v1_piece_hashes.len() == 0 {
        &metainfo.files
    } else {
        &metainfo.v1_files
    }
}

/// Where a piece begins when pieces run across files.
pub open spec fn piece_start_of(m: MetaModel, index: int) -> Result<int, Fault> {
    if index * m.piece_length > u64::MAX {
        Err(Fault::Arithmetic)
    } else {
        Ok(index * m.piece_length)
    }
}

pub fn piece_start(metainfo: &Metainfo, index: usize) -> (result: Result<u64, ActorError>)
    ensures
        match result {
            Ok(start) => piece_start_of(metainfo@, index as int) == Ok::<int, Fault>(start as int),
            Err(error) => piece_start_of(metainfo@, index as int) == Err::<int, Fault>(error@),
        },
{
    match (index as u64).checked_mul(metainfo.piece_length as u64) {
        Some(start) => Ok(start),
        None => Err(ActorError::Arithmetic),
    }
}

/// A piece of a torrent whose files each begin a piece of their own.
pub struct Location {
    /// The position of the file in the list.
    pub file: int,
    /// The number of the piece inside the file.
    pub local: int,
    /// Where in the file the piece begins.
    pub offset: int,
}

/// The piece with a number, counted from piece `first` at file `from`.
pub open spec fn locate_from(
    files: Seq<FileModel>,
    piece_length: int,
    index: int,
    first: int,
    from: int,
) -> Result<Location, Fault>
    decreases files.len() - from,
{
    if from < 0 || from >= files.len() {
        Err(Fault::PieceIndex)
    } else {
        let pieces = div_ceil_of(files[from].length, piece_length);
        if first + pieces > usize::MAX {
            Err(Fault::Arithmetic)
        } else if first <= index < first + pieces {
            Ok(Location { file: from, local: index - first, offset: (index - first) * piece_length })
        } else {
            locate_from(files, piece_length, index, first + pieces, from + 1)
        }
    }
}

/// The piece with a number, when every file begins a piece.
pub open spec fn location_of(m: MetaModel, index: int) -> Result<Location, Fault> {
    locate_from(m.files, m.piece_length, index, 0, 0)
}

/// A located piece begins inside its file.
pub proof fn lemma_locate_from(
    files: Seq<FileModel>,
    piece_length: int,
    index: int,
    first: int,
    from: int,
)
    requires
        piece_length > 0,
        0 <= first <= index,
        0 <= from <= files.len(),
        lengths_ok(files),
        locate_from(files, piece_length, index, first, from) is Ok,
    ensures
        ({
            let found = locate_from(files, piece_length, index, first, from)->Ok_0;
            &&& from <= found.file < files.len()
            &&& 0 <= found.local < div_ceil_of(files[found.file].length, piece_length)
            &&& found.offset == found.local * piece_length
            &&& 0 <= found.offset < files[found.file].length
        }),
    decreases files.len() - from,
{
    let length = files[from].length;
    let pieces = div_ceil_of(length, piece_length);
    lemma_div_ceil(length, piece_length);
    if first <= index < first + pieces {
        let local = index - first;
        assert(local * piece_length < length);
        assert(0 <= local * piece_length) by (nonlinear_arith)
            requires
                local >= 0,
                piece_length > 0,
        ;
    } else {
        lemma_locate_from(files, piece_length, index, first + pieces, from + 1);
    }
}

fn locate(metainfo: &Metainfo, index: usize) -> (result: Result<(usize, usize, u64), ActorError>)
    requires
        metainfo.wf(),
    ensures
        match result {
            Ok((file, local, offset)) => location_of(metainfo@, index as int) == Ok::<
                Location,
                Fault,
            >((Location { file: file as int, local: local as int, offset: offset as int }))
                && file < metainfo.files@.len() && offset < metainfo.files@[file as int].length,
            Err(error) => location_of(metainfo@, index as int) == Err::<Location, Fault>(error@),
        },
{
    let ghost models = files_view(metainfo.files@);
    let length: u64 = metainfo.piece_length as u64;
    let mut first_piece: usize = 0;
    let mut i: usize = 0;
    while i < metainfo.files.len()
        invariant
            metainfo.wf(),
            models == files_view(metainfo.files@),
            length == metainfo.piece_length,
            i <= metainfo.files@.len(),
            first_piece <= index,
            location_of(metainfo@, index as int) == locate_from(
                models,
                length as int,
                index as int,
                first_piece as int,
                i as int,
            ),
        decreases metainfo.files@.len() - i,
    {
        let file = &metainfo.files[i];
        assert(models[i as int] == file@);
        let pieces: usize = match to_usize(div_ceil(file.length, length)) {
            Some(pieces) => pieces,
            None => {
                return Err(ActorError::Arithmetic);
            },
        };
        let end: usize = match first_piece.checked_add(pieces) {
            Some(end) => end,
            None => {
                return Err(ActorError::Arithmetic);
            },
        };
        if index < end {
            let local: usize = index - first_piece;
            proof {
                lemma_div_ceil(file.length as int, length as int);
                assert(local * (length as int) < file.length);
                assert(0 <= local * (length as int)) by (nonlinear_arith)
                    requires
                        local >= 0,
                        length >= 0,
                ;
            }
            let offset: u64 = local as u64 * length;
            return Ok((i, local, offset));
        }
        first_piece = end;
        i += 1;
    }
    Err(ActorError::PieceIndex)
}

/// The file, the number inside it and the offset of a piece, when every file
/// begins a piece.
pub fn v2_piece_location(metainfo: &Metainfo, index: usize) -> (result: Result<
    (&FileEntry, usize, u64),
    ActorError,
>)
    requires
        metainfo.wf(),
    ensures
        match (result, location_of(metainfo@, index as int)) {
            (Ok((file, local, offset)), Ok(found)) => file@ == metainfo@.files[found.file] && local
                == found.local && offset == found.offset && offset < file.length && 0 <= found.file
                < metainfo.files@.len() && *file == metainfo.files@[found.file],
            (Err(error), Err(fault)) => error@ == fault,
            _ => false,
        },
{
    match locate(metainfo, index) {
        Ok((file, local, offset)) => Ok((&metainfo.files[file], local, offset)),
        Err(error) => Err(error),
    }
}

/// How long a piece is.
pub open spec fn piece_size(m: MetaModel, index: int) -> Result<int, Fault> {
    if m.v1_piece_hashes.len() == 0 {
        match location_of(m, index) {
            Err(fault) => Err(fault),
            Ok(found) => Ok(min_of(m.files[found.file].length - found.offset, m.piece_length)),
        }
    } else {
        match piece_start_of(m, index) {
            Err(fault) => Err(fault),
            Ok(start) => if start > m.piece_space_length {
                Err(Fault::Arithmetic)
            } else {
                Ok(min_of(m.piece_space_length - start, m.piece_length))
            },
        }
    }
}

pub fn piece_length(metainfo: &Metainfo, index: usize) -> (result: Result<usize, ActorError>)
    requires
        metainfo.wf(),
    ensures
        match result {
            Ok(length) => piece_size(metainfo@, index as int) == Ok::<int, Fault>(length as int)
                && length <= metainfo.piece_length,
            Err(error) => piece_size(metainfo@, index as int) == Err::<int, Fault>(error@),
        },
{
    assert(metainfo@.v1_piece_hashes.len() == metainfo.v1_piece_hashes@.len());
    if metainfo.v1_piece_hashes.len() == 0 {
        return match v2_piece_location(metainfo, index) {
            Ok((file, _, offset)) => {
                let length: u64 = min_u64(file.length - offset, metainfo.piece_length as u64);
                Ok(length as usize)
            },
            Err(error) => Err(error),
        };
    }
    let start: u64 = match piece_start(metainfo, index) {
        Ok(start) => start,
        Err(error) => {
            return Err(error);
        },
    };
    if start > metainfo.piece_space_length {
        return Err(ActorError::Arithmetic);
    }
    let length: u64 = min_u64(metainfo.piece_space_length - start, metainfo.piece_length as u64);
    Ok(length as usize)
}

/// How many pieces the first files have, when every file begins a piece.
pub open spec fn pieces_before(files: Seq<FileModel>, piece_length: int, n: int) -> int
    decreases n,
{
    if n <= 0 {
        0
    } else {
        pieces_before(files, piece_length, n - 1) + div_ceil_of(files[n - 1].length, piece_length)
    }
}

/// How many pieces there are.
pub open spec fn piece_count_of(m: MetaModel) -> Result<int, Fault> {
    if m.v1_piece_hashes.len() > 0 {
        Ok(m.v1_piece_hashes.len() as int)
    } else if pieces_before(m.files, m.piece_length, m.files.len() as int) > usize::MAX {
        Err(Fault::Arithmetic)
    } else {
        Ok(pieces_before(m.files, m.piece_length, m.files.len() as int))
    }
}

/// More files never have fewer pieces.
pub proof fn lemma_pieces_before_monotone(
    files: Seq<FileModel>,
    piece_length: int,
    a: int,
    b: int,
)
    requires
        0 <= a <= b <= files.len(),
        piece_length > 0,
        lengths_ok(files),
    ensures
        0 <= pieces_before(files, piece_length, a) <= pieces_before(files, piece_length, b),
    decreases b,
{
    if b > 0 {
        lemma_div_ceil(files[b - 1].length, piece_length);
        if a < b {
            lemma_pieces_before_monotone(files, piece_length, a, b - 1);
        } else {
            lemma_pieces_before_monotone(files, piece_length, a - 1, b - 1);
        }
    }
}

pub fn piece_count(metainfo: &Metainfo) -> (result: Result<usize, ActorError>)
    requires
        metainfo.wf(),
    ensures
        match result {
            Ok(count) => piece_count_of(metainfo@) == Ok::<int, Fault>(count as int),
            Err(error) => piece_count_of(metainfo@) == Err::<int, Fault>(error@),
        },
{
    assert(metainfo@.v1_piece_hashes.len() == metainfo.v1_piece_hashes@.len());
    if metainfo.v1_piece_hashes.len() > 0 {
        return Ok(metainfo.v1_piece_hashes.len());
    }
    let ghost models = files_view(metainfo.files@);
    let length: u64 = metainfo.piece_length as u64;
    let mut total: usize = 0;
    let mut i: usize = 0;
    while i < metainfo.files.len()
        invariant
            metainfo.wf(),
            models == files_view(metainfo.files@),
            length == metainfo.piece_length,
            metainfo@.v1_piece_hashes.len() == 0,
            i <= metainfo.files@.len(),
            total == pieces_before(models, length as int, i as int),
        decreases metainfo.files@.len() - i,
    {
        assert(models[i as int] == metainfo.files@[i as int]@);
        proof {
            lemma_pieces_before_monotone(models, length as int, i + 1, models.len() as int);
        }
        let pieces: usize = match to_usize(div_ceil(metainfo.files[i].length, length)) {
            Some(pieces) => pieces,
            None => {
                return Err(ActorError::Arithmetic);
            },
        };
        total = match total.checked_add(pieces) {
            Some(total) => total,
            None => {
                return Err(ActorError::Arithmetic);
            },
        };
        i += 1;
    }
    Ok(total)
}

/// The hash that peers are asked for: the v1 info hash where there is one,
/// else the beginning of the v2 info hash.
pub open spec fn wire_hash_of(m: MetaModel) -> Result<Seq<u8>, Fault> {
    match m.v1_info_hash {
        Some(hash) => Ok(hash),
        None => match m.v2_info_hash {
            Some(hash) => Ok(hash.take(20)),
            None => Err(Fault::V2PeerWire),
        },
    }
}

pub fn wire_info_hash(metainfo: &Metainfo) -> (result: Result<Sha1Hash, ActorError>)
    ensures
        match result {
            Ok(hash) => wire_hash_of(metainfo@) == Ok::<Seq<u8>, Fault>(hash@),
            Err(error) => wire_hash_of(metainfo@) == Err::<Seq<u8>, Fault>(error@),
        },
{
    if let Some(hash) = metainfo.v1_info_hash {
        return Ok(hash);
    }
    match metainfo.v2_info_hash {
        Some(hash) => {
            let bytes = hash.as_bytes();
            assert(bytes@.len() == 32);
            let front = slice_subrange(bytes.as_slice(), 0, 20);
            assert(front@ =~= hash@.take(20));
            match Sha1Hash::from_slice(front) {
                Some(hash) => Ok(hash),
                None => Err(ActorError::Arithmetic),
            }
        },
        None => Err(ActorError::V2PeerWire),
    }
}

/// How many bytes of segments are not padding.
pub open spec fn content_covered(segments: Seq<Segment>) -> int
    decreases segments.len(),
{
    if segments.len() == 0 {
        0
    } else {
        content_covered(segments.drop_last()) + if segments.last().file.padding {
            0
        } else {
            segments.last().length
        }
    }
}

/// How many bytes of content a piece holds, padding aside.
pub open spec fn content_size(m: MetaModel, index: int) -> Result<int, Fault> {
    match piece_size(m, index) {
        Err(fault) => Err(fault),
        Ok(size) => if m.v1_piece_hashes.len() == 0 {
            if m.files[location_of(m, index)->Ok_0.file].padding {
                Ok(0)
            } else {
                Ok(size)
            }
        } else {
            let start = index * m.piece_length;
            if start + size > u64::MAX {
                Err(Fault::Arithmetic)
            } else {
                Ok(content_covered(segments_of(m.v1_files, start, start + size)))
            }
        },
    }
}

/// Content is part of what is covered, and no more than the range.
proof fn lemma_content_bound(files: Seq<FileModel>, start: int, end: int, n: int)
    requires
        laid_out(files),
        lengths_ok(files),
        0 <= start <= end,
        0 <= n <= segments_of(files, start, end).len(),
    ensures
        0 <= content_covered(segments_of(files, start, end).take(n)) <= end - start,
{
    let segments = segments_of(files, start, end);
    lemma_segments_prefix(files, start, end, files.len() as int);
    assert(files.take(files.len() as int) =~= files);
    lemma_content_prefix(segments, start, n);
    lemma_covered_prefix(segments, start, n);
}

proof fn lemma_content_prefix(segments: Seq<Segment>, start: int, n: int)
    requires
        contiguous(segments, start),
        0 <= n <= segments.len(),
    ensures
        0 <= content_covered(segments.take(n)) <= covered(segments.take(n)),
    decreases n,
{
    if n > 0 {
        lemma_content_prefix(segments, start, n - 1);
        assert(segments.take(n).drop_last() =~= segments.take(n - 1));
        assert(segments.take(n).last() == segments[n - 1]);
    }
}

proof fn lemma_covered_prefix(segments: Seq<Segment>, start: int, n: int)
    requires
        contiguous(segments, start),
        0 <= n <= segments.len(),
    ensures
        0 <= covered(segments.take(n)) <= covered(segments),
    decreases segments.len() - n,
{
    if n < segments.len() {
        lemma_covered_prefix(segments, start, n + 1);
        assert(segments.take(n + 1).drop_last() =~= segments.take(n));
        assert(segments.take(n + 1).last() == segments[n]);
    } else {
        assert(segments.take(n) =~= segments);
    }
    lemma_covered_nonnegative(segments, start, n);
}

proof fn lemma_covered_nonnegative(segments: Seq<Segment>, start: int, n: int)
    requires
        contiguous(segments, start),
        0 <= n <= segments.len(),
    ensures
        0 <= covered(segments.take(n)),
    decreases n,
{
    if n > 0 {
        lemma_covered_nonnegative(segments, start, n - 1);
        assert(segments.take(n).drop_last() =~= segments.take(n - 1));
        assert(segments.take(n).last() == segments[n - 1]);
    }
}

pub fn piece_content_length(metainfo: &Metainfo, index: usize) -> (result: Result<
    u64,
    ActorError,
>)
    requires
        metainfo.wf(),
    ensures
        match result {
            Ok(length) => content_size(metainfo@, index as int) == Ok::<int, Fault>(length as int),
            Err(error) => content_size(metainfo@, index as int) == Err::<int, Fault>(error@),
        },
{
    assert(metainfo@.v1_piece_hashes.len() == metainfo.v1_piece_hashes@.len());
    if metainfo.v1_piece_hashes.len() == 0 {
        return match v2_piece_location(metainfo, index) {
            Ok((file, _, _)) => {
                if file.padding {
                    Ok(0)
                } else {
                    match piece_length(metainfo, index) {
                        Ok(length) => Ok(length as u64),
                        Err(error) => Err(error),
                    }
                }
            },
            Err(error) => Err(error),
        };
    }
    let start: u64 = match piece_start(metainfo, index) {
        Ok(start) => start,
        Err(error) => {
            return Err(error);
        },
    };
    let length: usize = match piece_length(metainfo, index) {
        Ok(length) => length,
        Err(error) => {
            return Err(error);
        },
    };
    let segments = match file_segments(metainfo.v1_files.as_slice(), start, length) {
        Ok(segments) => segments,
        Err(error) => {
            return Err(error);
        },
    };
    let ghost models = files_view(metainfo.v1_files@);
    let ghost views = segments_view(segments@);
    let mut total: u64 = 0;
    let mut i: usize = 0;
    assert(views.take(0) =~= Seq::empty());
    while i < segments.len()
        invariant
            laid_out(models),
            lengths_ok(models),
            start + length <= u64::MAX,
            views == segments_view(segments@),
            views == segments_of(models, start as int, start + length),
            i <= segments@.len(),
            total == content_covered(views.take(i as int)),
        decreases segments@.len() - i,
    {
        proof {
            assert(views.take(i + 1).drop_last() =~= views.take(i as int));
            assert(views.take(i + 1).last() == segments@[i as int]@);
            lemma_content_bound(models, start as int, start + length, i + 1);
        }
        if !segments[i].file.padding {
            total = total + segments[i].length as u64;
        }
        i += 1;
    }
    assert(views.take(views.len() as int) =~= views);
    Ok(total)
}

/// How many bytes of content the completed pieces below `n` hold.
pub open spec fn completed_below(m: MetaModel, completed: Seq<u8>, n: int) -> Result<int, Fault>
    decreases n,
{
    if n <= 0 {
        Ok(0)
    } else {
        match completed_below(m, completed, n - 1) {
            Err(fault) => Err(fault),
            Ok(total) => if !has_bit(completed, n - 1) {
                Ok(total)
            } else {
                match content_size(m, n - 1) {
                    Err(fault) => Err(fault),
                    Ok(size) => if total + size > u64::MAX {
                        Err(Fault::Arithmetic)
                    } else {
                        Ok(total + size)
                    },
                }
            },
        }
    }
}

/// How many bytes of content the completed pieces hold.
pub open spec fn completed_of(m: MetaModel, completed: Seq<u8>) -> Result<int, Fault> {
    match piece_count_of(m) {
        Err(fault) => Err(fault),
        Ok(count) => completed_below(m, completed, count),
    }
}

/// The first fault decides.
proof fn lemma_completed_prefix(m: MetaModel, completed: Seq<u8>, a: int, b: int)
    requires
        0 <= a <= b,
    ensures
        completed_below(m, completed, a) is Err ==> completed_below(m, completed, b)
            == completed_below(m, completed, a),
    decreases b - a,
{
    if a < b {
        lemma_completed_prefix(m, completed, a, b - 1);
    }
}

pub fn completed_bytes(metainfo: &Metainfo, completed: &[u8]) -> (result: Result<u64, ActorError>)
    requires
        metainfo.wf(),
    ensures
        match result {
            Ok(total) => completed_of(metainfo@, completed@) == Ok::<int, Fault>(total as int),
            Err(error) => completed_of(metainfo@, completed@) == Err::<int, Fault>(error@),
        },
{
    let count: usize = match piece_count(metainfo) {
        Ok(count) => count,
        Err(error) => {
            return Err(error);
        },
    };
    let mut total: u64 = 0;
    let mut index: usize = 0;
    while index < count
        invariant
            metainfo.wf(),
            piece_count_of(metainfo@) == Ok::<int, Fault>(count as int),
            index <= count,
            completed_below(metainfo@, completed@, index as int) == Ok::<int, Fault>(total as int),
        decreases count - index,
    {
        proof {
            lemma_completed_prefix(metainfo@, completed@, index + 1, count as int);
        }
        if bit_is_set(completed, index) {
            let length: u64 = match piece_content_length(metainfo, index) {
                Ok(length) => length,
                Err(error) => {
                    return Err(error);
                },
            };
            total = match total.checked_add(length) {
                Some(total) => total,
                None => {
                    return Err(ActorError::Arithmetic);
                },
            };
        }
        index += 1;
    }
    Ok(total)
}

} // verus!
