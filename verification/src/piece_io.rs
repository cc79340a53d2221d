//! What to read and write so that a piece ends up in its files.

use crate::error::{ActorError, Fault};
use crate::layout::{
    covered, file_segments, location_of, piece_length, piece_size, piece_start, piece_start_of,
    segments_of, segments_view, v2_piece_location, wire_files, wire_files_of, FileSegment, Segment,
};
use crate::metainfo::{MetaModel, Metainfo};
use crate::path::TorrentPath;
use vstd::prelude::*;
use vstd::slice::{slice_subrange, slice_to_vec};

verus! {

/// A write into one file.
#[derive(Debug)]
pub struct PieceWrite {
    pub path: TorrentPath,
    pub offset: u64,
    pub data: Vec<u8>,
    pub file_length: u64,
}

/// A write into one file, by its values.
pub struct FileWrite {
    pub path: Seq<Seq<char>>,
    pub offset: int,
    pub data: Seq<u8>,
    pub file_length: int,
}

impl PieceWrite {
    pub open spec fn view(&self) -> FileWrite {
        FileWrite {
            path: self.path@,
            offset: self.offset as int,
            data: self.data@,
            file_length: self.file_length as int,
        }
    }
}

pub open spec fn writes_view(writes: Seq<PieceWrite>) -> Seq<FileWrite> {
    Seq::new(writes.len(), |i: int| writes[i]@)
}

/// The file ranges that make up `size` bytes of a piece.
pub open spec fn piece_segments(m: MetaModel, index: int, size: int) -> Result<
    Seq<Segment>,
    Fault,
> {
    if m.v1_piece_hashes.len() == 0 {
        match location_of(m, index) {
            Err(fault) => Err(fault),
            Ok(found) => Ok(
                seq![
                    Segment { file: m.files[found.file], file_offset: found.offset, length: size },
                ],
            ),
        }
    } else {
        match piece_start_of(m, index) {
            Err(fault) => Err(fault),
            Ok(start) => if start + size > u64::MAX {
                Err(Fault::Arithmetic)
            } else {
                Ok(segments_of(wire_files_of(m), start, start + size))
            },
        }
    }
}

fn locate_segments<'a>(metainfo: &'a Metainfo, index: usize, size: usize) -> (result: Result<
    Vec<FileSegment<'a>>,
    ActorError,
>)
    requires
        metainfo.wf(),
    ensures
        match result {
            Ok(segments) => piece_segments(metainfo@, index as int, size as int) == Ok::<
                Seq<Segment>,
                Fault,
            >(segments_view(segments@)),
            Err(error) => piece_segments(metainfo@, index as int, size as int) == Err::<
                Seq<Segment>,
                Fault,
            >(error@),
        },
{
    assert(metainfo@.v1_piece_hashes.len() == metainfo.v1_piece_hashes@.len());
    if metainfo.v1_piece_hashes.len() == 0 {
        return match v2_piece_location(metainfo, index) {
            Ok((file, _, file_offset)) => {
                let mut segments: Vec<FileSegment<'a>> = Vec::new();
                segments.push(FileSegment { file, file_offset, length: size });
                assert(segments_view(segments@) =~= seq![segments@[0]@]);
                Ok(segments)
            },
            Err(error) => Err(error),
        };
    }
    match piece_start(metainfo, index) {
        Ok(start) => file_segments(wire_files(metainfo).as_slice(), start, size),
        Err(error) => Err(error),
    }
}

/// The file ranges to read for a piece.
pub open spec fn read_plan_of(m: MetaModel, index: int) -> Result<Seq<Segment>, Fault> {
    match piece_size(m, index) {
        Err(fault) => Err(fault),
        Ok(size) => piece_segments(m, index, size),
    }
}

/// The file ranges to read for a piece, and its length. Ranges of padding are
/// not read; they hold zeros.
pub fn plan_piece_read<'a>(metainfo: &'a Metainfo, index: usize) -> (result: Result<
    (Vec<FileSegment<'a>>, usize),
    ActorError,
>)
    requires
        metainfo.wf(),
    ensures
        match result {
            Ok((segments, length)) => {
                &&& piece_size(metainfo@, index as int) == Ok::<int, Fault>(length as int)
                &&& read_plan_of(metainfo@, index as int) == Ok::<Seq<Segment>, Fault>(
                    segments_view(segments@),
                )
            },
            Err(error) => read_plan_of(metainfo@, index as int) == Err::<Seq<Segment>, Fault>(
                error@,
            ),
        },
{
    let length: usize = match piece_length(metainfo, index) {
        Ok(length) => length,
        Err(error) => {
            return Err(error);
        },
    };
    match locate_segments(metainfo, index, length) {
        Ok(segments) => Ok((segments, length)),
        Err(error) => Err(error),
    }
}

pub open spec fn zeros(n: int) -> Seq<u8> {
    Seq::new(n as nat, |i: int| 0u8)
}

/// What was read for each range, by its values.
pub open spec fn parts_view(parts: Seq<Option<Vec<u8>>>) -> Seq<Option<Seq<u8>>> {
    Seq::new(
        parts.len(),
        |i: int|
            match parts[i] {
                Some(bytes) => Some(bytes@),
                None => None,
            },
    )
}

/// The ranges of a piece put together: padding is zero, and nothing comes out
/// where a range could not be read.
pub open spec fn collected(segments: Seq<Segment>, parts: Seq<Option<Seq<u8>>>) -> Option<Seq<u8>>
    decreases segments.len(),
{
    if segments.len() == 0 {
        Some(Seq::empty())
    } else {
        match collected(segments.drop_last(), parts) {
            None => None,
            Some(front) => if segments.last().file.padding {
                Some(front + zeros(segments.last().length))
            } else {
                match parts[segments.len() - 1] {
                    Some(bytes) => Some(front + bytes),
                    None => None,
                }
            },
        }
    }
}

/// A piece from what was read of it, if everything was there.
pub open spec fn piece_from(
    segments: Seq<Segment>,
    parts: Seq<Option<Seq<u8>>>,
    length: int,
) -> Option<Seq<u8>> {
    match collected(segments, parts) {
        Some(bytes) => if bytes.len() == length {
            Some(bytes)
        } else {
            None
        },
        None => None,
    }
}

/// A missing range stays missing.
proof fn lemma_collected_prefix(segments: Seq<Segment>, parts: Seq<Option<Seq<u8>>>, n: int)
    requires
        0 <= n <= segments.len(),
    ensures
        collected(segments.take(n), parts) is None ==> collected(segments, parts) is None,
    decreases segments.len(),
{
    if n < segments.len() {
        lemma_collected_prefix(segments.drop_last(), parts, n);
        assert(segments.drop_last().take(n) =~= segments.take(n));
    } else {
        assert(segments.take(n) =~= segments);
    }
}

fn push_zeros(output: &mut Vec<u8>, count: usize)
    ensures
        final(output)@ == old(output)@ + zeros(count as int),
{
    let mut i: usize = 0;
    assert(output@ =~= old(output)@ + zeros(0));
    while i < count
        invariant
            i <= count,
            output@ == old(output)@ + zeros(i as int),
        decreases count - i,
    {
        output.push(0);
        assert(output@ =~= old(output)@ + zeros(i + 1));
        i += 1;
    }
}

/// Puts a piece together from the ranges that were read.
pub fn assemble_piece(
    segments: &Vec<FileSegment<'_>>,
    parts: &Vec<Option<Vec<u8>>>,
    length: usize,
) -> (result: Option<Vec<u8>>)
    requires
        parts@.len() == segments@.len(),
    ensures
        match result {
            Some(bytes) => piece_from(
                segments_view(segments@),
                parts_view(parts@),
                length as int,
            ) == Some(bytes@),
            None => piece_from(
                segments_view(segments@),
                parts_view(parts@),
                length as int,
            ) is None,
        },
{
    let ghost models = segments_view(segments@);
    let ghost read = parts_view(parts@);
    let mut output: Vec<u8> = Vec::new();
    let mut i: usize = 0;
    assert(models.take(0) =~= Seq::empty());
    while i < segments.len()
        invariant
            models == segments_view(segments@),
            read == parts_view(parts@),
            parts@.len() == segments@.len(),
            i <= segments@.len(),
            collected(models.take(i as int), read) == Some(output@),
        decreases segments@.len() - i,
    {
        proof {
            assert(models.take(i + 1).drop_last() =~= models.take(i as int));
            assert(models.take(i + 1).last() == segments@[i as int]@);
            lemma_collected_prefix(models, read, i + 1);
        }
        if segments[i].file.padding {
            push_zeros(&mut output, segments[i].length);
        } else {
            match &parts[i] {
                Some(bytes) => {
                    let ghost before = output@;
                    output.extend_from_slice(bytes.as_slice());
                    assert(output@ =~= before + bytes@);
                },
                None => {
                    return None;
                },
            }
        }
        i += 1;
    }
    assert(models.take(models.len() as int) =~= models);
    if output.len() != length {
        return None;
    }
    Some(output)
}

/// The writes that put a piece into its files. Padding is not written.
pub open spec fn writes_of(segments: Seq<Segment>, piece: Seq<u8>) -> Seq<FileWrite>
    decreases segments.len(),
{
    if segments.len() == 0 {
        Seq::empty()
    } else {
        let before = writes_of(segments.drop_last(), piece);
        let last = segments.last();
        let from = covered(segments.drop_last());
        if last.file.padding {
            before
        } else {
            before.push(
                FileWrite {
                    path: last.file.path,
                    offset: last.file_offset,
                    data: piece.subrange(from, from + last.length),
                    file_length: last.file.length,
                },
            )
        }
    }
}

/// The writes for a piece, or what is wrong with it: the piece has to lie
/// inside the torrent.
pub open spec fn write_plan_of(m: MetaModel, index: int, piece: Seq<u8>) -> Result<
    Seq<FileWrite>,
    Fault,
> {
    match piece_segments(m, index, piece.len() as int) {
        Err(fault) => Err(fault),
        Ok(segments) => if covered(segments) != piece.len() {
            Err(Fault::Arithmetic)
        } else {
            Ok(writes_of(segments, piece))
        },
    }
}

pub fn plan_piece_write(metainfo: &Metainfo, index: usize, piece: &[u8]) -> (result: Result<
    Vec<PieceWrite>,
    ActorError,
>)
    requires
        metainfo.wf(),
    ensures
        match result {
            Ok(writes) => write_plan_of(metainfo@, index as int, piece@) == Ok::<
                Seq<FileWrite>,
                Fault,
            >(writes_view(writes@)),
            Err(error) => write_plan_of(metainfo@, index as int, piece@) == Err::<
                Seq<FileWrite>,
                Fault,
            >(error@),
        },
{
    assert(piece@.len() == piece.len());
    let segments = match locate_segments(metainfo, index, piece.len()) {
        Ok(segments) => segments,
        Err(error) => {
            return Err(error);
        },
    };
    let ghost models = segments_view(segments@);
    let mut consumed: usize = 0;
    let mut writes: Vec<PieceWrite> = Vec::new();
    let mut i: usize = 0;
    proof {
        assert(models.take(0) =~= Seq::empty());
        assert(writes_view(writes@) =~= Seq::empty());
    }
    while i < segments.len()
        invariant
            models == segments_view(segments@),
            piece@.len() <= usize::MAX,
            piece_segments(metainfo@, index as int, piece@.len() as int) == Ok::<
                Seq<Segment>,
                Fault,
            >(models),
            i <= segments@.len(),
            consumed == covered(models.take(i as int)),
            consumed <= piece@.len(),
            writes_view(writes@) == writes_of(models.take(i as int), piece@),
        decreases segments@.len() - i,
    {
        let segment = &segments[i];
        proof {
            assert(models.take(i + 1).drop_last() =~= models.take(i as int));
            assert(models.take(i + 1).last() == segments@[i as int]@);
            lemma_covered_grows(models, i + 1);
        }
        if segment.length > piece.len() - consumed {
            return Err(ActorError::Arithmetic);
        }
        let end: usize = consumed + segment.length;
        if !segment.file.padding {
            let ghost before = writes@;
            let data = slice_to_vec(slice_subrange(piece, consumed, end));
            let write = PieceWrite {
                path: segment.file.path.clone(),
                offset: segment.file_offset,
                data,
                file_length: segment.file.length,
            };
            writes.push(write);
            assert(writes_view(writes@) =~= writes_view(before).push(write@));
        }
        consumed = end;
        i += 1;
    }
    assert(models.take(models.len() as int) =~= models);
    if consumed != piece.len() {
        return Err(ActorError::Arithmetic);
    }
    Ok(writes)
}

/// What the first ranges cover never exceeds what all of them cover.
proof fn lemma_covered_grows(segments: Seq<Segment>, n: int)
    requires
        0 <= n <= segments.len(),
        forall|i: int| 0 <= i < segments.len() ==> (#[trigger] segments[i]).length >= 0,
    ensures
        covered(segments.take(n)) <= covered(segments),
    decreases segments.len() - n,
{
    if n < segments.len() {
        lemma_covered_grows(segments, n + 1);
        assert(segments.take(n + 1).drop_last() =~= segments.take(n));
        assert(segments.take(n + 1).last() == segments[n]);
    } else {
        assert(segments.take(n) =~= segments);
    }
}

/// Reading back, range by range, what a piece puts into each of them.
pub open spec fn parts_of_piece(segments: Seq<Segment>, piece: Seq<u8>) -> Seq<Option<Seq<u8>>> {
    Seq::new(
        segments.len(),
        |i: int|
            Some(
                piece.subrange(
                    covered(segments.take(i)),
                    covered(segments.take(i)) + segments[i].length,
                ),
            ),
    )
}

/// A piece with its padding set to zero.
pub open spec fn without_padding(segments: Seq<Segment>, piece: Seq<u8>) -> Seq<u8>
    decreases segments.len(),
{
    if segments.len() == 0 {
        Seq::empty()
    } else {
        let from = covered(segments.drop_last());
        without_padding(segments.drop_last(), piece) + if segments.last().file.padding {
            zeros(segments.last().length)
        } else {
            piece.subrange(from, from + segments.last().length)
        }
    }
}

proof fn lemma_collected_parts(
    segments: Seq<Segment>,
    parts: Seq<Option<Seq<u8>>>,
    piece: Seq<u8>,
)
    requires
        parts.len() >= segments.len(),
        forall|i: int|
            0 <= i < segments.len() ==> #[trigger] parts[i] == Some(
                piece.subrange(
                    covered(segments.take(i)),
                    covered(segments.take(i)) + segments[i].length,
                ),
            ),
    ensures
        collected(segments, parts) == Some(without_padding(segments, piece)),
    decreases segments.len(),
{
    if segments.len() > 0 {
        let init = segments.drop_last();
        assert forall|i: int| 0 <= i < init.len() implies #[trigger] parts[i] == Some(
            piece.subrange(covered(init.take(i)), covered(init.take(i)) + init[i].length),
        ) by {
            assert(init.take(i) =~= segments.take(i));
            assert(init[i] == segments[i]);
        }
        lemma_collected_parts(init, parts, piece);
        assert(segments.take(segments.len() - 1) =~= init);
        assert(parts[segments.len() - 1] == Some(
            piece.subrange(covered(init), covered(init) + segments.last().length),
        ));
    }
}

proof fn lemma_without_padding(segments: Seq<Segment>, piece: Seq<u8>)
    requires
        covered(segments) <= piece.len(),
        forall|i: int| 0 <= i < segments.len() ==> (#[trigger] segments[i]).length >= 0,
    ensures
        0 <= covered(segments),
        without_padding(segments, piece).len() == covered(segments),
        (forall|i: int| 0 <= i < segments.len() ==> !(#[trigger] segments[i]).file.padding)
            ==> without_padding(segments, piece) == piece.take(covered(segments)),
    decreases segments.len(),
{
    if segments.len() > 0 {
        let init = segments.drop_last();
        assert(segments.last() == segments[segments.len() - 1]);
        assert forall|i: int| 0 <= i < init.len() implies (#[trigger] init[i]).length >= 0 by {
            assert(init[i] == segments[i]);
        }
        lemma_without_padding(init, piece);
        if forall|i: int| 0 <= i < segments.len() ==> !(#[trigger] segments[i]).file.padding {
            assert forall|i: int| 0 <= i < init.len() implies !(
            #[trigger] init[i]).file.padding by {
                assert(init[i] == segments[i]);
            }
            let from = covered(init);
            assert(piece.take(from) + piece.subrange(from, from + segments.last().length)
                =~= piece.take(covered(segments)));
        }
    } else {
        assert(piece.take(0) =~= Seq::empty());
    }
}

/// Reading the ranges that a piece was written to gives the piece back, with
/// zeros for its padding; a piece without padding comes back unchanged.
pub proof fn law_read_gives_back_write(segments: Seq<Segment>, piece: Seq<u8>)
    requires
        covered(segments) == piece.len(),
        forall|i: int| 0 <= i < segments.len() ==> (#[trigger] segments[i]).length >= 0,
    ensures
        piece_from(segments, parts_of_piece(segments, piece), piece.len() as int) == Some(
            without_padding(segments, piece),
        ),
        (forall|i: int| 0 <= i < segments.len() ==> !(#[trigger] segments[i]).file.padding)
            ==> piece_from(segments, parts_of_piece(segments, piece), piece.len() as int) == Some(
            piece,
        ),
{
    lemma_collected_parts(segments, parts_of_piece(segments, piece), piece);
    lemma_without_padding(segments, piece);
    assert(piece.take(piece.len() as int) =~= piece);
}

/// Every write carries exactly the bytes that reading its range gives back.
pub proof fn law_writes_match_ranges(segments: Seq<Segment>, piece: Seq<u8>, w: int)
    requires
        0 <= w < writes_of(segments, piece).len(),
    ensures
        exists|i: int|
            0 <= i < segments.len() && {
                let write = writes_of(segments, piece)[w];
                &&& !(#[trigger] segments[i]).file.padding
                &&& write.path == segments[i].file.path
                &&& write.offset == segments[i].file_offset
                &&& write.file_length == segments[i].file.length
                &&& parts_of_piece(segments, piece)[i] == Some(write.data)
            },
    decreases segments.len(),
{
    let init = segments.drop_last();
    let last = segments.len() - 1;
    if w < writes_of(init, piece).len() {
        law_writes_match_ranges(init, piece, w);
        let write = writes_of(init, piece)[w];
        assert(writes_of(segments, piece)[w] == write);
        let i = choose|i: int|
            0 <= i < init.len() && {
                &&& !(#[trigger] init[i]).file.padding
                &&& write.path == init[i].file.path
                &&& write.offset == init[i].file_offset
                &&& write.file_length == init[i].file.length
                &&& parts_of_piece(init, piece)[i] == Some(write.data)
            };
        assert(init[i] == segments[i]);
        assert(init.take(i) =~= segments.take(i));
        assert(!segments[i].file.padding);
    } else {
        assert(segments.take(last) =~= init);
        assert(!segments[last].file.padding);
    }
}

} // verus!
