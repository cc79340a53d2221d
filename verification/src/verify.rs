//! Checking pieces against the hashes of a torrent.

use crate::error::{ActorError, Fault};
use crate::hash::{
    digests, openssl_sha1, openssl_sha1_of, openssl_sha256, openssl_sha256_of, reduce_layer,
    root_of, Sha1Hash, Sha256Hash,
};
use crate::layout::{
    lemma_file_end, lengths_ok, location_of, overlap, piece_start, piece_start_of,
    v2_piece_location,
};
use crate::metainfo::{
    digest_view, files_view, sha1_views, FileEntry, FileModel, MetaModel, Metainfo,
};
use crate::num::{max_u64, min_of, min_u64, to_usize};
use std::ops::Range;
use vstd::prelude::*;
use vstd::slice::slice_subrange;

verus! {

/// The size of the leaves of a file's hash tree.
pub const LEAF_BYTES: usize = 16384;

/// The part of a piece that belongs to a file with a v2 root.
pub struct V2VerificationTarget<'a> {
    pub file: &'a FileEntry,
    pub local_index: usize,
    pub range: Range<usize>,
}

/// The part of a piece that belongs to a file with a v2 root, by its values.
pub struct Target {
    /// The position of the file in the list.
    pub file: int,
    /// The number of the piece inside the file.
    pub local: int,
    pub start: int,
    pub end: int,
}

/// The first file at or after `from` that has content in a range.
pub open spec fn first_content(files: Seq<FileModel>, start: int, end: int, from: int) -> int
    decreases files.len() - from,
{
    if from < 0 || from >= files.len() || (!files[from].padding && overlap(
        files[from],
        start,
        end,
    ).length > 0) {
        from
    } else {
        first_content(files, start, end, from + 1)
    }
}

/// The first file at or after `from` with a path and a length.
pub open spec fn first_named(
    files: Seq<FileModel>,
    path: Seq<Seq<char>>,
    length: int,
    from: int,
) -> int
    decreases files.len() - from,
{
    if from < 0 || from >= files.len() || (files[from].path == path && files[from].length
        == length) {
        from
    } else {
        first_named(files, path, length, from + 1)
    }
}

/// The part of a piece of `size` bytes that has to hash up to a v2 root.
/// Pieces of padding have none.
pub open spec fn target_of(m: MetaModel, index: int, size: int) -> Result<Option<Target>, Fault> {
    if m.v1_piece_hashes.len() == 0 {
        match location_of(m, index) {
            Err(fault) => Err(fault),
            Ok(found) => if m.files[found.file].padding {
                Ok(None)
            } else {
                Ok(Some(Target { file: found.file, local: found.local, start: 0, end: size }))
            },
        }
    } else {
        match piece_start_of(m, index) {
            Err(fault) => Err(fault),
            Ok(start) => if start + size > u64::MAX {
                Err(Fault::Arithmetic)
            } else {
                let at = first_content(m.v1_files, start, start + size, 0);
                if at >= m.v1_files.len() {
                    Ok(None)
                } else {
                    let part = overlap(m.v1_files[at], start, start + size);
                    let from = part.file.wire_offset + part.file_offset - start;
                    let named = first_named(m.files, part.file.path, part.file.length, 0);
                    if named >= m.files.len() {
                        Err(Fault::Metainfo("hybrid layouts diverged"@))
                    } else if part.file_offset / m.piece_length > usize::MAX {
                        Err(Fault::Arithmetic)
                    } else {
                        Ok(
                            Some(
                                Target {
                                    file: named,
                                    local: part.file_offset / m.piece_length,
                                    start: from,
                                    end: from + part.length,
                                },
                            ),
                        )
                    }
                }
            },
        }
    }
}

/// The position of the v2 file behind a v1 file.
fn find_named(metainfo: &Metainfo, v1_file: &FileEntry) -> (result: Option<usize>)
    ensures
        ({
            let at = first_named(metainfo@.files, v1_file@.path, v1_file@.length, 0);
            match result {
                Some(found) => at == found && found < metainfo.files@.len(),
                None => at >= metainfo.files@.len(),
            }
        }),
{
    let ghost models = files_view(metainfo.files@);
    let mut i: usize = 0;
    while i < metainfo.files.len()
        invariant
            models == files_view(metainfo.files@),
            i <= metainfo.files@.len(),
            first_named(models, v1_file@.path, v1_file@.length, 0) == first_named(
                models,
                v1_file@.path,
                v1_file@.length,
                i as int,
            ),
        decreases metainfo.files@.len() - i,
    {
        let file = &metainfo.files[i];
        assert(models[i as int] == file@);
        if file.path.same(&v1_file.path) && file.length == v1_file.length {
            return Some(i);
        }
        i += 1;
    }
    None
}

/// The target of a piece that the v1 layout cuts.
fn hybrid_target(
    metainfo: &Metainfo,
    v1_file: &FileEntry,
    start: u64,
    end: u64,
) -> (result: Result<Option<(usize, usize, usize, usize)>, ActorError>)
    requires
        metainfo.piece_length > 0,
        v1_file.wire_offset + v1_file.length <= u64::MAX,
        start <= end,
        end - start <= usize::MAX,
    ensures
        ({
            let part = overlap(v1_file@, start as int, end as int);
            let from = part.file.wire_offset + part.file_offset - start;
            let named = first_named(metainfo@.files, v1_file@.path, v1_file@.length, 0);
            if v1_file.padding || part.length <= 0 {
                result is Ok && result->Ok_0 is None
            } else if named >= metainfo@.files.len() {
                result is Err && result->Err_0@ == Fault::Metainfo("hybrid layouts diverged"@)
            } else if part.file_offset / (metainfo.piece_length as int) > usize::MAX {
                result is Err && result->Err_0@ == Fault::Arithmetic
            } else {
                result is Ok && result->Ok_0 is Some && {
                    let found = result->Ok_0->0;
                    &&& found.0 == named
                    &&& found.0 < metainfo.files@.len()
                    &&& found.1 == part.file_offset / (metainfo.piece_length as int)
                    &&& found.2 == from
                    &&& found.3 == from + part.length
                    &&& found.2 <= found.3 <= end - start
                }
            }
        }),
{
    let file_end: u64 = v1_file.wire_offset + v1_file.length;
    let overlap_start: u64 = max_u64(start, v1_file.wire_offset);
    let overlap_end: u64 = min_u64(end, file_end);
    if v1_file.padding || overlap_start >= overlap_end {
        return Ok(None);
    }
    let file: usize = match find_named(metainfo, v1_file) {
        Some(file) => file,
        None => {
            return Err(ActorError::metainfo("hybrid layouts diverged"));
        },
    };
    let local: u64 = (overlap_start - v1_file.wire_offset) / metainfo.piece_length as u64;
    match to_usize(local) {
        Some(local) => Ok(
            Some((file, local, (overlap_start - start) as usize, (overlap_end - start) as usize)),
        ),
        None => Err(ActorError::Arithmetic),
    }
}

/// Which part of a piece of `piece_len` bytes has to hash up to which v2 root.
pub fn v2_verification_target<'a>(
    metainfo: &'a Metainfo,
    index: usize,
    piece_len: usize,
) -> (result: Result<Option<V2VerificationTarget<'a>>, ActorError>)
    requires
        metainfo.wf(),
    ensures
        match (result, target_of(metainfo@, index as int, piece_len as int)) {
            (Ok(None), Ok(None)) => true,
            (Ok(Some(target)), Ok(Some(expected))) => {
                &&& 0 <= expected.file < metainfo.files@.len()
                &&& target.file == metainfo.files@[expected.file]
                &&& target.local_index == expected.local
                &&& target.range.start == expected.start
                &&& target.range.end == expected.end
                &&& target.range.start <= target.range.end <= piece_len
            },
            (Err(error), Err(fault)) => error@ == fault,
            _ => false,
        },
{
    assert(metainfo@.v1_piece_hashes.len() == metainfo.v1_piece_hashes@.len());
    if metainfo.v1_piece_hashes.len() == 0 {
        return match v2_piece_location(metainfo, index) {
            Ok((file, local, _)) => {
                if file.padding {
                    Ok(None)
                } else {
                    Ok(
                        Some(
                            V2VerificationTarget { file, local_index: local, range: 0..piece_len },
                        ),
                    )
                }
            },
            Err(error) => Err(error),
        };
    }
    let start: u64 = match piece_start(metainfo, index) {
        Ok(start) => start,
        Err(error) => {
            return Err(error);
        },
    };
    let end: u64 = match start.checked_add(piece_len as u64) {
        Some(end) => end,
        None => {
            return Err(ActorError::Arithmetic);
        },
    };
    let ghost models = files_view(metainfo.v1_files@);
    let mut i: usize = 0;
    while i < metainfo.v1_files.len()
        invariant
            metainfo.wf(),
            models == files_view(metainfo.v1_files@),
            metainfo@.v1_piece_hashes.len() != 0,
            piece_start_of(metainfo@, index as int) == Ok::<int, Fault>(start as int),
            end == start + piece_len,
            i <= metainfo.v1_files@.len(),
            first_content(models, start as int, end as int, 0) == first_content(
                models,
                start as int,
                end as int,
                i as int,
            ),
        decreases metainfo.v1_files@.len() - i,
    {
        let v1_file = &metainfo.v1_files[i];
        proof {
            assert(models[i as int] == v1_file@);
            assert(lengths_ok(models));
            lemma_file_end(models, i as int);
        }
        match hybrid_target(metainfo, v1_file, start, end) {
            Ok(Some((file, local_index, from, to))) => {
                return Ok(
                    Some(
                        V2VerificationTarget {
                            file: &metainfo.files[file],
                            local_index,
                            range: from..to,
                        },
                    ),
                );
            },
            Ok(None) => {},
            Err(error) => {
                return Err(error);
            },
        }
        i += 1;
    }
    Ok(None)
}

/// The root that a piece has to hash up to in a v2 tree.
#[derive(Debug)]
pub struct V2Check {
    pub expected: Sha256Hash,
    pub range: Range<usize>,
    pub piece_length: u32,
}

/// Everything needed to check one piece without the metainfo, so the hashing
/// itself can run on a blocking thread.
#[derive(Debug)]
pub struct PieceVerification {
    pub v1: Option<Sha1Hash>,
    pub v2: Option<V2Check>,
}

/// A v2 check by its values.
pub struct RootCheck {
    pub expected: Seq<u8>,
    pub start: int,
    pub end: int,
    pub piece_length: int,
}

/// The checks of one piece by their values.
pub struct Checks {
    pub v1: Option<Seq<u8>>,
    pub v2: Option<RootCheck>,
}

impl PieceVerification {
    pub open spec fn view(&self) -> Checks {
        Checks {
            v1: match self.v1 {
                Some(hash) => Some(hash@),
                None => None,
            },
            v2: match self.v2 {
                Some(check) => Some(
                    RootCheck {
                        expected: check.expected@,
                        start: check.range.start as int,
                        end: check.range.end as int,
                        piece_length: check.piece_length as int,
                    },
                ),
                None => None,
            },
        }
    }

    /// A v2 tree has at least one leaf for each piece.
    pub open spec fn wf(&self) -> bool {
        self.v2 is Some ==> self.v2->0.piece_length >= 16384
    }
}

/// The leaves below a piece: one digest for each block, zero beyond the end.
pub open spec fn leaves_of(data: Seq<u8>, piece_length: int) -> Seq<Seq<u8>> {
    Seq::new(
        (piece_length / 16384) as nat,
        |i: int|
            if i * 16384 < data.len() {
                openssl_sha256_of(
                    data.subrange(i * 16384, min_of(i * 16384 + 16384, data.len() as int)),
                )
            } else {
                Seq::new(32, |k: int| 0u8)
            },
    )
}

/// Whether a piece passes its checks.
pub open spec fn passes(checks: Checks, piece: Seq<u8>) -> bool {
    &&& checks.v1 is Some ==> openssl_sha1_of(piece) == checks.v1->0
    &&& checks.v2 is Some ==> {
        let check = checks.v2->0;
        &&& check.start <= check.end <= piece.len()
        &&& root_of(leaves_of(piece.subrange(check.start, check.end), check.piece_length))
            == check.expected
    }
}

/// What a piece is checked against.
pub open spec fn checks_of(m: MetaModel, index: int, size: int) -> Result<Checks, Fault> {
    let v1 = if 0 <= index < m.v1_piece_hashes.len() {
        Some(m.v1_piece_hashes[index])
    } else {
        None
    };
    if m.v2_info_hash is None {
        Ok(Checks { v1, v2: None })
    } else {
        match target_of(m, index, size) {
            Err(fault) => Err(fault),
            Ok(None) => Ok(Checks { v1, v2: None }),
            Ok(Some(target)) => match m.files[target.file].pieces_root {
                None => Err(Fault::Metainfo("non-empty v2 file has no pieces root"@)),
                Some(root) => {
                    let expected = if m.files[target.file].length <= m.piece_length {
                        Some(root)
                    } else if m.piece_layers.contains_key(root) && target.local
                        < m.piece_layers[root].len() {
                        Some(m.piece_layers[root][target.local])
                    } else {
                        None
                    };
                    match expected {
                        None => Err(Fault::Metainfo("v2 piece layer is incomplete"@)),
                        Some(expected) => Ok(
                            Checks {
                                v1,
                                v2: Some(
                                    RootCheck {
                                        expected,
                                        start: target.start,
                                        end: target.end,
                                        piece_length: m.piece_length,
                                    },
                                ),
                            },
                        ),
                    }
                },
            },
        }
    }
}

/// The root of the tree below one piece.
pub fn v2_piece_root(piece: &[u8], piece_length: u32) -> (root: Sha256Hash)
    requires
        piece_length >= 16384,
    ensures
        root@ == root_of(leaves_of(piece@, piece_length as int)),
{
    let leaf_count: usize = (piece_length / 16384) as usize;
    let ghost leaves = leaves_of(piece@, piece_length as int);
    let zero = Sha256Hash::from_bytes([0; 32]);
    assert(zero@ =~= Seq::new(32, |k: int| 0u8));
    let mut hashes: Vec<Sha256Hash> = Vec::new();
    let mut i: usize = 0;
    let mut at: usize = 0;
    assert(piece@.len() == piece.len());
    while i < leaf_count
        invariant
            leaf_count == piece_length / 16384,
            leaves == leaves_of(piece@, piece_length as int),
            zero@ == Seq::new(32, |k: int| 0u8),
            i <= leaf_count,
            hashes@.len() == i,
            at == min_of(i * 16384, piece@.len() as int),
            forall|k: int| 0 <= k < i ==> (#[trigger] hashes@[k])@ == leaves[k],
        decreases leaf_count - i,
    {
        if at < piece.len() {
            let end: usize = if piece.len() - at > LEAF_BYTES { at + LEAF_BYTES } else { piece.len() };
            let block = slice_subrange(piece, at, end);
            hashes.push(Sha256Hash::from_bytes(openssl_sha256(block)));
            at = end;
        } else {
            hashes.push(zero);
        }
        i += 1;
    }
    assert(digests(hashes@) =~= leaves);
    while hashes.len() > 1
        invariant
            hashes@.len() > 0,
            root_of(digests(hashes@)) == root_of(leaves),
        decreases hashes@.len(),
    {
        hashes = reduce_layer(&hashes);
        assert(digests(hashes@).len() == hashes@.len());
    }
    hashes[0]
}

impl PieceVerification {
    /// Whether a piece matches every hash that is known of it.
    pub fn verify(&self, piece: &[u8]) -> (result: bool)
        requires
            self.wf(),
        ensures
            result == passes(self@, piece@),
    {
        if let Some(expected) = self.v1 {
            // OpenSSL's assembly SHA-1 is about twice as fast as the pure
            // Rust implementation on CPUs without SHA extensions; piece
            // verification is the largest CPU cost.
            if !Sha1Hash::from_bytes(openssl_sha1(piece)).same(&expected) {
                return false;
            }
        }
        if let Some(check) = &self.v2 {
            if check.range.start > check.range.end || check.range.end > piece.len() {
                return false;
            }
            let data = slice_subrange(piece, check.range.start, check.range.end);
            if !v2_piece_root(data, check.piece_length).same(&check.expected) {
                return false;
            }
        }
        true
    }
}

/// The digest that the target of a v2 check has to reach.
fn expected_root(metainfo: &Metainfo, file: &FileEntry, local: usize) -> (result: Result<
    Sha256Hash,
    ActorError,
>)
    ensures
        match file@.pieces_root {
            None => result is Err && result->Err_0@ == Fault::Metainfo(
                "non-empty v2 file has no pieces root"@,
            ),
            Some(root) => {
                let layers = metainfo@.piece_layers;
                if file.length <= metainfo.piece_length {
                    result is Ok && result->Ok_0@ == root
                } else if layers.contains_key(root) && local < layers[root].len() {
                    result is Ok && result->Ok_0@ == layers[root][local as int]
                } else {
                    result is Err && result->Err_0@ == Fault::Metainfo(
                        "v2 piece layer is incomplete"@,
                    )
                }
            },
        },
{
    let root = match file.pieces_root {
        Some(root) => root,
        None => {
            return Err(ActorError::metainfo("non-empty v2 file has no pieces root"));
        },
    };
    if file.length <= metainfo.piece_length as u64 {
        return Ok(root);
    }
    match metainfo.piece_layers.get(&root) {
        Some(layer) => {
            assert(digests(layer@).len() == layer@.len());
            if local < layer.len() {
                Ok(layer[local])
            } else {
                Err(ActorError::metainfo("v2 piece layer is incomplete"))
            }
        },
        None => Err(ActorError::metainfo("v2 piece layer is incomplete")),
    }
}

pub fn prepare_verification(metainfo: &Metainfo, index: usize, piece_len: usize) -> (result: Result<
    PieceVerification,
    ActorError,
>)
    requires
        metainfo.wf(),
    ensures
        match result {
            Ok(verification) => verification.wf() && checks_of(
                metainfo@,
                index as int,
                piece_len as int,
            ) == Ok::<Checks, Fault>(verification@),
            Err(error) => checks_of(metainfo@, index as int, piece_len as int) == Err::<
                Checks,
                Fault,
            >(error@),
        },
{
    assert(metainfo@.v1_piece_hashes.len() == metainfo.v1_piece_hashes@.len());
    let v1 = if index < metainfo.v1_piece_hashes.len() {
        Some(metainfo.v1_piece_hashes[index])
    } else {
        None
    };
    if metainfo.v2_info_hash.is_none() {
        return Ok(PieceVerification { v1, v2: None });
    }
    match v2_verification_target(metainfo, index, piece_len) {
        Ok(Some(target)) => match expected_root(metainfo, target.file, target.local_index) {
            Ok(expected) => Ok(
                PieceVerification {
                    v1,
                    v2: Some(
                        V2Check {
                            expected,
                            range: target.range,
                            piece_length: metainfo.piece_length,
                        },
                    ),
                },
            ),
            Err(error) => Err(error),
        },
        Ok(None) => Ok(PieceVerification { v1, v2: None }),
        Err(error) => Err(error),
    }
}

/// Whether a piece matches the hashes of a torrent.
pub fn verify_piece(metainfo: &Metainfo, index: usize, piece: &[u8]) -> (result: Result<
    bool,
    ActorError,
>)
    requires
        metainfo.wf(),
    ensures
        match (result, checks_of(metainfo@, index as int, piece@.len() as int)) {
            (Ok(verified), Ok(checks)) => verified == passes(checks, piece@),
            (Err(error), Err(fault)) => error@ == fault,
            _ => false,
        },
{
    assert(piece@.len() == piece.len());
    match prepare_verification(metainfo, index, piece.len()) {
        Ok(verification) => Ok(verification.verify(piece)),
        Err(error) => Err(error),
    }
}

/// A piece of a torrent with v1 hashes never passes unless its SHA-1 digest is
/// the one that the torrent lists for it.
pub proof fn law_verified_v1_piece_matches(m: MetaModel, index: int, piece: Seq<u8>)
    requires
        0 <= index < m.v1_piece_hashes.len(),
        checks_of(m, index, piece.len() as int) is Ok,
        passes(checks_of(m, index, piece.len() as int)->Ok_0, piece),
    ensures
        openssl_sha1_of(piece) == m.v1_piece_hashes[index],
{
}

/// A piece of a pure v2 torrent never passes unless it hashes up to the root
/// that the torrent gives for it: the file's own root, or the entry of the
/// file's piece layer.
pub proof fn law_verified_v2_piece_matches(m: MetaModel, index: int, piece: Seq<u8>)
    requires
        m.v2_info_hash is Some,
        m.v1_piece_hashes.len() == 0,
        checks_of(m, index, piece.len() as int) is Ok,
        passes(checks_of(m, index, piece.len() as int)->Ok_0, piece),
        !m.files[location_of(m, index)->Ok_0.file].padding,
    ensures
        ({
            let found = location_of(m, index)->Ok_0;
            let root = m.files[found.file].pieces_root->0;
            root_of(leaves_of(piece, m.piece_length)) == if m.files[found.file].length
                <= m.piece_length {
                root
            } else {
                m.piece_layers[root][found.local]
            }
        }),
{
    assert(piece.subrange(0, piece.len() as int) =~= piece);
}

} // verus!
