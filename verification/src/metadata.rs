//! Getting the metadata of a magnet link from peers: BEP 9 for the info
//! dictionary, BEP 52 for the piece layers.

use crate::address::SocketAddress;
use crate::bencode::BencodeLimits;
use crate::buffer::{as_slice, contents, len};
use crate::error::{ActorError, Fault};
use crate::hash::{
    digests, floor_log2, ilog2, ilog2_usize, next_power_of_two, round_up_to_power_of_two,
    sha1_digest, sha1_of, sha256_digest, sha256_of, Sha1Hash, Sha256Hash,
};
use crate::hash_tree::HashRequest;
use crate::info_dict::{
    document_limits, lemma_wrapped_bare, limits_for, wrap_info_dictionary, wrapped, wrapped_bare,
};
use crate::magnet::Magnet;
use crate::metainfo::{
    chunks, digest_view, files_view, is_large, metainfo_of, FileEntry, FileModel, MetaModel,
    Metainfo,
};
use crate::num::{div_ceil, div_ceil_of, div_ceil_usize, lemma_div_ceil, min_of, to_usize};
use crate::piece_layers::PieceLayers;
use crate::wording::failure_text;
use bytes::Bytes;
use vstd::prelude::*;
use vstd::slice::slice_subrange;

verus! {

/// The size of the blocks that metadata is exchanged in.
pub const METADATA_BLOCK_BYTES: usize = 16384;

/// How many metadata blocks are requested ahead.
pub const METADATA_REQUEST_PIPELINE: usize = 16;

/// How many peers are asked for metadata at a time.
pub const METADATA_PEER_CONCURRENCY: usize = 32;

/// What a peer says of metadata when extensions are negotiated: the number
/// under which it takes requests, and how long the metadata is.
pub fn negotiated(extension_id: Option<u8>, size: Option<usize>) -> (result: Result<
    (u8, usize),
    ActorError,
>)
    ensures
        match result {
            Ok((id, length)) => extension_id == Some(id) && size == Some(length) && length > 0,
            Err(error) => if extension_id is None {
                error@ == Fault::Metadata("peer does not advertise ut_metadata"@)
            } else if size is None {
                error@ == Fault::Metadata("peer did not provide metadata_size"@)
            } else {
                size == Some(0usize) && error@ == Fault::Metadata("metadata_size is zero"@)
            },
        },
{
    match extension_id {
        None => Err(ActorError::metadata("peer does not advertise ut_metadata")),
        Some(id) => match size {
            None => Err(ActorError::metadata("peer did not provide metadata_size")),
            Some(length) => if length == 0 {
                Err(ActorError::metadata("metadata_size is zero"))
            } else {
                Ok((id, length))
            },
        },
    }
}

/// Metadata that arrives block by block.
pub struct MetadataExchange {
    pub total_size: usize,
    pub blocks: Vec<Option<Bytes>>,
    pub requested: usize,
    pub received: usize,
}

/// How long a block has to be.
pub open spec fn block_length(total: int, piece: int) -> int {
    min_of(total - piece * 16384, 16384)
}

pub open spec fn blocks_view(blocks: Seq<Option<Bytes>>) -> Seq<Option<Seq<u8>>> {
    Seq::new(
        blocks.len(),
        |i: int|
            match blocks[i] {
                Some(block) => Some(contents(block)),
                None => None,
            },
    )
}

/// How many of the first `n` blocks have arrived.
pub open spec fn arrived(blocks: Seq<Option<Seq<u8>>>, n: int) -> int
    decreases n,
{
    if n <= 0 {
        0
    } else {
        arrived(blocks, n - 1) + if blocks[n - 1] is Some {
            1int
        } else {
            0int
        }
    }
}

/// The first `n` blocks one behind the other.
pub open spec fn block_data(blocks: Seq<Option<Seq<u8>>>, n: int) -> Seq<u8>
    decreases n,
{
    if n <= 0 {
        Seq::empty()
    } else {
        block_data(blocks, n - 1) + blocks[n - 1]->0
    }
}

/// Whether a block may be taken: it was asked for, has not arrived, belongs to
/// metadata of the right size and is as long as it has to be.
pub open spec fn is_expected(
    total: int,
    blocks: Seq<Option<Seq<u8>>>,
    requested: int,
    piece: int,
    size: int,
    length: int,
) -> bool {
    piece < requested && piece < blocks.len() && blocks[piece] is None && size == total && length
        == block_length(total, piece) && piece * 16384 <= total
}

impl MetadataExchange {
    pub open spec fn wf(&self) -> bool {
        let blocks = blocks_view(self.blocks@);
        &&& self.total_size > 0
        &&& blocks.len() == div_ceil_of(self.total_size as int, 16384)
        &&& self.requested <= blocks.len()
        &&& self.received == arrived(blocks, blocks.len() as int)
        &&& self.received <= self.requested
        &&& forall|i: int|
            0 <= i < blocks.len() && (#[trigger] blocks[i]) is Some ==> i < self.requested
                && blocks[i]->0.len() == block_length(self.total_size as int, i)
    }

    pub fn new(total_size: usize) -> (exchange: Self)
        requires
            total_size > 0,
        ensures
            exchange.wf(),
            exchange.total_size == total_size,
            exchange.requested == 0,
            exchange.received == 0,
    {
        let count: usize = div_ceil_usize(total_size, METADATA_BLOCK_BYTES);
        let mut blocks: Vec<Option<Bytes>> = Vec::new();
        let mut i: usize = 0;
        while i < count
            invariant
                i <= count,
                blocks@.len() == i,
                forall|k: int| 0 <= k < i ==> (#[trigger] blocks@[k]) is None,
            decreases count - i,
        {
            blocks.push(None);
            i += 1;
        }
        proof {
            lemma_none_arrived(blocks_view(blocks@), count as int);
        }
        Self { total_size, blocks, requested: 0, received: 0 }
    }

    /// The number of the next block to ask for: sixteen are outstanding at a
    /// time.
    pub fn next_request(&mut self) -> (result: Result<Option<u32>, ActorError>)
        requires
            old(self).wf(),
        ensures
            final(self).wf(),
            ({
                let due = old(self).requested < old(self).blocks@.len() && old(self).requested
                    < old(self).received + METADATA_REQUEST_PIPELINE;
                match result {
                    Ok(Some(piece)) => due && piece == old(self).requested && *final(self) == (
                    MetadataExchange {
                        requested: (old(self).requested + 1) as usize,
                        ..*old(self)
                    }),
                    Ok(None) => !due && *final(self) == *old(self),
                    Err(error) => due && old(self).requested > u32::MAX && error@
                        == Fault::Arithmetic && *final(self) == *old(self),
                }
            }),
    {
        if self.requested >= self.blocks.len() || self.requested - self.received
            >= METADATA_REQUEST_PIPELINE {
            return Ok(None);
        }
        let piece: usize = self.requested;
        if piece > 0xffff_ffff {
            return Err(ActorError::Arithmetic);
        }
        self.requested = piece + 1;
        Ok(Some(piece as u32))
    }

    /// Whether every block has arrived.
    pub fn is_complete(&self) -> (result: bool)
        requires
            self.wf(),
        ensures
            result == (self.received == self.blocks@.len()),
    {
        self.received == self.blocks.len()
    }

    /// A block arrived.
    pub fn receive_block(&mut self, piece: u32, size: usize, block: Bytes) -> (result: Result<
        (),
        ActorError,
    >)
        requires
            old(self).wf(),
        ensures
            final(self).wf(),
            ({
                let expected = is_expected(
                    old(self).total_size as int,
                    blocks_view(old(self).blocks@),
                    old(self).requested as int,
                    piece as int,
                    size as int,
                    contents(block).len() as int,
                );
                match result {
                    Ok(()) => {
                        &&& expected
                        &&& final(self).blocks@ == old(self).blocks@.update(
                            piece as int,
                            Some(block),
                        )
                        &&& final(self).received == old(self).received + 1
                        &&& final(self).requested == old(self).requested
                        &&& final(self).total_size == old(self).total_size
                    },
                    Err(error) => !expected && *final(self) == *old(self) && error@ == (if piece
                        * 16384 > usize::MAX {
                        Fault::Arithmetic
                    } else {
                        Fault::Metadata("peer returned an unexpected metadata message"@)
                    }),
                }
            }),
    {
        let index: usize = piece as usize;
        let length: usize = len(&block);
        let ghost before = blocks_view(self.blocks@);
        proof {
            lemma_div_ceil(self.total_size as int, 16384);
        }
        let offset: usize = match index.checked_mul(METADATA_BLOCK_BYTES) {
            Some(offset) => offset,
            None => {
                return Err(ActorError::Arithmetic);
            },
        };
        let open: bool = if index < self.blocks.len() {
            assert(before[index as int] is Some == self.blocks@[index as int] is Some);
            self.blocks[index].is_none()
        } else {
            false
        };
        let fits: bool = if offset > self.total_size {
            false
        } else {
            let rest: usize = self.total_size - offset;
            length == (if rest < METADATA_BLOCK_BYTES { rest } else { METADATA_BLOCK_BYTES })
        };
        if index >= self.requested || !open || size != self.total_size || !fits {
            return Err(ActorError::metadata("peer returned an unexpected metadata message"));
        }
        proof {
            lemma_arrived_bound(before, self.requested as int, index as int);
        }
        self.blocks[index] = Some(block);
        proof {
            let after = blocks_view(self.blocks@);
            assert(after =~= before.update(index as int, Some(contents(block))));
            lemma_arrived_update(before, index as int, contents(block), before.len() as int);
            assert forall|i: int| 0 <= i < after.len() && (#[trigger] after[i]) is Some implies i
                < self.requested && after[i]->0.len() == block_length(
                self.total_size as int,
                i,
            ) by {
                if i != index {
                    assert(after[i] == before[i]);
                }
            }
        }
        self.received = self.received + 1;
        Ok(())
    }

    /// A peer refused a block. It may only refuse one that it was asked for;
    /// either way the exchange with it is over.
    pub fn rejected(&self, piece: u32) -> (error: ActorError)
        ensures
            error@ == Fault::Metadata(
                if piece < self.requested && piece < self.blocks@.len()
                    && self.blocks@[piece as int] is None {
                    "peer rejected a metadata request"@
                } else {
                    "peer returned an unexpected metadata message"@
                },
            ),
    {
        let index: usize = piece as usize;
        if index < self.requested && index < self.blocks.len() && self.blocks[index].is_none() {
            ActorError::metadata("peer rejected a metadata request")
        } else {
            ActorError::metadata("peer returned an unexpected metadata message")
        }
    }

    /// The metadata, once every block has arrived.
    pub fn finish(&self) -> (result: Result<Vec<u8>, ActorError>)
        requires
            self.wf(),
        ensures
            match result {
                Ok(data) => {
                    &&& self.received == self.blocks@.len()
                    &&& data@ == block_data(
                        blocks_view(self.blocks@),
                        self.blocks@.len() as int,
                    )
                    &&& data@.len() == self.total_size
                },
                Err(error) => self.received < self.blocks@.len() && error@ == Fault::Metadata(
                    "metadata piece is missing"@,
                ),
            },
    {
        let ghost blocks = blocks_view(self.blocks@);
        let mut data: Vec<u8> = Vec::new();
        let mut i: usize = 0;
        proof {
            lemma_div_ceil(self.total_size as int, 16384);
        }
        while i < self.blocks.len()
            invariant
                self.wf(),
                blocks == blocks_view(self.blocks@),
                i <= self.blocks@.len(),
                data@ == block_data(blocks, i as int),
                data@.len() == min_of(i * 16384, self.total_size as int),
                arrived(blocks, i as int) == i,
            decreases self.blocks@.len() - i,
        {
            proof {
                lemma_div_ceil(self.total_size as int, 16384);
                assert(blocks[i as int] is Some == self.blocks@[i as int] is Some);
                assert(i * 16384 < self.total_size);
            }
            match &self.blocks[i] {
                Some(block) => {
                    let ghost before = data@;
                    data.extend_from_slice(as_slice(block));
                    assert(data@ =~= before + blocks[i as int]->0);
                },
                None => {
                    proof {
                        lemma_arrived_missing(blocks, i as int, blocks.len() as int);
                    }
                    return Err(ActorError::metadata("metadata piece is missing"));
                },
            }
            i += 1;
        }
        Ok(data)
    }
}

proof fn lemma_none_arrived(blocks: Seq<Option<Seq<u8>>>, n: int)
    requires
        0 <= n <= blocks.len(),
        forall|i: int| 0 <= i < blocks.len() ==> (#[trigger] blocks[i]) is None,
    ensures
        arrived(blocks, n) == 0,
    decreases n,
{
    if n > 0 {
        lemma_none_arrived(blocks, n - 1);
    }
}

proof fn lemma_arrived_update(
    blocks: Seq<Option<Seq<u8>>>,
    at: int,
    block: Seq<u8>,
    n: int,
)
    requires
        0 <= n <= blocks.len(),
        0 <= at < blocks.len(),
        blocks[at] is None,
    ensures
        arrived(blocks.update(at, Some(block)), n) == arrived(blocks, n) + if at < n {
            1int
        } else {
            0int
        },
    decreases n,
{
    if n > 0 {
        lemma_arrived_update(blocks, at, block, n - 1);
    }
}

/// With one requested block still missing, fewer have arrived than were requested.
proof fn lemma_arrived_bound(blocks: Seq<Option<Seq<u8>>>, requested: int, missing: int)
    requires
        0 <= missing < requested <= blocks.len(),
        blocks[missing] is None,
        forall|i: int|
            0 <= i < blocks.len() && (#[trigger] blocks[i]) is Some ==> i < requested,
    ensures
        arrived(blocks, blocks.len() as int) < requested,
{
    lemma_arrived_missing(blocks, missing, requested);
    lemma_arrived_tail(blocks, requested, blocks.len() as int);
}

proof fn lemma_arrived_tail(blocks: Seq<Option<Seq<u8>>>, from: int, n: int)
    requires
        0 <= from <= n <= blocks.len(),
        forall|i: int| 0 <= i < blocks.len() && (#[trigger] blocks[i]) is Some ==> i < from,
    ensures
        arrived(blocks, n) == arrived(blocks, from),
    decreases n - from,
{
    if from < n {
        lemma_arrived_tail(blocks, from, n - 1);
    }
}

proof fn lemma_arrived_missing(blocks: Seq<Option<Seq<u8>>>, missing: int, n: int)
    requires
        0 <= n <= blocks.len(),
    ensures
        arrived(blocks, n) <= n,
        0 <= missing < n && blocks[missing] is None ==> arrived(blocks, n) < n,
    decreases n,
{
    if n > 0 {
        lemma_arrived_missing(blocks, missing, n - 1);
    }
}

/// How many hashes to ask for at a time: at most 512, and a power of two.
pub open spec fn run_length(remaining: int) -> int {
    if remaining > 512 {
        512
    } else if next_power_of_two(remaining as nat) < 2 {
        2
    } else {
        next_power_of_two(remaining as nat) as int
    }
}

/// The next file whose piece layer is still missing, at or after `from`, or
/// the length.
pub open spec fn missing_layer(
    files: Seq<FileModel>,
    layers: Map<Seq<u8>, Seq<Seq<u8>>>,
    piece_length: int,
    from: int,
) -> int
    decreases files.len() - from,
{
    if from < 0 || from >= files.len() || (is_large(files[from], piece_length) && (
    files[from].pieces_root is None || !layers.contains_key(files[from].pieces_root->0))) {
        from
    } else {
        missing_layer(files, layers, piece_length, from + 1)
    }
}

/// A request for a run of a file's piece layer, and how many of its hashes are
/// needed.
#[derive(Clone, Copy, Debug)]
pub struct LayerRequest {
    pub request: HashRequest,
    pub needed: usize,
}

/// Whether the piece layers of a torrent have to be fetched. Its piece length
/// then is that of a tree's layer.
pub fn needs_layers(metainfo: &Metainfo) -> (result: bool)
    requires
        metainfo.wf(),
    ensures
        result == (metainfo@.v2_info_hash is Some),
        result ==> metainfo.piece_length >= 16384,
{
    metainfo.v2_info_hash.is_some()
}

/// Fetching the piece layers of a torrent, one run of hashes at a time.
#[derive(Debug)]
pub struct LayerFetch {
    pub file: usize,
    /// The hashes of the file's layer that have arrived.
    pub hashes: Vec<Sha256Hash>,
    pub layers: PieceLayers,
}

/// What there is to ask for next.
pub enum NextLayer {
    Nothing,
    Fault(Fault),
    /// A run of the layer of a file.
    Run { file: int, root: Seq<u8>, base_layer: int, index: int, length: int, proof_layers: int, needed: int },
}

/// The run to ask for next of a file's layer, behind `index` hashes.
pub open spec fn next_run(m: MetaModel, file: int, index: int) -> NextLayer {
    let entry = m.files[file];
    match entry.pieces_root {
        None => NextLayer::Fault(Fault::Metainfo("large v2 file has no pieces root"@)),
        Some(root) => {
            let count = div_ceil_of(entry.length, m.piece_length);
            if count > usize::MAX / 2 || index > u32::MAX {
                NextLayer::Fault(Fault::Arithmetic)
            } else {
                let remaining = count - index;
                NextLayer::Run {
                    file,
                    root,
                    base_layer: floor_log2((m.piece_length / 16384) as nat) as int,
                    index,
                    length: run_length(remaining),
                    proof_layers: floor_log2(next_power_of_two(count as nat)) as int,
                    needed: min_of(remaining, run_length(remaining)),
                }
            }
        },
    }
}

impl LayerFetch {
    pub open spec fn wf(&self, m: MetaModel) -> bool {
        &&& self.file <= m.files.len()
        &&& self.hashes@.len() > 0 ==> self.file < m.files.len() && is_large(
            m.files[self.file as int],
            m.piece_length,
        ) && m.files[self.file as int].pieces_root is Some && self.hashes@.len() < div_ceil_of(
            m.files[self.file as int].length,
            m.piece_length,
        ) && !self.layers@.contains_key(m.files[self.file as int].pieces_root->0)
    }

    pub fn new() -> (fetch: Self)
        ensures
            fetch.file == 0,
            fetch.hashes@.len() == 0,
            fetch.layers@ == Map::<Seq<u8>, Seq<Seq<u8>>>::empty(),
            forall|m: MetaModel| #[trigger] fetch.wf(m),
    {
        Self { file: 0, hashes: Vec::new(), layers: PieceLayers::new() }
    }

    /// What to ask for next, or nothing once every layer is there.
    pub fn next(&mut self, metainfo: &Metainfo) -> (result: Result<
        Option<LayerRequest>,
        ActorError,
    >)
        requires
            metainfo.wf(),
            metainfo.piece_length >= 16384,
            old(self).wf(metainfo@),
        ensures
            final(self).wf(metainfo@),
            final(self).hashes == old(self).hashes,
            final(self).layers == old(self).layers,
            final(self).file == missing_layer(
                metainfo@.files,
                old(self).layers@,
                metainfo@.piece_length,
                old(self).file as int,
            ),
            ({
                let wanted = if final(self).file < metainfo@.files.len() {
                    next_run(
                        metainfo@,
                        final(self).file as int,
                        final(self).hashes@.len() as int,
                    )
                } else {
                    NextLayer::Nothing
                };
                match result {
                    Ok(None) => wanted is Nothing,
                    Ok(Some(run)) => wanted == (NextLayer::Run {
                        file: final(self).file as int,
                        root: run.request.pieces_root@,
                        base_layer: run.request.base_layer as int,
                        index: run.request.index as int,
                        length: run.request.length as int,
                        proof_layers: run.request.proof_layers as int,
                        needed: run.needed as int,
                    }),
                    Err(error) => wanted == NextLayer::Fault(error@),
                }
            }),
    {
        let ghost files = files_view(metainfo.files@);
        let length: u64 = metainfo.piece_length as u64;
        while self.file < metainfo.files.len()
            invariant
                metainfo.wf(),
                metainfo.piece_length >= 16384,
                files == files_view(metainfo.files@),
                length == metainfo.piece_length,
                self.wf(metainfo@),
                self.hashes == old(self).hashes,
                self.layers == old(self).layers,
                missing_layer(files, self.layers@, length as int, self.file as int)
                    == missing_layer(files, old(self).layers@, length as int, old(self).file as int),
            decreases metainfo.files@.len() - self.file,
        {
            let file = &metainfo.files[self.file];
            assert(files[self.file as int] == file@);
            if !file.padding && file.length > length {
                match file.pieces_root {
                    None => {
                        return Err(ActorError::metainfo("large v2 file has no pieces root"));
                    },
                    Some(root) => {
                        if self.layers.get(&root).is_none() {
                            return self.request_run(metainfo, file, root);
                        }
                    },
                }
            }
            assert(self.hashes@.len() == 0);
            self.file = self.file + 1;
        }
        Ok(None)
    }

    fn request_run(&self, metainfo: &Metainfo, file: &FileEntry, root: Sha256Hash) -> (result:
        Result<Option<LayerRequest>, ActorError>)
        requires
            metainfo.wf(),
            metainfo.piece_length >= 16384,
            self.wf(metainfo@),
            self.file < metainfo@.files.len(),
            file@ == metainfo@.files[self.file as int],
            file.pieces_root == Some(root),
            is_large(file@, metainfo.piece_length as int),
        ensures
            match result {
                Ok(None) => false,
                Ok(Some(run)) => next_run(
                    metainfo@,
                    self.file as int,
                    self.hashes@.len() as int,
                ) == (NextLayer::Run {
                    file: self.file as int,
                    root: run.request.pieces_root@,
                    base_layer: run.request.base_layer as int,
                    index: run.request.index as int,
                    length: run.request.length as int,
                    proof_layers: run.request.proof_layers as int,
                    needed: run.needed as int,
                }),
                Err(error) => next_run(
                    metainfo@,
                    self.file as int,
                    self.hashes@.len() as int,
                ) == NextLayer::Fault(error@),
            },
    {
        let length: u64 = metainfo.piece_length as u64;
        proof {
            lemma_div_ceil(file.length as int, length as int);
        }
        let count: usize = match to_usize(div_ceil(file.length, length)) {
            Some(count) => count,
            None => {
                return Err(ActorError::Arithmetic);
            },
        };
        let index: usize = self.hashes.len();
        if count > usize::MAX / 2 || index > 0xffff_ffff {
            return Err(ActorError::Arithmetic);
        }
        let remaining: usize = count - index;
        let run: usize = if remaining > 512 {
            512
        } else {
            let rounded: usize = round_up_to_power_of_two(remaining);
            if rounded < 2 {
                2
            } else {
                rounded
            }
        };
        let width: usize = round_up_to_power_of_two(count);
        Ok(
            Some(
                LayerRequest {
                    request: HashRequest {
                        pieces_root: root,
                        base_layer: ilog2(metainfo.piece_length / 16384),
                        index: index as u32,
                        length: run as u32,
                        proof_layers: ilog2_usize(width),
                    },
                    needed: if remaining < run {
                        remaining
                    } else {
                        run
                    },
                },
            ),
        )
    }

    /// Hashes arrived that were asked for. A layer that is complete is put by.
    pub fn accept(&mut self, metainfo: &Metainfo, run: LayerRequest, hashes: Vec<Sha256Hash>)
        requires
            metainfo.wf(),
            metainfo.piece_length >= 16384,
            old(self).wf(metainfo@),
            old(self).file < metainfo@.files.len(),
            is_large(metainfo@.files[old(self).file as int], metainfo@.piece_length),
            metainfo@.files[old(self).file as int].pieces_root == Some(run.request.pieces_root@),
            !old(self).layers@.contains_key(run.request.pieces_root@),
        ensures
            final(self).wf(metainfo@),
            final(self).file == old(self).file,
            ({
                let all = digests(old(self).hashes@) + digests(hashes@);
                let count = div_ceil_of(
                    metainfo@.files[old(self).file as int].length,
                    metainfo@.piece_length,
                );
                if all.len() < count {
                    digests(final(self).hashes@) == all && final(self).layers == old(self).layers
                } else {
                    final(self).hashes@.len() == 0 && final(self).layers@ == old(
                        self,
                    ).layers@.insert(run.request.pieces_root@, all)
                }
            }),
    {
        let ghost before = self.hashes@;
        let mut more = hashes;
        self.hashes.append(&mut more);
        assert(digests(self.hashes@) =~= digests(before) + digests(hashes@));
        let file = &metainfo.files[self.file];
        assert(metainfo@.files[self.file as int] == file@);
        let count: u64 = div_ceil(file.length, metainfo.piece_length as u64);
        if self.hashes.len() as u64 >= count {
            let mut layer: Vec<Sha256Hash> = Vec::new();
            std::mem::swap(&mut layer, &mut self.hashes);
            self.layers.insert(run.request.pieces_root, layer);
        }
    }
}

/// The hashes that a peer sent for a run: enough of them, and no more than
/// fits.
pub fn read_hashes(hashes: &[u8], needed: usize, limit: usize) -> (result: Result<
    Vec<Sha256Hash>,
    ActorError,
>)
    ensures
        match result {
            Ok(run) => hashes@.len() <= limit && needed * 32 <= hashes@.len() && digests(run@)
                == chunks(hashes@, 32).take(needed as int),
            Err(error) => (hashes@.len() > limit || needed * 32 > hashes@.len()) && error@
                == Fault::Metadata("peer returned an invalid v2 hash response length"@),
        },
{
    let least: usize = match needed.checked_mul(32) {
        Some(least) => least,
        None => {
            assert(hashes@.len() == hashes.len());
            return Err(
                ActorError::metadata("peer returned an invalid v2 hash response length"),
            );
        },
    };
    if hashes.len() > limit || hashes.len() < least {
        return Err(ActorError::metadata("peer returned an invalid v2 hash response length"));
    }
    let mut run: Vec<Sha256Hash> = Vec::new();
    let mut i: usize = 0;
    while i < needed
        invariant
            i <= needed,
            needed * 32 <= hashes@.len(),
            hashes@.len() <= usize::MAX,
            run@.len() == i,
            forall|k: int|
                0 <= k < i ==> (#[trigger] run@[k])@ == hashes@.subrange(k * 32, k * 32 + 32),
        decreases needed - i,
    {
        let chunk = slice_subrange(hashes, i * 32, i * 32 + 32);
        match Sha256Hash::from_slice(chunk) {
            Some(hash) => run.push(hash),
            None => {
                return Err(
                    ActorError::metadata("peer returned an invalid v2 hash response length"),
                );
            },
        }
        i += 1;
    }
    assert(digests(run@) =~= chunks(hashes@, 32).take(needed as int));
    Ok(run)
}

/// The tracker that goes into a document: the first of a link.
pub open spec fn first_tracker(magnet: Magnet) -> Option<Seq<char>> {
    if magnet.trackers@.len() > 0 {
        Some(magnet.trackers@[0]@)
    } else {
        None
    }
}

fn link_tracker(magnet: &Magnet) -> (tracker: Option<&String>)
    ensures
        first_tracker(*magnet) == (match tracker {
            Some(tracker) => Some(tracker@),
            None => None,
        }),
{
    if magnet.trackers.len() > 0 {
        Some(&magnet.trackers[0])
    } else {
        None
    }
}

/// Whether metadata has the v1 hash that a link asks for, if it asks for one.
pub open spec fn has_v1_identity(magnet: Magnet, info: Seq<u8>) -> bool {
    magnet.v1_info_hash is Some ==> sha1_of(info) == magnet.v1_info_hash->0@
}

pub open spec fn has_v2_identity(magnet: Magnet, info: Seq<u8>) -> bool {
    magnet.v2_info_hash is Some ==> sha256_of(info) == magnet.v2_info_hash->0@
}

/// The metadata read without its piece layers, which say what is still to be
/// fetched.
pub fn read_preliminary(info: &[u8], magnet: &Magnet, limit: usize) -> (result: Result<
    Metainfo,
    ActorError,
>)
    ensures
        ({
            let raw = wrapped_bare(info@, first_tracker(*magnet));
            match (result, metainfo_of(raw, limits_for(limit), false)) {
                (Ok(metainfo), Ok(model)) => has_v1_identity(*magnet, info@) && metainfo@ == model
                    && metainfo.wf(),
                (Err(error), wanted) => if !has_v1_identity(*magnet, info@) {
                    error@ == Fault::Metadata(
                        "peer returned metadata with the wrong SHA-1 info hash"@,
                    )
                } else {
                    wanted is Err && error@ == Fault::Metainfo(failure_text(wanted->Err_0))
                },
                (Ok(_), Err(_)) => false,
            }
        }),
{
    if let Some(expected) = magnet.v1_info_hash {
        if !Sha1Hash::from_bytes(sha1_digest(info)).same(&expected) {
            return Err(
                ActorError::metadata("peer returned metadata with the wrong SHA-1 info hash"),
            );
        }
    }
    let layers = PieceLayers::new();
    let raw = wrap_info_dictionary(info, link_tracker(magnet), &layers);
    proof {
        lemma_wrapped_bare(info@, first_tracker(*magnet), layers);
    }
    match Metainfo::parse_allow_missing_piece_layers(raw.as_slice(), document_limits(limit)) {
        Ok(metainfo) => Ok(metainfo),
        Err(error) => Err(ActorError::Metainfo(error.message())),
    }
}

/// What is wrong with metadata that was read with its layers, if anything: it
/// has to have the hashes that the link asks for, and no v1 hash where the
/// link asks for none.
pub open spec fn identity_fault(
    magnet: Magnet,
    info: Seq<u8>,
    v1_info_hash: Option<Seq<u8>>,
) -> Option<Fault> {
    let expected = match magnet.v1_info_hash {
        Some(hash) => Some(hash@),
        None => None,
    };
    if v1_info_hash != expected {
        Some(Fault::Metadata("parsed metadata does not match the magnet v1 identity"@))
    } else if !has_v2_identity(magnet, info) {
        Some(Fault::Metadata("parsed metadata does not match the magnet v2 identity"@))
    } else {
        None
    }
}

/// The document of a link, once its piece layers are there.
pub fn read_final(info: &[u8], magnet: &Magnet, layers: &PieceLayers, limit: usize) -> (result:
    Result<(Vec<u8>, Metainfo), ActorError>)
    ensures
        ({
            let raw = wrapped(info@, first_tracker(*magnet), *layers);
            match (result, metainfo_of(raw, limits_for(limit), true)) {
                (Ok((bytes, metainfo)), Ok(model)) => bytes@ == raw && metainfo@ == model
                    && metainfo.wf() && identity_fault(*magnet, info@, model.v1_info_hash) is None,
                (Err(error), Ok(model)) => identity_fault(
                    *magnet,
                    info@,
                    model.v1_info_hash,
                ) == Some(error@),
                (Err(error), Err(failure)) => error@ == Fault::Metainfo(failure_text(failure)),
                (Ok(_), Err(_)) => false,
            }
        }),
{
    let raw = wrap_info_dictionary(info, link_tracker(magnet), layers);
    let metainfo = match Metainfo::parse(raw.as_slice(), document_limits(limit)) {
        Ok(metainfo) => metainfo,
        Err(error) => {
            return Err(ActorError::Metainfo(error.message()));
        },
    };
    let same: bool = match (metainfo.v1_info_hash, magnet.v1_info_hash) {
        (Some(actual), Some(expected)) => actual.same(&expected),
        (None, None) => true,
        _ => false,
    };
    if !same {
        return Err(
            ActorError::metadata("parsed metadata does not match the magnet v1 identity"),
        );
    }
    if let Some(expected) = magnet.v2_info_hash {
        if !Sha256Hash::from_bytes(sha256_digest(info)).same(&expected) {
            return Err(
                ActorError::metadata("parsed metadata does not match the magnet v2 identity"),
            );
        }
    }
    Ok((raw, metainfo))
}

/// The peers that are asked for the metadata of a link.
#[derive(Debug)]
pub struct MetadataSearch {
    pub candidates: Vec<SocketAddress>,
    pub known: Vec<SocketAddress>,
    /// How many peers are being asked.
    pub attempts: usize,
    pub discovery_done: bool,
    pub last_error: Option<ActorError>,
}

/// The addresses of a list that are not known yet, each once, behind those
/// that wait already.
pub open spec fn newly_known(
    known: Seq<SocketAddress>,
    waiting: Seq<SocketAddress>,
    peers: Seq<SocketAddress>,
) -> (Seq<SocketAddress>, Seq<SocketAddress>)
    decreases peers.len(),
{
    if peers.len() == 0 {
        (known, waiting)
    } else {
        let (known, waiting) = newly_known(known, waiting, peers.drop_last());
        if known.contains(peers.last()) {
            (known, waiting)
        } else {
            (known.push(peers.last()), waiting.push(peers.last()))
        }
    }
}

/// No peer is asked for metadata twice, however often it is found.
pub proof fn law_each_peer_is_asked_once(
    known: Seq<SocketAddress>,
    waiting: Seq<SocketAddress>,
    peers: Seq<SocketAddress>,
)
    requires
        known.no_duplicates(),
        waiting.no_duplicates(),
        forall|i: int| 0 <= i < waiting.len() ==> known.contains(#[trigger] waiting[i]),
    ensures
        ({
            let (now_known, now_waiting) = newly_known(known, waiting, peers);
            &&& now_known.no_duplicates()
            &&& now_waiting.no_duplicates()
            &&& forall|i: int|
                0 <= i < now_waiting.len() ==> now_known.contains(#[trigger] now_waiting[i])
        }),
    decreases peers.len(),
{
    if peers.len() > 0 {
        law_each_peer_is_asked_once(known, waiting, peers.drop_last());
        let (before, queue) = newly_known(known, waiting, peers.drop_last());
        let (after, longer) = newly_known(known, waiting, peers);
        assert forall|i: int| 0 <= i < longer.len() implies after.contains(
            #[trigger] longer[i],
        ) by {
            if i < queue.len() {
                assert(longer[i] == queue[i]);
                let k = choose|k: int| 0 <= k < before.len() && before[k] == queue[i];
                assert(after[k] == queue[i]);
            } else {
                assert(after[after.len() - 1] == longer[i]);
            }
        }
    }
}

impl MetadataSearch {
    pub fn new() -> (search: Self)
        ensures
            search.candidates@.len() == 0,
            search.known@.len() == 0,
            search.attempts == 0,
            !search.discovery_done,
            search.last_error is None,
    {
        Self {
            candidates: Vec::new(),
            known: Vec::new(),
            attempts: 0,
            discovery_done: false,
            last_error: None,
        }
    }

    fn knows(&self, address: SocketAddress) -> (result: bool)
        ensures
            result == self.known@.contains(address),
    {
        let mut i: usize = 0;
        while i < self.known.len()
            invariant
                i <= self.known@.len(),
                forall|k: int| 0 <= k < i ==> self.known@[k] != address,
            decreases self.known@.len() - i,
        {
            if self.known[i] == address {
                return true;
            }
            i += 1;
        }
        false
    }

    /// Peers were found.
    pub fn peers_found(&mut self, peers: &Vec<SocketAddress>)
        ensures
            (final(self).known@, final(self).candidates@) == newly_known(
                old(self).known@,
                old(self).candidates@,
                peers@,
            ),
            final(self).attempts == old(self).attempts,
            final(self).discovery_done == old(self).discovery_done,
            final(self).last_error == old(self).last_error,
    {
        let mut i: usize = 0;
        assert(peers@.take(0) =~= Seq::empty());
        while i < peers.len()
            invariant
                i <= peers@.len(),
                (self.known@, self.candidates@) == newly_known(
                    old(self).known@,
                    old(self).candidates@,
                    peers@.take(i as int),
                ),
                self.attempts == old(self).attempts,
                self.discovery_done == old(self).discovery_done,
                self.last_error == old(self).last_error,
            decreases peers@.len() - i,
        {
            proof {
                assert(peers@.take(i + 1).drop_last() =~= peers@.take(i as int));
                assert(peers@.take(i + 1).last() == peers@[i as int]);
            }
            if !self.knows(peers[i]) {
                self.known.push(peers[i]);
                self.candidates.push(peers[i]);
            }
            i += 1;
        }
        assert(peers@.take(peers@.len() as int) =~= peers@);
    }

    /// The next peer to ask, as long as not too many are being asked.
    pub fn next_attempt(&mut self) -> (result: Option<SocketAddress>)
        ensures
            ({
                let due = old(self).attempts < METADATA_PEER_CONCURRENCY
                    && old(self).candidates@.len() > 0;
                match result {
                    Some(address) => {
                        &&& due
                        &&& address == old(self).candidates@[0]
                        &&& final(self).candidates@ == old(self).candidates@.drop_first()
                        &&& final(self).attempts == old(self).attempts + 1
                    },
                    None => !due && *final(self) == *old(self),
                }
            }),
            final(self).known == old(self).known,
            final(self).discovery_done == old(self).discovery_done,
            final(self).last_error == old(self).last_error,
    {
        if self.attempts >= METADATA_PEER_CONCURRENCY || self.candidates.len() == 0 {
            return None;
        }
        let address = self.candidates.remove(0);
        assert(self.candidates@ =~= old(self).candidates@.drop_first());
        self.attempts = self.attempts + 1;
        Some(address)
    }

    /// A peer did not have the metadata.
    pub fn attempt_failed(&mut self, error: ActorError)
        requires
            old(self).attempts > 0,
        ensures
            final(self).attempts == old(self).attempts - 1,
            final(self).last_error == Some(error),
            final(self).candidates == old(self).candidates,
            final(self).known == old(self).known,
            final(self).discovery_done == old(self).discovery_done,
    {
        self.attempts = self.attempts - 1;
        self.last_error = Some(error);
    }

    /// No more peers will be found.
    pub fn discovery_finished(&mut self, error: Option<ActorError>)
        ensures
            final(self).discovery_done,
            final(self).last_error == (if error is Some {
                error
            } else {
                old(self).last_error
            }),
            final(self).candidates == old(self).candidates,
            final(self).known == old(self).known,
            final(self).attempts == old(self).attempts,
    {
        self.discovery_done = true;
        if error.is_some() {
            self.last_error = error;
        }
    }

    /// Whether nobody is left to ask.
    pub fn is_exhausted(&self) -> (result: bool)
        ensures
            result == (self.discovery_done && self.attempts == 0 && self.candidates@.len() == 0),
    {
        self.discovery_done && self.attempts == 0 && self.candidates.len() == 0
    }

    /// Why the metadata could not be had.
    pub fn give_up(self) -> (error: ActorError)
        ensures
            error@ == (match self.last_error {
                Some(error) => error@,
                None => Fault::NoPeers,
            }),
    {
        match self.last_error {
            Some(error) => error,
            None => ActorError::NoPeers,
        }
    }
}

} // verus!
