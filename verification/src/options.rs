//! How the engine is set up, and the limits that follow from it.

use crate::address::SocketAddress;
use crate::arrival::EncryptionPolicy;
use crate::budget::{CacheBudget, DownloadBudget};
use crate::choke::TransferPolicy;
use crate::num::{max_of, min_of};
use crate::rates::{
    outbound_connection_limit, outbound_connection_limit_of, per_torrent_peer_limit,
    per_torrent_peer_limit_of, INCOMING_PEER_LIMIT,
};
use vstd::prelude::*;
use vstd::slice::slice_to_vec;

verus! {

pub const DEFAULT_DOWNLOAD_BUFFER_BYTES: usize = 2147483648;

pub const DEFAULT_PIECE_CACHE_BYTES: usize = 536870912;

/// How often verified pieces are committed in a group.
pub const PIECE_FLUSH_NANOS: u64 = 1_000_000_000;

pub const PIECE_FLUSH_MIN_NANOS: u64 = 100_000_000;

/// How many incoming peers may be shaking hands at a time.
pub const INCOMING_HANDSHAKE_LIMIT: usize = 256;

/// How many peers may be asked for metadata at a time, over all torrents.
pub const METADATA_GLOBAL_CONCURRENCY: usize = 4;

/// How the engine is set up.
#[derive(Debug)]
pub struct EngineOptions {
    pub tracker_response_limit: usize,
    pub metainfo_limit: usize,
    pub dht_bootstrap: Vec<SocketAddress>,
    pub peer_port: u16,
    pub encryption: EncryptionPolicy,
    pub peer_connection_limit: usize,
    pub allow_private_web_seeds: bool,
    /// Global bound on bytes of piece buffers assigned to downloading peers.
    pub download_buffer_bytes: usize,
    /// Global bound on verified pieces cached for uploads.
    pub piece_cache_bytes: usize,
    pub transfer: TransferPolicy,
    /// Cadence of the group barrier that commits verified pieces, in nanoseconds.
    pub piece_flush_nanos: u64,
}

impl EngineOptions {
    /// Everything that is not asked for as it usually is.
    pub fn usual(
        tracker_response_limit: usize,
        metainfo_limit: usize,
        dht_bootstrap: Vec<SocketAddress>,
        peer_port: u16,
    ) -> (options: Self)
        ensures
            options.tracker_response_limit == tracker_response_limit,
            options.metainfo_limit == metainfo_limit,
            options.dht_bootstrap == dht_bootstrap,
            options.peer_port == peer_port,
            options.encryption == EncryptionPolicy::Disabled,
            options.peer_connection_limit == INCOMING_PEER_LIMIT,
            !options.allow_private_web_seeds,
            options.download_buffer_bytes == DEFAULT_DOWNLOAD_BUFFER_BYTES,
            options.piece_cache_bytes == DEFAULT_PIECE_CACHE_BYTES,
            options.transfer.upload_slots == 16,
            options.transfer.optimistic_upload_slots == 4,
            options.transfer.reciprocal_bootstrap_bytes == 8388608,
            options.transfer.upload_rate_limit_bytes == 0,
            options.piece_flush_nanos == PIECE_FLUSH_NANOS,
    {
        Self {
            tracker_response_limit,
            metainfo_limit,
            dht_bootstrap,
            peer_port,
            encryption: EncryptionPolicy::Disabled,
            peer_connection_limit: INCOMING_PEER_LIMIT,
            allow_private_web_seeds: false,
            download_buffer_bytes: DEFAULT_DOWNLOAD_BUFFER_BYTES,
            piece_cache_bytes: DEFAULT_PIECE_CACHE_BYTES,
            transfer: TransferPolicy::default(),
            piece_flush_nanos: PIECE_FLUSH_NANOS,
        }
    }
}

impl Clone for EngineOptions {
    fn clone(&self) -> (copy: Self)
        ensures
            copy.dht_bootstrap@ == self.dht_bootstrap@,
            copy == (EngineOptions { dht_bootstrap: copy.dht_bootstrap, ..*self }),
    {
        Self {
            tracker_response_limit: self.tracker_response_limit,
            metainfo_limit: self.metainfo_limit,
            dht_bootstrap: slice_to_vec(self.dht_bootstrap.as_slice()),
            peer_port: self.peer_port,
            encryption: self.encryption,
            peer_connection_limit: self.peer_connection_limit,
            allow_private_web_seeds: self.allow_private_web_seeds,
            download_buffer_bytes: self.download_buffer_bytes,
            piece_cache_bytes: self.piece_cache_bytes,
            transfer: self.transfer,
            piece_flush_nanos: self.piece_flush_nanos,
        }
    }
}

/// The limits that the engine works within.
#[derive(Debug)]
pub struct EngineLimits {
    /// How many peers may be connected at a time.
    pub peer_slots: usize,
    /// How many of those may be peers that were connected to from here.
    pub outbound_slots: usize,
    pub incoming_handshake_slots: usize,
    pub metadata_slots: usize,
    pub per_torrent_peers: usize,
    pub download_budget: DownloadBudget,
    pub piece_cache_budget: CacheBudget,
    pub piece_flush_nanos: u64,
}

impl EngineLimits {
    /// The limits that follow from the options: none of them stops the engine
    /// altogether.
    pub fn new(options: &EngineOptions) -> (limits: Self)
        ensures
            ({
                let peers = max_of(options.peer_connection_limit as int, 1);
                &&& limits.peer_slots == peers
                &&& limits.outbound_slots == outbound_connection_limit_of(peers)
                &&& limits.incoming_handshake_slots == min_of(
                    peers,
                    INCOMING_HANDSHAKE_LIMIT as int,
                )
                &&& limits.metadata_slots == METADATA_GLOBAL_CONCURRENCY
                &&& limits.per_torrent_peers == per_torrent_peer_limit_of(
                    options.peer_connection_limit as int,
                )
                &&& limits.download_budget.used == 0
                &&& limits.download_budget.limit == max_of(
                    options.download_buffer_bytes as int,
                    1,
                )
                &&& limits.piece_cache_budget.used == 0
                &&& limits.piece_cache_budget.limit == options.piece_cache_bytes
                &&& limits.piece_flush_nanos == max_of(
                    options.piece_flush_nanos as int,
                    PIECE_FLUSH_MIN_NANOS as int,
                )
            }),
    {
        let peers: usize = if options.peer_connection_limit > 1 {
            options.peer_connection_limit
        } else {
            1
        };
        let buffer: usize = if options.download_buffer_bytes > 1 {
            options.download_buffer_bytes
        } else {
            1
        };
        Self {
            peer_slots: peers,
            outbound_slots: outbound_connection_limit(peers),
            incoming_handshake_slots: if peers < INCOMING_HANDSHAKE_LIMIT {
                peers
            } else {
                INCOMING_HANDSHAKE_LIMIT
            },
            metadata_slots: METADATA_GLOBAL_CONCURRENCY,
            per_torrent_peers: per_torrent_peer_limit(options.peer_connection_limit),
            download_budget: DownloadBudget::new(buffer),
            piece_cache_budget: CacheBudget::new(options.piece_cache_bytes),
            piece_flush_nanos: if options.piece_flush_nanos > PIECE_FLUSH_MIN_NANOS {
                options.piece_flush_nanos
            } else {
                PIECE_FLUSH_MIN_NANOS
            },
        }
    }
}

} // verus!
