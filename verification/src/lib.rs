//! The verified core of a BitTorrent engine: bounded metainfo parsing with
//! exact info-dictionary hashing, piece layout and verification, and the
//! decisions of the download, upload and discovery loops.

// Documents.
pub mod bencode;
pub mod bencode_laws;
pub mod hash;
pub mod hash_laws;
pub mod info_dict;
pub mod location;
pub mod magnet;
pub mod magnet_laws;
pub mod metainfo;
pub mod metainfo_accepts;
pub mod metainfo_fields;
pub mod metainfo_laws;
pub mod metainfo_parse;
pub mod path;
pub mod path_order;
pub mod piece_layers;

// Pieces and files.
pub mod bitfield;
pub mod buffer;
pub mod budget;
pub mod hash_tree;
pub mod layout;
pub mod layout_laws;
pub mod piece_io;
pub mod piece_io_laws;
pub mod verify;
pub mod verify_laws;

// Peers.
pub mod address;
pub mod arrival;
pub mod choke;
pub mod choke_laws;
pub mod idle;
pub mod metadata;
pub mod metadata_laws;
pub mod peer_id;
pub mod pipeline;
pub mod pipeline_laws;
pub mod rates;
pub mod rebalance;
pub mod rebalance_laws;
pub mod rendezvous;
pub mod serve;
pub mod upload;
pub mod upload_laws;
pub mod worker;

// Swarms.
pub mod discovery;
pub mod discovery_laws;
pub mod lsd;
pub mod schedule;
pub mod swarm;
pub mod swarm_laws;
pub mod swarm_course;
pub mod swarm_events;
pub mod swarm_events_laws;
pub mod swarm_peers;
pub mod swarm_peers_laws;
pub mod swarm_run;
pub mod webseed;
pub mod webseed_laws;

// The engine.
pub mod activity;
pub mod actor;
pub mod claims;
pub mod claims_laws;
pub mod content;
pub mod options;
pub mod record;
pub mod supervisor;

pub mod error;
pub mod num;
pub mod wording;
pub mod wording_laws;

pub use activity::TorrentPeerStats;
pub use bencode::{decode, decode_prefix, BencodeLimits, BencodeValue, DecodeError, SpannedValue};
pub use choke::TransferPolicy;
pub use magnet::{Magnet, MagnetError};
pub use metainfo::{FileEntry, Metainfo, MetainfoError, TorrentVersion};
pub use options::EngineOptions;
pub use record::EngineEvent;
pub use supervisor::EngineError;
