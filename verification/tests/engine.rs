//! Torrents as a whole: commands, records, retries and ownership.

use dendrite::activity::{ActivityTable, PeerDirection, TorrentPeerStats};
use dendrite::actor::{
    after_peers, link_target, peers_are_retried, read_link, read_stored_metainfo,
    retryable_metadata_failure, retryable_peer_failure, DownloadStage, RetryState, RoundDecision,
};
use dendrite::address::{IpAddress, PeerId, SocketAddress};
use dendrite::arrival::{
    admit_peer, admit_prefix, check_not_self, check_selected_hash, connection_attempts,
    dial_attempts, extension_greeting, handshake_flags, incoming_frame_limit, is_reciprocal,
    joins_swarm, pex_addresses, reported_attempt, ConnectionAttempt, EncryptionPolicy, Reception,
};
use dendrite::bencode::BencodeLimits;
use dendrite::choke::{TorrentState, TransferPolicy};
use dendrite::claims::{ensure_exclusive_payload_paths, payload_paths_conflict, PayloadClaims};
use dendrite::content::{
    active_lsd_hashes, check_active, incoming_wire_hashes, prepare_content, TorrentSummary,
};
use dendrite::discovery::{bytes_left, AnnounceEvent};
use dendrite::error::{ActorError, TorrentId};
use dendrite::hash::Sha1Hash;
use dendrite::idle::{forward_idle_peer_event, IdleEvent, IdleOutcome};
use dendrite::magnet::Magnet;
use dendrite::metainfo::Metainfo;
use dendrite::options::{EngineLimits, EngineOptions};
use dendrite::path::TorrentPath;
use dendrite::pipeline::BlockRequest;
use dendrite::record::TorrentRecord;
use dendrite::rendezvous::{RendezvousPeer, RendezvousTable, SwarmRoute, SwarmRoutes};
use dendrite::serve::{
    check_block_request, cut_block, metadata_block, plan_holepunch, takes_rejects,
    ExtensionHandshake, HolePunchKind, HolePunchMessage, HolePunchPlan, SeedState, UploadAction,
    UploadEvent, UploadRole,
};
use dendrite::supervisor::{
    ActiveActor, ActorMode, EngineCommand, EngineError, Supervisor, SupervisorAction,
};
use dendrite::swarm_events::PeerWorkerEvent;
use dendrite::upload::{Credit, UploadPolicy};
use bytes::Bytes;
use sha1::{Digest, Sha1};

const SECOND: u64 = 1_000_000_000;

fn id(value: u128) -> TorrentId {
    TorrentId { value }
}

fn document(name: &str, payload: &[u8]) -> Vec<u8> {
    let mut raw = format!(
        "d4:infod6:lengthi{}e4:name{}:{name}12:piece lengthi16384e6:pieces20:",
        payload.len(),
        name.len()
    )
    .into_bytes();
    raw.extend_from_slice(&Sha1::digest(payload));
    raw.extend_from_slice(b"ee");
    raw
}

fn record(value: u128, raw: Vec<u8>) -> TorrentRecord {
    TorrentRecord {
        id: id(value),
        state: TorrentState::Downloading,
        raw_metainfo: raw,
        magnet_uri: None,
        completed_pieces: Vec::new(),
        downloaded: 0,
        uploaded: 0,
        stop_on_complete: false,
        added_at_unix_ms: value as u64,
    }
}

#[test]
fn a_command_replaces_the_actor_at_work() {
    let mut supervisor = Supervisor::new();
    let actions = supervisor.handle(EngineCommand::Start(id(1)));
    let first = ActiveActor { id: id(1), generation: 1 };
    assert_eq!(actions, [SupervisorAction::Spawn { actor: first, mode: ActorMode::Start }]);
    let actions = supervisor.handle(EngineCommand::Recheck(id(1)));
    let second = ActiveActor { id: id(1), generation: 2 };
    assert_eq!(
        actions,
        [
            SupervisorAction::Cancel(first),
            SupervisorAction::Join(first),
            SupervisorAction::Spawn { actor: second, mode: ActorMode::Recheck },
        ]
    );
    supervisor.actor_ended(first);
    assert_eq!(supervisor.active, [second], "a late end changes nothing");
    supervisor.actor_ended(second);
    assert!(supervisor.active.is_empty());
}

#[test]
fn pausing_and_forgetting_leave_other_torrents_alone() {
    let mut supervisor = Supervisor::new();
    supervisor.handle(EngineCommand::Start(id(1)));
    supervisor.handle(EngineCommand::Start(id(2)));
    let actions = supervisor.handle(EngineCommand::Pause(id(1)));
    assert_eq!(
        actions[2..],
        [SupervisorAction::StoreStopped(id(1)), SupervisorAction::Reply]
    );
    assert_eq!(supervisor.active.len(), 1);
    let actions = supervisor.handle(EngineCommand::Forget(id(9)));
    assert_eq!(
        actions,
        [SupervisorAction::ForgetContent(id(9)), SupervisorAction::Reply]
    );
}

#[test]
fn a_shutdown_cancels_everybody_before_it_waits() {
    let mut supervisor = Supervisor::new();
    supervisor.handle(EngineCommand::Start(id(1)));
    supervisor.handle(EngineCommand::Start(id(2)));
    let actors = supervisor.active.clone();
    let actions = supervisor.handle(EngineCommand::Shutdown);
    assert_eq!(
        actions,
        [
            SupervisorAction::Cancel(actors[0]),
            SupervisorAction::Cancel(actors[1]),
            SupervisorAction::Join(actors[0]),
            SupervisorAction::Join(actors[1]),
            SupervisorAction::StopBackground,
            SupervisorAction::Reply,
        ]
    );
    assert!(supervisor.stop_all_actors().is_empty());
    assert_eq!(EngineError::Stopped.message(), "torrent engine stopped");
}

#[test]
fn fruitless_rounds_wait_longer_and_longer() {
    let mut retry = RetryState::new();
    assert_eq!(retry.announce_event(), AnnounceEvent::Started);
    let mut delays = Vec::new();
    for _ in 0..6 {
        match retry.download_round_ended(Some(ActorError::NoPeers), &[0], 1, 0, 0) {
            RoundDecision::Retry { delay } => delays.push(delay / SECOND),
            other => panic!("unexpected {other:?}"),
        }
    }
    assert_eq!(delays, [2, 4, 8, 16, 30, 30]);
    assert_eq!(retry.announce_event(), AnnounceEvent::Regular);
    assert!(matches!(
        retry.download_round_ended(Some(ActorError::NoPeers), &[0], 1, 0, 5),
        RoundDecision::Retry { delay } if delay == SECOND
    ));
    assert!(matches!(
        retry.download_round_ended(Some(ActorError::NoPeers), &[0x80], 1, 0, 0),
        RoundDecision::Done
    ));
    assert!(matches!(
        retry.download_round_ended(Some(ActorError::Cancelled), &[0], 1, 0, 0),
        RoundDecision::Fail(ActorError::Cancelled)
    ));
    assert!(matches!(
        retry.download_round_ended(None, &[0], 1, 0, 0),
        RoundDecision::Done
    ));
}

#[test]
fn metadata_rounds_wait_before_they_double() {
    let mut retry = RetryState::new();
    for expected in [1, 2, 4] {
        let error = ActorError::Metadata("bad".to_owned());
        assert!(matches!(
            retry.metadata_round_ended(Some(error)),
            RoundDecision::Retry { delay } if delay == expected * SECOND
        ));
    }
    assert!(matches!(
        retry.metadata_round_ended(Some(ActorError::Missing)),
        RoundDecision::Fail(ActorError::Missing)
    ));
    assert!(retryable_metadata_failure(&ActorError::Metainfo(String::new())));
    assert!(!retryable_peer_failure(&ActorError::Metainfo(String::new())));
    assert!(retryable_peer_failure(&ActorError::NoTracker));
}

#[test]
fn web_seeds_are_the_last_resort() {
    let without = Metainfo::parse(&document("a", b"x"), BencodeLimits::default()).unwrap();
    assert!(peers_are_retried(&without));
    assert!(matches!(
        after_peers(&without, &[0], 1, Some(ActorError::NoPeers)),
        DownloadStage::Fail(ActorError::NoPeers)
    ));
    assert!(matches!(
        after_peers(&without, &[0x80], 1, Some(ActorError::NoPeers)),
        DownloadStage::Finish
    ));
    let mut with = without;
    with.web_seeds.push("http://seed".to_owned());
    assert!(!peers_are_retried(&with));
    assert!(matches!(
        after_peers(&with, &[0], 1, Some(ActorError::NoPeers)),
        DownloadStage::WebSeeds
    ));
}

#[test]
fn a_link_is_looked_for_by_its_hash() {
    let uri = "magnet:?xt=urn:btmh:1220aaaaaaaaaaaaaaaaaaaaaaaaaaaaaaaaaaaaaaaaaaaaaaaaaaaaaaaaaaaaaaaa&tr=udp%3A%2F%2Fa&tr=udp%3A%2F%2Fb".to_owned();
    let target = read_link(Some(&uri)).unwrap();
    assert_eq!(target.info_hash.as_bytes(), &[0xaa; 20], "a v2 hash is cut short");
    assert_eq!(target.trackers, vec![vec!["udp://a"], vec!["udp://b"]]);
    assert_eq!(
        read_link(None).unwrap_err().message(),
        "magnet URI is missing or invalid: record has no URI"
    );
    assert_eq!(
        read_link(Some(&"magnet:?dn=x".to_owned())).unwrap_err().message(),
        "magnet URI is missing or invalid: magnet URI does not contain a supported exact topic"
    );
    let nothing = Magnet {
        v1_info_hash: None,
        v2_info_hash: None,
        display_name: None,
        trackers: Vec::new(),
        web_seeds: Vec::new(),
    };
    assert!(matches!(link_target(nothing), Err(ActorError::V2PeerWire)));
    assert!(read_stored_metainfo(&document("a", b"x")).is_ok());
    assert!(matches!(read_stored_metainfo(b"x"), Err(ActorError::Metainfo(_))));
}

#[test]
fn paths_have_one_owner() {
    let owner = Metainfo::parse(&document("shared.bin", b"one"), BencodeLimits::default()).unwrap();
    let contender =
        Metainfo::parse(&document("SHARED.bin", b"two"), BencodeLimits::default()).unwrap();
    let mut claims = PayloadClaims::new();
    claims.claim(id(1), &owner).unwrap();
    claims.claim(id(1), &owner).unwrap();
    let error = claims.claim(id(2), &contender).unwrap_err();
    assert!(matches!(&error, ActorError::PathConflict { owner, .. } if *owner == id(1)));
    assert_eq!(error.message(), "payload path SHARED.bin is owned by torrent 1");
    claims.release(id(1));
    claims.claim(id(2), &contender).unwrap();
    assert_eq!(claims.claims.len(), 1);
}

#[test]
fn directories_and_letter_case_conflict() {
    let path = |parts: &[&str]| {
        TorrentPath::new(parts.iter().map(|part| (*part).to_owned()).collect()).unwrap()
    };
    let directory = path(&["shared.bin"]);
    assert!(payload_paths_conflict(&directory, &path(&["shared.bin", "nested.bin"])));
    assert!(payload_paths_conflict(&path(&["shared.bin", "nested.bin"]), &directory));
    assert!(payload_paths_conflict(&directory, &path(&["SHARED.BIN"])));
    assert!(!payload_paths_conflict(&directory, &path(&["shared.bin2"])));
}

#[test]
fn the_later_torrent_gives_way() {
    let first = record(1, document("shared.bin", b"one"));
    let second = record(2, document("shared.bin", b"two"));
    let metainfo = read_stored_metainfo(&second.raw_metainfo).unwrap();
    let others = vec![record(3, Vec::new()), record(4, b"broken".to_vec()), first, second];
    let second = record(2, document("shared.bin", b"two"));
    let error = ensure_exclusive_payload_paths(&second, &metainfo, &others, 65536).unwrap_err();
    assert!(matches!(error, ActorError::PathConflict { owner, .. } if owner == id(1)));
    let first = record(1, document("shared.bin", b"one"));
    let metainfo = read_stored_metainfo(&first.raw_metainfo).unwrap();
    assert!(ensure_exclusive_payload_paths(&first, &metainfo, &others, 65536).is_ok());
}

#[test]
fn a_recheck_counts_what_stands() {
    let payload = b"payload expected to survive a restart intact";
    let metainfo = read_stored_metainfo(&document("damaged.bin", payload)).unwrap();
    let mut record = record(1, Vec::new());
    record.normalize_completion(1);
    assert_eq!(record.completed_pieces, [0]);
    record.completed_pieces[0] = 0x80;
    record.downloaded = 99;
    record.normalize_completion(1);
    assert_eq!(record.downloaded, 99, "a bitfield that fits is kept");
    record.begin_recheck();
    assert_eq!((record.completed_pieces[0], record.downloaded), (0, 0));
    assert!(!record.recheck_piece(&metainfo, 0, None).unwrap());
    assert!(!record.recheck_piece(&metainfo, 0, Some(b"corrupted")).unwrap());
    assert!(!record.is_complete(1));
    record.recheck_piece(&metainfo, 0, Some(payload)).unwrap();
    assert!(record.is_complete(1));
    assert_eq!(record.downloaded, payload.len() as u64);
    assert_eq!(bytes_left(&metainfo, 4), payload.len() as u64 - 4);
    assert_eq!(bytes_left(&metainfo, 400), 0);
    assert!(record.recheck_piece(&metainfo, 63, None).unwrap(), "progress is stored now and then");
    record.downloaded = u64::MAX;
    assert!(matches!(
        record.accept_piece(&metainfo, 0),
        Err(ActorError::Arithmetic)
    ));
}

#[test]
fn a_complete_torrent_stops_or_seeds() {
    let mut record = record(1, Vec::new());
    assert_eq!(record.completion_state(Some(false)).unwrap(), TorrentState::Seeding);
    assert_eq!(record.completion_state(Some(true)).unwrap(), TorrentState::Stopped);
    assert!(record.stop_on_complete);
    assert!(matches!(record.completion_state(None), Err(ActorError::Missing)));
    let change = record.enter_state(TorrentState::Seeding);
    assert!(!change.forget_content);
    let change = record.enter_state(TorrentState::Stopped);
    assert!(change.forget_content);
    assert_eq!(change.event.torrent_id, id(1));
    let event = record.enter_error("broken".to_owned());
    assert_eq!(event.state, TorrentState::Error);
    assert_eq!(event.detail.as_deref(), Some("broken"));
}

#[test]
fn connections_are_counted_in_and_out() {
    let mut table = ActivityTable::new();
    table.track_connection(id(1), PeerDirection::Inbound, true);
    table.track_connection(id(1), PeerDirection::Outbound, false);
    table.track_active_download(id(1));
    table.track_seed_peer(id(1));
    assert_eq!(
        table.torrent_peer_stats(id(1)),
        TorrentPeerStats { total: 2, inbound: 1, outbound: 1, seeds: 2, active_downloaders: 1 }
    );
    assert_eq!(table.torrent_peer_stats(id(2)), TorrentPeerStats::default());
    assert_eq!(table.connected, 2);
    table.release_connection(id(1), PeerDirection::Inbound, true);
    table.release_connection(id(1), PeerDirection::Outbound, false);
    table.release_active_download(id(1));
    table.release_seed_peer(id(1));
    assert_eq!(table.torrent_peer_stats(id(1)), TorrentPeerStats::default());
    assert_eq!(table.torrent_peer_count(id(1)), 0);
    assert_eq!(table.connected, 0);
}

#[test]
fn uploads_are_stored_in_batches() {
    let mut table = ActivityTable::new();
    table.record_uploaded_block(id(1), 10);
    table.record_uploaded_block(id(1), 5);
    table.record_downloaded_block(id(2), 7);
    assert_eq!(table.take_pending_uploads(), [(id(1), 15)]);
    assert!(table.take_pending_uploads().is_empty());
    table.restore_pending_upload(id(1), 15);
    table.record_uploaded_block(id(1), 1);
    assert_eq!(table.take_pending_uploads(), [(id(1), 16)]);
    assert_eq!(table.torrent_uploaded_bytes(id(1)), 16);
    assert_eq!(table.torrent_downloaded_bytes(id(2)), 7);
}

#[test]
fn every_uploaded_byte_is_persisted_once() {
    let mut table = ActivityTable::new();
    let mut persisted = [0_u64; 3];
    for round in 1..=5 {
        table.record_uploaded_block(id(1), round);
        table.track_connection(id(2), PeerDirection::Inbound, false);
        table.record_uploaded_block(id(2), 10 * round);
        table.record_uploaded_block(id(1), round);
        for (torrent, bytes) in table.take_pending_uploads() {
            if round == 3 {
                table.restore_pending_upload(torrent, bytes);
            } else {
                persisted[torrent.value as usize] += bytes;
            }
        }
        assert_eq!(table.entries.len(), 2, "a torrent stands once");
    }
    assert_eq!(persisted, [0, 30, 150]);
    assert!(table.take_pending_uploads().is_empty());
}

#[test]
fn content_is_served_only_while_a_torrent_is_active() {
    assert!(check_active(Some(TorrentState::Seeding)).is_ok());
    for state in [None, Some(TorrentState::Stopped), Some(TorrentState::Checking)] {
        assert_eq!(
            check_active(state).unwrap_err().message(),
            "peer session failed: incoming info hash is not active"
        );
    }
    let raw = document("seed.bin", b"payload");
    let content = prepare_content(Some(&raw), 4096).unwrap();
    assert_eq!(content.pieces, 1);
    assert_eq!(content.info, raw[7..raw.len() - 1]);
    assert!(prepare_content(None, 4096).is_err());
    assert!(prepare_content(Some(b""), 4096).is_err());
    assert!(matches!(prepare_content(Some(b"x"), 4096), Err(ActorError::Metainfo(_))));
}

#[test]
fn private_torrents_are_not_announced_locally() {
    let summary = |state, byte: u8, private| TorrentSummary {
        state,
        wire_hash: Some(Sha1Hash::from_bytes([byte; 20])),
        private,
    };
    let summaries = vec![
        summary(TorrentState::Seeding, 1, Some(false)),
        summary(TorrentState::Downloading, 2, Some(true)),
        summary(TorrentState::Stopped, 3, Some(false)),
        summary(TorrentState::Seeding, 4, None),
        TorrentSummary { wire_hash: None, ..summary(TorrentState::Seeding, 5, Some(false)) },
    ];
    let bytes = |hashes: Vec<Sha1Hash>| -> Vec<u8> {
        hashes.iter().map(|hash| hash.as_bytes()[0]).collect()
    };
    assert_eq!(bytes(incoming_wire_hashes(&summaries)), [1, 2, 4]);
    assert_eq!(bytes(active_lsd_hashes(&summaries)), [1]);
}

#[test]
fn limits_never_stop_the_engine() {
    let mut options = EngineOptions::usual(1, 2, Vec::new(), 6881);
    let limits = EngineLimits::new(&options);
    assert_eq!(limits.peer_slots, 256);
    assert_eq!(limits.outbound_slots, 192);
    assert_eq!(limits.incoming_handshake_slots, 256);
    assert_eq!(limits.per_torrent_peers, 64);
    assert_eq!(limits.metadata_slots, 4);
    assert_eq!(limits.download_budget.limit, 2 * 1024 * 1024 * 1024);
    assert_eq!(limits.piece_cache_budget.limit, 512 * 1024 * 1024);
    options.peer_connection_limit = 0;
    options.download_buffer_bytes = 0;
    options.piece_flush_nanos = 0;
    let limits = EngineLimits::new(&options);
    assert_eq!((limits.peer_slots, limits.outbound_slots, limits.per_torrent_peers), (1, 1, 1));
    assert_eq!(limits.download_budget.limit, 1);
    assert_eq!(limits.piece_flush_nanos, 100_000_000);
}

#[test]
fn required_encryption_never_falls_back() {
    assert_eq!(
        connection_attempts(EncryptionPolicy::Required, true),
        [ConnectionAttempt::Encrypted]
    );
    assert_eq!(
        connection_attempts(EncryptionPolicy::PlaintextPreferred, true),
        [ConnectionAttempt::Plain, ConnectionAttempt::Encrypted, ConnectionAttempt::Utp]
    );
    let plain = b"\x13BitTorrent protocol";
    assert!(admit_prefix(plain, EncryptionPolicy::Disabled).unwrap());
    assert!(admit_prefix(plain, EncryptionPolicy::Required).is_err());
    assert!(!admit_prefix(&[7; 20], EncryptionPolicy::Required).unwrap());
    assert!(admit_prefix(&[7; 20], EncryptionPolicy::Disabled).is_err());
}

#[test]
fn hole_punches_go_over_udp_alone() {
    let policy = EncryptionPolicy::EncryptedPreferred;
    assert_eq!(
        dial_attempts(policy, true, false).unwrap(),
        [ConnectionAttempt::Encrypted, ConnectionAttempt::Plain, ConnectionAttempt::Utp]
    );
    assert_eq!(dial_attempts(policy, true, true).unwrap(), [ConnectionAttempt::Utp]);
    assert_eq!(
        dial_attempts(policy, false, true).unwrap_err().message(),
        "peer session failed: hole punch requires a uTP endpoint"
    );
}

#[test]
fn the_failure_in_the_clear_is_reported() {
    for (policy, expected) in [
        (EncryptionPolicy::Disabled, 0),
        (EncryptionPolicy::PlaintextPreferred, 0),
        (EncryptionPolicy::EncryptedPreferred, 1),
        (EncryptionPolicy::Required, 0),
    ] {
        assert_eq!(reported_attempt(&connection_attempts(policy, true)), expected);
    }
    assert_eq!(reported_attempt(&vec![ConnectionAttempt::Utp]), 0);
}

#[test]
fn extensions_are_negotiated_where_peers_may_be_passed_on() {
    let takes = [0, 0, 0, 0, 0, 0x10, 0, 0];
    let greeting = extension_greeting(true, takes, true, Some(7)).unwrap();
    assert_eq!(greeting.metadata_size, Some(7));
    let greeting = extension_greeting(true, takes, false, Some(7)).unwrap();
    assert_eq!(greeting.metadata_size, None);
    assert_eq!(extension_greeting(false, takes, true, Some(7)), None);
    assert_eq!(extension_greeting(true, [0; 8], true, Some(7)), None);
}

#[test]
fn peers_are_checked_before_they_come_in() {
    let (a, b) = (PeerId::from_bytes([1; 20]), PeerId::from_bytes([2; 20]));
    assert!(admit_peer(&a, &b, 2, 9).is_ok());
    assert!(admit_peer(&a, &a, 2, 9).is_err());
    assert!(admit_peer(&a, &b, 1, 9).is_err());
    assert!(check_not_self(&a, &b).is_ok());
    assert!(check_not_self(&a, &a).is_err());
    let (x, y) = (Sha1Hash::from_bytes([1; 20]), Sha1Hash::from_bytes([2; 20]));
    assert!(check_selected_hash(&x, &x).is_ok());
    assert!(check_selected_hash(&x, &y).is_err());
    assert_eq!(handshake_flags(true), [0, 0, 0, 0, 0, 0x10, 0, 1]);
    assert_eq!(handshake_flags(false), [0, 0, 0, 0, 0, 0x10, 0, 0]);
    assert_eq!(incoming_frame_limit(10), 16384 + 64);
    assert_eq!(incoming_frame_limit(usize::MAX), usize::MAX);
    assert!(joins_swarm(TorrentState::Downloading, true));
    assert!(!joins_swarm(TorrentState::Seeding, true));
    assert!(!is_reciprocal(TorrentState::Seeding));
}

#[test]
fn what_a_peer_has_is_learned_before_it_unchokes() {
    let mut reception = Reception::new(10);
    reception.have(9).unwrap();
    assert!(reception.have(10).is_err());
    assert!(reception.bitfield(&[0xff]).is_err(), "wrong length");
    assert!(reception.bitfield(&[0xff, 0xff]).is_err(), "spare bits");
    let reachable = SocketAddress { ip: IpAddress::V4(1), port: 5 };
    let nowhere = SocketAddress { ip: IpAddress::V4(0), port: 5 };
    reception.exchange(&vec![reachable, nowhere]);
    reception.holepunch(HolePunchMessage { kind: HolePunchKind::Error, address: reachable });
    assert_eq!(
        reception.broken(None).message(),
        "peer session failed: peer disconnected before unchoking"
    );
    let (bits, peers) = reception.finish();
    assert_eq!(bits, [0, 0b0100_0000]);
    assert_eq!(peers, [reachable]);
    assert_eq!(pex_addresses(&vec![nowhere, SocketAddress { port: 0, ..reachable }]), []);
}

#[test]
fn only_interested_peers_are_served() {
    let transfer = TransferPolicy::default();
    let mut policy = UploadPolicy::new();
    let peer = dendrite::address::PeerKey {
        ip: IpAddress::V4(1),
        peer_id: PeerId::from_bytes([1; 20]),
    };
    policy.open_session(1, id(1), peer, false);
    let mut state = SeedState::new();
    let request = BlockRequest { piece: 0, begin: 0, length: 16 };
    let mut tell = |state: &mut SeedState, event| {
        state.handle_upload_event(
            UploadRole::Incoming,
            &mut policy,
            &transfer,
            1,
            event,
            0,
            Credit::Unlimited,
        )
    };
    assert!(tell(&mut state, UploadEvent::Request(request)).is_empty());
    assert!(matches!(
        tell(&mut state, UploadEvent::Interested)[0],
        UploadAction::SendUnchoke
    ));
    assert!(matches!(
        tell(&mut state, UploadEvent::Request(request))[0],
        UploadAction::ServeBlock(asked) if asked == request
    ));
    let handshake = ExtensionHandshake {
        metadata_id: Some(3),
        holepunch_id: Some(4),
        request_queue: Some(100),
        your_ip: Some(IpAddress::V4(9)),
    };
    let actions = tell(&mut state, UploadEvent::Handshake(handshake));
    assert!(matches!(actions[0], UploadAction::LearnAddress(IpAddress::V4(9))));
    assert!(matches!(actions[1], UploadAction::RegisterRendezvous { extension_id: 4 }));
    assert!(matches!(actions[2], UploadAction::SendHandshake));
    assert!(matches!(
        tell(&mut state, UploadEvent::Metadata { piece: Some(2) })[0],
        UploadAction::SendMetadata { extension_id: 3, piece: 2 }
    ));
    assert!(matches!(
        tell(&mut state, UploadEvent::NotInterested)[0],
        UploadAction::SendChoke
    ));
    let actions = tell(&mut state, UploadEvent::Disconnected);
    assert!(matches!(actions[0], UploadAction::UnregisterRendezvous));
    assert!(matches!(actions[1], UploadAction::Finish));
}

#[test]
fn blocks_are_cut_from_complete_pieces() {
    let request = BlockRequest { piece: 0, begin: 2, length: 3 };
    assert!(check_block_request(&[0x80], 1, request));
    assert!(!check_block_request(&[0], 1, request));
    assert!(!check_block_request(&[0x80], 1, BlockRequest { length: 0, ..request }));
    let data = Bytes::from(vec![0, 1, 2, 3, 4]);
    assert_eq!(cut_block(&data, request), Some(Bytes::from(vec![2, 3, 4])));
    assert_eq!(cut_block(&data, BlockRequest { begin: 3, ..request }), None);
    assert_eq!(metadata_block(20000, 0), Some((0, 16384)));
    assert_eq!(metadata_block(20000, 1), Some((16384, 20000)));
    assert_eq!(metadata_block(20000, 2), None);
    let flags = [0, 0, 0, 0, 0, 0, 0, 4];
    assert!(takes_rejects(UploadRole::Incoming, flags));
    assert!(takes_rejects(UploadRole::Shared, flags));
    assert!(!takes_rejects(UploadRole::HolePunched, flags));
    assert!(!takes_rejects(UploadRole::Shared, [0; 8]));
}

#[test]
fn peers_are_introduced_to_each_other() {
    assert!(matches!(
        plan_holepunch(HolePunchKind::Connect, None, None),
        HolePunchPlan::Dial
    ));
    assert!(matches!(
        plan_holepunch(HolePunchKind::Rendezvous, Some(1), Some(2)),
        HolePunchPlan::Introduce { target: 1, requester: 2 }
    ));
    assert!(matches!(
        plan_holepunch(HolePunchKind::Rendezvous, None, Some(2)),
        HolePunchPlan::Refuse { requester: 2, error_code: 2 }
    ));
    let hash = Sha1Hash::from_bytes([1; 20]);
    let address = SocketAddress { ip: IpAddress::V4(1), port: 1 };
    let peer = RendezvousPeer { info_hash: hash, address, session: 5, extension_id: 3 };
    let mut table = RendezvousTable::new();
    table.register(peer);
    table.register(RendezvousPeer { session: 6, extension_id: 4, ..peer });
    assert_eq!(table.peers.len(), 1, "a peer stands once");
    assert_eq!(table.extension_of(&hash, address), Some(4));
    table.unregister(&hash, address, 5);
    assert_eq!(table.extension_of(&hash, address), Some(4), "connected again meanwhile");
    table.unregister(&hash, address, 6);
    assert_eq!(table.extension_of(&hash, address), None);
}

#[test]
fn incoming_peers_go_to_the_swarm_at_work() {
    let mut routes = SwarmRoutes::new();
    let old = SwarmRoute { id: id(1), swarm: 1 };
    let new = SwarmRoute { id: id(1), swarm: 2 };
    routes.register(old);
    routes.register(new);
    routes.release(old);
    assert_eq!(routes.swarm_of(id(1)), Some(2));
    routes.release(new);
    assert_eq!(routes.swarm_of(id(1)), None);
}

#[test]
fn idle_peers_are_listened_to() {
    let reachable = SocketAddress { ip: IpAddress::V4(1), port: 5 };
    assert!(matches!(
        forward_idle_peer_event(3, true, IdleEvent::Have { index: 7 }),
        IdleOutcome::Report(PeerWorkerEvent::Have { worker: 3, index: 7 })
    ));
    assert!(matches!(
        forward_idle_peer_event(3, true, IdleEvent::Exchange(Ok(vec![reachable]))),
        IdleOutcome::Report(PeerWorkerEvent::Peers { worker: 3, peers }) if peers == [reachable]
    ));
    assert!(matches!(
        forward_idle_peer_event(3, false, IdleEvent::Exchange(Ok(vec![reachable]))),
        IdleOutcome::Nothing
    ));
    assert!(matches!(
        forward_idle_peer_event(3, true, IdleEvent::Exchange(Err("bad".to_owned()))),
        IdleOutcome::Gone { error } if error == "peer session failed: invalid PEX update: bad"
    ));
    let message = HolePunchMessage { kind: HolePunchKind::Connect, address: reachable };
    assert!(matches!(
        forward_idle_peer_event(3, true, IdleEvent::HolePunch(Ok(message))),
        IdleOutcome::Report(PeerWorkerEvent::HolePunch { worker: 3, .. })
    ));
    assert!(matches!(
        forward_idle_peer_event(3, true, IdleEvent::Disconnected),
        IdleOutcome::Gone { error } if error == "peer disconnected"
    ));
}
