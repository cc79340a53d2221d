//! A swarm: who gets which piece, and what becomes of it.

use bytes::Bytes;
use dendrite::address::{IpAddress, PeerId, PeerKey, SocketAddress};
use dendrite::bencode::BencodeLimits;
use dendrite::bitfield::useful_piece_count;
use dendrite::budget::DownloadBudget;
use dendrite::choke::TorrentState;
use dendrite::error::{ActorError, TorrentId};
use dendrite::metainfo::Metainfo;
use dendrite::path::TorrentPath;
use dendrite::rates::{ASSIGNMENT_TARGET_MIN, BLOCK_BYTES};
use dendrite::record::TorrentRecord;
use dendrite::swarm::{PeerWorkerHandle, SwarmAction, SwarmState};
use dendrite::swarm_events::PeerWorkerEvent;
use dendrite::swarm_peers::{peer_retention_score, SelfAddresses};
use dendrite::swarm_run::{LoopTask, SwarmLoopEvent, SwarmRun, TurnStart};
use dendrite::upload::{PeerReputation, UploadPolicy};
use dendrite::worker::PieceResult;
use sha1::{Digest, Sha1};

const PIECES: usize = 8;

fn payload(piece: usize) -> Vec<u8> {
    vec![piece as u8; BLOCK_BYTES]
}

fn document() -> Vec<u8> {
    let mut raw = format!(
        "d4:infod6:lengthi{}e4:name10:budget.bin12:piece lengthi{BLOCK_BYTES}e6:pieces{}:",
        PIECES * BLOCK_BYTES,
        PIECES * 20
    )
    .into_bytes();
    for piece in 0..PIECES {
        raw.extend_from_slice(&Sha1::digest(payload(piece)));
    }
    raw.extend_from_slice(b"ee");
    raw
}

fn metainfo() -> Metainfo {
    Metainfo::parse(&document(), BencodeLimits::default()).unwrap()
}

fn record() -> TorrentRecord {
    TorrentRecord {
        id: TorrentId { value: 7 },
        state: TorrentState::Downloading,
        raw_metainfo: document(),
        magnet_uri: None,
        completed_pieces: vec![0],
        downloaded: 0,
        uploaded: 0,
        stop_on_complete: false,
        added_at_unix_ms: 0,
    }
}

fn own() -> SelfAddresses {
    SelfAddresses {
        peer_port: 6881,
        advertised_port: 6881,
        addresses: vec![IpAddress::V4(0x0a00_0001)],
    }
}

fn address(last: u8) -> SocketAddress {
    SocketAddress { ip: IpAddress::V4(0x0102_0300 | u32::from(last)), port: 6881 }
}

fn start(peers: &[SocketAddress], limit: usize, shared: &DownloadBudget) -> SwarmRun {
    let mut actions = Vec::new();
    SwarmRun::start(
        &peers.to_vec(),
        true,
        &own(),
        &metainfo(),
        &record(),
        limit,
        0,
        &mut actions,
        shared,
    )
    .unwrap()
}

fn add_worker(swarm: &mut SwarmState, worker: usize, bitfield: Vec<u8>, target_bytes: usize) {
    swarm.workers.push(PeerWorkerHandle {
        worker,
        useful_pieces: useful_piece_count(&bitfield, &[0], PIECES),
        bitfield: Some(bitfield),
        idle: true,
        choked: false,
        address: address(worker as u8),
        peer_key: None,
        seed: false,
        verified_bytes: 0,
        connected_at: 0,
        last_verified: None,
        assignments: Vec::new(),
        assigned_bytes: 0,
        target_bytes,
        wants_more: false,
        skip_generation: None,
    });
    swarm.next_worker = swarm.next_worker.max(worker + 1);
}

/// Picks the first piece that a worker has and nobody was assigned.
fn pick(swarm: &SwarmState, worker: usize) -> Option<usize> {
    let handle = swarm.workers.iter().find(|handle| handle.worker == worker)?;
    let bitfield = handle.bitfield.as_ref()?;
    (0..PIECES).find(|piece| {
        bitfield[piece / 8] & (0x80 >> (piece % 8)) != 0
            && !swarm
                .workers
                .iter()
                .any(|handle| swarm.is_assigned(handle.worker, *piece))
    })
}

fn schedule(swarm: &mut SwarmState, shared: &mut DownloadBudget, generation: u64) -> Vec<(usize, usize)> {
    let metainfo = metainfo();
    let mut granted = Vec::new();
    let Some(mut pass) = swarm.begin_schedule(generation, &metainfo).unwrap() else {
        return granted;
    };
    while let Some(worker) = pass.next(swarm, shared) {
        match pick(swarm, worker) {
            Some(piece) => {
                let length = pass.picked(swarm, shared, &metainfo, piece).unwrap();
                pass.accepted(swarm, piece, length, shared);
                granted.push((worker, piece));
            }
            None => pass.nothing_picked(swarm, shared),
        }
    }
    assert_eq!(pass.scheduled, granted.len());
    granted
}

#[test]
fn assignments_honour_the_budget() {
    let mut shared = DownloadBudget::new(3 * BLOCK_BYTES);
    let mut swarm = start(&[], 10, &shared).swarm;
    add_worker(&mut swarm, 0, vec![0b1111_1111], ASSIGNMENT_TARGET_MIN);
    assert_eq!(schedule(&mut swarm, &mut shared, 1), [(0, 0), (0, 1), (0, 2)]);
    assert_eq!(shared.used, 3 * BLOCK_BYTES as u64);
    assert_eq!(swarm.workers[0].assigned_bytes, 3 * BLOCK_BYTES);
    assert!(!swarm.workers[0].idle);
    assert!(schedule(&mut swarm, &mut shared, 1).is_empty(), "budget exhausted");
    let mut actions = Vec::new();
    swarm.release_worker_assignments(&mut shared, 0, &mut actions);
    assert_eq!(shared.used, 0);
    assert!(swarm.workers[0].idle);
    assert!(swarm.schedule_dirty);
    assert_eq!(actions.len(), 3);
}

#[test]
fn a_worker_without_a_choice_is_skipped_until_something_changes() {
    let mut shared = DownloadBudget::new(1 << 30);
    let mut swarm = start(&[], 10, &shared).swarm;
    add_worker(&mut swarm, 0, vec![0b1000_0000], ASSIGNMENT_TARGET_MIN);
    add_worker(&mut swarm, 1, vec![0b1000_0000], ASSIGNMENT_TARGET_MIN);
    assert_eq!(schedule(&mut swarm, &mut shared, 5), [(0, 0)]);
    assert_eq!(swarm.workers[1].skip_generation, Some(5));
    assert!(schedule(&mut swarm, &mut shared, 5).is_empty());
    let mut actions = Vec::new();
    swarm.remove_worker(&mut shared, 0, &mut actions);
    assert_eq!(schedule(&mut swarm, &mut shared, 6), [(1, 0)]);
    assert_eq!(shared.used, BLOCK_BYTES as u64);
}

#[test]
fn a_refused_assignment_returns_its_bytes() {
    let mut shared = DownloadBudget::new(1 << 30);
    let metainfo = metainfo();
    let mut swarm = start(&[], 10, &shared).swarm;
    add_worker(&mut swarm, 0, vec![0b1000_0000], ASSIGNMENT_TARGET_MIN);
    let mut pass = swarm.begin_schedule(1, &metainfo).unwrap().unwrap();
    assert_eq!(pass.next(&mut swarm, &mut shared), Some(0));
    let length = pass.picked(&mut swarm, &mut shared, &metainfo, 0).unwrap();
    assert_eq!(length, BLOCK_BYTES);
    let mut actions = Vec::new();
    pass.refused(&mut swarm, &mut shared, 0, length, &mut actions);
    assert_eq!(shared.used, 0);
    assert!(matches!(actions[0], SwarmAction::MarkFailed { piece: 0 }));
}

fn drive(
    run: &mut SwarmRun,
    shared: &mut DownloadBudget,
    record: &mut TorrentRecord,
    event: SwarmLoopEvent,
    actions: &mut Vec<SwarmAction>,
) -> Result<LoopTask, ActorError> {
    run.handle(
        shared,
        &own(),
        &UploadPolicy::new(),
        &metainfo(),
        record,
        event,
        1,
        actions,
    )
}

#[test]
fn a_piece_counts_only_after_it_was_flushed() {
    let mut shared = DownloadBudget::new(1 << 30);
    let mut run = start(&[], 10, &shared);
    let mut record = record();
    let mut actions = Vec::new();
    add_worker(&mut run.swarm, 0, vec![0b1111_1111], BLOCK_BYTES);
    assert_eq!(schedule(&mut run.swarm, &mut shared, 1), [(0, 0)]);

    let data = Bytes::from(payload(0));
    let task = drive(
        &mut run,
        &mut shared,
        &mut record,
        SwarmLoopEvent::Complete { worker: 0, piece: 0, result: PieceResult::Data(data.clone()) },
        &mut actions,
    )
    .unwrap();
    let valid = match task {
        LoopTask::Verify { worker: 0, piece: 0, data, verification } => verification.verify(&data),
        other => panic!("unexpected {other:?}"),
    };
    assert!(valid);
    assert!(run.pending_io());

    let task = drive(
        &mut run,
        &mut shared,
        &mut record,
        SwarmLoopEvent::Verified { worker: 0, piece: 0, data, outcome: Ok(valid) },
        &mut actions,
    )
    .unwrap();
    assert!(matches!(task, LoopTask::Write { worker: 0, piece: 0, .. }));

    let path = TorrentPath::new(vec!["budget.bin".to_owned()]).unwrap();
    let task = drive(
        &mut run,
        &mut shared,
        &mut record,
        SwarmLoopEvent::Stored {
            worker: 0,
            piece: 0,
            bytes: BLOCK_BYTES as u64,
            paths: Ok(vec![path.clone(), path]),
        },
        &mut actions,
    )
    .unwrap();
    assert!(matches!(task, LoopTask::Nothing));
    assert_eq!(record.completed_pieces, [0]);
    assert_eq!(record.downloaded, 0);

    let task = drive(&mut run, &mut shared, &mut record, SwarmLoopEvent::FlushTick, &mut actions)
        .unwrap();
    let pieces = match task {
        LoopTask::Flush { pieces, paths } => {
            assert_eq!(paths.len(), 1, "a file is flushed once");
            pieces
        }
        other => panic!("unexpected {other:?}"),
    };
    assert_eq!(pieces, [0]);
    assert!(matches!(
        drive(&mut run, &mut shared, &mut record, SwarmLoopEvent::FlushTick, &mut actions),
        Ok(LoopTask::Nothing)
    ));

    let task = drive(
        &mut run,
        &mut shared,
        &mut record,
        SwarmLoopEvent::Flushed { pieces, error: None },
        &mut actions,
    )
    .unwrap();
    assert!(matches!(task, LoopTask::Persist));
    assert_eq!(record.completed_pieces, [0b1000_0000]);
    assert_eq!(record.downloaded, BLOCK_BYTES as u64);
    assert!(!run.pending_io());
    assert_eq!(shared.used, 0);
    assert!(actions
        .iter()
        .any(|action| matches!(action, SwarmAction::SendHave { worker: 0, index: 0 })));
}

#[test]
fn a_failed_flush_commits_nothing() {
    let mut shared = DownloadBudget::new(1 << 30);
    let mut run = start(&[], 10, &shared);
    let mut record = record();
    let mut actions = Vec::new();
    let error = drive(
        &mut run,
        &mut shared,
        &mut record,
        SwarmLoopEvent::Flushed {
            pieces: vec![0],
            error: Some(ActorError::Storage("no space".to_owned())),
        },
        &mut actions,
    )
    .unwrap_err();
    assert_eq!(error.message(), "no space");
    assert_eq!(record.completed_pieces, [0]);
    assert_eq!(record.downloaded, 0);
}

#[test]
fn a_corrupt_piece_costs_the_peer_its_place() {
    let mut shared = DownloadBudget::new(1 << 30);
    let mut run = start(&[], 10, &shared);
    let mut record = record();
    let mut actions = Vec::new();
    add_worker(&mut run.swarm, 0, vec![0b1111_1111], BLOCK_BYTES);
    let key = PeerKey { ip: address(0).ip, peer_id: PeerId::from_bytes([1; 20]) };
    run.swarm.workers[0].peer_key = Some(key);
    schedule(&mut run.swarm, &mut shared, 1);
    let data = Bytes::from(payload(3));
    let task = drive(
        &mut run,
        &mut shared,
        &mut record,
        SwarmLoopEvent::Complete { worker: 0, piece: 0, result: PieceResult::Data(data.clone()) },
        &mut actions,
    )
    .unwrap();
    let LoopTask::Verify { verification, .. } = task else {
        panic!("the data is verified first");
    };
    assert!(!verification.verify(&data));
    let task = drive(
        &mut run,
        &mut shared,
        &mut record,
        SwarmLoopEvent::Verified { worker: 0, piece: 0, data, outcome: Ok(false) },
        &mut actions,
    )
    .unwrap();
    assert!(matches!(task, LoopTask::Nothing));
    assert!(run.swarm.workers.is_empty());
    assert_eq!(
        run.swarm.last_error.as_deref(),
        Some("piece 0 failed its integrity check")
    );
    assert!(actions
        .iter()
        .any(|action| matches!(action, SwarmAction::RecordFailure { peer } if *peer == key)));
    assert_eq!(shared.used, 0);
}

#[test]
fn a_swarm_without_anybody_ends() {
    let mut shared = DownloadBudget::new(1 << 30);
    let mut run = start(&[], 10, &shared);
    let mut record = record();
    let mut actions = Vec::new();
    assert!(run.exhaustion().is_none(), "peers are still being searched for");
    drive(&mut run, &mut shared, &mut record, SwarmLoopEvent::SearchClosed, &mut actions).unwrap();
    assert_eq!(
        run.exhaustion().unwrap().message(),
        "trackers returned no connectable peers"
    );
    run.swarm.last_error = Some("reset".to_owned());
    assert_eq!(run.exhaustion().unwrap().message(), "peer session failed: reset");
    drive(
        &mut run,
        &mut shared,
        &mut record,
        SwarmLoopEvent::SearchFinished(Some(ActorError::NoTracker)),
        &mut actions,
    )
    .unwrap();
    assert_eq!(
        run.exhaustion().unwrap().message(),
        "torrent has no usable HTTP(S) or UDP tracker"
    );
}

#[test]
fn turns_end_when_everything_is_there() {
    let shared = DownloadBudget::new(1 << 30);
    let mut run = start(&[address(1), address(2), own_address()], 1, &shared);
    assert_eq!(run.swarm.workers.len(), 1, "one slot, one connection");
    assert_eq!(run.swarm.candidates.len(), 1, "its own address is no candidate");
    let mut actions = Vec::new();
    assert!(matches!(
        run.begin_turn(true, 5, 0, &mut actions, &shared),
        TurnStart::Cancelled
    ));
    assert!(matches!(
        run.begin_turn(false, 5, 0, &mut actions, &shared),
        TurnStart::Go { schedule: true }
    ));
    assert!(matches!(
        run.begin_turn(false, 5, 0, &mut actions, &shared),
        TurnStart::Go { schedule: false }
    ));
    assert!(matches!(
        run.begin_turn(false, 0, 0, &mut actions, &shared),
        TurnStart::Finished
    ));
}

fn own_address() -> SocketAddress {
    SocketAddress { ip: IpAddress::V4(0x0a00_0001), port: 6881 }
}

#[test]
fn peers_are_looked_for_again_after_a_minute() {
    let mut shared = DownloadBudget::new(1 << 30);
    let mut run = start(&[], 10, &shared);
    let mut record = record();
    run.searching = false;
    let minute = 60_000_000_000;
    for (now, expected) in [(minute - 1, None), (minute, Some(false)), (16 * minute, Some(true))] {
        run.searching = false;
        let mut actions = Vec::new();
        let task = run
            .handle(
                &mut shared,
                &own(),
                &UploadPolicy::new(),
                &metainfo(),
                &mut record,
                SwarmLoopEvent::RetentionTick,
                now,
                &mut actions,
            )
            .unwrap();
        let announced = match task {
            LoopTask::Search { dht_announce, .. } => Some(dht_announce),
            _ => None,
        };
        assert_eq!(announced, expected);
    }
}

#[test]
fn a_ready_peer_is_known_by_its_pieces() {
    let mut shared = DownloadBudget::new(1 << 30);
    let mut run = start(&[address(1)], 10, &shared);
    let mut record = record();
    let mut actions = Vec::new();
    drive(
        &mut run,
        &mut shared,
        &mut record,
        SwarmLoopEvent::Worker(PeerWorkerEvent::Ready {
            worker: 0,
            peer_id: PeerId::from_bytes([9; 20]),
            bitfield: vec![0xff],
            peers: vec![address(2)],
        }),
        &mut actions,
    )
    .unwrap();
    assert!(run.swarm.workers[0].seed);
    assert_eq!(run.swarm.workers[0].useful_pieces, 8);
    assert_eq!(run.swarm.connecting, 0);
    assert_eq!(run.swarm.candidates.len(), 1);
    drive(
        &mut run,
        &mut shared,
        &mut record,
        SwarmLoopEvent::Worker(PeerWorkerEvent::Gone { worker: 0, error: "gone".to_owned() }),
        &mut actions,
    )
    .unwrap();
    assert!(run.swarm.workers.is_empty());
    assert!(drive(
        &mut run,
        &mut shared,
        &mut record,
        SwarmLoopEvent::Worker(PeerWorkerEvent::Have { worker: 0, index: 99 }),
        &mut actions,
    )
    .is_err());
}

#[test]
fn seeds_are_worth_keeping() {
    let shared = DownloadBudget::new(1 << 30);
    let mut swarm = start(&[], 10, &shared).swarm;
    add_worker(&mut swarm, 0, vec![0xff], 1);
    add_worker(&mut swarm, 1, vec![0xff], 1);
    swarm.workers[1].seed = true;
    let plain = peer_retention_score(&swarm.workers[0], None, 1);
    let seed = peer_retention_score(&swarm.workers[1], None, 1);
    assert_eq!(plain, 8);
    assert_eq!(seed, (1 << 120) | 8);
    let failing = PeerReputation { failures: 3, ..PeerReputation::new(0) };
    assert_eq!(peer_retention_score(&swarm.workers[0], Some(failing), 1), 0);
    let policy = UploadPolicy::new();
    assert_eq!(swarm.lowest_idle_worker(&policy, true, 1, &shared), Some(0));
}

#[test]
fn the_advertised_port_can_change_but_never_to_zero() {
    let mut own = own();
    own.set_advertised_peer_port(45_000);
    assert_eq!(own.advertised_port, 45_000);
    own.set_advertised_peer_port(0);
    assert_eq!(own.advertised_port, 45_000);
    assert_eq!(own.peer_port, 6881);
    let mapped = SocketAddress { ip: IpAddress::V4(0x0a00_0001), port: 45_000 };
    assert!(own.is_self_candidate(mapped));
    own.learn_self_address(IpAddress::V4(0));
    own.learn_self_address(IpAddress::V6(5));
    assert_eq!(own.addresses.len(), 2);
}

#[test]
fn own_addresses_and_repeated_ones_are_not_queued() {
    let shared = DownloadBudget::new(1 << 20);
    let mut run = start(&[], 4, &shared);
    let itself = SocketAddress { ip: IpAddress::V4(0x0a00_0001), port: 6881 };
    let found = vec![address(1), itself, address(1), address(2)];
    run.swarm.enqueue_peer_candidates(&own(), &found, false, 0, &shared);
    let queued: Vec<_> = run.swarm.candidates.iter().map(|queued| queued.address).collect();
    assert_eq!(queued, vec![address(1), address(2)]);

    run.swarm.candidates.clear();
    let again = vec![address(1), address(3)];
    run.swarm.enqueue_peer_candidates(&own(), &again, false, 1_000_000_000, &shared);
    let queued: Vec<_> = run.swarm.candidates.iter().map(|queued| queued.address).collect();
    assert_eq!(queued, vec![address(3)]);

    run.swarm.enqueue_peer_candidates(&own(), &again, false, 600_000_000_000, &shared);
    assert_eq!(run.swarm.candidates.len(), 2);
}

#[test]
fn the_candidate_queue_stays_bounded() {
    let shared = DownloadBudget::new(1 << 20);
    let mut run = start(&[], 4, &shared);
    let found = (0..5000_u32)
        .map(|last| SocketAddress { ip: IpAddress::V4(0x0102_0000 + last), port: 6881 })
        .collect();
    run.swarm.enqueue_peer_candidates(&own(), &found, false, 0, &shared);
    assert_eq!(run.swarm.candidates.len(), 4096);
}

#[test]
fn no_more_peers_are_connected_than_there_are_slots() {
    let shared = DownloadBudget::new(1 << 20);
    let mut run = start(&[], 2, &shared);
    let found = vec![address(1), address(2), address(3)];
    run.swarm.enqueue_peer_candidates(&own(), &found, false, 0, &shared);
    let mut actions = Vec::new();
    run.swarm.fill_peer_slots(0, &mut actions, &shared);
    assert_eq!(run.swarm.workers.len(), 2);
    assert_eq!(run.swarm.candidates.len(), 1);
    let connected = actions
        .iter()
        .filter(|action| matches!(action, SwarmAction::Connect { .. }))
        .count();
    assert_eq!(connected, 2);
}

#[test]
fn the_least_useful_peer_makes_room() {
    let mut shared = DownloadBudget::new(1 << 20);
    let mut run = start(&[], 1, &shared);
    add_worker(&mut run.swarm, 1, vec![0xff], ASSIGNMENT_TARGET_MIN);
    add_worker(&mut run.swarm, 2, vec![0x80], ASSIGNMENT_TARGET_MIN);
    let mut actions = Vec::new();
    run.swarm.enforce_peer_limit(&mut shared, &UploadPolicy::new(), 0, &mut actions);
    assert_eq!(run.swarm.workers.len(), 1);
    assert_eq!(run.swarm.workers[0].worker, 1);
    assert!(actions
        .iter()
        .any(|action| matches!(action, SwarmAction::StopWorker { worker: 2 })));
}

#[test]
fn a_peer_is_useful_only_for_what_is_missing() {
    assert_eq!(useful_piece_count(&[0b1010_0000], &[0b1010_0000], PIECES), 0);
    assert_eq!(useful_piece_count(&[0b1010_0000], &[0b1000_0000], PIECES), 1);
    assert_eq!(useful_piece_count(&[0xff], &[0xff], PIECES), 0);
    assert_eq!(useful_piece_count(&[0], &[0], PIECES), 0);
}

#[test]
fn what_was_committed_before_a_fault_stands() {
    let mut shared = DownloadBudget::new(1 << 30);
    let mut run = start(&[], 10, &shared);
    let mut record = record();
    let mut actions = Vec::new();
    run.flushing = 1;
    record.downloaded = u64::MAX - BLOCK_BYTES as u64;
    let error = drive(
        &mut run,
        &mut shared,
        &mut record,
        SwarmLoopEvent::Flushed { pieces: vec![0, 1, 2], error: None },
        &mut actions,
    )
    .unwrap_err();
    assert!(matches!(error, ActorError::Arithmetic));
    assert_eq!(record.completed_pieces, [0b1100_0000]);
    assert_eq!(record.downloaded, u64::MAX);
    assert_eq!(run.swarm.completed_pieces, [0b1100_0000]);
    assert_eq!(run.flushing, 0);
}

#[test]
fn the_record_keeps_its_own_pieces() {
    let mut shared = DownloadBudget::new(1 << 30);
    let mut run = start(&[], 10, &shared);
    let mut record = record();
    let mut actions = Vec::new();
    record.completed_pieces = vec![0b0000_0001];
    drive(
        &mut run,
        &mut shared,
        &mut record,
        SwarmLoopEvent::Flushed { pieces: vec![0], error: None },
        &mut actions,
    )
    .unwrap();
    assert_eq!(record.completed_pieces, [0b1000_0001]);
    assert_eq!(run.swarm.completed_pieces, [0b1000_0000]);
}

#[test]
fn failed_work_is_no_longer_under_way() {
    let mut shared = DownloadBudget::new(1 << 30);
    let mut run = start(&[], 10, &shared);
    let mut record = record();
    let mut actions = Vec::new();
    run.storing = 1;
    run.verifying = 1;
    run.swarm.schedule_dirty = false;
    let error = drive(
        &mut run,
        &mut shared,
        &mut record,
        SwarmLoopEvent::Stored {
            worker: 0,
            piece: 0,
            bytes: 1,
            paths: Err(ActorError::Storage("no space".to_owned())),
        },
        &mut actions,
    )
    .unwrap_err();
    assert_eq!(error.message(), "no space");
    assert_eq!(run.storing, 0);
    assert!(!run.swarm.schedule_dirty);
    let error = drive(
        &mut run,
        &mut shared,
        &mut record,
        SwarmLoopEvent::Verified {
            worker: 0,
            piece: 0,
            data: Bytes::new(),
            outcome: Err(ActorError::Cancelled),
        },
        &mut actions,
    )
    .unwrap_err();
    assert!(matches!(error, ActorError::Cancelled));
    assert_eq!(run.verifying, 0);
    assert!(run.swarm.schedule_dirty);
    assert!(actions.is_empty());
}

#[test]
fn a_piece_without_a_number_on_the_wire_is_told_to_nobody() {
    let mut shared = DownloadBudget::new(1 << 30);
    let mut swarm = start(&[], 10, &shared).swarm;
    add_worker(&mut swarm, 0, vec![0xff], BLOCK_BYTES);
    let mut actions = Vec::new();
    let piece = u32::MAX as usize + 1;
    let error = swarm
        .stage_stored_piece(&mut shared, 0, piece, 5, 9, &mut actions)
        .unwrap_err();
    assert!(matches!(error, ActorError::Arithmetic));
    assert_eq!(swarm.workers[0].verified_bytes, 5);
    assert_eq!(swarm.workers[0].last_verified, Some(9));
    assert!(actions
        .iter()
        .any(|action| matches!(action, SwarmAction::MarkComplete { piece: marked } if *marked == piece)));
    assert!(!actions.iter().any(|action| matches!(action, SwarmAction::SendHave { .. })));
}

#[test]
fn a_piece_outside_the_torrent_changes_nothing() {
    let mut shared = DownloadBudget::new(1 << 30);
    let mut swarm = start(&[], 10, &shared).swarm;
    add_worker(&mut swarm, 0, vec![0b1000_0000], BLOCK_BYTES);
    let mut actions = Vec::new();
    let error = swarm
        .handle_worker_event(
            &mut shared,
            &own(),
            &UploadPolicy::new(),
            &[0],
            PeerWorkerEvent::Have { worker: 0, index: 8 },
            1,
            &mut actions,
        )
        .unwrap_err();
    assert_eq!(
        error.message(),
        "peer session failed: peer announced a piece outside the torrent"
    );
    assert!(actions.is_empty());
    assert_eq!(swarm.workers[0].bitfield.as_deref(), Some(&[0b1000_0000][..]));
}

#[test]
fn a_copied_torrent_is_the_same_torrent() {
    let metainfo = metainfo();
    let copy = metainfo.clone();
    assert_eq!(copy.raw, metainfo.raw);
    assert_eq!(copy.files, metainfo.files);
    assert_eq!(copy.piece_length, metainfo.piece_length);
}

#[test]
fn only_what_was_verified_and_written_is_complete() {
    let mut shared = DownloadBudget::new(1 << 30);
    let mut run = start(&[], 10, &shared);
    let mut record = record();
    let mut actions = Vec::new();
    record.completed_pieces = vec![0b0000_0001];
    run.swarm.completed_pieces = vec![0b0000_0001];
    add_worker(&mut run.swarm, 0, vec![0xff], 2 * BLOCK_BYTES);
    add_worker(&mut run.swarm, 1, vec![0xff], 2 * BLOCK_BYTES);
    // Both have data for piece 0, and one has the wrong data for piece 1.
    let deliveries = [(0, 0, payload(0)), (1, 0, payload(0)), (1, 1, payload(5))];
    let mut checks = Vec::new();
    for (worker, piece, data) in deliveries {
        let result = PieceResult::Data(Bytes::from(data));
        let event = SwarmLoopEvent::Complete { worker, piece, result };
        match drive(&mut run, &mut shared, &mut record, event, &mut actions).unwrap() {
            LoopTask::Verify { worker, piece, data, verification } => {
                let outcome = Ok(verification.verify(&data));
                checks.push(SwarmLoopEvent::Verified { worker, piece, data, outcome });
            }
            other => panic!("unexpected {other:?}"),
        }
    }
    assert_eq!(run.verifying, 3);
    let mut writes = Vec::new();
    for event in checks {
        match drive(&mut run, &mut shared, &mut record, event, &mut actions).unwrap() {
            LoopTask::Write { worker, piece, data } => writes.push((worker, piece, data)),
            LoopTask::Nothing => {}
            other => panic!("unexpected {other:?}"),
        }
    }
    assert_eq!((run.verifying, run.storing), (0, 1));
    assert_eq!(run.swarm.writing, [0]);
    let (worker, piece, data) = writes.pop().unwrap();
    assert_eq!(&data[..], payload(0));
    let bytes = data.len() as u64;
    let event = SwarmLoopEvent::Stored { worker, piece, bytes, paths: Ok(Vec::new()) };
    drive(&mut run, &mut shared, &mut record, event, &mut actions).unwrap();
    assert_eq!(run.swarm.writing, [0], "a piece is claimed until it was flushed");
    let tick = SwarmLoopEvent::FlushTick;
    let task = drive(&mut run, &mut shared, &mut record, tick, &mut actions).unwrap();
    let LoopTask::Flush { pieces, .. } = task else {
        panic!("what was written is flushed");
    };
    assert_eq!(record.completed_pieces, [0b0000_0001]);
    let event = SwarmLoopEvent::Flushed { pieces, error: None };
    drive(&mut run, &mut shared, &mut record, event, &mut actions).unwrap();
    assert_eq!(record.completed_pieces, [0b1000_0001]);
    assert_eq!(run.swarm.completed_pieces, [0b1000_0001]);
    assert!(!run.pending_io());
    assert!(run.swarm.writing.is_empty(), "nothing is claimed once nothing is under way");
}

#[test]
fn only_private_torrents_keep_peers_to_themselves() {
    assert!(metainfo().may_share_peers());
    let mut private = metainfo();
    private.private = true;
    assert!(!private.may_share_peers());
}

#[test]
fn a_finished_swarm_counts_what_it_completed() {
    let mut shared = DownloadBudget::new(1 << 30);
    let mut run = start(&[], 10, &shared);
    let mut record = record();
    let mut actions = Vec::new();
    for piece in [2, 5] {
        run.storing += 1;
        run.swarm.writing.push(piece);
        let bytes = BLOCK_BYTES as u64;
        let event = SwarmLoopEvent::Stored { worker: 0, piece, bytes, paths: Ok(Vec::new()) };
        drive(&mut run, &mut shared, &mut record, event, &mut actions).unwrap();
    }
    let told: Vec<usize> = actions
        .iter()
        .filter_map(|action| match action {
            SwarmAction::MarkComplete { piece } => Some(*piece),
            _ => None,
        })
        .collect();
    assert_eq!(told, [2, 5]);
    assert!(run.pending_io(), "the picker knows before the record does");
    let tick = SwarmLoopEvent::FlushTick;
    let task = drive(&mut run, &mut shared, &mut record, tick, &mut actions).unwrap();
    let LoopTask::Flush { pieces, .. } = task else {
        panic!("what was written is flushed");
    };
    let event = SwarmLoopEvent::Flushed { pieces, error: None };
    drive(&mut run, &mut shared, &mut record, event, &mut actions).unwrap();
    assert!(!run.pending_io());
    assert_eq!(record.completed_pieces, [0b0010_0100]);
    assert_eq!(record.downloaded, 2 * BLOCK_BYTES as u64);
}
