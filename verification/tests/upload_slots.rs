//! Who is uploaded to, and how much.

use dendrite::address::{IpAddress, PeerId, PeerKey};
use dendrite::choke::{
    select_upload_sessions, TorrentState, TransferPolicy, UploadCandidate,
    RECIPROCAL_BOOTSTRAP_BYTES,
};
use dendrite::error::TorrentId;
use dendrite::upload::{
    has_reciprocal_upload_credit, reciprocal_contribution, ChokeAction, Credit, PeerReputation,
    TorrentStanding, UploadLimiter, UploadPolicy,
};

/// What a ratio makes of verified bytes.
fn credit(ratio: f64, reputation: PeerReputation) -> Credit {
    if ratio <= 0.0 {
        Credit::Unlimited
    } else {
        Credit::Earned((reputation.verified_from as f64 * ratio).min(u64::MAX as f64) as u64)
    }
}

#[test]
fn downloading_upload_slots_prefer_contributors_and_rotate_optimistic_peers() {
    let transfer = TransferPolicy {
        upload_slots: 8,
        optimistic_upload_slots: 2,
        ..TransferPolicy::default()
    };
    let candidates = (0_u64..12)
        .map(|session| UploadCandidate {
            session,
            contribution_score: 12 - session,
            verified_rate: 12 - session,
            recent_upload: session,
            eligible: true,
            interesting: true,
        })
        .collect::<Vec<_>>();
    let first = select_upload_sessions(TorrentState::Downloading, &candidates, 0, &transfer);
    for contributor in 0..8_u64 {
        assert!(first.contains(&contributor));
    }
    assert!(first.contains(&8));
    assert!(first.contains(&9));

    let second = select_upload_sessions(TorrentState::Downloading, &candidates, 2, &transfer);
    assert!(second.contains(&10));
    assert!(second.contains(&11));
    assert!(!second.contains(&8));
    assert!(!second.contains(&9));
}

#[test]
fn downloading_upload_slots_skip_peers_that_cannot_repay() {
    let transfer = TransferPolicy {
        upload_slots: 4,
        optimistic_upload_slots: 2,
        ..TransferPolicy::default()
    };
    let candidates = vec![
        UploadCandidate {
            session: 1,
            contribution_score: 1 << 30,
            verified_rate: 1 << 20,
            recent_upload: 0,
            eligible: true,
            interesting: false,
        },
        UploadCandidate {
            session: 2,
            contribution_score: 0,
            verified_rate: 4096,
            recent_upload: 0,
            eligible: true,
            interesting: true,
        },
        UploadCandidate {
            session: 3,
            contribution_score: 0,
            verified_rate: 0,
            recent_upload: 0,
            eligible: true,
            interesting: true,
        },
    ];
    let selected = select_upload_sessions(TorrentState::Downloading, &candidates, 0, &transfer);
    assert!(
        !selected.contains(&1),
        "a peer with nothing we need never earns a slot while downloading"
    );
    assert!(
        selected.contains(&2),
        "a delivering peer holds a regular slot"
    );
    assert!(
        selected.contains(&3),
        "an interesting newcomer gets an optimistic slot"
    );
    let seeding = select_upload_sessions(TorrentState::Seeding, &candidates, 0, &transfer);
    assert!(seeding.contains(&1), "seeding ignores interest");
}

#[test]
fn seeding_upload_slots_prefer_recent_rate_and_keep_optimistic_slots() {
    let transfer = TransferPolicy {
        upload_slots: 8,
        optimistic_upload_slots: 2,
        ..TransferPolicy::default()
    };
    let candidates = (0_u64..12)
        .map(|session| UploadCandidate {
            session,
            contribution_score: 0,
            verified_rate: 0,
            recent_upload: session * 1024,
            eligible: true,
            interesting: false,
        })
        .collect::<Vec<_>>();
    let selected = select_upload_sessions(TorrentState::Seeding, &candidates, 0, &transfer);
    assert_eq!(selected.len(), 10);
    for fast in 4_u64..12 {
        assert!(selected.contains(&fast));
    }
}

#[test]
fn downloading_upload_credit_is_strictly_reciprocal_after_bootstrap() {
    let transfer = TransferPolicy::default();
    let now = 5_000_000_000;
    let balanced = PeerReputation {
        verified_from: 32 * 1024 * 1024,
        uploaded_to: 32 * 1024 * 1024,
        ..PeerReputation::new(now)
    };
    assert!(has_reciprocal_upload_credit(&transfer, balanced, now, credit(1.0, balanced)));
    assert_eq!(reciprocal_contribution(balanced), 0);

    let exhausted = PeerReputation {
        uploaded_to: balanced
            .verified_from
            .saturating_add(RECIPROCAL_BOOTSTRAP_BYTES),
        ..balanced
    };
    assert!(!has_reciprocal_upload_credit(&transfer, exhausted, now, credit(1.0, exhausted)));
    assert!(
        !has_reciprocal_upload_credit(&transfer, balanced, now, credit(0.5, balanced)),
        "half ratio halves the credit"
    );
    assert!(has_reciprocal_upload_credit(&transfer, exhausted, now, credit(0.0, exhausted)));

    let contributor = PeerReputation {
        verified_from: 64 * 1024 * 1024,
        uploaded_to: 16 * 1024 * 1024,
        ..PeerReputation::new(now)
    };
    assert_eq!(reciprocal_contribution(contributor), 48 * 1024 * 1024);
}

#[test]
fn the_bootstrap_grows_by_the_hour() {
    let transfer = TransferPolicy::default();
    let hour = 3_600_000_000_000;
    let peer = PeerReputation {
        uploaded_to: RECIPROCAL_BOOTSTRAP_BYTES,
        ..PeerReputation::new(0)
    };
    assert!(!has_reciprocal_upload_credit(&transfer, peer, hour - 1, Credit::Earned(0)));
    assert!(has_reciprocal_upload_credit(&transfer, peer, hour, Credit::Earned(0)));
}

#[test]
fn failures_cost_contribution() {
    let peer = PeerReputation {
        verified_from: 3 * 1024 * 1024,
        failures: 2,
        ..PeerReputation::new(0)
    };
    assert_eq!(reciprocal_contribution(peer), 1024 * 1024);
    let worse = PeerReputation { failures: 9, ..peer };
    assert_eq!(reciprocal_contribution(worse), 0);
}

#[test]
fn upload_limiter_delays_once_the_bucket_is_empty() {
    let mut limiter = UploadLimiter::default();
    let millisecond = 1_000_000;
    assert_eq!(limiter.charge(0, 1 << 30, millisecond), 0, "unlimited");
    assert_eq!(limiter.charge(1_000_000, 500_000, millisecond), 0);
    assert_eq!(limiter.charge(1_000_000, 500_000, millisecond), 0);
    let wait = limiter.charge(1_000_000, 250_000, millisecond);
    assert!(
        wait >= 200 * millisecond && wait <= 260 * millisecond,
        "{wait:?}"
    );
    assert_eq!(wait, 250 * millisecond);
    assert_eq!(
        limiter.charge(1_000_000, 0, 251 * millisecond),
        0,
        "waiting settles the debt"
    );
}

#[test]
fn exhausted_peer_cannot_consume_regular_or_optimistic_upload_slot() {
    let candidates = [
        UploadCandidate {
            session: 1,
            contribution_score: u64::MAX,
            recent_upload: u64::MAX,
            verified_rate: 0,
            eligible: false,
            interesting: true,
        },
        UploadCandidate {
            session: 2,
            contribution_score: 1024,
            recent_upload: 0,
            verified_rate: 0,
            eligible: true,
            interesting: true,
        },
        UploadCandidate {
            session: 3,
            contribution_score: 0,
            recent_upload: 0,
            verified_rate: 0,
            eligible: true,
            interesting: true,
        },
    ];
    let transfer = TransferPolicy {
        upload_slots: 8,
        optimistic_upload_slots: 2,
        ..TransferPolicy::default()
    };
    let selected = select_upload_sessions(TorrentState::Downloading, &candidates, 0, &transfer);
    assert!(!selected.contains(&1));
    assert!(selected.contains(&2));
    assert!(selected.contains(&3));
}

fn peer(last: u8) -> PeerKey {
    PeerKey {
        ip: IpAddress::V4(0x0a00_0000 | u32::from(last)),
        peer_id: PeerId::from_bytes([last; 20]),
    }
}

#[test]
fn sessions_are_choked_and_unchoked_by_rounds() {
    let torrent = TorrentId { value: 1 };
    let transfer = TransferPolicy {
        upload_slots: 1,
        optimistic_upload_slots: 0,
        ..TransferPolicy::default()
    };
    let standing = vec![TorrentStanding {
        id: torrent,
        state: TorrentState::Seeding,
        capped: false,
    }];
    let mut policy = UploadPolicy::new();
    policy.open_session(7, torrent, peer(7), false);
    policy.open_session(8, torrent, peer(8), false);
    policy.set_upload_interest(&transfer, 7, true, 0, Credit::Unlimited);
    policy.set_upload_interest(&transfer, 8, true, 0, Credit::Unlimited);
    policy.record_peer_upload(torrent, 8, peer(8), 4096, 0);
    let credits = vec![Credit::Unlimited; 2];
    assert_eq!(policy.verified_by_session(0), vec![0, 0]);
    let actions = policy.rebalance_upload_slots(&standing, &transfer, &credits, 10_000_000_000);
    let unchoked: Vec<u64> = policy
        .sessions
        .iter()
        .filter(|session| session.unchoked)
        .map(|session| session.session)
        .collect();
    assert_eq!(unchoked, [8], "the faster peer keeps the only slot");
    assert!(actions
        .iter()
        .all(|action| *action != ChokeAction { session: 8, unchoked: false }));

    let capped = vec![TorrentStanding { capped: true, ..standing[0] }];
    policy.rebalance_upload_slots(&capped, &transfer, &credits, 20_000_000_000);
    assert!(policy.sessions.iter().all(|session| !session.unchoked));
}

#[test]
fn sessions_are_numbered_and_closed() {
    let torrent = TorrentId { value: 1 };
    let mut policy = UploadPolicy::new();
    let first = policy.register_upload_session(torrent, peer(1), true);
    let second = policy.register_upload_session(torrent, peer(2), true);
    assert_ne!(first, second);
    policy.close_session(first);
    assert_eq!(policy.sessions.len(), 1);
    assert_eq!(policy.sessions[0].session, second);
}

#[test]
fn a_peer_without_credit_is_sent_nothing() {
    let torrent = TorrentId { value: 1 };
    let transfer = TransferPolicy::default();
    let mut policy = UploadPolicy::new();
    policy.open_session(1, torrent, peer(1), true);
    policy.set_upload_interest(&transfer, 1, true, 0, Credit::Earned(0));
    assert!(policy.upload_allowed(&transfer, 1, 0, Credit::Earned(0)));
    policy.record_peer_upload(torrent, 1, peer(1), RECIPROCAL_BOOTSTRAP_BYTES, 0);
    assert!(!policy.upload_allowed(&transfer, 1, 0, Credit::Earned(0)));
    policy.record_verified_download(torrent, peer(1), 1024, 0);
    assert_eq!(policy.session_verified(1, 0), 1024);
    policy.record_peer_failure(torrent, peer(1), 0);
    assert_eq!(policy.reputation(torrent, &peer(1), 0).failures, 1);
}
