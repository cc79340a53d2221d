//! Limits that follow from rates, and back-off.

use dendrite::rates::{
    assignment_target, next_accept_error_backoff, outbound_connection_limit,
    per_torrent_peer_limit, pipeline_limit, RateEstimator, ACCEPT_ERROR_BACKOFF_MAX_NANOS,
    ACCEPT_ERROR_BACKOFF_MIN_NANOS, ASSIGNMENT_TARGET_MAX, ASSIGNMENT_TARGET_MIN, BLOCK_BYTES,
    BLOCK_PIPELINE, BLOCK_PIPELINE_MAX,
};

#[test]
fn assignment_target_and_pipeline_scale_with_rate() {
    assert_eq!(assignment_target(0), ASSIGNMENT_TARGET_MIN);
    assert_eq!(assignment_target(8 * 1024 * 1024), 8 * 1024 * 1024);
    assert_eq!(assignment_target(u64::MAX), ASSIGNMENT_TARGET_MAX);
    assert_eq!(pipeline_limit(0), BLOCK_PIPELINE);
    assert_eq!(
        pipeline_limit(2 * 1024 * 1024),
        2 * 1024 * 1024 * 3 / BLOCK_BYTES
    );
    assert_eq!(pipeline_limit(u64::MAX), BLOCK_PIPELINE_MAX);
}

#[test]
fn repeated_accept_failures_back_off_without_overflowing() {
    let mut delay = ACCEPT_ERROR_BACKOFF_MIN_NANOS;
    for _ in 0..32 {
        let next = next_accept_error_backoff(delay);
        assert!(next >= delay);
        assert!(next <= ACCEPT_ERROR_BACKOFF_MAX_NANOS);
        delay = next;
    }
    assert_eq!(delay, ACCEPT_ERROR_BACKOFF_MAX_NANOS);
    assert_eq!(outbound_connection_limit(1), 1);
    assert_eq!(outbound_connection_limit(2), 1);
    assert_eq!(outbound_connection_limit(1_000), 750);
    assert_eq!(outbound_connection_limit(10_000), 9_744);
}

#[test]
fn accept_back_off_doubles() {
    assert_eq!(next_accept_error_backoff(10_000_000), 20_000_000);
    assert_eq!(next_accept_error_backoff(600_000_000), 1_000_000_000);
    assert_eq!(next_accept_error_backoff(u64::MAX), 1_000_000_000);
}

#[test]
fn torrents_share_the_connections() {
    assert_eq!(per_torrent_peer_limit(0), 1);
    assert_eq!(per_torrent_peer_limit(100_000), 512);
    assert_eq!(outbound_connection_limit(0), 1);
}

#[test]
fn a_steady_peer_is_measured() {
    let mut estimator = RateEstimator::new(0);
    assert_eq!(estimator.bytes_per_second(), 0);
    estimator.observe(100_000, 100_000_000);
    assert_eq!(estimator.bytes_per_second(), 0, "a sample takes a quarter of a second");
    estimator.observe(400_000, 500_000_000);
    assert_eq!(estimator.bytes_per_second(), 1_000_000);
}
