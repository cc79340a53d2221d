//! How fast peers deliver, and the limits that follow from it. Times are in
//! nanoseconds on a clock that never goes back.

use crate::num::{
    clamp_of, clamp_usize, div_ceil_of, div_ceil_usize, max_of, min_of, min_u64,
    saturating_mul_u64, to_usize,
};
use vstd::prelude::*;

verus! {

/// The size of the blocks that pieces are requested in.
pub const BLOCK_BYTES: usize = 16384;

/// How many blocks are requested ahead of a slow peer.
pub const BLOCK_PIPELINE: usize = 128;

/// How many requests a peer may have queued.
pub const REQUEST_QUEUE_LIMIT: usize = 2048;

pub const BLOCK_PIPELINE_MAX: usize = REQUEST_QUEUE_LIMIT;

pub const PIPELINE_TARGET_SECONDS: u64 = 3;

pub const ASSIGNMENT_TARGET_MIN: usize = 2097152;

pub const ASSIGNMENT_TARGET_MAX: usize = 16777216;

pub const ASSIGNMENT_TARGET_SECONDS: u64 = 1;

pub const RATE_SAMPLE_NANOS: u64 = 250_000_000;

/// The most peers that one torrent keeps.
pub const ACTIVE_PEER_LIMIT: usize = 512;

/// The most incoming peers that are kept room for.
pub const INCOMING_PEER_LIMIT: usize = 256;

pub const ACCEPT_ERROR_BACKOFF_MIN_NANOS: u64 = 10_000_000;

pub const ACCEPT_ERROR_BACKOFF_MAX_NANOS: u64 = 1_000_000_000;

/// How many blocks to request ahead of a peer: three seconds' worth of what it
/// delivers, within bounds.
pub open spec fn pipeline_limit_of(rate: int) -> int {
    clamp_of(
        min_of(min_of(rate * 3, u64::MAX as int) / 16384, usize::MAX as int),
        BLOCK_PIPELINE as int,
        BLOCK_PIPELINE_MAX as int,
    )
}

pub fn pipeline_limit(rate_bytes_per_second: u64) -> (blocks: usize)
    ensures
        blocks == pipeline_limit_of(rate_bytes_per_second as int),
{
    let wanted: u64 = saturating_mul_u64(rate_bytes_per_second, PIPELINE_TARGET_SECONDS)
        / BLOCK_BYTES as u64;
    let wanted: usize = match to_usize(wanted) {
        Some(wanted) => wanted,
        None => usize::MAX,
    };
    clamp_usize(wanted, BLOCK_PIPELINE, BLOCK_PIPELINE_MAX)
}

/// How many bytes of pieces to assign to a peer: a second's worth of what it
/// delivers, within bounds.
pub open spec fn assignment_target_of(rate: int) -> int {
    clamp_of(
        min_of(rate, usize::MAX as int),
        ASSIGNMENT_TARGET_MIN as int,
        ASSIGNMENT_TARGET_MAX as int,
    )
}

pub fn assignment_target(rate_bytes_per_second: u64) -> (bytes: usize)
    ensures
        bytes == assignment_target_of(rate_bytes_per_second as int),
{
    let target: u64 = saturating_mul_u64(rate_bytes_per_second, ASSIGNMENT_TARGET_SECONDS);
    let target: usize = match to_usize(target) {
        Some(target) => target,
        None => usize::MAX,
    };
    clamp_usize(target, ASSIGNMENT_TARGET_MIN, ASSIGNMENT_TARGET_MAX)
}

/// A peer that delivers faster is never given less.
pub proof fn law_targets_scale_with_rate(slow: int, fast: int)
    requires
        0 <= slow <= fast,
    ensures
        assignment_target_of(slow) <= assignment_target_of(fast),
        pipeline_limit_of(slow) <= pipeline_limit_of(fast),
        ASSIGNMENT_TARGET_MIN <= assignment_target_of(slow) <= ASSIGNMENT_TARGET_MAX,
        BLOCK_PIPELINE <= pipeline_limit_of(slow) <= BLOCK_PIPELINE_MAX,
{
}

/// A quarter of all connections, and at least one.
pub open spec fn per_torrent_peer_limit_of(global: int) -> int {
    clamp_of(div_ceil_of(global, 4), 1, ACTIVE_PEER_LIMIT as int)
}

pub fn per_torrent_peer_limit(global_limit: usize) -> (limit: usize)
    ensures
        limit == per_torrent_peer_limit_of(global_limit as int),
{
    clamp_usize(div_ceil_usize(global_limit, 4), 1, ACTIVE_PEER_LIMIT)
}

/// What remains for outgoing connections once a quarter is kept for incoming ones.
pub open spec fn outbound_connection_limit_of(global: int) -> int {
    if global == 1 {
        1
    } else {
        max_of(global - clamp_of(div_ceil_of(global, 4), 1, INCOMING_PEER_LIMIT as int), 1)
    }
}

pub fn outbound_connection_limit(global_limit: usize) -> (limit: usize)
    ensures
        limit == outbound_connection_limit_of(global_limit as int),
{
    if global_limit == 1 {
        return 1;
    }
    let inbound_reserve: usize = clamp_usize(
        div_ceil_usize(global_limit, 4),
        1,
        INCOMING_PEER_LIMIT,
    );
    let rest: usize = global_limit.saturating_sub(inbound_reserve);
    if rest > 1 {
        rest
    } else {
        1
    }
}

/// Outgoing connections never take every slot of a daemon that has at least two.
pub proof fn law_incoming_peers_keep_room(global: int)
    requires
        global >= 2,
    ensures
        1 <= outbound_connection_limit_of(global) < global,
{
}

/// The next delay after another failure to accept: twice as long, within bounds.
pub open spec fn next_backoff_of(current: int) -> int {
    min_of(current * 2, ACCEPT_ERROR_BACKOFF_MAX_NANOS as int)
}

pub fn next_accept_error_backoff(current_nanos: u64) -> (next: u64)
    ensures
        next == next_backoff_of(current_nanos as int),
{
    min_u64(saturating_mul_u64(current_nanos, 2), ACCEPT_ERROR_BACKOFF_MAX_NANOS)
}

/// The delay after `n` more failures in a row.
pub open spec fn backoff_after(start: int, n: nat) -> int
    decreases n,
{
    if n == 0 {
        start
    } else {
        next_backoff_of(backoff_after(start, (n - 1) as nat))
    }
}

/// Repeated failures never shorten the delay, never take it past the bound,
/// and reach the bound after seven of them.
pub proof fn law_backoff_grows_to_bound(n: nat)
    ensures
        ACCEPT_ERROR_BACKOFF_MIN_NANOS <= backoff_after(ACCEPT_ERROR_BACKOFF_MIN_NANOS as int, n)
            <= ACCEPT_ERROR_BACKOFF_MAX_NANOS,
        backoff_after(ACCEPT_ERROR_BACKOFF_MIN_NANOS as int, n) <= backoff_after(
            ACCEPT_ERROR_BACKOFF_MIN_NANOS as int,
            n + 1,
        ),
        n >= 7 ==> backoff_after(ACCEPT_ERROR_BACKOFF_MIN_NANOS as int, n)
            == ACCEPT_ERROR_BACKOFF_MAX_NANOS,
    decreases n,
{
    if n > 0 {
        law_backoff_grows_to_bound((n - 1) as nat);
        if n == 7 {
            reveal_with_fuel(backoff_after, 8);
        }
    }
}

/// Exponentially weighted bytes-per-second estimate over windows of a quarter
/// of a second.
#[derive(Clone, Copy, Debug, Eq, PartialEq, Structural)]
pub struct RateEstimator {
    pub window_start: u64,
    pub window_bytes: u64,
    pub rate: u64,
}

/// The estimate after a window: the first sample counts in full, a later one
/// for a quarter.
pub open spec fn next_rate(rate: int, window_bytes: int, millis: int) -> int {
    let sample = min_of(window_bytes * 1000, u64::MAX as int) / millis;
    if rate == 0 {
        sample
    } else {
        min_of(min_of(rate * 3, u64::MAX as int) + sample, u64::MAX as int) / 4
    }
}

/// The estimator after bytes have arrived.
pub open spec fn observed(e: RateEstimator, bytes: int, now: int) -> RateEstimator {
    let window_bytes = min_of(e.window_bytes + bytes, u64::MAX as int);
    let elapsed = max_of(now - e.window_start, 0);
    if elapsed >= RATE_SAMPLE_NANOS {
        RateEstimator {
            window_start: now as u64,
            window_bytes: 0,
            rate: next_rate(e.rate as int, window_bytes, elapsed / 1_000_000) as u64,
        }
    } else {
        RateEstimator { window_bytes: window_bytes as u64, ..e }
    }
}

impl RateEstimator {
    pub fn new(now: u64) -> (estimator: Self)
        ensures
            estimator == (RateEstimator { window_start: now, window_bytes: 0, rate: 0 }),
    {
        Self { window_start: now, window_bytes: 0, rate: 0 }
    }

    pub fn observe(&mut self, bytes: usize, now: u64)
        ensures
            *final(self) == observed(*old(self), bytes as int, now as int),
    {
        self.window_bytes = self.window_bytes.saturating_add(bytes as u64);
        let elapsed: u64 = now.saturating_sub(self.window_start);
        if elapsed >= RATE_SAMPLE_NANOS {
            let millis: u64 = elapsed / 1_000_000;
            let sample: u64 = saturating_mul_u64(self.window_bytes, 1000) / millis;
            self.rate = if self.rate == 0 {
                sample
            } else {
                saturating_mul_u64(self.rate, 3).saturating_add(sample) / 4
            };
            self.window_bytes = 0;
            self.window_start = now;
        }
    }

    pub fn bytes_per_second(&self) -> (rate: u64)
        ensures
            rate == self.rate,
    {
        self.rate
    }
}

/// The blocks requested ahead hold what the peer delivers in three seconds, to
/// the block, but are never fewer than 128 or more than 2048.
pub proof fn law_pipeline_holds_three_seconds(rate: u64)
    ensures
        3 * rate < 129 * 16384 ==> pipeline_limit_of(rate as int) == 128,
        128 * 16384 <= 3 * rate < 2048 * 16384 ==> pipeline_limit_of(rate as int) * 16384 <= 3
            * rate < (pipeline_limit_of(rate as int) + 1) * 16384,
        3 * rate >= 2048 * 16384 ==> pipeline_limit_of(rate as int) == 2048,
{
}

/// The pieces assigned hold what the peer delivers in a second, but never less
/// than two mebibytes or more than sixteen.
pub proof fn law_assignment_holds_a_second(rate: u64)
    ensures
        rate <= 2 * 1048576 ==> assignment_target_of(rate as int) == 2 * 1048576,
        2 * 1048576 <= rate <= 16 * 1048576 ==> assignment_target_of(rate as int) == rate,
        rate >= 16 * 1048576 ==> assignment_target_of(rate as int) == 16 * 1048576,
{
}

/// A torrent may have a quarter of all connections, rounded up, but at least one
/// and at most 512.
pub proof fn law_torrent_has_a_quarter(global: usize)
    ensures
        ({
            let limit = per_torrent_peer_limit_of(global as int);
            &&& 1 <= limit <= 512
            &&& limit > 1 ==> 4 * (limit - 1) < global
            &&& limit < 512 ==> global <= 4 * limit
        }),
{
}

/// Outgoing connections leave a quarter of all connections, rounded up, to
/// incoming ones, but no more than 256 and never the last one.
pub proof fn law_outbound_leaves_a_quarter(global: usize)
    ensures
        ({
            let limit = outbound_connection_limit_of(global as int);
            let left = global - limit;
            &&& global <= 2 ==> limit == 1
            &&& global >= 2 ==> 1 <= left <= 256
            &&& global >= 2 && left < 256 ==> global <= 4 * left
            &&& global > 2 ==> 4 * (left - 1) < global
        }),
{
}

/// Each failure to accept doubles the delay, up to one second.
pub proof fn law_backoff_doubles(current: u64)
    ensures
        current <= 500_000_000 ==> next_backoff_of(current as int) == 2 * current,
        current >= 500_000_000 ==> next_backoff_of(current as int) == 1_000_000_000,
{
}

/// Bytes that arrive within a quarter of a second are counted together, and
/// neither the estimate nor the start of the window moves.
pub proof fn law_window_gathers_bytes(e: RateEstimator, first: usize, second: usize, now: u64)
    requires
        e.window_start <= now < e.window_start + 250_000_000,
        e.window_bytes + first + second <= u64::MAX,
    ensures
        observed(observed(e, first as int, now as int), second as int, now as int) == (
        RateEstimator { window_bytes: (e.window_bytes + first + second) as u64, ..e }),
{
}

/// A window that has lasted a quarter of a second gives a sample, the bytes
/// counted in it for each second of it, and a new window begins. The first
/// sample is the estimate; a later one counts for a quarter of it, what was
/// estimated before for the rest.
pub proof fn law_estimate_follows_the_sample(e: RateEstimator, bytes: usize, now: u64, sample: int)
    requires
        now >= e.window_start + 250_000_000,
        e.window_bytes + bytes <= 0x10_0000_0000_0000,
        e.rate <= 0x1000_0000_0000_0000,
        ({
            let millis = (now - e.window_start) / 1_000_000;
            sample * millis <= 1000 * (e.window_bytes + bytes) < (sample + 1) * millis
        }),
    ensures
        ({
            let after = observed(e, bytes as int, now as int);
            &&& after.window_start == now
            &&& after.window_bytes == 0
            &&& e.rate == 0 ==> after.rate == sample
            &&& e.rate > 0 ==> 4 * after.rate <= 3 * e.rate + sample < 4 * (after.rate + 1)
        }),
{
    let millis = (now - e.window_start) / 1_000_000;
    let total = 1000 * (e.window_bytes + bytes);
    assert(millis >= 250);
    assert(total / millis == sample) by (nonlinear_arith)
        requires
            millis > 0,
            sample * millis <= total < (sample + 1) * millis,
    ;
    assert(0 <= sample <= total) by (nonlinear_arith)
        requires
            millis > 0,
            total >= 0,
            sample * millis <= total < (sample + 1) * millis,
    ;
}

} // verus!
