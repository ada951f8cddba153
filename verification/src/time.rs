//! Points in time, in nanoseconds of a clock that never runs backwards.

use vstd::prelude::*;

verus! {

/// How often receivers report.
pub const STATS_INTERVAL: u64 = 100_000_000;

/// How long a request for repairs stands before it is repeated.
pub const RENAK_INTERVAL: u64 = 200_000_000;

/// How long the sender does not send a shard again that it just sent.
pub const HOLDOFF: u64 = 150_000_000;

/// How long a peer may be silent before it is given up.
pub const SILENCE_TIMEOUT: u64 = 10_000_000_000;

/// How long ago a point in time was: nothing, where it is yet to come.
pub open spec fn since(earlier: u64, now: u64) -> u64 {
    if now >= earlier {
        (now - earlier) as u64
    } else {
        0
    }
}

/// How long ago a point in time was.
pub fn elapsed(earlier: u64, now: u64) -> (span: u64)
    ensures
        span == since(earlier, now),
{
    now.saturating_sub(earlier)
}

/// A point in time and how long ago it was make up now, and a point in time that is yet
/// to come was not long ago.
pub proof fn time_adds_up(earlier: u64, now: u64)
    ensures
        earlier <= now ==> earlier + since(earlier, now) == now,
        earlier >= now ==> since(earlier, now) == 0,
{
}

/// A request that is repeated comes when what it asks for is not held off any more, and
/// reports come often enough that no peer that reports is given up.
pub proof fn intervals_fit_together(asked: u64, again: u64)
    requires
        again >= asked + RENAK_INTERVAL,
    ensures
        again - asked >= HOLDOFF,
        STATS_INTERVAL < HOLDOFF < RENAK_INTERVAL,
        10 * RENAK_INTERVAL < SILENCE_TIMEOUT,
{
}

} // verus!
