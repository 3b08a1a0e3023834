//! Updates of the RAM poller, and its back-off after failed polls.

use vstd::prelude::*;

use crate::error::AdbError;
use crate::poll::{backoff, backoff_interval, Interval};
use crate::stats::MemoryStats;

verus! {

/// Milliseconds between polls while they succeed.
pub const DEFAULT_POLL_MILLIS: u64 = 2000;

/// The longest wait between polls after failures, in milliseconds.
pub const MAX_BACKOFF_MILLIS: u64 = 5000;

/// How much longer each failed poll makes the wait, in milliseconds.
pub const BACKOFF_STEP_MILLIS: u64 = 1000;

/// Update from the RAM poller — memory snapshot or transient error.
#[derive(Debug, Clone, PartialEq, Eq)]
pub enum RamUpdate {
    Memory(MemoryStats),
    Error(String),
}

/// The poll interval after a failed poll: one second longer, at most five.
pub fn next_backoff_interval(current: Interval) -> (r: Interval)
    ensures
        r.millis == backoff(current.millis as nat, BACKOFF_STEP_MILLIS as nat, MAX_BACKOFF_MILLIS as nat),
{
    backoff_interval(current, Interval::from_millis(BACKOFF_STEP_MILLIS), Interval::from_millis(MAX_BACKOFF_MILLIS))
}

/// What the poller does after a poll: the next wait (back to `interval` after
/// a success, backed off after a failure) and the update it sends.
pub fn after_poll(interval: Interval, current: Interval, fetched: Result<MemoryStats, AdbError>) -> (r: (
    Interval,
    RamUpdate,
))
    ensures
        match fetched {
            Ok(m) => r.0 == interval && r.1 == RamUpdate::Memory(m),
            Err(e) => r.0.millis == backoff(current.millis as nat, BACKOFF_STEP_MILLIS as nat, MAX_BACKOFF_MILLIS as nat)
                && (r.1 matches RamUpdate::Error(msg) && msg@ == e.user_message_spec()),
        },
{
    match fetched {
        Ok(m) => (interval, RamUpdate::Memory(m)),
        Err(e) => (next_backoff_interval(current), RamUpdate::Error(e.user_message())),
    }
}

} // verus!
