//! Poll intervals and the back-off that background pollers apply after a
//! failed poll.

use vstd::prelude::*;

verus! {

/// A span of time between two polls, in milliseconds.
#[derive(Debug, Clone, Copy, PartialEq, Eq)]
pub struct Interval {
    pub millis: u64,
}

impl Interval {
    /// `secs` whole seconds.
    pub fn from_secs(secs: u64) -> (r: Interval)
        requires
            secs * 1000 <= u64::MAX,
        ensures
            r.millis == secs * 1000,
    {
        Interval { millis: secs * 1000 }
    }

    /// `millis` milliseconds.
    pub fn from_millis(millis: u64) -> (r: Interval)
        ensures
            r.millis == millis,
    {
        Interval { millis }
    }
}

/// The interval after a failed poll: one `step` longer, but never longer
/// than `max`.
pub open spec fn backoff(current: nat, step: nat, max: nat) -> nat {
    if current + step <= max {
        current + step
    } else {
        max
    }
}

/// The interval after a failed poll, as `backoff` gives it.
pub fn backoff_interval(current: Interval, step: Interval, max: Interval) -> (r: Interval)
    ensures
        r.millis == backoff(current.millis as nat, step.millis as nat, max.millis as nat),
{
    if step.millis <= max.millis && current.millis <= max.millis - step.millis {
        Interval { millis: current.millis + step.millis }
    } else {
        max
    }
}

/// The interval after `n` failed polls in a row, starting from `start`.
pub open spec fn backoff_after(start: nat, step: nat, max: nat, n: nat) -> nat
    decreases n,
{
    if n == 0 {
        start
    } else {
        backoff(backoff_after(start, step, max, (n - 1) as nat), step, max)
    }
}

/// Backing off never waits longer than the cap, once at or under it, and
/// never waits less than before.
pub proof fn backoff_bounded(current: nat, step: nat, max: nat)
    requires
        current <= max,
    ensures
        current <= backoff(current, step, max) <= max,
{
}

/// After enough failed polls in a row the interval reaches the cap and stays
/// there: from `start <= max`, each failure adds one `step > 0` until `max`.
pub proof fn backoff_reaches_cap(start: nat, step: nat, max: nat, n: nat)
    requires
        start <= max,
        step > 0,
        start + n * step >= max,
    ensures
        backoff_after(start, step, max, n) == max,
    decreases n,
{
    if n == 0 {
        assert(n * step == 0) by (nonlinear_arith)
            requires
                n == 0,
        ;
    } else {
        let prev = backoff_after(start, step, max, (n - 1) as nat);
        if start + (n - 1) * step >= max {
            backoff_reaches_cap(start, step, max, (n - 1) as nat);
        } else {
            lemma_backoff_below(start, step, max, (n - 1) as nat);
            assert(prev == start + (n - 1) * step);
            assert(start + (n - 1) * step + step == start + n * step) by (nonlinear_arith);
        }
    }
}

/// While under the cap, `n` failures add `n` steps.
proof fn lemma_backoff_below(start: nat, step: nat, max: nat, n: nat)
    requires
        start + n * step <= max,
    ensures
        backoff_after(start, step, max, n) == start + n * step,
    decreases n,
{
    if n == 0 {
        assert(n * step == 0) by (nonlinear_arith)
            requires
                n == 0,
        ;
    } else {
        assert(start + (n - 1) * step + step == start + n * step) by (nonlinear_arith);
        assert(start + (n - 1) * step <= max) by (nonlinear_arith)
            requires
                start + n * step <= max,
                n > 0,
        ;
        lemma_backoff_below(start, step, max, (n - 1) as nat);
    }
}

} // verus!
