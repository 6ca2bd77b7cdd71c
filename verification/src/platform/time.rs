//! Points on the monotonic clock, for the caret blink, key repeat and
//! double-click detection. The clock is read by the caller.
use vstd::prelude::*;

use crate::platform::syscall::kernel_timespec;

verus! {

/// A point on the monotonic clock, in nanoseconds since an arbitrary epoch.
#[derive(Clone, Copy, Debug, PartialEq, Eq, PartialOrd, Ord)]
pub struct Instant {
    nanos: u64,
}

impl Instant {
    pub closed spec fn at(&self) -> u64 {
        self.nanos
    }

    /// Whole milliseconds from an earlier instant; none from a later one.
    pub open spec fn ms_after(self, earlier: Instant) -> int {
        if self.at() >= earlier.at() {
            (self.at() - earlier.at()) / 1_000_000
        } else {
            0
        }
    }

    /// The instant a reading of the monotonic clock stands for.
    pub fn now(ts: kernel_timespec) -> (r: Self)
        ensures
            r.at() == (ts.tv_sec as u64).wrapping_mul(1_000_000_000).wrapping_add(
                ts.tv_nsec as u64,
            ),
    {
        Instant {
            nanos: (ts.tv_sec as u64).wrapping_mul(1_000_000_000).wrapping_add(ts.tv_nsec as u64),
        }
    }

    /// Milliseconds from this instant to `now` (saturating at zero).
    pub fn elapsed_ms(&self, now: Instant) -> (r: u64)
        ensures
            r == now.ms_after(*self),
    {
        now.nanos.saturating_sub(self.nanos) / 1_000_000
    }

    /// Milliseconds from earlier to this instant (saturating at zero).
    pub fn ms_since(&self, earlier: Instant) -> (r: u64)
        ensures
            r == self.ms_after(earlier),
    {
        self.nanos.saturating_sub(earlier.nanos) / 1_000_000
    }
}

/// A reading in the clock's ordinary range is its seconds and nanoseconds.
pub proof fn law_readings_count_nanoseconds(ts: kernel_timespec)
    requires
        0 <= ts.tv_sec <= 0x1_0000_0000,
        0 <= ts.tv_nsec < 1_000_000_000,
    ensures
        (ts.tv_sec as u64).wrapping_mul(1_000_000_000).wrapping_add(ts.tv_nsec as u64)
            == ts.tv_sec * 1_000_000_000 + ts.tv_nsec,
{
}

} // verus!
