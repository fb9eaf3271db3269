//! Supervisor timer: 10 ms ticks.
//!
//! The next deadline is `now + period`, not `last deadline + period`, so a
//! long handler cannot leave the comparator in the past. The tick count
//! wraps. A tick is reported for the first three and then every tenth.

use vstd::prelude::*;

verus! {

/// Timebase of the QEMU `virt` machine: 10 MHz.
pub const TIMEBASE_HZ: usize = 10_000_000;
/// Nanoseconds per `rdtime` tick.
pub const TICK_NS: usize = 100;
/// 100_000 ticks = 10 ms.
pub const PERIOD: usize = 100_000;
/// 1 ms, for the allocator stress run.
pub const PERIOD_1MS: usize = 10_000;

pub struct Timer {
    pub period: usize,
    pub ticks: usize,
}

pub open spec fn wrap_add(a: usize, b: usize) -> usize {
    if a + b > usize::MAX {
        (a + b - usize::MAX - 1) as usize
    } else {
        (a + b) as usize
    }
}

impl Timer {
    /// Ten-millisecond period, no ticks yet.
    pub fn new() -> (t: Timer)
        ensures
            t.period == PERIOD,
            t.ticks == 0,
    {
        Timer { period: PERIOD, ticks: 0 }
    }

    /// The next deadline, `now + period` (wrapping), given the current
    /// `rdtime`.
    pub fn arm(&self, now: usize) -> (deadline: usize)
        ensures
            deadline == wrap_add(now, self.period),
    {
        now.wrapping_add(self.period)
    }

    /// Use `ticks` for the next deadlines. The period is never zero.
    pub fn set_period(&mut self, ticks: usize)
        requires
            ticks > 0,
        ensures
            final(self).period == ticks,
            final(self).ticks == old(self).ticks,
    {
        self.period = ticks;
    }

    pub fn ticks(&self) -> (r: usize)
        ensures
            r == self.ticks,
    {
        self.ticks
    }

    /// Count a timer interrupt. Returns whether the tick is reported: the
    /// first three, then every tenth.
    pub fn on_interrupt(&mut self) -> (report: bool)
        ensures
            final(self).ticks == wrap_add(old(self).ticks, 1),
            final(self).period == old(self).period,
            report == (final(self).ticks <= 3 || final(self).ticks % 10 == 0),
    {
        let n = self.ticks.wrapping_add(1);
        self.ticks = n;
        n <= 3 || n % 10 == 0
    }
}

} // verus!
