//! The kernel's logical clock.
use vstd::prelude::*;

verus! {

/// Ticks of the logical clock in one second.
pub const TICKS_PER_SEC: u64 = 1000;

/// A monotonic logical clock, counted in ticks.
#[derive(Clone, Copy, Debug, PartialEq, Eq, Structural)]
pub struct Clock {
    ticks: u64,
}

impl Clock {
    /// The tick count.
    pub closed spec fn ticks(self) -> u64 {
        self.ticks
    }

    /// A clock at tick zero.
    pub fn new() -> (c: Clock)
        ensures
            c.ticks() == 0,
    {
        Clock { ticks: 0 }
    }

    /// The current time.
    pub fn now(&self) -> (r: u64)
        ensures
            r == self.ticks(),
    {
        self.ticks
    }

    /// Moves the clock forward to `t`; the clock never goes back.
    pub fn advance_to(&mut self, t: u64)
        requires
            old(self).ticks() <= t,
        ensures
            final(self).ticks() == t,
    {
        self.ticks = t;
    }
}

} // verus!
