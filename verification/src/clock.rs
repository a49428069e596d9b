//! The simulation clock: a repeating timer fed with the time that each tick
//! took, in microseconds.

use vstd::prelude::*;

verus! {

/// A timer that fires each time a full period has gone by.
#[derive(Clone, Copy, Debug, PartialEq, Eq, Structural)]
pub struct Timer {
    /// The period in microseconds. A timer with period 0 fires at every tick.
    pub period: u64,
    /// The time gone by since the timer last fired.
    pub elapsed: u64,
}

impl Timer {
    /// The time gone by is short of a full period.
    pub open spec fn wf(self) -> bool {
        if self.period == 0 {
            self.elapsed == 0
        } else {
            self.elapsed < self.period
        }
    }

    /// Whether a tick of length `dt` makes the timer fire.
    pub open spec fn fires(self, dt: int) -> bool {
        self.elapsed + dt >= self.period
    }

    /// The timer after a tick of length `dt`: what is left over of the time
    /// gone by once every full period is taken off.
    pub open spec fn ticked(self, dt: int) -> Timer {
        Timer {
            period: self.period,
            elapsed: if self.period == 0 {
                0
            } else {
                ((self.elapsed + dt) % (self.period as int)) as u64
            },
        }
    }

    /// A timer of the period given, with no time gone by.
    pub fn new(period: u64) -> (t: Timer)
        ensures
            t == (Timer { period, elapsed: 0 }),
            t.wf(),
    {
        Timer { period, elapsed: 0 }
    }

    /// Lets `dt` microseconds go by and says whether the timer fired.
    pub fn tick(&mut self, dt: u64) -> (fired: bool)
        requires
            old(self).wf(),
        ensures
            final(self).wf(),
            *final(self) == old(self).ticked(dt as int),
            fired == old(self).fires(dt as int),
    {
        if self.period == 0 {
            return true;
        }
        let total: u128 = self.elapsed as u128 + dt as u128;
        let fired: bool = total >= self.period as u128;
        let rest: u128 = total % (self.period as u128);
        self.elapsed = rest as u64;
        fired
    }
}

} // verus!
