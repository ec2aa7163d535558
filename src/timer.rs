//! A millisecond countdown that paces every timed transition.
use vstd::prelude::*;

verus! {

/// A countdown over milliseconds.
///
/// `millis` is the configured period, `remaining` what is left of it; the
/// timer is ready once an update has brought `remaining` to zero, or after
/// `finish`.
#[derive(Debug, Clone, Copy)]
pub struct Timer {
    pub ready: bool,
    pub millis: u64,
    pub remaining: u64,
}

impl Timer {
    /// A fresh timer of the given period: the whole period remains.
    pub open spec fn fresh(millis: u64) -> Timer {
        Timer { ready: false, millis, remaining: millis }
    }

    /// What `update(delta)` leaves: the remaining time drops by `delta`,
    /// stopping at zero, and readiness says whether it reached zero.
    pub open spec fn advanced(self, delta: u64) -> Timer {
        let remaining = if self.remaining >= delta { (self.remaining - delta) as u64 } else { 0u64 };
        Timer { ready: remaining == 0, millis: self.millis, remaining }
    }

    pub fn from_millis(millis: u64) -> (r: Timer)
        ensures
            r == Timer::fresh(millis),
    {
        Timer { ready: false, millis, remaining: millis }
    }

    /// Subtracts `delta` milliseconds, saturating at zero, and returns
    /// whether the timer is now ready.
    pub fn update(&mut self, delta: u64) -> (r: bool)
        ensures
            *final(self) == old(self).advanced(delta),
            r == final(self).ready,
    {
        self.remaining = self.remaining.saturating_sub(delta);
        self.ready = self.remaining == 0;
        self.ready
    }

    /// Makes the timer ready at once.
    pub fn finish(&mut self)
        ensures
            *final(self) == (Timer { ready: true, millis: old(self).millis, remaining: 0 }),
    {
        self.remaining = 0;
        self.ready = true;
    }

    #[inline]
    pub fn ready(&self) -> (r: bool)
        ensures
            r == self.ready,
    {
        self.ready
    }

    /// Restores the configured period and clears readiness.
    pub fn reset(&mut self)
        ensures
            *final(self) == Timer::fresh(old(self).millis),
    {
        *self = Timer::from_millis(self.millis);
    }
}

} // verus!
