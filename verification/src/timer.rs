//! A repeating interval timer, driven by the elapsed real time the caller
//! measures each tick. Both cadences of the protocol use it: the server's
//! broadcast interval and the client's movement-submission interval.

use vstd::prelude::*;

verus! {

/// A repeating timer: fires whenever the accumulated elapsed time reaches
/// its interval, and keeps the remainder so cadence drift stays bounded.
#[derive(Debug, Clone, Copy, PartialEq, Eq, Structural)]
pub struct RepeatingTimer {
    /// Milliseconds accumulated since the last time the timer fired.
    pub elapsed_millis: u64,
    /// The repeat interval, in milliseconds; always positive.
    pub interval_millis: u64,
}

impl RepeatingTimer {
    /// Well-formed: the interval is positive and the accumulator has not
    /// reached it.
    pub open spec fn wf(&self) -> bool {
        self.interval_millis > 0 && self.elapsed_millis < self.interval_millis
    }

    pub fn new(interval_millis: u64) -> (t: RepeatingTimer)
        requires
            interval_millis > 0,
        ensures
            t.wf(),
            t.interval_millis == interval_millis,
            t.elapsed_millis == 0,
    {
        RepeatingTimer { elapsed_millis: 0, interval_millis }
    }

    /// Advance the timer by the elapsed real time. Fires exactly when the
    /// accumulated time reaches the interval; the accumulator then keeps
    /// the remainder modulo the interval.
    pub fn tick(&mut self, delta_millis: u64) -> (fired: bool)
        requires
            old(self).wf(),
        ensures
            final(self).wf(),
            final(self).interval_millis == old(self).interval_millis,
            fired <==> old(self).elapsed_millis + delta_millis >= old(self).interval_millis,
            fired ==> final(self).elapsed_millis == (old(self).elapsed_millis + delta_millis) % (
            old(self).interval_millis as int),
            !fired ==> final(self).elapsed_millis == old(self).elapsed_millis + delta_millis,
    {
        let fired = delta_millis >= self.interval_millis - self.elapsed_millis;
        if fired {
            let total: u128 = self.elapsed_millis as u128 + delta_millis as u128;
            let rest: u128 = total % (self.interval_millis as u128);
            self.elapsed_millis = rest as u64;
        } else {
            self.elapsed_millis = self.elapsed_millis + delta_millis;
        }
        fired
    }
}

} // verus!
