use std::time::{Duration, Instant};
use vstd::prelude::*;

use crate::timer::{duration_nanos, instant_diff, instant_sub};

verus! {

/// Turns on at most once per interval.
pub struct PeriodicToggle {
    interval: Duration,
    last: Instant,
}

impl PeriodicToggle {
    /// The shortest span between two readings of `true`.
    pub closed spec fn interval(&self) -> Duration {
        self.interval
    }

    /// The instant of the last reading of `true`, or of construction.
    pub closed spec fn last(&self) -> Instant {
        self.last
    }

    pub fn new(interval: Duration) -> (r: Self)
        ensures
            r.interval() == interval,
    {
        PeriodicToggle { interval, last: Instant::now() }
    }

    /// `true` when a whole interval has passed since `last`, which then moves to now.
    pub fn get(&mut self) -> (r: bool)
        ensures
            final(self).interval() == old(self).interval(),
            exists|now: Instant|
                {
                    &&& (r <==> duration_nanos(instant_diff(now, old(self).last())) >= duration_nanos(
                        old(self).interval(),
                    ))
                    &&& final(self).last() == (if r {
                        now
                    } else {
                        old(self).last()
                    })
                },
    {
        let now = Instant::now();
        assert(instant_diff(now, self.last) == instant_diff(now, old(self).last()));
        let elapsed = instant_sub(now, self.last);
        if elapsed.as_nanos() < self.interval.as_nanos() {
            return false;
        }
        self.last = now;
        assert(self.last() == now);
        true
    }
}

} // verus!
