use std::time::{Duration, Instant};
use vstd::prelude::*;

verus! {

#[verifier::external_type_specification]
#[verifier::external_body]
pub struct ExInstant(Instant);

/// The span from `earlier` to `later`, as `Instant - Instant` gives it.
pub uninterp spec fn instant_diff(later: Instant, earlier: Instant) -> Duration;

/// The length of a span in whole nanoseconds, as `Duration::as_nanos` gives it.
pub uninterp spec fn duration_nanos(d: Duration) -> u128;

/// Relies on `Instant::now`: a reading of the monotonic clock; nothing is known of its value.
pub assume_specification[ Instant::now ]() -> Instant;

/// Relies on `<Instant as Sub>::sub`: the span from `earlier` to `later` (zero when
/// `earlier` is the later one); it does not panic.
#[verifier::external_body]
pub(crate) fn instant_sub(later: Instant, earlier: Instant) -> (r: Duration)
    ensures
        r == instant_diff(later, earlier),
{
    later - earlier
}

/// Relies on `Duration::as_nanos`: the whole nanoseconds of the span.
pub assume_specification[ Duration::as_nanos ](d: &Duration) -> (r: u128)
    ensures
        r == duration_nanos(*d),
;

/// Relies on `Duration::from_micros`: a span of exactly that many microseconds.
pub assume_specification[ Duration::from_micros ](micros: u64) -> (r: Duration)
    ensures
        duration_nanos(r) == micros as int * 1000,
;

/// Measures the time since a starting instant.
pub struct Timer {
    pub start: Instant,
}

impl Timer {
    pub fn new(start: Instant) -> (r: Self)
        ensures
            r.start == start,
    {
        Timer { start }
    }

    pub fn new_now() -> (r: Self) {
        Self::new(Instant::now())
    }

    pub fn reset_to(&mut self, time: Instant)
        ensures
            final(self).start == time,
    {
        self.start = time;
    }

    /// Restarts the timer at the current instant.
    pub fn reset(&mut self) {
        self.reset_to(Instant::now());
    }

    /// The span from the start to `time`.
    pub fn elapsed_from(&self, time: Instant) -> (r: Duration)
        ensures
            r == instant_diff(time, self.start),
    {
        instant_sub(time, self.start)
    }

    /// The span from the start to now.
    pub fn elapsed(&self) -> (r: Duration) {
        self.elapsed_from(Instant::now())
    }

    /// Restarts the timer at the current instant and returns the span from the old start to
    /// it, reading the clock once.
    pub fn lap(&mut self) -> (r: Duration)
        ensures
            r == instant_diff(final(self).start, old(self).start),
    {
        let now = Instant::now();
        let elapsed = self.elapsed_from(now);
        self.reset_to(now);
        elapsed
    }
}

/// The shortest frame time that keeps the rate at `fps` frames per second, in whole
/// microseconds.
pub fn max_fps(fps: u64) -> (r: Option<Duration>)
    requires
        fps > 0,
    ensures
        r.is_some(),
        duration_nanos(r.unwrap()) == 1_000_000int / (fps as int) * 1000,
{
    Some(Duration::from_micros(1_000_000 / fps))
}

} // verus!
