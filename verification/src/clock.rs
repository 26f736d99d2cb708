//! The monotonic clock that the limiter reads.

use std::time::{Duration, Instant};
use vstd::prelude::*;

verus! {

/// A point in time of std's monotonic clock. Nothing is known of a value.
#[verifier::external_type_specification]
#[verifier::external_body]
pub struct ExInstant(Instant);

/// `Instant::now`, the current point in time. What it returns depends on when it is
/// called, so nothing is claimed of it.
pub assume_specification[ Instant::now ]() -> (t: Instant)
;

/// `Instant::elapsed`, the time since `t`. What it returns depends on when it is
/// called, so nothing is claimed of it.
pub assume_specification[ Instant::elapsed ](t: &Instant) -> (d: Duration)
;

/// `Duration::as_nanos`, the whole duration in nanoseconds. A duration is opaque
/// here, so nothing is claimed of the number.
pub assume_specification[ Duration::as_nanos ](d: &Duration) -> (n: u128)
;

/// Counts nanoseconds since it was made. A reading is never smaller than an earlier
/// one.
pub struct Clock {
    origin: Instant,
    last: u128,
}

impl Clock {
    /// The latest reading.
    pub closed spec fn reading(&self) -> u128 {
        self.last
    }

    /// A clock that has not been read.
    pub fn new() -> (clock: Self)
        ensures
            clock.reading() == 0,
    {
        Clock { origin: Instant::now(), last: 0 }
    }

    /// Takes over a raw reading, unless it is behind the latest one.
    pub fn advance(&mut self, raw: u128)
        ensures
            final(self).reading() == if raw > old(self).reading() {
                raw
            } else {
                old(self).reading()
            },
    {
        if raw > self.last {
            self.last = raw;
        }
    }

    /// Reads the clock.
    pub fn read(&mut self) -> (now: u128)
        ensures
            now == final(self).reading(),
            now >= old(self).reading(),
    {
        let raw: u128 = self.origin.elapsed().as_nanos();
        self.advance(raw);
        self.last
    }
}

} // verus!
