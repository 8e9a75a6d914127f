//! Points in time and the spans between them, counted in nanoseconds.

use vstd::prelude::*;

verus! {

/// A span of time.
#[derive(Clone, Copy, PartialEq, Eq, Debug, Structural)]
pub struct Duration {
    pub nanos: u128,
}

impl Duration {
    pub fn from_secs(secs: u64) -> (r: Duration)
        ensures
            r.nanos == secs * 1_000_000_000,
    {
        Duration { nanos: secs as u128 * 1_000_000_000 }
    }

    pub fn from_millis(millis: u64) -> (r: Duration)
        ensures
            r.nanos == millis * 1_000_000,
    {
        Duration { nanos: millis as u128 * 1_000_000 }
    }

    /// The whole seconds of the span, where they fit.
    pub fn as_secs(&self) -> (r: u64)
        requires
            self.nanos / 1_000_000_000 <= u64::MAX,
        ensures
            r == self.nanos / 1_000_000_000,
    {
        (self.nanos / 1_000_000_000) as u64
    }
}

/// A point in time, counted from some fixed one.
#[derive(Clone, Copy, PartialEq, Eq, Debug, Structural)]
pub struct Instant {
    pub nanos: u128,
}

impl Instant {
    /// The point `span` later.
    pub fn plus(&self, span: Duration) -> (r: Instant)
        requires
            self.nanos + span.nanos <= u128::MAX,
        ensures
            r.nanos == self.nanos + span.nanos,
    {
        Instant { nanos: self.nanos + span.nanos }
    }

    /// The span since an earlier point; none where the point is later.
    pub fn since(&self, earlier: Instant) -> (r: Duration)
        ensures
            r.nanos == if earlier.nanos <= self.nanos {
                self.nanos - earlier.nanos
            } else {
                0
            },
    {
        if earlier.nanos <= self.nanos {
            Duration { nanos: self.nanos - earlier.nanos }
        } else {
            Duration { nanos: 0 }
        }
    }
}

} // verus!
