//! Points in time and spans of time, in milliseconds.

use vstd::prelude::*;

verus! {

/// A span of time.
#[derive(Debug, Clone, Copy, PartialEq, Eq, Structural)]
pub struct Duration {
    millis: u64,
}

impl Duration {
    pub closed spec fn spec_millis(&self) -> u64 {
        self.millis
    }

    pub fn from_millis(millis: u64) -> (d: Self)
        ensures
            d.spec_millis() == millis,
    {
        Duration { millis }
    }

    #[verifier::when_used_as_spec(spec_millis)]
    pub fn as_millis(&self) -> (millis: u64)
        ensures
            millis == self.spec_millis(),
    {
        self.millis
    }
}

/// A point in time, counted from wherever the clock of the caller starts.
#[derive(Debug, Clone, Copy, PartialEq, Eq, Structural)]
pub struct Instant {
    millis: u64,
}

impl Instant {
    pub closed spec fn spec_millis(&self) -> u64 {
        self.millis
    }

    pub fn from_millis(millis: u64) -> (t: Self)
        ensures
            t.spec_millis() == millis,
    {
        Instant { millis }
    }

    #[verifier::when_used_as_spec(spec_millis)]
    pub fn as_millis(&self) -> (millis: u64)
        ensures
            millis == self.spec_millis(),
    {
        self.millis
    }

    /// Whether `span_ms` milliseconds or more have passed from `self` to
    /// `now`. No time has passed where `now` lies before `self`.
    pub open spec fn passed_ms(&self, now: Instant, span_ms: u64) -> bool {
        now.spec_millis() - self.spec_millis() >= span_ms || (now.spec_millis()
            < self.spec_millis() && span_ms == 0)
    }

    /// Whether `span` or more has passed from `self` to `now`.
    pub open spec fn passed(&self, now: Instant, span: Duration) -> bool {
        self.passed_ms(now, span.spec_millis())
    }

    /// Whether `span` or more has passed from `self` to `now`.
    pub fn elapsed_since(&self, now: Instant, span: Duration) -> (b: bool)
        ensures
            b == self.passed(now, span),
    {
        now.millis.saturating_sub(self.millis) >= span.millis
    }
}

} // verus!
