//! Spans and points of time, as whole nanoseconds.
//!
//! Nothing here reads a clock. A point in time is handed in by whoever read
//! one, counted from a moment of its own choosing.

use vstd::prelude::*;

verus! {

/// Nanoseconds in a second.
pub const NANOS_PER_SEC: u128 = 1_000_000_000;

/// Nanoseconds in a millisecond.
pub const NANOS_PER_MILLI: u128 = 1_000_000;

/// The longest span: `u64::MAX` seconds and all but one nanosecond of the next.
pub const MAX_NANOS: u128 = 18_446_744_073_709_551_615_999_999_999;

/// A span of time.
#[derive(Clone, Copy, Debug, PartialEq, Eq, Structural, PartialOrd, Ord, Hash)]
pub struct Duration {
    nanos: u128,
}

impl View for Duration {
    type V = int;

    closed spec fn view(&self) -> int {
        self.nanos as int
    }
}

impl Duration {
    #[verifier::type_invariant]
    spec fn in_range(self) -> bool {
        self.nanos <= MAX_NANOS
    }

    /// The empty span.
    pub fn zero() -> (r: Duration)
        ensures
            r@ == 0,
    {
        Duration { nanos: 0 }
    }

    /// A span of whole milliseconds.
    pub fn from_millis(millis: u64) -> (r: Duration)
        ensures
            r@ == millis * 1_000_000,
    {
        Duration { nanos: millis as u128 * NANOS_PER_MILLI }
    }

    /// A span of whole seconds.
    pub fn from_secs(secs: u64) -> (r: Duration)
        ensures
            r@ == secs * 1_000_000_000,
    {
        Duration { nanos: secs as u128 * NANOS_PER_SEC }
    }

    /// A span of whole nanoseconds, cut to the longest span.
    pub fn from_nanos(nanos: u128) -> (r: Duration)
        ensures
            r@ == if nanos <= MAX_NANOS {
                nanos as int
            } else {
                MAX_NANOS as int
            },
    {
        if nanos <= MAX_NANOS {
            Duration { nanos }
        } else {
            Duration { nanos: MAX_NANOS }
        }
    }

    /// The span's nanoseconds.
    pub fn as_nanos(&self) -> (r: u128)
        ensures
            r == self@,
            r <= MAX_NANOS,
    {
        proof {
            use_type_invariant(self);
        }
        self.nanos
    }

    /// The span's whole milliseconds.
    pub fn as_millis(&self) -> (r: u128)
        ensures
            r == self@ / 1_000_000,
    {
        proof {
            use_type_invariant(self);
        }
        self.nanos / NANOS_PER_MILLI
    }

    /// Whether the span is empty.
    pub fn is_zero(&self) -> (r: bool)
        ensures
            r == (self@ == 0),
    {
        self.nanos == 0
    }

    /// The sum of both, cut to the longest span.
    pub fn saturating_add(&self, other: Duration) -> (r: Duration)
        ensures
            r@ == if self@ + other@ <= MAX_NANOS {
                self@ + other@
            } else {
                MAX_NANOS as int
            },
    {
        proof {
            use_type_invariant(self);
            use_type_invariant(&other);
        }
        Duration::from_nanos(self.nanos + other.nanos)
    }

    /// What is left of this span after `other`, nothing if `other` is longer.
    pub fn saturating_sub(&self, other: Duration) -> (r: Duration)
        ensures
            r@ == if self@ >= other@ {
                self@ - other@
            } else {
                0
            },
    {
        proof {
            use_type_invariant(self);
        }
        if self.nanos >= other.nanos {
            Duration { nanos: self.nanos - other.nanos }
        } else {
            Duration { nanos: 0 }
        }
    }

    /// This span `times` over, cut to the longest span.
    pub fn saturating_mul(&self, times: u32) -> (r: Duration)
        ensures
            r@ == if self@ * times <= MAX_NANOS {
                self@ * times
            } else {
                MAX_NANOS as int
            },
    {
        proof {
            use_type_invariant(self);
            assert(self.nanos * times <= MAX_NANOS * u32::MAX) by (nonlinear_arith)
                requires
                    0 <= self.nanos <= MAX_NANOS,
                    0 <= times <= u32::MAX,
            ;
            assert(0 <= self.nanos * times) by (nonlinear_arith)
                requires
                    0 <= self.nanos,
                    0 <= times,
            ;
        }
        Duration::from_nanos(self.nanos * times as u128)
    }

    /// The longer of both.
    pub fn longer(self, other: Duration) -> (r: Duration)
        ensures
            r@ == if self@ >= other@ {
                self@
            } else {
                other@
            },
    {
        if self.nanos >= other.nanos {
            self
        } else {
            other
        }
    }

    /// The shorter of both.
    pub fn shorter(self, other: Duration) -> (r: Duration)
        ensures
            r@ == if self@ <= other@ {
                self@
            } else {
                other@
            },
    {
        if self.nanos <= other.nanos {
            self
        } else {
            other
        }
    }
}

/// A point in time.
#[derive(Clone, Copy, Debug, PartialEq, Eq, Structural, PartialOrd, Ord, Hash)]
pub struct Instant {
    since: Duration,
}

impl View for Instant {
    type V = int;

    closed spec fn view(&self) -> int {
        self.since@
    }
}

impl Instant {
    /// The point `since` after the moment the clock counts from.
    pub fn after(since: Duration) -> (r: Instant)
        ensures
            r@ == since@,
    {
        Instant { since }
    }

    /// The span from the moment the clock counts from.
    pub fn since_start(&self) -> (r: Duration)
        ensures
            r@ == self@,
    {
        self.since
    }

    /// The point `span` later.
    pub fn plus(&self, span: Duration) -> (r: Instant)
        requires
            self@ + span@ <= MAX_NANOS,
        ensures
            r@ == self@ + span@,
    {
        Instant { since: self.since.saturating_add(span) }
    }

    /// The span since `earlier`, nothing if that is not earlier.
    pub fn saturating_duration_since(&self, earlier: Instant) -> (r: Duration)
        ensures
            r@ == if self@ >= earlier@ {
                self@ - earlier@
            } else {
                0
            },
    {
        self.since.saturating_sub(earlier.since)
    }

    /// Whether this point is `other` or later.
    pub fn reached(&self, other: Instant) -> (r: bool)
        ensures
            r == (self@ >= other@),
    {
        self.since.as_nanos() >= other.since.as_nanos()
    }
}

} // verus!
