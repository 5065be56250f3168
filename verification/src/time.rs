//! Points in time and spans of time, counted in nanoseconds.
use vstd::prelude::*;

verus! {

/// The number of nanoseconds in a second.
pub const NANOS_PER_SEC: u128 = 1_000_000_000;

/// A span of time.
#[derive(Debug, Clone, Copy, PartialEq, Eq, Structural)]
pub struct Duration {
    pub nanos: u128,
}

/// A point in time, counted from some point before the program started.
#[derive(Debug, Clone, Copy, PartialEq, Eq, Structural)]
pub struct Instant {
    pub nanos: u128,
}

/// A span of whole seconds.
pub open spec fn secs(n: nat) -> Duration {
    Duration { nanos: (n * 1_000_000_000) as u128 }
}

/// The span from one point in time to another; nothing if the other is earlier.
pub open spec fn span(earlier: Instant, later: Instant) -> Duration {
    Duration {
        nanos: if later.nanos >= earlier.nanos {
            (later.nanos - earlier.nanos) as u128
        } else {
            0
        },
    }
}

/// Whether the point in time that lies a span after another can be counted.
pub open spec fn in_range(start: Instant, span: Duration) -> bool {
    start.nanos + span.nanos <= u128::MAX
}

/// The point in time that lies a span after another; the last one that can be counted,
/// where that one cannot be.
pub open spec fn later(start: Instant, span: Duration) -> Instant {
    Instant {
        nanos: if in_range(start, span) {
            (start.nanos + span.nanos) as u128
        } else {
            u128::MAX
        },
    }
}

impl Duration {
    /// A span of whole seconds.
    pub fn from_secs(n: u64) -> (d: Duration)
        ensures
            d == secs(n as nat),
            d.nanos == n * 1_000_000_000,
    {
        Duration { nanos: n as u128 * NANOS_PER_SEC }
    }
}

impl Instant {
    /// The span since an earlier point in time.
    pub fn since(self, earlier: Instant) -> (d: Duration)
        ensures
            d == span(earlier, self),
            self.nanos >= earlier.nanos ==> d.nanos == self.nanos - earlier.nanos,
            self.nanos < earlier.nanos ==> d.nanos == 0,
    {
        if self.nanos >= earlier.nanos {
            Duration { nanos: self.nanos - earlier.nanos }
        } else {
            Duration { nanos: 0 }
        }
    }

    /// The point in time that lies a span later.
    pub fn after(self, span: Duration) -> (t: Instant)
        ensures
            t == later(self, span),
            self.nanos + span.nanos <= u128::MAX ==> t.nanos == self.nanos + span.nanos,
            self.nanos + span.nanos > u128::MAX ==> t.nanos == u128::MAX,
    {
        match self.nanos.checked_add(span.nanos) {
            Some(nanos) => Instant { nanos },
            None => Instant { nanos: u128::MAX },
        }
    }
}

/// The span to a later point in time is the span by which it is later, and there is none to
/// an earlier one. A point in time that cannot be counted is replaced by the last one that
/// can.
pub proof fn spans_lead_to_points(start: Instant, other: Instant, length: Duration, n: u64)
    ensures
        start.nanos + length.nanos <= u128::MAX ==> span(start, later(start, length)) == length,
        start.nanos + length.nanos > u128::MAX ==> later(start, length).nanos == u128::MAX,
        later(start, length).nanos >= start.nanos,
        span(later(start, length), start).nanos == 0,
        other.nanos >= start.nanos ==> later(start, span(start, other)) == other,
        secs(n as nat).nanos == n * 1_000_000_000,
{
}

} // verus!
