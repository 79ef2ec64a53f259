//! Points in time and spans of time.

use vstd::prelude::*;

verus! {

/// A number of nanoseconds. A point in time is given by the nanoseconds that have passed since an
/// origin that the caller fixes once for all of them.
pub type Nanos = u128;

/// The number of nanoseconds in a second.
pub const NANOS_PER_SECOND: Nanos = 1_000_000_000;

/// The time during which arrivals count, both ends included.
#[derive(Clone, Copy, Debug, PartialEq, Eq, Structural)]
pub struct Window {
    /// The first point in time that counts.
    pub start: Nanos,
    /// The last point in time that counts.
    pub cutoff: Nanos,
}

impl Window {
    /// Whether `at` lies in the window.
    pub open spec fn holds(self, at: Nanos) -> bool {
        self.start <= at <= self.cutoff
    }

    /// Whether `at` lies in the window.
    pub fn contains(&self, at: Nanos) -> (inside: bool)
        ensures
            inside == self.holds(at),
            inside <==> self.start <= at && at <= self.cutoff,
    {
        self.start <= at && at <= self.cutoff
    }
}

} // verus!
