//! Fractional-second time values, held exactly as whole nanoseconds.

use vstd::prelude::*;

verus! {

pub const NANOS_PER_SEC: u64 = 1_000_000_000;

/// A non-negative duration or instant offset with total ordering, measured in
/// nanoseconds. All arithmetic on it is exact; conversions go through
/// whole-second and nanosecond components.
#[derive(Clone, Copy, Debug, PartialEq, Eq, Structural)]
pub struct Seconds {
    pub nanos: u64,
}

impl Seconds {
    pub fn zero() -> (r: Seconds)
        ensures
            r.nanos == 0,
    {
        Seconds { nanos: 0 }
    }

    pub fn from_nanos(nanos: u64) -> (r: Seconds)
        ensures
            r.nanos == nanos,
    {
        Seconds { nanos }
    }

    /// Builds a value from whole-second and nanosecond components.
    pub fn from_parts(secs: u64, subsec_nanos: u32) -> (r: Seconds)
        requires
            subsec_nanos < NANOS_PER_SEC,
            secs * NANOS_PER_SEC + subsec_nanos <= u64::MAX,
        ensures
            r.nanos == secs * NANOS_PER_SEC + subsec_nanos,
    {
        Seconds { nanos: secs * NANOS_PER_SEC + subsec_nanos as u64 }
    }

    /// The whole-second component.
    pub fn secs(self) -> (r: u64)
        ensures
            r == self.nanos / NANOS_PER_SEC,
    {
        self.nanos / NANOS_PER_SEC
    }

    /// The nanosecond component below one second.
    pub fn subsec_nanos(self) -> (r: u32)
        ensures
            r == self.nanos % NANOS_PER_SEC,
            r < NANOS_PER_SEC,
    {
        (self.nanos % NANOS_PER_SEC) as u32
    }

    pub fn le(self, other: Seconds) -> (r: bool)
        ensures
            r == (self.nanos <= other.nanos),
    {
        self.nanos <= other.nanos
    }

    pub fn lt(self, other: Seconds) -> (r: bool)
        ensures
            r == (self.nanos < other.nanos),
    {
        self.nanos < other.nanos
    }

    pub fn add(self, other: Seconds) -> (r: Seconds)
        requires
            self.nanos + other.nanos <= u64::MAX,
        ensures
            r.nanos == self.nanos + other.nanos,
    {
        Seconds { nanos: self.nanos + other.nanos }
    }

    pub fn sub(self, other: Seconds) -> (r: Seconds)
        requires
            other.nanos <= self.nanos,
        ensures
            r.nanos == self.nanos - other.nanos,
    {
        Seconds { nanos: self.nanos - other.nanos }
    }
}

} // verus!
