//! Value types shared by every membership-function variant: fixed-point
//! constants, sample points and (possibly unbounded) domain intervals.

use vstd::prelude::*;

verus! {

/// Fixed-point unit: `SCALE` units stand for the real value 1.0. Membership
/// degrees range over `0 ..= SCALE`; domain values are also given in these
/// units.
pub const SCALE: i64 = 1_000_000;

/// Largest admissible magnitude of a domain value, chosen so that every
/// product of a domain value with a degree fits comfortably in 64 bits.
pub const X_LIMIT: i64 = 1_000_000_000_000;

/// Sentinel degree (the fixed-point rendering of -1.0) returned by a
/// membership lookup on an empty sample set, where no degree is defined.
/// It is out of band: a legitimate degree is never negative.
pub const UNDEFINED: i64 = -1_000_000;

/// One sample of a discretised membership function: the membership degree
/// observed at domain value `x`.
#[derive(Clone, Copy, PartialEq, Eq, Structural, Debug)]
pub struct SamplePoint {
    pub x: i64,
    pub degree: i64,
}

impl SamplePoint {
    /// A sample is well formed when its degree lies in [0, 1] (fixed point)
    /// and its domain value is within the representable span.
    pub open spec fn wf(self) -> bool {
        &&& -X_LIMIT <= self.x <= X_LIMIT
        &&& 0 <= self.degree <= SCALE
    }

    pub fn new(x: i64, degree: i64) -> (r: SamplePoint)
        ensures
            r.x == x,
            r.degree == degree,
    {
        SamplePoint { x, degree }
    }
}

/// A domain bound: finite, or one of the two infinities used by shoulder
/// sets and the cylinder variant.
#[derive(Clone, Copy, PartialEq, Eq, Structural, Debug)]
pub enum Extended {
    NegInf,
    Fin(i64),
    PosInf,
}

/// A domain interval `[low, high]`, either bound possibly infinite. Used
/// for supports and alpha-cut results.
#[derive(Clone, Copy, PartialEq, Eq, Structural, Debug)]
pub struct Interval {
    pub low: Extended,
    pub high: Extended,
}

impl Interval {
    pub fn new(low: Extended, high: Extended) -> (r: Interval)
        ensures
            r.low == low,
            r.high == high,
    {
        Interval { low, high }
    }
}

} // verus!
