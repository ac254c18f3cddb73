//! The capability interface shared by every membership-function variant.

use vstd::prelude::*;
use crate::points::Interval;

verus! {

/// The prototype of a type-1 membership function: the capabilities every
/// variant exposes. Each accessor's contract ties it to the variant's own
/// spec-level answer, which the implementations define from their fields.
pub trait T1MFPrototype {
    /// The identifier the variant was constructed with.
    spec fn spec_name(&self) -> Seq<char>;

    /// The support interval the variant currently holds.
    spec fn spec_cached_support(&self) -> Interval;

    /// Whether membership saturates to 1.0 towards negative infinity.
    spec fn spec_left_shoulder(&self) -> bool;

    /// Whether membership saturates to 1.0 towards positive infinity.
    spec fn spec_right_shoulder(&self) -> bool;

    /// The identifier the variant was constructed with.
    fn name(&self) -> (r: &str)
        ensures
            r@ == self.spec_name(),
    ;

    /// The cached support interval, as last computed.
    fn get_support(&self) -> (r: Interval)
        ensures
            r == self.spec_cached_support(),
    ;

    /// Whether membership saturates to 1.0 towards negative infinity.
    fn is_left_shoulder(&self) -> (r: bool)
        ensures
            r == self.spec_left_shoulder(),
    ;

    /// Whether membership saturates to 1.0 towards positive infinity.
    fn is_right_shoulder(&self) -> (r: bool)
        ensures
            r == self.spec_right_shoulder(),
    ;
}

} // verus!
