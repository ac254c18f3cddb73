//! Typed failures surfaced by the membership-function variants.

use vstd::prelude::*;

verus! {

/// The recoverable failures of this library.
#[derive(Clone, Copy, PartialEq, Eq, Structural, Debug)]
pub enum FuzzyError {
    /// A constructor parameter lies outside its valid domain, e.g. a
    /// cylinder degree outside [0, 1].
    ConstructionError,
    /// The capability is present in the shared interface but deliberately
    /// unimplemented on the variant, e.g. `compare_to`.
    UnsupportedCapability,
}

} // verus!
