//! Text rendering of fixed-point values.

use vstd::prelude::*;

verus! {

/// The decimal digit string of the integer `v`, as std's formatter writes
/// it. Its exact content is not axiomatised here: it is a name for the
/// result of the one formatting call below, which depends on `v` alone.
pub uninterp spec fn decimal_of(v: int) -> Seq<char>;

/// Relies on std's `Display` for `i64` (through `format!`): the decimal
/// rendering of `v`, a pure function of `v` alone.
#[verifier::external_body]
pub(crate) fn decimal(v: i64) -> (r: String)
    ensures
        r@ == decimal_of(v as int),
{
    format!("{}", v)
}

} // verus!
