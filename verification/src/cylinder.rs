//! The cylindrical singleton extension: one constant membership degree over
//! the whole real line.

use vstd::prelude::*;
use crate::points::{Extended, Interval, SCALE};
use crate::errors::FuzzyError;
use crate::prototype::T1MFPrototype;
use crate::text::decimal_of;
use crate::text::decimal;

verus! {

/// A type-1 membership function with a constant degree everywhere; its
/// support is the entire real line.
pub struct T1MFCylinder {
    pub name: String,
    pub membership_degree: i64,
    pub support: Interval,
}

impl T1MFCylinder {
    /// A cylinder is well formed when its degree lies in [0, 1] (fixed
    /// point) and its support covers the whole line.
    pub open spec fn wf(self) -> bool {
        &&& 0 <= self.membership_degree <= SCALE
        &&& self.support == (Interval { low: Extended::NegInf, high: Extended::PosInf })
    }

    /// Constructs a cylinder of the given constant degree. A degree outside
    /// [0, 1] is rejected with a construction error.
    pub fn new(name: String, membership_degree: i64) -> (r: Result<T1MFCylinder, FuzzyError>)
        ensures
            0 <= membership_degree <= SCALE ==> {
                &&& r matches Ok(c)
                &&& c.wf()
                &&& c.name@ == name@
                &&& c.membership_degree == membership_degree
            },
            !(0 <= membership_degree <= SCALE) ==> r == Err::<T1MFCylinder, FuzzyError>(
                FuzzyError::ConstructionError,
            ),
    {
        if membership_degree < 0 || membership_degree > SCALE {
            return Err(FuzzyError::ConstructionError);
        }
        Ok(T1MFCylinder {
            name,
            membership_degree,
            support: Interval { low: Extended::NegInf, high: Extended::PosInf },
        })
    }

    /// The membership degree of any domain value: the constant.
    pub fn get_fs(&self, _x: i64) -> (r: i64)
        ensures
            r == self.membership_degree,
    {
        self.membership_degree
    }

    /// The alpha-cut: the whole real line where the constant degree reaches
    /// `alpha`, and no interval otherwise.
    pub fn get_alpha_cut(&self, alpha: i64) -> (r: Option<Interval>)
        ensures
            alpha <= self.membership_degree ==> r == Some(
                Interval { low: Extended::NegInf, high: Extended::PosInf },
            ),
            alpha > self.membership_degree ==> r is None,
    {
        if alpha <= self.membership_degree {
            Some(Interval { low: Extended::NegInf, high: Extended::PosInf })
        } else {
            None
        }
    }

    /// A peak is not defined for a constant function: the capability always
    /// fails on this variant.
    pub fn get_peak(&self) -> (r: Result<i64, FuzzyError>)
        ensures
            r == Err::<i64, FuzzyError>(FuzzyError::UnsupportedCapability),
    {
        Err(FuzzyError::UnsupportedCapability)
    }

    /// Ordering comparison is present in the shared interface but
    /// deliberately unimplemented on this variant: it always fails.
    pub fn compare_to<M: T1MFPrototype>(&self, _other: &M) -> (r: Result<i32, FuzzyError>)
        ensures
            r == Err::<i32, FuzzyError>(FuzzyError::UnsupportedCapability),
    {
        Err(FuzzyError::UnsupportedCapability)
    }

    /// A one-line description: the name, then the constant degree in
    /// fixed-point units.
    pub fn to_string_rep(&self) -> (r: String)
        ensures
            r@ == self.name@ + " - Cylindrical extension at: "@ + decimal_of(
                self.membership_degree as int,
            ),
    {
        let mut s = self.name.clone();
        s.append(" - Cylindrical extension at: ");
        let d = decimal(self.membership_degree);
        s.append(d.as_str());
        s
    }
}

impl T1MFPrototype for T1MFCylinder {
    open spec fn spec_name(&self) -> Seq<char> {
        self.name@
    }

    open spec fn spec_cached_support(&self) -> Interval {
        self.support
    }

    open spec fn spec_left_shoulder(&self) -> bool {
        false
    }

    open spec fn spec_right_shoulder(&self) -> bool {
        false
    }

    fn name(&self) -> &str {
        self.name.as_str()
    }

    fn get_support(&self) -> Interval {
        self.support
    }

    fn is_left_shoulder(&self) -> bool {
        false
    }

    fn is_right_shoulder(&self) -> bool {
        false
    }
}

} // verus!
