//! Exact fractions: the coordinates that the generators produce.

use vstd::prelude::*;

verus! {

/// A non-negative fraction `num / den`, kept exactly and not reduced.
///
/// Two fractions are equal when they show the same numerator and the same
/// denominator.
#[derive(Clone, Copy, Debug, PartialEq, Eq, Structural)]
pub struct Fraction {
    /// The numerator.
    pub num: u128,
    /// The denominator.
    pub den: u128,
}

impl Fraction {
    /// The fraction lies in `[0, 1)`.
    pub open spec fn below_one(&self) -> bool {
        self.num < self.den
    }

    /// The fraction `0 / 1`.
    pub fn zero() -> (f: Self)
        ensures
            f.num == 0,
            f.den == 1,
    {
        Fraction { num: 0, den: 1 }
    }
}

} // verus!
