//! Rational numbers as frame rates and time bases are written: a numerator over a
//! denominator.

use vstd::prelude::*;

verus! {

/// A rational number `num / den`, kept exactly as given (no reduction).
#[derive(Clone, Copy, Debug, PartialEq, Eq)]
pub struct Rational {
    /// Numerator.
    pub num: i64,
    /// Denominator.
    pub den: i64,
}

impl Rational {
    /// The rational `num / den`, as a value.
    pub open spec fn new_spec(num: i64, den: i64) -> Self {
        Rational { num, den }
    }

    /// The rational `num / den`.
    pub fn new(num: i64, den: i64) -> (r: Self)
        ensures
            r == Self::new_spec(num, den),
    {
        Rational { num, den }
    }
}

} // verus!
