//! Numeric types shared by every module.

use vstd::prelude::*;

verus! {

/// One tallied value of a dice facet.
pub type Score = i8;

/// An exact non-negative fraction `num / den`, used for probabilities and
/// branch weights.
#[derive(Clone, Copy, PartialEq, Eq, Structural, Debug)]
pub struct Ratio {
    pub num: u64,
    pub den: u64,
}

impl Ratio {
    /// A fraction between zero and one with a usable denominator.
    pub open spec fn is_probability(self) -> bool {
        0 < self.den && self.num <= self.den
    }

    pub fn new(num: u64, den: u64) -> (r: Ratio)
        ensures
            r == (Ratio { num, den }),
    {
        Ratio { num, den }
    }

    /// The fraction one.
    pub fn one() -> (r: Ratio)
        ensures
            r == (Ratio { num: 1, den: 1 }),
    {
        Ratio { num: 1, den: 1 }
    }
}

/// A score that is known to be strictly positive, used as a unit cost.
#[derive(Clone, Copy, Debug)]
pub struct PositiveScore {
    value: Score,
}

impl PositiveScore {
    #[verifier::type_invariant]
    spec fn positive(self) -> bool {
        self.value > 0
    }

    pub closed spec fn view(self) -> int {
        self.value as int
    }

    /// `Some` exactly for the strictly positive scores.
    pub fn new(value: Score) -> (r: Option<PositiveScore>)
        ensures
            r is Some <==> value > 0,
            r matches Some(p) ==> p@ == value,
    {
        if value > 0 {
            Some(PositiveScore { value })
        } else {
            None
        }
    }

    pub fn get(self) -> (r: Score)
        ensures
            r == self@,
            r > 0,
    {
        proof {
            use_type_invariant(self);
        }
        self.value
    }
}

} // verus!
