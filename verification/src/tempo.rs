//! Tempo: a positive number of beats per minute.

use vstd::prelude::*;
use crate::power::{lemma_ten_to_step, ten_to};
use crate::ratio::{Ratio, EXPONENT_LIMIT};

verus! {

/// A tempo in beats per minute, held exactly: a fraction of two positive
/// integers, or a positive integer times a power of ten.
#[derive(Clone, Copy, Debug, PartialEq, Eq, Structural)]
pub struct Tempo {
    num: u64,
    den: u64,
    exp: i32,
}

impl Tempo {
    /// Both parts are positive, so the tempo is; the exponent is within its
    /// limit, and is zero where the denominator is not one.
    #[verifier::type_invariant]
    pub open spec fn wf(self) -> bool {
        &&& self.numer() > 0
        &&& self.denom() > 0
        &&& -EXPONENT_LIMIT <= self.expo() <= EXPONENT_LIMIT
        &&& self.denom() == 1 || self.expo() == 0
    }

    /// The decimal exponent held.
    pub closed spec fn expo(self) -> int {
        self.exp as int
    }

    /// The numerator held.
    pub closed spec fn numer(self) -> int {
        self.num as int
    }

    /// The denominator held.
    pub closed spec fn denom(self) -> int {
        self.den as int
    }

    /// The tempo as a real number of beats per minute.
    pub open spec fn value(self) -> real {
        (self.numer() as real / self.denom() as real) * ten_to(self.expo())
    }

    /// A tempo is strictly positive.
    pub proof fn law_positive(self)
        requires
            self.wf(),
        ensures
            self.value() > 0real,
    {
        let n = self.numer();
        let d = self.denom();
        let t = ten_to(self.expo());
        lemma_ten_to_step(self.expo());
        assert((n as real / d as real) * t > 0real) by (nonlinear_arith)
            requires
                n > 0,
                d > 0,
                t > 0real,
        ;
    }

    /// The tempo `numerator / denominator`, where both are positive.
    pub fn new(numerator: u64, denominator: u64) -> (tempo: Option<Tempo>)
        ensures
            tempo is Some <==> numerator > 0 && denominator > 0,
            tempo is Some ==> tempo.unwrap().numer() == numerator && tempo.unwrap().denom()
                == denominator && tempo.unwrap().expo() == 0,
    {
        if numerator > 0 && denominator > 0 {
            Some(Tempo { num: numerator, den: denominator, exp: 0 })
        } else {
            None
        }
    }

    /// The tempo `digits` times ten to the power `exponent`, where `digits`
    /// is positive and the exponent within its limit.
    pub fn scaled(digits: u64, exponent: i32) -> (tempo: Option<Tempo>)
        ensures
            tempo is Some <==> digits > 0 && -EXPONENT_LIMIT <= exponent <= EXPONENT_LIMIT,
            tempo is Some ==> tempo.unwrap().numer() == digits && tempo.unwrap().denom() == 1
                && tempo.unwrap().expo() == exponent,
    {
        if digits > 0 && -EXPONENT_LIMIT <= exponent && exponent <= EXPONENT_LIMIT {
            Some(Tempo { num: digits, den: 1, exp: exponent })
        } else {
            None
        }
    }

    /// The tempo `numerator / denominator` of two integers known to be
    /// positive.
    pub(crate) fn from_parts(numerator: u64, denominator: u64) -> (tempo: Tempo)
        requires
            numerator > 0,
            denominator > 0,
        ensures
            tempo.numer() == numerator,
            tempo.denom() == denominator,
            tempo.expo() == 0,
    {
        Tempo { num: numerator, den: denominator, exp: 0 }
    }

    /// The tempo `digits` times ten to the power `exponent`, for parts known
    /// to be within their limits.
    pub(crate) fn from_digits(digits: u64, exponent: i32) -> (tempo: Tempo)
        requires
            digits > 0,
            -EXPONENT_LIMIT <= exponent <= EXPONENT_LIMIT,
        ensures
            tempo.numer() == digits,
            tempo.denom() == 1,
            tempo.expo() == exponent,
            tempo.value() == digits as real * ten_to(exponent as int),
    {
        proof {
            assert(digits as real / 1int as real == digits as real);
        }
        Tempo { num: digits, den: 1, exp: exponent }
    }

    /// The decimal exponent held.
    pub fn exponent(&self) -> (e: i32)
        ensures
            e == self.expo(),
            -EXPONENT_LIMIT <= e <= EXPONENT_LIMIT,
            self.denom() == 1 || e == 0,
    {
        proof {
            use_type_invariant(self);
        }
        self.exp
    }

    /// The numerator held.
    pub fn numerator(&self) -> (n: u64)
        ensures
            n == self.numer(),
            n > 0,
    {
        proof {
            use_type_invariant(self);
        }
        self.num
    }

    /// The denominator held.
    pub fn denominator(&self) -> (d: u64)
        ensures
            d == self.denom(),
            d > 0,
    {
        proof {
            use_type_invariant(self);
        }
        self.den
    }

    /// The same number as a general ratio.
    pub fn as_ratio(&self) -> (ratio: Ratio)
        ensures
            ratio.numer() == self.numer(),
            ratio.denom() == self.denom(),
            ratio.expo() == self.expo(),
            ratio.value() == self.value(),
    {
        proof {
            use_type_invariant(self);
        }
        Ratio::from_parts(self.num as i128, self.den as i128, self.exp)
    }
}

} // verus!
