//! Exact rational quantities and their rounding.
//!
//! A [`Ratio`] stands for the real number `numerator / denominator` times a
//! power of ten. Every contract that speaks of a quantity speaks of that real
//! number, never of the parts that happen to hold it.

use vstd::arithmetic::power::{lemma_pow0, lemma_pow_increases, lemma_pow_positive, pow};
use vstd::prelude::*;
use crate::digits::{canonical, divide_rounded, from_number, lemma_value_push, value_of};
use crate::power::{lemma_ten_to_step, ten_to};

verus! {

/// The largest magnitude a part of a [`Ratio`] may have: 2 to the power 120.
pub const RATIO_LIMIT: i128 = 0x100_0000_0000_0000_0000_0000_0000_0000;

/// The largest magnitude the decimal exponent of a [`Ratio`] may have.
pub const EXPONENT_LIMIT: i32 = 400;

/// An exact rational number: a fraction with a positive denominator, times
/// a power of ten.
#[derive(Clone, Copy, Debug)]
pub struct Ratio {
    num: i128,
    den: i128,
    exp: i32,
}

/// The magnitude of an integer.
pub open spec fn magnitude(n: int) -> nat {
    if n < 0 {
        (-n) as nat
    } else {
        n as nat
    }
}

/// The integer nearest to `x`; a tie goes away from zero.
pub open spec fn round_half_away(x: real) -> int {
    if x >= 0real {
        (x + 1real / 2real).floor()
    } else {
        -((-x + 1real / 2real).floor())
    }
}

/// Whether `numerator / denominator` times ten to the power `exponent` can
/// be held by a [`Ratio`].
pub open spec fn representable(numerator: int, denominator: int, exponent: int) -> bool {
    &&& 0 < denominator <= RATIO_LIMIT
    &&& -RATIO_LIMIT <= numerator <= RATIO_LIMIT
    &&& -EXPONENT_LIMIT <= exponent <= EXPONENT_LIMIT
}

/// Rounding goes to a nearest integer, and treats a number and its negative
/// alike.
pub proof fn law_rounding_is_nearest(x: real)
    ensures
        x - 1real / 2real <= round_half_away(x) as real <= x + 1real / 2real,
        round_half_away(-x) == -round_half_away(x),
        x >= 0real ==> round_half_away(x) >= 0,
{
    if x == 0real {
        assert(-x == x);
    } else {
        assert(-(-x) == x);
    }
}

/// Rounding leaves an integer as it is.
pub proof fn law_rounding_keeps_integers(n: int)
    ensures
        round_half_away(n as real) == n,
{
}

/// For non-negative `a` and positive `b`, integer division is the floor of
/// the real quotient.
proof fn lemma_floor_of_quotient(a: int, b: int)
    requires
        0 <= a,
        0 < b,
    ensures
        (a as real / b as real).floor() == a / b,
{
    let q = a / b;
    let r = a % b;
    assert(a == b * q + r && 0 <= r < b) by (nonlinear_arith)
        requires
            0 <= a,
            0 < b,
            q == a / b,
            r == a % b,
    ;
    let x = a as real / b as real;
    assert(q as real <= x < (q + 1) as real) by (nonlinear_arith)
        requires
            a == b * q + r,
            0 <= r < b,
            x == a as real / b as real,
    ;
}

/// Rounding a non-negative quotient to the nearest integer, ties upward, in
/// integer arithmetic.
proof fn lemma_round_of_quotient(a: int, b: int)
    requires
        0 <= a,
        0 < b,
    ensures
        round_half_away(a as real / b as real) == (2 * a + b) / (2 * b),
        round_half_away(-(a as real / b as real)) == -((2 * a + b) / (2 * b)),
{
    let x = a as real / b as real;
    let y = (2 * a + b) as real / (2 * b) as real;
    assert(x >= 0real && x + 1real / 2real == y) by (nonlinear_arith)
        requires
            0 <= a,
            0 < b,
            x == a as real / b as real,
            y == (2 * a + b) as real / (2 * b) as real,
    ;
    lemma_floor_of_quotient(2 * a + b, 2 * b);
    assert((2 * a + b) / (2 * b) >= 0) by (nonlinear_arith)
        requires
            0 <= a,
            0 < b,
    ;
    if x == 0real {
        assert(-x == x);
    } else {
        assert(-(-x) == x);
    }
}

/// A non-negative quotient times a power of ten, rounded, in whole numbers.
proof fn lemma_round_scaled_up(a: int, d: int, s: int)
    requires
        0 <= a,
        0 < d,
        0 <= s,
    ensures
        round_half_away((a as real / d as real) * ten_to(s)) == (2 * (a * pow(10, s as nat)) + d)
            / (2 * d),
{
    let p = pow(10, s as nat);
    lemma_pow_positive(10, s as nat);
    let n = a * p;
    assert(n >= 0) by (nonlinear_arith)
        requires
            n == a * p,
            a >= 0,
            p > 0,
    ;
    assert((a as real / d as real) * (p as real) == n as real / d as real) by (nonlinear_arith)
        requires
            n == a * p,
            d > 0,
    ;
    lemma_round_of_quotient(n, d);
}

/// A non-negative quotient divided by a power of ten, rounded, in whole
/// numbers.
proof fn lemma_round_scaled_down(a: int, d: int, k: int)
    requires
        0 <= a,
        0 < d,
        0 < k,
    ensures
        round_half_away((a as real / d as real) * ten_to(-k)) == (2 * a + d * pow(10, k as nat))
            / (2 * (d * pow(10, k as nat))),
{
    let p = pow(10, k as nat);
    lemma_pow_positive(10, k as nat);
    let m = d * p;
    assert(m > 0) by (nonlinear_arith)
        requires
            m == d * p,
            d > 0,
            p > 0,
    ;
    assert((a as real / d as real) * (1real / (p as real)) == a as real / m as real)
        by (nonlinear_arith)
        requires
            m == d * p,
            d > 0,
            p > 0,
    ;
    lemma_round_of_quotient(a, m);
}

/// Rounding keeps the sign of what it rounds and rounds the magnitude.
proof fn lemma_round_magnitude(x: real, y: real)
    requires
        y >= 0real,
        x == y || x == -y,
    ensures
        magnitude(round_half_away(x)) == round_half_away(y),
        x >= 0real ==> round_half_away(x) >= 0,
        x <= 0real ==> round_half_away(x) <= 0,
{
    law_rounding_is_nearest(y);
    law_rounding_is_nearest(x);
}

impl Ratio {
    /// The denominator is positive and all parts are within their limits.
    #[verifier::type_invariant]
    pub open spec fn wf(self) -> bool {
        representable(self.numer(), self.denom(), self.expo())
    }

    /// The numerator held.
    pub closed spec fn numer(self) -> int {
        self.num as int
    }

    /// The denominator held.
    pub closed spec fn denom(self) -> int {
        self.den as int
    }

    /// The decimal exponent held.
    pub closed spec fn expo(self) -> int {
        self.exp as int
    }

    /// The real number that the ratio stands for.
    pub open spec fn value(self) -> real {
        (self.numer() as real / self.denom() as real) * ten_to(self.expo())
    }

    /// The ratio of two integers, where it can be held.
    pub fn new(numerator: i128, denominator: i128) -> (ratio: Option<Ratio>)
        ensures
            ratio is Some <==> representable(numerator as int, denominator as int, 0),
            ratio is Some ==> ratio.unwrap().numer() == numerator && ratio.unwrap().denom()
                == denominator && ratio.unwrap().expo() == 0,
    {
        Ratio::scaled(numerator, denominator, 0)
    }

    /// The ratio of two integers times ten to the power `exponent`, where it
    /// can be held.
    pub fn scaled(numerator: i128, denominator: i128, exponent: i32) -> (ratio: Option<Ratio>)
        ensures
            ratio is Some <==> representable(numerator as int, denominator as int, exponent as int),
            ratio is Some ==> ratio.unwrap().numer() == numerator && ratio.unwrap().denom()
                == denominator && ratio.unwrap().expo() == exponent,
    {
        if 0 < denominator && denominator <= RATIO_LIMIT && -RATIO_LIMIT <= numerator && numerator
            <= RATIO_LIMIT && -EXPONENT_LIMIT <= exponent && exponent <= EXPONENT_LIMIT {
            Some(Ratio { num: numerator, den: denominator, exp: exponent })
        } else {
            None
        }
    }

    /// The ratio of parts known to be within their limits.
    pub(crate) fn from_parts(numerator: i128, denominator: i128, exponent: i32) -> (ratio: Ratio)
        requires
            representable(numerator as int, denominator as int, exponent as int),
        ensures
            ratio.numer() == numerator,
            ratio.denom() == denominator,
            ratio.expo() == exponent,
    {
        Ratio { num: numerator, den: denominator, exp: exponent }
    }

    /// The numerator held.
    pub fn numerator(&self) -> (n: i128)
        ensures
            n == self.numer(),
            -RATIO_LIMIT <= n <= RATIO_LIMIT,
    {
        proof {
            use_type_invariant(self);
        }
        self.num
    }

    /// The denominator held.
    pub fn denominator(&self) -> (d: i128)
        ensures
            d == self.denom(),
            0 < d <= RATIO_LIMIT,
    {
        proof {
            use_type_invariant(self);
        }
        self.den
    }

    /// The decimal exponent held.
    pub fn exponent(&self) -> (e: i32)
        ensures
            e == self.expo(),
            -EXPONENT_LIMIT <= e <= EXPONENT_LIMIT,
    {
        proof {
            use_type_invariant(self);
        }
        self.exp
    }

    /// Whether the value is below zero.
    pub fn is_negative(&self) -> (negative: bool)
        ensures
            negative == (self.value() < 0real),
            !negative ==> self.value() >= 0real,
    {
        proof {
            use_type_invariant(self);
            lemma_ten_to_step(self.exp as int);
            let n = self.num as int;
            let d = self.den as int;
            let t = ten_to(self.exp as int);
            assert((n < 0 ==> (n as real / d as real) * t < 0real) && (n >= 0 ==> (n as real
                / d as real) * t >= 0real)) by (nonlinear_arith)
                requires
                    d > 0,
                    t > 0real,
            ;
        }
        self.num < 0
    }

    /// The digits of the magnitude of the value times ten to the power
    /// `places`, rounded to the nearest whole number, a tie away from zero.
    #[verifier::loop_isolation(false)]
    fn rounded_digits(&self, places: i32) -> (digits: Vec<u8>)
        requires
            0 <= places <= 3,
        ensures
            canonical(digits@),
            value_of(digits@) == magnitude(
                round_half_away((self.numer() as real / self.denom() as real) * ten_to(
                    self.expo() + places,
                )),
            ),
    {
        proof {
            use_type_invariant(self);
        }
        let a: u128 = if self.num < 0 {
            (-self.num) as u128
        } else {
            self.num as u128
        };
        let d: u128 = self.den as u128;
        let s: i32 = self.exp + places;
        let ghost y = (a as real / d as real) * ten_to(s as int);
        let ghost x = (self.num as real / d as real) * ten_to(s as int);
        proof {
            lemma_ten_to_step(s as int);
            let t = ten_to(s as int);
            let n = self.num as int;
            assert(y >= 0real && (x == y || x == -y)) by (nonlinear_arith)
                requires
                    y == (a as real / d as real) * t,
                    x == (n as real / d as real) * t,
                    a == n || a == -n,
                    a >= 0,
                    d > 0,
                    t > 0real,
            ;
            lemma_round_magnitude(x, y);
        }
        if s >= 0 {
            let mut p = from_number(a);
            let mut i: i32 = 0;
            proof {
                lemma_pow0(10);
            }
            while i < s
                invariant
                    0 <= i <= s,
                    crate::digits::are_digits(p@),
                    value_of(p@) == a * pow(10, i as nat),
                decreases s - i,
            {
                proof {
                    lemma_value_push(p@, 0);
                    let q = pow(10, i as nat);
                    assert(pow(10, (i + 1) as nat) == 10 * q) by {
                        reveal(pow);
                    }
                    assert(10 * (a * q) == a * (10 * q)) by (nonlinear_arith);
                }
                p.push(0);
                i += 1;
            }
            proof {
                lemma_round_scaled_up(a as int, d as int, s as int);
            }
            divide_rounded(&p, d)
        } else {
            let k: i32 = -s;
            let mut scaled: u128 = d;
            let mut j: i32 = 0;
            proof {
                lemma_pow0(10);
                lemma_round_scaled_down(a as int, d as int, k as int);
            }
            while j < k
                invariant
                    0 <= j <= k,
                    0 < d,
                    a <= RATIO_LIMIT,
                    scaled == d * pow(10, j as nat),
                    0 < scaled <= 20 * RATIO_LIMIT,
                decreases k - j,
            {
                if scaled > 2 * a {
                    proof {
                        let full = d * pow(10, k as nat);
                        lemma_pow_increases(10, j as nat, k as nat);
                        assert(full >= scaled) by (nonlinear_arith)
                            requires
                                full == d * pow(10, k as nat),
                                scaled == d * pow(10, j as nat),
                                pow(10, j as nat) <= pow(10, k as nat),
                                d > 0,
                        ;
                        assert((2 * a + full) / (2 * full) == 0) by (nonlinear_arith)
                            requires
                                0 <= 2 * a < full,
                        ;
                    }
                    return from_number(0);
                }
                proof {
                    let q = pow(10, j as nat);
                    assert(pow(10, (j + 1) as nat) == 10 * q) by {
                        reveal(pow);
                    }
                    assert(10 * (d * q) == d * (10 * q)) by (nonlinear_arith);
                    assert(a <= RATIO_LIMIT);
                }
                scaled = scaled * 10;
                j += 1;
            }
            from_number((2 * a + scaled) / (2 * scaled))
        }
    }

    /// The digits of the magnitude of the value in thousandths, rounded to
    /// the nearest whole number, a tie away from zero.
    pub fn thousandths(&self) -> (digits: Vec<u8>)
        ensures
            canonical(digits@),
            value_of(digits@) == magnitude(round_half_away(self.value() * 1000real)),
    {
        proof {
            use_type_invariant(self);
            let e = self.expo();
            lemma_ten_to_step(e);
            lemma_ten_to_step(e + 1);
            lemma_ten_to_step(e + 2);
            let q = self.numer() as real / self.denom() as real;
            let t = ten_to(e);
            assert((q * t) * 1000real == q * (1000real * t)) by (nonlinear_arith);
        }
        self.rounded_digits(3)
    }

    /// The digits of the magnitude of the value, rounded to the nearest whole
    /// number, a tie away from zero.
    pub fn nearest_whole(&self) -> (digits: Vec<u8>)
        ensures
            canonical(digits@),
            value_of(digits@) == magnitude(round_half_away(self.value())),
    {
        self.rounded_digits(0)
    }
}

} // verus!
