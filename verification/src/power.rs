//! Powers of ten with any integer exponent, as real numbers.

use vstd::arithmetic::power::{lemma_pow0, lemma_pow_positive, pow};
use vstd::prelude::*;

verus! {

/// Ten to the power `e`, for any integer `e`.
pub open spec fn ten_to(e: int) -> real {
    if e >= 0 {
        pow(10, e as nat) as real
    } else {
        1real / (pow(10, (-e) as nat) as real)
    }
}

/// Ten to the power zero is one.
pub(crate) proof fn lemma_ten_to_zero()
    ensures
        ten_to(0) == 1real,
{
    lemma_pow0(10);
}

/// Every power of ten is positive, and the next is ten times as large.
pub(crate) proof fn lemma_ten_to_step(e: int)
    ensures
        ten_to(e) > 0real,
        ten_to(e + 1) == 10real * ten_to(e),
{
    if e >= 0 {
        let p = pow(10, e as nat);
        lemma_pow_positive(10, e as nat);
        assert(pow(10, (e + 1) as nat) == 10 * p) by {
            reveal(pow);
        }
        assert((10 * p) as real == 10real * (p as real));
    } else {
        let p = pow(10, (-e - 1) as nat);
        lemma_pow_positive(10, (-e - 1) as nat);
        assert(pow(10, (-e) as nat) == 10 * p) by {
            reveal(pow);
        }
        let x = p as real;
        let low = 1real / ((10 * p) as real);
        assert(low == ten_to(e));
        assert(low > 0real && 1real / x == 10real * low && (x == 1real ==> 1real == 10real * low))
            by (nonlinear_arith)
            requires
                x > 0real,
                low == 1real / ((10 * p) as real),
                x == p as real,
        ;
        if e == -1 {
            lemma_pow0(10);
            assert(ten_to(e + 1) == 1real);
        } else {
            assert(ten_to(e + 1) == 1real / x);
        }
    }
}

/// A power of ten times the power of the opposite exponent is one.
pub(crate) proof fn lemma_ten_to_opposite(e: int)
    ensures
        ten_to(e) * ten_to(-e) == 1real,
        ten_to(e) > 0real,
        ten_to(-e) > 0real,
{
    lemma_ten_to_step(e);
    lemma_ten_to_step(-e);
    let a = ten_to(e);
    let b = ten_to(-e);
    if e == 0 {
        lemma_pow0(10);
        assert(a == 1real && b == 1real);
        assert(a * b == 1real) by (nonlinear_arith)
            requires
                a == 1real,
                b == 1real,
        ;
    } else if e > 0 {
        let x = pow(10, e as nat) as real;
        assert(a == x && b == 1real / x);
        assert(a * b == 1real) by (nonlinear_arith)
            requires
                a == x,
                b == 1real / x,
                x > 0real,
        ;
    } else {
        let x = pow(10, (-e) as nat) as real;
        assert(b == x && a == 1real / x);
        assert(a * b == 1real) by (nonlinear_arith)
            requires
                b == x,
                a == 1real / x,
                x > 0real,
        ;
    }
}

/// Powers of ten grow with their exponent.
pub(crate) proof fn lemma_ten_to_grows(a: int, b: int)
    requires
        a <= b,
    ensures
        ten_to(a) <= ten_to(b),
        a < b ==> 10real * ten_to(a) <= ten_to(b),
    decreases b - a,
{
    lemma_ten_to_step(a);
    if a < b {
        lemma_ten_to_grows(a + 1, b);
    }
}

} // verus!
