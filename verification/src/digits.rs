//! Whole numbers of any size, held as decimal digits.
//!
//! The digits stand most significant first. What is computed here is long
//! division by a divisor that fits in a machine word, which is all that
//! rounding a quantity to a given decimal place asks for.

use vstd::arithmetic::power::{lemma_pow0, pow};
use vstd::prelude::*;

verus! {

/// The largest divisor that long division takes: 2 to the power 120.
pub const DIVISOR_LIMIT: u128 = 0x100_0000_0000_0000_0000_0000_0000_0000;

/// The number that the digits `v` stand for.
pub open spec fn value_of(v: Seq<u8>) -> nat
    decreases v.len(),
{
    if v.len() == 0 {
        0
    } else {
        10 * value_of(v.drop_last()) + v.last() as nat
    }
}

/// Whether every entry of `v` is a decimal digit.
pub open spec fn are_digits(v: Seq<u8>) -> bool {
    forall|i: int| 0 <= i < v.len() ==> #[trigger] v[i] <= 9
}

/// Whether `v` is the one way to write its number: at least one digit, and
/// no zero before other digits.
pub open spec fn canonical(v: Seq<u8>) -> bool {
    &&& are_digits(v)
    &&& v.len() >= 1
    &&& v.len() == 1 || v[0] != 0
}

/// Digits that begin with a digit other than zero stand for a number other
/// than zero.
pub(crate) proof fn lemma_leading_digit(v: Seq<u8>)
    requires
        v.len() >= 1,
        v[0] != 0,
    ensures
        value_of(v) >= 1,
    decreases v.len(),
{
    if v.len() == 1 {
        assert(v.drop_last() =~= Seq::<u8>::empty());
        reveal_with_fuel(value_of, 2);
    } else {
        lemma_leading_digit(v.drop_last());
    }
}

/// The number once one more digit follows.
pub(crate) proof fn lemma_value_push(v: Seq<u8>, d: u8)
    ensures
        value_of(v.push(d)) == 10 * value_of(v) + d,
{
    assert(v.push(d).drop_last() =~= v);
}

/// The digits of `n`.
pub fn from_number(n: u128) -> (v: Vec<u8>)
    ensures
        canonical(v@),
        value_of(v@) == n,
        n > 0 ==> v@[0] != 0,
    decreases n,
{
    if n < 10 {
        let mut v: Vec<u8> = Vec::new();
        v.push(n as u8);
        proof {
            lemma_value_push(Seq::empty(), n as u8);
        }
        v
    } else {
        let mut v = from_number(n / 10);
        proof {
            lemma_value_push(v@, (n % 10) as u8);
        }
        v.push((n % 10) as u8);
        v
    }
}

/// Appends the last `width` digits of `n`, zeros before them where `n` has
/// fewer.
pub(crate) fn push_padded(v: &mut Vec<u8>, n: u64, width: u32)
    requires
        are_digits(old(v)@),
        n < pow(10, width as nat),
    ensures
        are_digits(final(v)@),
        final(v)@.len() == old(v)@.len() + width,
        old(v)@.len() > 0 ==> final(v)@[0] == old(v)@[0],
        value_of(final(v)@) == value_of(old(v)@) * pow(10, width as nat) + n,
    decreases width,
{
    if width == 0 {
        proof {
            lemma_pow0(10);
        }
    } else {
        proof {
            assert(pow(10, width as nat) == 10 * pow(10, (width - 1) as nat)) by {
                reveal(pow);
            }
        }
        push_padded(v, n / 10, width - 1);
        proof {
            lemma_value_push(v@, (n % 10) as u8);
            let before = value_of(old(v)@);
            let p = pow(10, (width - 1) as nat);
            assert(10 * (before * p + n / 10) + n % 10 == before * (10 * p) + n)
                by (nonlinear_arith);
        }
        v.push((n % 10) as u8);
    }
}

/// Appends `count` times the digit `digit`.
pub(crate) fn push_repeated(v: &mut Vec<u8>, digit: u8, count: u32)
    requires
        are_digits(old(v)@),
        digit == 0 || digit == 9,
    ensures
        are_digits(final(v)@),
        final(v)@.len() == old(v)@.len() + count,
        old(v)@.len() > 0 ==> final(v)@[0] == old(v)@[0],
        old(v)@.len() == 0 && count > 0 ==> final(v)@[0] == digit,
        digit == 0 ==> value_of(final(v)@) == value_of(old(v)@) * pow(10, count as nat),
        digit == 9 ==> value_of(final(v)@) + 1 == (value_of(old(v)@) + 1) * pow(10, count as nat),
{
    let mut i: u32 = 0;
    proof {
        lemma_pow0(10);
    }
    while i < count
        invariant
            i <= count,
            are_digits(v@),
            digit == 0 || digit == 9,
            v@.len() == old(v)@.len() + i,
            old(v)@.len() > 0 ==> v@[0] == old(v)@[0],
            old(v)@.len() == 0 && i > 0 ==> v@[0] == digit,
            digit == 0 ==> value_of(v@) == value_of(old(v)@) * pow(10, i as nat),
            digit == 9 ==> value_of(v@) + 1 == (value_of(old(v)@) + 1) * pow(10, i as nat),
        decreases count - i,
    {
        proof {
            lemma_value_push(v@, digit);
            let p = pow(10, i as nat);
            assert(pow(10, (i + 1) as nat) == 10 * p) by {
                reveal(pow);
            }
            let before = value_of(old(v)@);
            assert(10 * (before * p) == before * (10 * p)) by (nonlinear_arith);
            assert(10 * ((before + 1) * p) == (before + 1) * (10 * p)) by (nonlinear_arith);
        }
        v.push(digit);
        i += 1;
    }
}

/// The quotient and the remainder of the number `p` by `d`.
pub(crate) fn divide(p: &Vec<u8>, d: u128) -> (result: (Vec<u8>, u128))
    requires
        are_digits(p@),
        0 < d <= DIVISOR_LIMIT,
    ensures
        canonical(result.0@),
        result.1 < d,
        value_of(result.0@) * d + result.1 == value_of(p@),
{
    let mut q: Vec<u8> = Vec::new();
    let mut r: u128 = 0;
    let mut i: usize = 0;
    proof {
        assert(p@.take(0) =~= Seq::<u8>::empty());
        assert(value_of(q@) * d == 0) by (nonlinear_arith)
            requires
                value_of(q@) == 0,
        ;
    }
    while i < p.len()
        invariant
            i <= p@.len(),
            are_digits(p@),
            0 < d <= DIVISOR_LIMIT,
            are_digits(q@),
            q@.len() == 0 || q@[0] != 0,
            r < d,
            value_of(q@) * d + r == value_of(p@.take(i as int)),
        decreases p@.len() - i,
    {
        let digit: u8 = p[i];
        let x: u128 = r * 10 + digit as u128;
        let qd: u128 = x / d;
        let rest: u128 = x % d;
        proof {
            assert(p@.take(i + 1).drop_last() =~= p@.take(i as int));
            assert(x == qd * d + rest && qd <= 9) by (nonlinear_arith)
                requires
                    qd == x / d,
                    rest == x % d,
                    x < 10 * d,
                    d > 0,
                    x >= 0,
            ;
            lemma_value_push(q@, qd as u8);
            let vq = value_of(q@);
            assert((10 * vq + qd) * d + rest == 10 * (vq * d + r) + digit) by (nonlinear_arith)
                requires
                    x == qd * d + rest,
                    x == r * 10 + digit,
            ;
        }
        if q.len() > 0 || qd > 0 {
            q.push(qd as u8);
        }
        r = rest;
        i += 1;
    }
    proof {
        assert(p@.take(p@.len() as int) =~= p@);
    }
    if q.len() == 0 {
        proof {
            lemma_value_push(q@, 0);
        }
        q.push(0);
    }
    (q, r)
}

/// The digits of the number after the one that `v` stands for.
pub(crate) fn increment(v: Vec<u8>) -> (next: Vec<u8>)
    requires
        canonical(v@) || v@.len() == 0,
    ensures
        canonical(next@),
        next@[0] != 0,
        value_of(next@) == value_of(v@) + 1,
    decreases v@.len(),
{
    let mut v = v;
    let ghost before = v@;
    match v.pop() {
        None => {
            proof {
                assert(before =~= Seq::<u8>::empty());
                lemma_value_push(v@, 1);
            }
            v.push(1);
            v
        },
        Some(last) => {
            assert(v@ =~= before.drop_last());
            assert(last == before.last());
            assert(value_of(before) == 10 * value_of(v@) + last);
            if last < 9 {
                proof {
                    lemma_value_push(v@, (last + 1) as u8);
                    if v@.len() > 0 {
                        assert(v@[0] == before[0]);
                    }
                }
                v.push(last + 1);
                v
            } else {
                proof {
                    if v@.len() > 0 {
                        assert(v@[0] == before[0]);
                    }
                }
                let mut next = increment(v);
                proof {
                    lemma_value_push(next@, 0);
                }
                next.push(0);
                next
            }
        },
    }
}

/// The quotient of the number `p` by `d`, rounded to the nearest whole
/// number, a tie upward.
pub(crate) fn divide_rounded(p: &Vec<u8>, d: u128) -> (q: Vec<u8>)
    requires
        are_digits(p@),
        0 < d <= DIVISOR_LIMIT,
    ensures
        canonical(q@),
        value_of(q@) == (2 * value_of(p@) + d) / (2 * d as int),
{
    let (q, r) = divide(p, d);
    proof {
        let n = value_of(p@) as int;
        let k = value_of(q@) as int;
        assert((2 * n + d) / (2 * d as int) == if 2 * r >= d {
            k + 1
        } else {
            k
        }) by (nonlinear_arith)
            requires
                n == k * d + r,
                0 <= r < d,
        ;
    }
    if r >= d - r {
        increment(q)
    } else {
        q
    }
}

} // verus!
