//! Decimal numerals: the grammar by which a number is read from text.
//!
//! A numeral is what Rust reads as a floating-point number: digits with at
//! most one decimal point among, before or after them, and at least one
//! digit; then, optionally, `e` or `E`, an optional sign and at least one
//! digit. Its value is exact: the digits as one integer, times ten to the
//! power of the exponent less the number of fraction digits.
//!
//! A numeral is read as a number of nineteen significant digits times a
//! power of ten: the number it states, cut after its nineteenth significant
//! digit. A numeral of up to nineteen significant digits is read exactly.

use vstd::arithmetic::power::{lemma_pow0, lemma_pow_positive, pow};
use vstd::prelude::*;
use vstd::string::*;
use crate::power::{lemma_ten_to_grows, lemma_ten_to_step, ten_to};

verus! {

/// Whether `c` is a decimal digit.
pub open spec fn is_digit(c: char) -> bool {
    '0' <= c <= '9'
}

/// The number that a digit stands for; zero for any other character.
pub open spec fn digit_value(c: char) -> nat {
    if is_digit(c) {
        (c as u32 - '0' as u32) as nat
    } else {
        0
    }
}

/// Whether `s` holds decimal digits only.
pub open spec fn all_digits(s: Seq<char>) -> bool {
    forall|i: int| 0 <= i < s.len() ==> is_digit(#[trigger] s[i])
}

/// The number that a run of digits stands for, read in decimal notation.
pub open spec fn digits_value(s: Seq<char>) -> nat
    decreases s.len(),
{
    if s.len() == 0 {
        0
    } else {
        10 * digits_value(s.drop_last()) + digit_value(s.last())
    }
}

/// The place of the first `a` or `b` in `s`, or the length of `s` where it
/// holds neither.
pub open spec fn first_of(s: Seq<char>, a: char, b: char) -> int
    decreases s.len(),
{
    if s.len() == 0 || s[0] == a || s[0] == b {
        0
    } else {
        1 + first_of(s.skip(1), a, b)
    }
}

/// Where the exponent mark of `s` stands: at its first `e` or `E`, or at its
/// end where it has none.
pub open spec fn mark_position(s: Seq<char>) -> int {
    first_of(s, 'e', 'E')
}

/// Whether `s` has an exponent mark.
pub open spec fn has_exponent(s: Seq<char>) -> bool {
    mark_position(s) < s.len()
}

/// What stands before the exponent mark.
pub open spec fn significand(s: Seq<char>) -> Seq<char> {
    s.take(mark_position(s))
}

/// What stands after the exponent mark.
pub open spec fn exponent_text(s: Seq<char>) -> Seq<char> {
    if has_exponent(s) {
        s.skip(mark_position(s) + 1)
    } else {
        Seq::empty()
    }
}

/// Where the decimal point of `s` stands: at its first `.`, or at its end
/// where it has none.
pub open spec fn point_position(s: Seq<char>) -> int {
    first_of(s, '.', '.')
}

/// What stands before the decimal point.
pub open spec fn whole_part(s: Seq<char>) -> Seq<char> {
    s.take(point_position(s))
}

/// What stands after the decimal point.
pub open spec fn fraction_part(s: Seq<char>) -> Seq<char> {
    if point_position(s) < s.len() {
        s.skip(point_position(s) + 1)
    } else {
        Seq::empty()
    }
}

/// Whether `s` is a significand: digits, with at most one point among,
/// before or after them, and at least one digit.
pub open spec fn is_significand(s: Seq<char>) -> bool {
    &&& all_digits(whole_part(s))
    &&& all_digits(fraction_part(s))
    &&& whole_part(s).len() + fraction_part(s).len() > 0
}

/// The digits of a significand read as one integer, the point left out.
pub open spec fn significand_digits(s: Seq<char>) -> nat {
    digits_value(whole_part(s) + fraction_part(s))
}

/// Whether `s` begins with a minus sign.
pub open spec fn is_negative(s: Seq<char>) -> bool {
    s.len() > 0 && s[0] == '-'
}

/// The text without a leading sign.
pub open spec fn without_sign(s: Seq<char>) -> Seq<char> {
    if s.len() > 0 && (s[0] == '+' || s[0] == '-') {
        s.skip(1)
    } else {
        s
    }
}

/// Whether `s` is an exponent: an optional sign and at least one digit.
pub open spec fn is_exponent(s: Seq<char>) -> bool {
    without_sign(s).len() > 0 && all_digits(without_sign(s))
}

/// The integer that an exponent stands for.
pub open spec fn exponent_value(s: Seq<char>) -> int {
    if is_negative(s) {
        -(digits_value(without_sign(s)) as int)
    } else {
        digits_value(without_sign(s)) as int
    }
}

/// Whether `s` is an unsigned numeral: a significand, alone or followed by
/// an exponent mark and an exponent.
pub open spec fn is_numeral(s: Seq<char>) -> bool {
    &&& is_significand(significand(s))
    &&& has_exponent(s) ==> is_exponent(exponent_text(s))
}

/// The digits of a numeral read as one integer.
pub open spec fn numeral_digits(s: Seq<char>) -> nat {
    significand_digits(significand(s))
}

/// The power of ten by which the digits of a numeral are to be multiplied:
/// its exponent, less the number of its fraction digits.
pub open spec fn numeral_shift(s: Seq<char>) -> int {
    let exponent = if has_exponent(s) {
        exponent_value(exponent_text(s))
    } else {
        0
    };
    exponent - fraction_part(significand(s)).len()
}

/// The number that a numeral states.
pub open spec fn numeral_value(s: Seq<char>) -> real {
    numeral_digits(s) as real * ten_to(numeral_shift(s))
}

/// The least number that is read: the first nineteen digits of half the
/// least positive double-precision float.
pub open spec fn lowest() -> real {
    2_470_328_229_206_232_720real * ten_to(-342)
}

/// The least number above those that are read: just above the greatest
/// number that rounds to a finite double-precision float.
pub open spec fn highest() -> real {
    1_797_693_134_862_315_808real * ten_to(290)
}

/// Whether `v` is read: every number that rounds to a finite positive
/// double-precision float is.
pub open spec fn in_range(v: real) -> bool {
    lowest() <= v < highest()
}

/// Whether `digits` times ten to the power `exponent` is `v` cut after its
/// nineteenth significant digit.
pub open spec fn is_cut(v: real, digits: int, exponent: int) -> bool {
    &&& 1_000_000_000_000_000_000 <= digits < 10_000_000_000_000_000_000
    &&& digits as real * ten_to(exponent) <= v < (digits + 1) as real * ten_to(exponent)
}

/// The number `v` cut after its nineteenth significant digit.
pub open spec fn cut(v: real) -> real {
    let parts = choose|parts: (int, int)| is_cut(v, parts.0, parts.1);
    parts.0 as real * ten_to(parts.1)
}

/// Where the first `a` or `b` stands: within the text or at its end, on an
/// `a` or a `b` where it stands within, and neither comes before it.
pub(crate) proof fn lemma_first_of(s: Seq<char>, a: char, b: char)
    ensures
        0 <= first_of(s, a, b) <= s.len(),
        first_of(s, a, b) < s.len() ==> s[first_of(s, a, b)] == a || s[first_of(s, a, b)] == b,
        forall|i: int| 0 <= i < first_of(s, a, b) ==> s[i] != a && s[i] != b,
    decreases s.len(),
{
    if s.len() == 0 || s[0] == a || s[0] == b {
    } else {
        let rest = s.skip(1);
        lemma_first_of(rest, a, b);
        assert forall|i: int| 0 <= i < first_of(s, a, b) implies s[i] != a && s[i] != b by {
            if i > 0 {
                assert(s[i] == rest[i - 1]);
            }
        }
    }
}

/// A place with an `a` or a `b`, or the end, before which neither stands, is
/// where the first of them stands.
pub(crate) proof fn lemma_first_found(s: Seq<char>, a: char, b: char, p: int)
    requires
        0 <= p <= s.len(),
        p < s.len() ==> s[p] == a || s[p] == b,
        forall|i: int| 0 <= i < p ==> s[i] != a && s[i] != b,
    ensures
        first_of(s, a, b) == p,
{
    lemma_first_of(s, a, b);
}

/// A character that is neither a digit nor the decimal point spoils the
/// significand.
pub(crate) proof fn lemma_stray_character(s: Seq<char>, k: int)
    requires
        0 <= k < s.len(),
        !is_digit(s[k]),
        k != point_position(s),
    ensures
        !is_significand(s),
{
    lemma_first_of(s, '.', '.');
    let p = point_position(s);
    if k < p {
        assert(whole_part(s)[k] == s[k]);
    } else {
        assert(fraction_part(s)[k - p - 1] == s[k]);
    }
}

/// What a scan has read of the first `j` characters of a significand: the
/// digits met, and where the decimal point stood, if it was met.
#[verifier::opaque]
spec fn read_so_far(body: Seq<char>, j: int, point: Option<int>, digits: Seq<char>) -> bool {
    &&& 0 <= j <= body.len()
    &&& all_digits(digits)
    &&& match point {
        None => digits == body.take(j),
        Some(p) => {
            &&& 0 <= p < j
            &&& body[p] == '.'
            &&& digits == body.take(p) + body.subrange(p + 1, j)
        },
    }
}

/// The number of fraction digits read.
spec fn fraction_read(j: int, point: Option<int>) -> nat {
    match point {
        None => 0,
        Some(p) => (j - p - 1) as nat,
    }
}

/// Nothing is read at the start.
proof fn lemma_read_nothing(body: Seq<char>)
    ensures
        read_so_far(body, 0, None, Seq::empty()),
{
    reveal(read_so_far);
    assert(body.take(0) =~= Seq::<char>::empty());
}

/// Reading a digit.
proof fn lemma_read_digit(body: Seq<char>, j: int, point: Option<int>, digits: Seq<char>)
    requires
        read_so_far(body, j, point, digits),
        j < body.len(),
        is_digit(body[j]),
    ensures
        read_so_far(body, j + 1, point, digits.push(body[j])),
        digits_value(digits.push(body[j])) == 10 * digits_value(digits) + digit_value(body[j]),
        fraction_read(j + 1, point) == if point is Some {
            fraction_read(j, point) + 1
        } else {
            0
        },
{
    reveal(read_so_far);
    let grown = digits.push(body[j]);
    assert(grown.drop_last() =~= digits);
    match point {
        None => {
            assert(grown =~= body.take(j + 1));
        },
        Some(p) => {
            assert(grown =~= body.take(p) + body.subrange(p + 1, j + 1));
        },
    }
}

/// Reading the decimal point.
proof fn lemma_read_point(body: Seq<char>, j: int, digits: Seq<char>)
    requires
        read_so_far(body, j, None, digits),
        j < body.len(),
        body[j] == '.',
    ensures
        read_so_far(body, j + 1, Some(j), digits),
        fraction_read(j + 1, Some(j)) == 0,
{
    reveal(read_so_far);
    assert(body.take(j) + body.subrange(j + 1, j + 1) =~= body.take(j));
}

/// Where the decimal point of `body` stands, given what was read of it.
proof fn lemma_read_point_position(body: Seq<char>, j: int, point: Option<int>, digits: Seq<char>)
    requires
        read_so_far(body, j, point, digits),
    ensures
        match point {
            None => point_position(body) >= j,
            Some(p) => point_position(body) == p,
        },
{
    reveal(read_so_far);
    lemma_first_of(body, '.', '.');
    let at = point_position(body);
    match point {
        None => {
            if at < j {
                assert(digits[at] == body[at]);
            }
        },
        Some(p) => {
            assert forall|k: int| 0 <= k < p implies body[k] != '.' by {
                assert(digits[k] == body[k]);
            }
            lemma_first_found(body, '.', '.', p);
        },
    }
}

/// A character that can stand nowhere in a significand spoils it.
proof fn lemma_read_stray(body: Seq<char>, j: int, point: Option<int>, digits: Seq<char>)
    requires
        read_so_far(body, j, point, digits),
        j < body.len(),
        !is_digit(body[j]),
        body[j] != '.' || point is Some,
    ensures
        !is_significand(body),
{
    lemma_read_point_position(body, j, point, digits);
    lemma_first_of(body, '.', '.');
    reveal(read_so_far);
    lemma_stray_character(body, j);
}

/// What a significand is once all of it is read.
proof fn lemma_read_all(body: Seq<char>, point: Option<int>, digits: Seq<char>)
    requires
        read_so_far(body, body.len() as int, point, digits),
    ensures
        is_significand(body) <==> digits.len() > 0,
        significand_digits(body) == digits_value(digits),
        fraction_part(body).len() == fraction_read(body.len() as int, point),
        digits.len() == body.len() - if point is Some {
            1int
        } else {
            0int
        },
{
    lemma_read_point_position(body, body.len() as int, point, digits);
    lemma_first_of(body, '.', '.');
    reveal(read_so_far);
    match point {
        None => {
            assert(body.take(body.len() as int) =~= body);
            assert(whole_part(body) =~= digits);
            assert(fraction_part(body) =~= Seq::<char>::empty());
            assert(whole_part(body) + fraction_part(body) =~= digits);
        },
        Some(p) => {
            assert(whole_part(body) + fraction_part(body) =~= digits);
            assert(fraction_part(body).len() == body.len() - p - 1);
            assert forall|k: int| 0 <= k < whole_part(body).len() implies is_digit(
                #[trigger] whole_part(body)[k],
            ) by {
                assert(whole_part(body)[k] == digits[k]);
            }
            assert forall|k: int| 0 <= k < fraction_part(body).len() implies is_digit(
                #[trigger] fraction_part(body)[k],
            ) by {
                assert(fraction_part(body)[k] == digits[p + k]);
            }
        },
    }
}

/// The place of the exponent mark in `text` from `start` on, or the end of
/// `text`.
fn find_mark(text: &str, start: usize) -> (mark: usize)
    requires
        text.is_ascii(),
        start <= text@.len(),
    ensures
        start <= mark <= text@.len(),
        mark - start == mark_position(text@.skip(start as int)),
{
    let n: usize = text.unicode_len();
    let ghost body = text@.skip(start as int);
    let mut i: usize = start;
    while i < n
        invariant
            start <= i <= n,
            n == text@.len(),
            text.is_ascii(),
            body == text@.skip(start as int),
            forall|k: int| 0 <= k < i - start ==> body[k] != 'e' && body[k] != 'E',
        decreases n - i,
    {
        let c: u8 = text.get_ascii(i);
        proof {
            assert(body[i - start] == text@[i as int]);
            assert('\0' <= text@[i as int] <= '\u{7f}');
        }
        if c == 101u8 || c == 69u8 {
            proof {
                lemma_first_found(body, 'e', 'E', i - start);
            }
            return i;
        }
        i += 1;
    }
    proof {
        lemma_first_found(body, 'e', 'E', i - start);
    }
    i
}

/// What is kept of digits that stand for `whole` once `dropped` of them are
/// left out at the end.
spec fn kept(whole: nat, dropped: nat) -> int {
    whole as int / pow(10, dropped)
}

/// Keeping all digits keeps the number; leaving out one more digit of a
/// number that is one digit longer keeps what was kept.
proof fn lemma_kept(whole: nat, dropped: nat, d: nat)
    requires
        d <= 9,
    ensures
        kept(whole, 0) == whole,
        kept(10 * whole + d, dropped + 1) == kept(whole, dropped),
{
    lemma_pow0(10);
    let p = pow(10, dropped);
    lemma_pow_positive(10, dropped);
    assert(pow(10, dropped + 1) == 10 * p) by {
        reveal(pow);
    }
    let q = whole as int / p;
    let r = whole as int % p;
    assert((10 * whole + d) as int / (10 * p) == q) by (nonlinear_arith)
        requires
            q == whole as int / p,
            r == whole as int % p,
            p > 0,
            0 <= d <= 9,
            whole >= 0,
    ;
}

/// Reads the significand that `text` holds from `start` to `end`: its first
/// nineteen significant digits as one integer, the number of digits left out
/// after them, and the number of its fraction digits. None where there is no
/// significand there.
fn scan_significand(text: &str, start: usize, end: usize) -> (found: Option<(u64, usize, usize)>)
    requires
        text.is_ascii(),
        start <= end <= text@.len(),
    ensures
        ({
            let body = text@.subrange(start as int, end as int);
            match found {
                Some(parts) => {
                    &&& is_significand(body)
                    &&& parts.0 == kept(significand_digits(body), parts.1 as nat)
                    &&& parts.0 < 10_000_000_000_000_000_000
                    &&& parts.1 > 0 ==> parts.0 >= 1_000_000_000_000_000_000
                    &&& parts.2 == fraction_part(body).len()
                },
                None => !is_significand(body),
            }
        }),
{
    let ghost body = text@.subrange(start as int, end as int);
    let mut i: usize = start;
    let mut seen: bool = false;
    let mut mantissa: u64 = 0;
    let mut dropped: usize = 0;
    let mut fraction: usize = 0;
    let ghost mut point: Option<int> = None;
    let ghost mut digits: Seq<char> = Seq::empty();
    proof {
        lemma_read_nothing(body);
        lemma_kept(0, 0, 0);
    }
    while i < end
        invariant
            start <= i <= end <= text@.len(),
            text.is_ascii(),
            body == text@.subrange(start as int, end as int),
            read_so_far(body, i - start, point, digits),
            seen == (point is Some),
            mantissa == kept(digits_value(digits), dropped as nat),
            mantissa < 10_000_000_000_000_000_000,
            dropped > 0 ==> mantissa >= 1_000_000_000_000_000_000,
            dropped <= i - start,
            fraction == fraction_read(i - start, point),
            fraction <= i - start,
        decreases end - i,
    {
        let c: u8 = text.get_ascii(i);
        let ghost j = i - start;
        proof {
            assert(body[j] == text@[i as int]);
            assert('\0' <= text@[i as int] <= '\u{7f}');
            assert(is_digit(body[j]) <==> 48 <= c <= 57);
            assert(body[j] == '.' <==> c == 46);
        }
        if 48u8 <= c && c <= 57u8 {
            let d: u64 = (c - 48u8) as u64;
            proof {
                assert(digit_value(body[j]) == d);
                lemma_read_digit(body, j, point, digits);
                lemma_kept(digits_value(digits), dropped as nat, d as nat);
                lemma_kept(digits_value(digits.push(body[j])), 0, 0);
                digits = digits.push(body[j]);
            }
            if mantissa < 1_000_000_000_000_000_000 {
                mantissa = mantissa * 10 + d;
            } else {
                dropped = dropped + 1;
            }
            if seen {
                fraction = fraction + 1;
            }
        } else if c == 46u8 && !seen {
            proof {
                lemma_read_point(body, j, digits);
                point = Some(j);
            }
            seen = true;
        } else {
            proof {
                lemma_read_stray(body, j, point, digits);
            }
            return None;
        }
        i += 1;
    }
    proof {
        lemma_read_all(body, point, digits);
    }
    let count: usize = if seen {
        end - start - 1
    } else {
        end - start
    };
    if count == 0 {
        return None;
    }
    Some((mantissa, dropped, fraction))
}

/// The largest exponent that is told apart from a larger one: beyond it no
/// number fits, whatever its digits.
pub const EXPONENT_CAP: u128 = 1_000_000_000_000_000_000_000_000_000_000;

/// Reads the exponent that `text` holds from `start` to its end: whether it
/// is negative, and its magnitude, or the cap where the magnitude is larger.
/// None where there is no exponent there.
fn scan_exponent(text: &str, start: usize) -> (found: Option<(bool, u128)>)
    requires
        text.is_ascii(),
        start <= text@.len(),
    ensures
        ({
            let body = text@.skip(start as int);
            match found {
                Some(parts) => {
                    &&& is_exponent(body)
                    &&& parts.0 == is_negative(body)
                    &&& parts.1 == if digits_value(without_sign(body)) <= EXPONENT_CAP {
                        digits_value(without_sign(body))
                    } else {
                        EXPONENT_CAP as nat
                    }
                },
                None => !is_exponent(body),
            }
        }),
{
    let n: usize = text.unicode_len();
    let ghost body = text@.skip(start as int);
    if start == n {
        return None;
    }
    let first: u8 = text.get_ascii(start);
    proof {
        assert(body[0] == text@[start as int]);
        assert('\0' <= text@[start as int] <= '\u{7f}');
    }
    let negative: bool = first == 45u8;
    let from: usize = if first == 45u8 || first == 43u8 {
        start + 1
    } else {
        start
    };
    let ghost run = without_sign(body);
    assert(run == text@.skip(from as int)) by {
        assert(body.skip(0) =~= body);
        assert(body.skip(1) =~= text@.skip(start + 1));
    }
    if from == n {
        return None;
    }
    let mut magnitude: u128 = 0;
    let mut i: usize = from;
    proof {
        assert(run.take(0) =~= Seq::<char>::empty());
    }
    while i < n
        invariant
            from <= i <= n,
            n == text@.len(),
            text.is_ascii(),
            run == text@.skip(from as int),
            run == without_sign(body),
            body == text@.skip(start as int),
            all_digits(run.take(i - from)),
            magnitude == if digits_value(run.take(i - from)) <= EXPONENT_CAP {
                digits_value(run.take(i - from))
            } else {
                EXPONENT_CAP as nat
            },
        decreases n - i,
    {
        let c: u8 = text.get_ascii(i);
        let ghost j = i - from;
        proof {
            assert(run[j] == text@[i as int]);
            assert('\0' <= text@[i as int] <= '\u{7f}');
            assert(is_digit(run[j]) <==> 48 <= c <= 57);
        }
        if c < 48u8 || c > 57u8 {
            return None;
        }
        let d: u128 = (c - 48u8) as u128;
        proof {
            assert(digit_value(run[j]) == d);
            assert(run.take(j + 1).drop_last() =~= run.take(j));
        }
        let grown: u128 = magnitude * 10 + d;
        magnitude = if grown > EXPONENT_CAP {
            EXPONENT_CAP
        } else {
            grown
        };
        i += 1;
    }
    proof {
        assert(run.take(run.len() as int) =~= run);
    }
    Some((negative, magnitude))
}

/// Ten to the power `e + k` is ten to the power `k` times ten to the power
/// `e`.
pub(crate) proof fn lemma_ten_to_shift(e: int, k: nat)
    ensures
        ten_to(e + k) == pow(10, k) as real * ten_to(e),
        pow(10, k) > 0,
    decreases k,
{
    lemma_pow_positive(10, k);
    if k == 0 {
        lemma_pow0(10);
        assert(1int as real * ten_to(e) == ten_to(e));
    } else {
        lemma_ten_to_shift(e, (k - 1) as nat);
        lemma_ten_to_step(e + k - 1);
        let p = pow(10, (k - 1) as nat);
        assert(pow(10, k) == 10 * p) by {
            reveal(pow);
        }
        let t = ten_to(e);
        assert(10real * (p as real * t) == (10 * p) as real * t) by (nonlinear_arith);
    }
}

/// The bounds of a number whose digits were cut.
proof fn lemma_cut_bounds(whole: nat, dropped: nat, shift: int)
    ensures
        ({
            let m = kept(whole, dropped);
            let v = whole as real * ten_to(shift);
            &&& m as real * ten_to(shift + dropped) <= v < (m + 1) as real * ten_to(shift + dropped)
            &&& dropped == 0 ==> v == m as real * ten_to(shift)
        }),
{
    let p = pow(10, dropped);
    lemma_ten_to_shift(shift, dropped);
    lemma_ten_to_step(shift);
    lemma_kept(whole, 0, 0);
    let m = whole as int / p;
    let t = ten_to(shift);
    assert(m == kept(whole, dropped));
    assert(m * p <= whole < (m + 1) * p) by (nonlinear_arith)
        requires
            m == whole as int / p,
            p > 0,
            whole >= 0,
    ;
    assert(m as real * (p as real * t) <= whole as real * t < (m + 1) as real * (p as real * t))
        by (nonlinear_arith)
        requires
            m * p <= whole < (m + 1) * p,
            t > 0real,
    ;
}

/// A number of at least one unit in the 310th place before the point is too
/// large to be read.
proof fn lemma_too_large(v: real, m: int, e: int)
    requires
        m >= 1,
        e >= 309,
        m as real * ten_to(e) <= v,
    ensures
        !in_range(v),
{
    lemma_ten_to_grows(309, e);
    lemma_ten_to_shift(290, 19);
    lemma_ten_to_step(290);
    assert(pow(10, 19) == 10_000_000_000_000_000_000) by {
        reveal_with_fuel(pow, 20);
    }
    let t = ten_to(290);
    let u = ten_to(e);
    assert(m as real * u >= 1_797_693_134_862_315_808real * t) by (nonlinear_arith)
        requires
            m >= 1,
            u >= 10_000_000_000_000_000_000real * t,
            t > 0real,
    ;
}

/// A number below ten to the power nineteen units in the 344th place after
/// the point is too small to be read.
proof fn lemma_too_small(v: real, m: int, e: int)
    requires
        m <= 10_000_000_000_000_000_000,
        e <= -344,
        v < m as real * ten_to(e),
    ensures
        !in_range(v),
{
    lemma_ten_to_grows(e, -344);
    lemma_ten_to_step(-344);
    lemma_ten_to_step(-343);
    lemma_ten_to_step(e);
    let t = ten_to(-342);
    let u = ten_to(e);
    assert(m as real * u <= 2_470_328_229_206_232_720real * t) by (nonlinear_arith)
        requires
            m <= 10_000_000_000_000_000_000,
            0real < u <= ten_to(-344),
            t == 100real * ten_to(-344),
    ;
}

/// Whether a number of nineteen digits times a power of ten is read.
pub(crate) proof fn lemma_range_of_cut(v: real, m: int, e: int)
    requires
        is_cut(v, m, e),
    ensures
        in_range(v) <==> {
            &&& -342 <= e <= 290
            &&& e == -342 ==> m >= 2_470_328_229_206_232_720
            &&& e == 290 ==> m < 1_797_693_134_862_315_808
        },
{
    let u = ten_to(e);
    let lo = ten_to(-342);
    let hi = ten_to(290);
    lemma_ten_to_step(e);
    lemma_ten_to_step(-342);
    lemma_ten_to_step(290);
    if e > 290 {
        lemma_ten_to_grows(290, e);
        assert(m as real * u >= 1_797_693_134_862_315_808real * hi) by (nonlinear_arith)
            requires
                m >= 1_000_000_000_000_000_000,
                u >= 10real * hi,
                hi > 0real,
        ;
    } else if e < -342 {
        lemma_ten_to_grows(e, -342);
        assert((m + 1) as real * u <= 2_470_328_229_206_232_720real * lo) by (nonlinear_arith)
            requires
                m + 1 <= 10_000_000_000_000_000_000,
                10real * u <= lo,
                u > 0real,
        ;
    } else {
        lemma_ten_to_grows(-342, e);
        lemma_ten_to_grows(e, 290);
        if e == 290 {
            assert(m < 1_797_693_134_862_315_808 ==> (m + 1) as real * u
                <= 1_797_693_134_862_315_808real * hi) by (nonlinear_arith)
                requires
                    u == hi,
                    hi > 0real,
            ;
            assert(m >= 1_797_693_134_862_315_808 ==> m as real * u
                >= 1_797_693_134_862_315_808real * hi) by (nonlinear_arith)
                requires
                    u == hi,
                    hi > 0real,
            ;
        } else {
            assert((m + 1) as real * u <= 1_797_693_134_862_315_808real * hi)
                by (nonlinear_arith)
                requires
                    m + 1 <= 10_000_000_000_000_000_000,
                    10real * u <= hi,
                    u > 0real,
            ;
        }
        if e == -342 {
            assert(m >= 2_470_328_229_206_232_720 ==> m as real * u
                >= 2_470_328_229_206_232_720real * lo) by (nonlinear_arith)
                requires
                    u == lo,
                    lo > 0real,
            ;
            assert(m < 2_470_328_229_206_232_720 ==> (m + 1) as real * u
                <= 2_470_328_229_206_232_720real * lo) by (nonlinear_arith)
                requires
                    u == lo,
                    lo > 0real,
            ;
        } else {
            assert(m as real * u >= 2_470_328_229_206_232_720real * lo) by (nonlinear_arith)
                requires
                    m >= 1_000_000_000_000_000_000,
                    u >= 10real * lo,
                    lo > 0real,
            ;
        }
    }
}

/// The number of `whole` digits times ten to the power `shift`, cut after
/// nineteen significant digits, where it is read. `capped` is `shift`, or
/// lies far beyond every exponent in range on the same side as `shift`.
#[verifier::loop_isolation(false)]
fn settle(mantissa: u64, dropped: usize, capped: i128, Ghost(whole): Ghost<nat>, Ghost(shift): Ghost<
    int,
>) -> (found: Option<(u64, i32)>)
    requires
        mantissa == kept(whole, dropped as nat),
        mantissa < 10_000_000_000_000_000_000,
        dropped > 0 ==> mantissa >= 1_000_000_000_000_000_000,
        -0x1_0000_0000_0000_0000_0000_0000_0000 <= capped <= 0x1_0000_0000_0000_0000_0000_0000_0000,
        shift == capped || (capped >= 0x1_0000_0000_0000_0000_0000 && shift >= capped) || (capped
            <= -0x1_0000_0000_0000_0000_0000 && shift <= capped),
    ensures
        ({
            let v = whole as real * ten_to(shift);
            match found {
                Some(parts) => in_range(v) && is_cut(v, parts.0 as int, parts.1 as int),
                None => !in_range(v),
            }
        }),
{
    let ghost v = whole as real * ten_to(shift);
    let start: i128 = capped + dropped as i128;
    let ghost full = shift + dropped;
    proof {
        lemma_cut_bounds(whole, dropped as nat, shift);
        lemma_ten_to_step(shift);
        lemma_ten_to_step(-342);
    }
    if mantissa == 0 {
        proof {
            assert(0int as real * ten_to(shift) == 0real);
            assert(lowest() > 0real) by (nonlinear_arith)
                requires
                    lowest() == 2_470_328_229_206_232_720real * ten_to(-342),
                    ten_to(-342) > 0real,
            ;
        }
        return None;
    }
    if start >= 309 {
        proof {
            lemma_too_large(v, mantissa as int, full);
        }
        return None;
    }
    if start <= -344 {
        proof {
            lemma_ten_to_step(full);
            let u = ten_to(full);
            assert((mantissa + 1) as real * u <= 10_000_000_000_000_000_000int as real * u)
                by (nonlinear_arith)
                requires
                    mantissa + 1 <= 10_000_000_000_000_000_000,
                    u > 0real,
            ;
            lemma_too_small(v, 10_000_000_000_000_000_000, full);
        }
        return None;
    }
    assert(shift == capped && full == start);
    let mut m: u64 = mantissa;
    let mut e: i32 = start as i32;
    let mut floor: u64 = 1;
    let mut steps: i32 = 0;
    proof {
        lemma_pow0(10);
    }
    while m < 1_000_000_000_000_000_000
        invariant
            1 <= floor <= m < 10_000_000_000_000_000_000,
            0 <= steps <= 18,
            floor == pow(10, steps as nat),
            e == start - steps,
            m < 1_000_000_000_000_000_000 ==> v == m as real * ten_to(e as int),
            m as real * ten_to(e as int) <= v < (m + 1) as real * ten_to(e as int),
        decreases 19 - steps,
    {
        proof {
            lemma_ten_to_step(e - 1);
            let u = ten_to(e - 1);
            assert(m as real * (10real * u) == (10 * m) as real * u && (10 * m) as real * u < (10
                * m + 1) as real * u) by (nonlinear_arith)
                requires
                    u > 0real,
            ;
            assert(pow(10, (steps + 1) as nat) == 10 * pow(10, steps as nat)) by {
                reveal(pow);
            }
            if steps == 18 {
                assert(pow(10, 18) == 1_000_000_000_000_000_000) by {
                    reveal_with_fuel(pow, 19);
                }
            }
        }
        m = m * 10;
        e = e - 1;
        floor = floor * 10;
        steps = steps + 1;
        proof {
            if steps > 18 {
                assert(false);
            }
        }
    }
    proof {
        lemma_range_of_cut(v, m as int, e as int);
    }
    if e > 290 || e < -342 {
        return None;
    }
    if e == 290 && m >= 1_797_693_134_862_315_808 {
        return None;
    }
    if e == -342 && m < 2_470_328_229_206_232_720 {
        return None;
    }
    Some((m, e))
}

/// Reads `text` from `start` on as an unsigned numeral.
fn scan_numeral(text: &str, start: usize) -> (parts: Option<(u64, i32)>)
    requires
        text.is_ascii(),
        start <= text@.len(),
    ensures
        ({
            let body = text@.skip(start as int);
            match parts {
                Some(found) => {
                    &&& is_numeral(body)
                    &&& in_range(numeral_value(body))
                    &&& is_cut(numeral_value(body), found.0 as int, found.1 as int)
                },
                None => !(is_numeral(body) && in_range(numeral_value(body))),
            }
        }),
{
    let n: usize = text.unicode_len();
    let ghost body = text@.skip(start as int);
    let mark: usize = find_mark(text, start);
    proof {
        assert(significand(body) =~= text@.subrange(start as int, mark as int));
        if mark < n {
            assert(exponent_text(body) =~= text@.skip(mark + 1));
        }
    }
    let (mantissa, dropped, fraction) = match scan_significand(text, start, mark) {
        Some(found) => found,
        None => {
            return None;
        },
    };
    let exponent: i128 = if mark < n {
        match scan_exponent(text, mark + 1) {
            Some((negative, magnitude)) => if negative {
                -(magnitude as i128)
            } else {
                magnitude as i128
            },
            None => {
                return None;
            },
        }
    } else {
        0
    };
    let capped: i128 = exponent - fraction as i128;
    settle(mantissa, dropped, capped, Ghost(numeral_digits(body)), Ghost(numeral_shift(body)))
}

/// The text without a leading plus sign.
pub open spec fn unsigned(s: Seq<char>) -> Seq<char> {
    if s.len() > 0 && s[0] == '+' {
        s.skip(1)
    } else {
        s
    }
}

/// Whether `text` states a number that is read: it is a numeral, with or
/// without a plus sign before it, and the number it states is in range.
pub open spec fn is_read(text: Seq<char>) -> bool {
    is_numeral(unsigned(text)) && in_range(numeral_value(unsigned(text)))
}

/// The number that `text` is read as: what it states, cut after its
/// nineteenth significant digit.
pub open spec fn parsed(text: Seq<char>) -> Option<real> {
    if is_read(text) {
        Some(cut(numeral_value(unsigned(text))))
    } else {
        None
    }
}

/// A character outside ASCII can stand nowhere in a numeral.
proof fn lemma_not_ascii(text: Seq<char>)
    requires
        !vstd::utf8::is_ascii_chars(text),
    ensures
        !is_numeral(unsigned(text)),
{
    let body = unsigned(text);
    let k = choose|k: int| 0 <= k < text.len() && !('\0' <= #[trigger] text[k] <= '\u{7f}');
    let at = if body.len() == text.len() {
        k
    } else {
        k - 1
    };
    assert(body[at] == text[k]);
    lemma_first_of(body, 'e', 'E');
    let mark = mark_position(body);
    if at < mark {
        let head = significand(body);
        assert(head[at] == body[at]);
        lemma_first_of(head, '.', '.');
        lemma_stray_character(head, at);
    } else {
        let tail = exponent_text(body);
        assert(tail[at - mark - 1] == body[at]);
        let run = without_sign(tail);
        if run.len() == tail.len() {
            assert(run[at - mark - 1] == body[at]);
        } else {
            assert(at - mark - 1 > 0);
            assert(run[at - mark - 2] == body[at]);
        }
    }
}

/// A number has one cut only.
pub proof fn law_cut_is_unique(v: real, m: int, e: int, n: int, f: int)
    requires
        is_cut(v, m, e),
        is_cut(v, n, f),
    ensures
        m == n,
        e == f,
{
    lemma_ten_to_step(e);
    lemma_ten_to_step(f);
    let s = ten_to(e);
    let t = ten_to(f);
    if e < f {
        lemma_ten_to_grows(e, f);
        assert(false) by (nonlinear_arith)
            requires
                10real * s <= t,
                s > 0real,
                n >= 1_000_000_000_000_000_000,
                m + 1 <= 10_000_000_000_000_000_000,
                n as real * t <= v < (m + 1) as real * s,
        ;
    } else if f < e {
        lemma_ten_to_grows(f, e);
        assert(false) by (nonlinear_arith)
            requires
                10real * t <= s,
                t > 0real,
                m >= 1_000_000_000_000_000_000,
                n + 1 <= 10_000_000_000_000_000_000,
                m as real * s <= v < (n + 1) as real * t,
        ;
    } else {
        assert(m == n) by (nonlinear_arith)
            requires
                s > 0real,
                m as real * s <= v < (m + 1) as real * s,
                n as real * s <= v < (n + 1) as real * s,
        ;
    }
}

/// A number of up to nineteen significant digits has a cut, which is the
/// number itself.
proof fn lemma_cut_of_short_number(v: real, n: int, k: int) -> (parts: (int, int))
    requires
        1 <= n < 10_000_000_000_000_000_000,
        v == n as real * ten_to(k),
    ensures
        is_cut(v, parts.0, parts.1),
        parts.0 as real * ten_to(parts.1) == v,
    decreases 10_000_000_000_000_000_000 - n,
{
    lemma_ten_to_step(k);
    lemma_ten_to_step(k - 1);
    let t = ten_to(k);
    if n >= 1_000_000_000_000_000_000 {
        assert(n as real * t < (n + 1) as real * t) by (nonlinear_arith)
            requires
                t > 0real,
        ;
        (n, k)
    } else {
        let u = ten_to(k - 1);
        assert(n as real * (10real * u) == (10 * n) as real * u) by (nonlinear_arith);
        lemma_cut_of_short_number(v, 10 * n, k - 1)
    }
}

/// A number of up to nineteen significant digits is read exactly: cutting it
/// after its nineteenth significant digit leaves it as it is.
pub proof fn law_short_numbers_are_exact(n: int, k: int)
    requires
        1 <= n < 10_000_000_000_000_000_000,
    ensures
        cut(n as real * ten_to(k)) == n as real * ten_to(k),
{
    let v = n as real * ten_to(k);
    let parts = lemma_cut_of_short_number(v, n, k);
    let chosen = choose|p: (int, int)| is_cut(v, p.0, p.1);
    assert(is_cut(v, (parts.0, parts.1).0, (parts.0, parts.1).1));
    law_cut_is_unique(v, parts.0, parts.1, chosen.0, chosen.1);
}

/// A number in range below ten to the power eighteen units of the place
/// after `e` has a cut.
proof fn lemma_find_cut(v: real, e: int) -> (parts: (int, int))
    requires
        -342 <= e,
        lowest() <= v < 1_000_000_000_000_000_000real * ten_to(e + 1),
    ensures
        is_cut(v, parts.0, parts.1),
    decreases e + 342,
{
    lemma_ten_to_step(e);
    let t = ten_to(e);
    if v >= 1_000_000_000_000_000_000real * t {
        let x = v / t;
        let m = x.floor();
        assert(1_000_000_000_000_000_000real <= x < 10_000_000_000_000_000_000real && x * t == v)
            by (nonlinear_arith)
            requires
                x == v / t,
                t > 0real,
                1_000_000_000_000_000_000real * t <= v < 1_000_000_000_000_000_000real * (10real
                    * t),
        ;
        assert(m as real * t <= v < (m + 1) as real * t) by (nonlinear_arith)
            requires
                m as real <= x < (m + 1) as real,
                x * t == v,
                t > 0real,
        ;
        (m, e)
    } else if e > -342 {
        lemma_find_cut(v, e - 1)
    } else {
        assert(false) by (nonlinear_arith)
            requires
                v >= 2_470_328_229_206_232_720real * t,
                v < 1_000_000_000_000_000_000real * t,
                t > 0real,
        ;
        (0, 0)
    }
}

/// Every number in range has a cut.
pub proof fn law_numbers_in_range_have_a_cut(v: real) -> (parts: (int, int))
    requires
        in_range(v),
    ensures
        is_cut(v, parts.0, parts.1),
        cut(v) == parts.0 as real * ten_to(parts.1),
{
    lemma_ten_to_step(290);
    let t = ten_to(290);
    assert(v < 1_000_000_000_000_000_000real * (10real * t)) by (nonlinear_arith)
        requires
            v < 1_797_693_134_862_315_808real * t,
            t > 0real,
    ;
    let parts = lemma_find_cut(v, 290);
    let chosen = choose|p: (int, int)| is_cut(v, p.0, p.1);
    assert(is_cut(v, (parts.0, parts.1).0, (parts.0, parts.1).1));
    law_cut_is_unique(v, parts.0, parts.1, chosen.0, chosen.1);
    parts
}

/// A cut is at most the number, and less than one part in ten to the power
/// eighteen below it.
pub proof fn law_cut_is_close(v: real, digits: int, exponent: int)
    requires
        is_cut(v, digits, exponent),
    ensures
        cut(v) == digits as real * ten_to(exponent),
        cut(v) <= v,
        v - cut(v) < ten_to(exponent),
        1_000_000_000_000_000_000real * (v - cut(v)) < cut(v),
{
    let chosen = choose|p: (int, int)| is_cut(v, p.0, p.1);
    assert(is_cut(v, (digits, exponent).0, (digits, exponent).1));
    law_cut_is_unique(v, digits, exponent, chosen.0, chosen.1);
    lemma_ten_to_step(exponent);
    let t = ten_to(exponent);
    let c = digits as real * t;
    assert(v - c < t && 1_000_000_000_000_000_000real * t <= c) by (nonlinear_arith)
        requires
            c == digits as real * t,
            v < (digits + 1) as real * t,
            digits >= 1_000_000_000_000_000_000,
            t > 0real,
    ;
    assert(1_000_000_000_000_000_000real * (v - c) < c) by (nonlinear_arith)
        requires
            0real <= v - c < t,
            1_000_000_000_000_000_000real * t <= c,
    ;
}

/// Reads `text` as a numeral: the number it states, cut after its nineteenth
/// significant digit, as nineteen digits and a power of ten. None where
/// `text` is no numeral or states a number out of range.
pub fn read_number(text: &str) -> (parts: Option<(u64, i32)>)
    ensures
        match parts {
            Some(found) => {
                &&& is_read(text@)
                &&& is_cut(numeral_value(unsigned(text@)), found.0 as int, found.1 as int)
                &&& parsed(text@) == Some(found.0 as real * ten_to(found.1 as int))
            },
            None => !is_read(text@) && parsed(text@) is None,
        },
{
    if !text.is_ascii() {
        proof {
            lemma_not_ascii(text@);
        }
        return None;
    }
    let n: usize = text.unicode_len();
    let start: usize = if n > 0 && text.get_ascii(0) == 43u8 {
        1
    } else {
        0
    };
    assert(unsigned(text@) == text@.skip(start as int)) by {
        assert(text@.skip(0) =~= text@);
    }
    let parts = scan_numeral(text, start);
    proof {
        if let Some(found) = parts {
            let v = numeral_value(unsigned(text@));
            let chosen = choose|p: (int, int)| is_cut(v, p.0, p.1);
            assert(is_cut(v, (found.0 as int, found.1 as int).0, (found.0 as int, found.1 as int).1));
            law_cut_is_unique(v, found.0 as int, found.1 as int, chosen.0, chosen.1);
        }
    }
    parts
}

} // verus!
