//! The display formatter: quantities to text, and text to a tempo.

use vstd::prelude::*;
use vstd::string::*;
use crate::digits::{are_digits, canonical, lemma_leading_digit, value_of};
use crate::music::Unit;
use crate::numeral::{
    all_digits,
    cut,
    digits_value,
    fraction_part,
    in_range,
    is_cut,
    is_digit,
    is_numeral,
    is_read,
    lemma_first_found,
    lemma_first_of,
    lemma_stray_character,
    lowest,
    numeral_digits,
    numeral_shift,
    numeral_value,
    parsed,
    read_number,
    significand,
    unsigned,
    whole_part,
};
use crate::power::{lemma_ten_to_step, lemma_ten_to_zero, ten_to};
use crate::tempo::Tempo;
use crate::ratio::{
    law_rounding_is_nearest,
    law_rounding_keeps_integers,
    magnitude,
    round_half_away,
    Ratio,
};

verus! {

/// What is shown in place of a value while there is no tempo.
pub const NOT_APPLICABLE: &'static str = "N/A";

/// The character of a decimal digit.
pub open spec fn digit(d: int) -> char {
    if d == 0 {
        '0'
    } else if d == 1 {
        '1'
    } else if d == 2 {
        '2'
    } else if d == 3 {
        '3'
    } else if d == 4 {
        '4'
    } else if d == 5 {
        '5'
    } else if d == 6 {
        '6'
    } else if d == 7 {
        '7'
    } else if d == 8 {
        '8'
    } else {
        '9'
    }
}

/// A natural number in decimal notation, without leading zeros.
pub open spec fn decimal(n: nat) -> Seq<char>
    decreases n,
{
    if n < 10 {
        seq![digit(n as int)]
    } else {
        decimal(n / 10).push(digit((n % 10) as int))
    }
}

/// The sign that precedes a number: a minus where it is negative.
pub open spec fn sign(n: int) -> Seq<char> {
    if n < 0 {
        seq!['-']
    } else {
        Seq::empty()
    }
}

/// A number of thousandths in decimal notation with exactly three
/// fractional digits.
pub open spec fn fixed(thousandths: int) -> Seq<char> {
    let m = magnitude(thousandths);
    sign(thousandths) + decimal(m / 1000) + seq![
        '.',
        digit((m / 100 % 10) as int),
        digit((m / 10 % 10) as int),
        digit((m % 10) as int),
    ]
}

/// The fractional digits of `m` thousandths with the point before them,
/// without trailing zeros; nothing where the fraction is zero.
pub open spec fn fraction(m: nat) -> Seq<char> {
    if m % 1000 == 0 {
        Seq::empty()
    } else if m % 100 == 0 {
        seq!['.', digit((m / 100 % 10) as int)]
    } else if m % 10 == 0 {
        seq!['.', digit((m / 100 % 10) as int), digit((m / 10 % 10) as int)]
    } else {
        seq!['.', digit((m / 100 % 10) as int), digit((m / 10 % 10) as int), digit((m % 10) as int)]
    }
}

/// A number of thousandths in the shortest decimal notation: up to three
/// fractional digits, no trailing zeros, no point before an empty fraction.
pub open spec fn plain(thousandths: int) -> Seq<char> {
    let m = magnitude(thousandths);
    sign(thousandths) + decimal(m / 1000) + fraction(m)
}

/// A value as a table cell shows it: rounded to three fractional digits, ties
/// away from zero, then a space and the suffix of the unit.
pub open spec fn value_text(value: real, unit: Unit) -> Seq<char> {
    fixed(round_half_away(value * 1000real)) + seq![' '] + unit.spec_label()
}

/// A value as the tempo field shows it: rounded to three fractional digits,
/// ties away from zero, in the shortest notation.
pub open spec fn rounded_text(value: real) -> Seq<char> {
    plain(round_half_away(value * 1000real))
}

/// The text of one decimal digit.
fn digit_text(d: u8) -> (text: &'static str)
    requires
        d < 10,
    ensures
        text@ == seq![digit(d as int)],
{
    proof {
        reveal_strlit("0");
        reveal_strlit("1");
        reveal_strlit("2");
        reveal_strlit("3");
        reveal_strlit("4");
        reveal_strlit("5");
        reveal_strlit("6");
        reveal_strlit("7");
        reveal_strlit("8");
        reveal_strlit("9");
    }
    let text = if d == 0 {
        "0"
    } else if d == 1 {
        "1"
    } else if d == 2 {
        "2"
    } else if d == 3 {
        "3"
    } else if d == 4 {
        "4"
    } else if d == 5 {
        "5"
    } else if d == 6 {
        "6"
    } else if d == 7 {
        "7"
    } else if d == 8 {
        "8"
    } else {
        "9"
    };
    assert(text@ =~= seq![digit(d as int)]);
    text
}

/// The characters of the digits `v`.
pub open spec fn chars_of(v: Seq<u8>) -> Seq<char> {
    Seq::new(v.len(), |i: int| digit(v[i] as int))
}

/// The number without its last digit, and that digit.
proof fn lemma_last_digit(v: Seq<u8>)
    requires
        are_digits(v),
        v.len() >= 1,
    ensures
        value_of(v) / 10 == value_of(v.drop_last()),
        value_of(v) % 10 == v.last(),
{
    assert(v.last() <= 9);
}

/// The digits that stand for a number are its decimal notation.
proof fn lemma_decimal_of_digits(v: Seq<u8>)
    requires
        canonical(v),
    ensures
        decimal(value_of(v)) == chars_of(v),
    decreases v.len(),
{
    lemma_last_digit(v);
    if v.len() == 1 {
        assert(v.drop_last() =~= Seq::<u8>::empty());
        assert(value_of(v) == v[0]) by {
            reveal_with_fuel(value_of, 2);
        }
        assert(decimal(value_of(v)) =~= chars_of(v));
    } else {
        let w = v.drop_last();
        assert(w[0] == v[0]);
        lemma_leading_digit(w);
        lemma_decimal_of_digits(w);
        assert(decimal(value_of(v)) =~= chars_of(v));
    }
}

/// Appends the characters of the digits of `v` from `from` up to `to`.
fn push_digits(text: &mut String, v: &Vec<u8>, from: usize, to: usize)
    requires
        are_digits(v@),
        from <= to <= v@.len(),
    ensures
        final(text)@ == old(text)@ + chars_of(v@.subrange(from as int, to as int)),
{
    let mut i: usize = from;
    assert(text@ =~= old(text)@ + chars_of(v@.subrange(from as int, from as int)));
    while i < to
        invariant
            from <= i <= to <= v@.len(),
            are_digits(v@),
            text@ == old(text)@ + chars_of(v@.subrange(from as int, i as int)),
        decreases to - i,
    {
        text.append(digit_text(v[i]));
        i += 1;
        assert(text@ =~= old(text)@ + chars_of(v@.subrange(from as int, i as int)));
    }
}

/// Appends the whole part of a number of thousandths, given by its digits,
/// and returns the three digits of its fraction.
fn push_whole(text: &mut String, v: &Vec<u8>) -> (last: (u8, u8, u8))
    requires
        canonical(v@),
    ensures
        final(text)@ == old(text)@ + decimal(value_of(v@) / 1000),
        last.0 == value_of(v@) / 100 % 10,
        last.1 == value_of(v@) / 10 % 10,
        last.2 == value_of(v@) % 10,
{
    let n: usize = v.len();
    let ghost m = value_of(v@);
    proof {
        reveal_strlit("0");
    }
    if n >= 4 {
        proof {
            let a = v@.drop_last();
            let b = a.drop_last();
            let c = b.drop_last();
            lemma_last_digit(v@);
            lemma_last_digit(a);
            lemma_last_digit(b);
            assert(c =~= v@.subrange(0, n - 3));
            assert(c[0] == v@[0]);
            lemma_decimal_of_digits(c);
            assert(value_of(c) == m / 1000);
        }
        push_digits(text, v, 0, n - 3);
        (v[n - 3], v[n - 2], v[n - 1])
    } else {
        proof {
            lemma_last_digit(v@);
            if n >= 2 {
                lemma_last_digit(v@.drop_last());
            }
            if n >= 3 {
                lemma_last_digit(v@.drop_last().drop_last());
                assert(v@.drop_last().drop_last().drop_last() =~= Seq::<u8>::empty());
            }
            if n == 2 {
                assert(v@.drop_last().drop_last() =~= Seq::<u8>::empty());
            }
            if n == 1 {
                assert(v@.drop_last() =~= Seq::<u8>::empty());
            }
            assert(decimal(0) =~= seq!['0']);
        }
        text.append("0");
        assert(text@ =~= old(text)@ + decimal(0));
        if n == 3 {
            (v[0], v[1], v[2])
        } else if n == 2 {
            (0, v[0], v[1])
        } else {
            (0, 0, v[0])
        }
    }
}

/// Whether digits stand for zero.
fn is_zero(v: &Vec<u8>) -> (zero: bool)
    requires
        canonical(v@),
    ensures
        zero == (value_of(v@) == 0),
{
    proof {
        if v@[0] != 0 {
            lemma_leading_digit(v@);
        } else {
            assert(v@.drop_last() =~= Seq::<u8>::empty());
            reveal_with_fuel(value_of, 2);
        }
    }
    v[0] == 0
}

/// Appends the minus sign where the rounded thousandths of `value` are below
/// zero.
fn push_sign(text: &mut String, value: &Ratio, v: &Vec<u8>)
    requires
        canonical(v@),
        value_of(v@) == magnitude(round_half_away(value.value() * 1000real)),
    ensures
        final(text)@ == old(text)@ + sign(round_half_away(value.value() * 1000real)),
{
    let negative = value.is_negative();
    let zero = is_zero(v);
    proof {
        reveal_strlit("-");
        let x = value.value() * 1000real;
        law_rounding_is_nearest(x);
        law_rounding_is_nearest(-x);
        assert(-(-x) == x);
    }
    if negative && !zero {
        text.append("-");
    }
    assert(text@ =~= old(text)@ + sign(round_half_away(value.value() * 1000real)));
}

/// `value` rounded to three fractional digits, ties away from zero, then a
/// space and the suffix of `unit`.
pub fn format_value(value: &Ratio, unit: Unit) -> (text: String)
    ensures
        text@ == value_text(value.value(), unit),
{
    let v = value.thousandths();
    let mut text = String::new();
    push_sign(&mut text, value, &v);
    let last = push_whole(&mut text, &v);
    proof {
        reveal_strlit(".");
        reveal_strlit(" ");
    }
    text.append(".");
    text.append(digit_text(last.0));
    text.append(digit_text(last.1));
    text.append(digit_text(last.2));
    let ghost shown = round_half_away(value.value() * 1000real);
    assert(text@ =~= fixed(shown));
    text.append(" ");
    text.append(unit.label());
    assert(text@ =~= fixed(shown) + seq![' '] + unit.spec_label());
    text
}

/// `value` rounded to three fractional digits, ties away from zero, in the
/// shortest notation.
pub fn format_rounded(value: &Ratio) -> (text: String)
    ensures
        text@ == rounded_text(value.value()),
{
    let v = value.thousandths();
    let mut text = String::new();
    push_sign(&mut text, value, &v);
    let last = push_whole(&mut text, &v);
    if last.0 != 0 || last.1 != 0 || last.2 != 0 {
        proof {
            reveal_strlit(".");
        }
        text.append(".");
        text.append(digit_text(last.0));
        if last.1 != 0 || last.2 != 0 {
            text.append(digit_text(last.1));
            if last.2 != 0 {
                text.append(digit_text(last.2));
            }
        }
    }
    assert(text@ =~= plain(round_half_away(value.value() * 1000real)));
    text
}

/// The text shown in place of a value while there is no tempo.
pub fn format_absent() -> (text: String)
    ensures
        text@ == NOT_APPLICABLE@,
{
    String::from_str(NOT_APPLICABLE)
}

/// A whole number is shown as itself.
pub(crate) proof fn lemma_text_of_whole(n: nat)
    ensures
        rounded_text(n as real) == decimal(n),
{
    let shown = 1000 * (n as int);
    law_rounding_keeps_integers(shown);
    assert(n as real * 1000real == shown as real);
    assert(plain(shown) =~= decimal(n));
}

/// A whole number, given by its digits, in decimal notation.
pub(crate) fn format_whole(v: &Vec<u8>) -> (text: String)
    requires
        canonical(v@),
    ensures
        text@ == decimal(value_of(v@)),
{
    let mut text = String::new();
    proof {
        lemma_decimal_of_digits(v@);
        assert(v@.subrange(0, v@.len() as int) =~= v@);
    }
    push_digits(&mut text, v, 0, v.len());
    assert(text@ =~= decimal(value_of(v@)));
    text
}

/// The tempo that `text` states as a real number of beats per minute: the
/// number it states, cut after its nineteenth significant digit; none where
/// it is no numeral, or states nothing, or a number beyond those that a
/// finite double-precision float holds.
pub open spec fn tempo_of(text: Seq<char>) -> Option<real> {
    parsed(text)
}

/// The tempo that `text` states.
///
/// It is some tempo exactly where `text` is a decimal numeral, with or
/// without a plus sign before it, that states a number in range: above
/// zero, and not beyond what a finite double-precision float holds. The
/// tempo is the number stated, cut after its nineteenth significant digit;
/// a numeral of up to nineteen significant digits is read exactly.
pub fn parse_tempo(text: &str) -> (tempo: Option<Tempo>)
    ensures
        match tempo {
            Some(t) => {
                &&& t.wf()
                &&& is_read(text@)
                &&& t.denom() == 1
                &&& is_cut(numeral_value(unsigned(text@)), t.numer(), t.expo())
                &&& tempo_of(text@) == Some(t.value())
            },
            None => !is_read(text@) && tempo_of(text@) is None,
        },
{
    match read_number(text) {
        Some(parts) => {
            proof {
                crate::numeral::lemma_range_of_cut(
                    numeral_value(unsigned(text@)),
                    parts.0 as int,
                    parts.1 as int,
                );
            }
            Some(Tempo::from_digits(parts.0, parts.1))
        },
        None => None,
    }
}

/// The decimal notation of a number holds digits only, and stands for the
/// number.
proof fn lemma_decimal(n: nat)
    ensures
        decimal(n).len() > 0,
        all_digits(decimal(n)),
        digits_value(decimal(n)) == n,
    decreases n,
{
    if n < 10 {
        let s = seq![digit(n as int)];
        assert(s.drop_last() =~= Seq::<char>::empty());
        assert(digits_value(s) == n) by {
            reveal_with_fuel(digits_value, 2);
        }
    } else {
        lemma_decimal(n / 10);
        let s = decimal(n / 10).push(digit((n % 10) as int));
        assert(s.drop_last() =~= decimal(n / 10));
    }
}

/// The number that digits stand for once one more digit follows them.
proof fn lemma_digits_value_push(s: Seq<char>, d: int)
    requires
        0 <= d <= 9,
    ensures
        digits_value(s.push(digit(d))) == 10 * digits_value(s) + d,
{
    assert(s.push(digit(d)).drop_last() =~= s);
}

/// How a text of digits, with or without a point and further digits after
/// them, is read.
proof fn lemma_reads(head: Seq<char>, tail: Seq<char>, text: Seq<char>)
    requires
        head.len() > 0,
        all_digits(head),
        all_digits(tail),
        text == if tail.len() > 0 {
            head + seq!['.'] + tail
        } else {
            head
        },
    ensures
        unsigned(text) == text,
        is_numeral(text),
        numeral_digits(text) == digits_value(head + tail),
        numeral_shift(text) == -tail.len(),
{
    assert(is_digit(text[0])) by {
        assert(text[0] == head[0]);
    }
    assert forall|i: int| 0 <= i < text.len() implies text[i] != 'e' && text[i] != 'E' by {
        if i < head.len() {
            assert(text[i] == head[i]);
        } else if i > head.len() {
            assert(text[i] == tail[i - head.len() - 1]);
        }
    }
    lemma_first_found(text, 'e', 'E', text.len() as int);
    assert(significand(text) =~= text);
    assert forall|i: int| 0 <= i < head.len() implies text[i] != '.' by {
        assert(text[i] == head[i]);
    }
    lemma_first_found(text, '.', '.', head.len() as int);
    assert(whole_part(text) =~= head);
    assert(fraction_part(text) =~= tail);
}

/// What the tempo field shows is a numeral that states the number shown.
proof fn lemma_shown_is_numeral(thousandths: int)
    requires
        0 <= thousandths,
    ensures
        is_numeral(unsigned(plain(thousandths))),
        numeral_value(unsigned(plain(thousandths))) == thousandths as real / 1000real,
{
    let t = thousandths;
    let m = magnitude(t);
    let whole = m / 1000;
    let d1 = (m / 100 % 10) as int;
    let d2 = (m / 10 % 10) as int;
    let d3 = (m % 10) as int;
    let head = decimal(whole);
    let text = plain(t);
    lemma_decimal(whole);
    assert(text =~= head + fraction(m));
    lemma_ten_to_zero();
    lemma_ten_to_step(-1);
    lemma_ten_to_step(-2);
    lemma_ten_to_step(-3);
    let v = numeral_value(text);
    if m % 1000 == 0 {
        let tail = Seq::<char>::empty();
        assert(text =~= head);
        lemma_reads(head, tail, text);
        assert(head + tail =~= head);
        assert(v == t as real / 1000real) by (nonlinear_arith)
            requires
                v == whole as real * ten_to(0),
                ten_to(0) == 1real,
                t == 1000 * whole,
        ;
    } else if m % 100 == 0 {
        let tail = seq![digit(d1)];
        assert(text =~= head + seq!['.'] + tail);
        lemma_reads(head, tail, text);
        assert(head + tail =~= head.push(digit(d1)));
        lemma_digits_value_push(head, d1);
        let digits = (10 * whole + d1) as nat;
        assert(v == t as real / 1000real) by (nonlinear_arith)
            requires
                v == digits as real * ten_to(-1),
                10real * ten_to(-1) == 1real,
                t == 100 * digits,
        ;
    } else if m % 10 == 0 {
        let tail = seq![digit(d1), digit(d2)];
        assert(text =~= head + seq!['.'] + tail);
        lemma_reads(head, tail, text);
        assert(head + tail =~= head.push(digit(d1)).push(digit(d2)));
        lemma_digits_value_push(head, d1);
        lemma_digits_value_push(head.push(digit(d1)), d2);
        let digits = (100 * whole + 10 * d1 + d2) as nat;
        assert(v == t as real / 1000real) by (nonlinear_arith)
            requires
                v == digits as real * ten_to(-2),
                100real * ten_to(-2) == 1real,
                t == 10 * digits,
        ;
    } else {
        let tail = seq![digit(d1), digit(d2), digit(d3)];
        assert(text =~= head + seq!['.'] + tail);
        lemma_reads(head, tail, text);
        assert(head + tail =~= head.push(digit(d1)).push(digit(d2)).push(digit(d3)));
        lemma_digits_value_push(head, d1);
        lemma_digits_value_push(head.push(digit(d1)), d2);
        lemma_digits_value_push(head.push(digit(d1)).push(digit(d2)), d3);
        assert(v == t as real / 1000real) by (nonlinear_arith)
            requires
                v == (t as nat) as real * ten_to(-3),
                1000real * ten_to(-3) == 1real,
                t >= 0,
        ;
    }
}

/// The tempo field states the tempo that it shows: a positive number of
/// thousandths, written in the shortest notation, is read as that number,
/// cut after its nineteenth significant digit, where it is in range.
pub proof fn law_shown_tempo_reads_back(thousandths: int)
    requires
        0 < thousandths,
    ensures
        tempo_of(plain(thousandths)) == if in_range(thousandths as real / 1000real) {
            Some(cut(thousandths as real / 1000real))
        } else {
            None
        },
{
    lemma_shown_is_numeral(thousandths);
}

/// The tempo field states no tempo where it shows nothing or less: zero, or
/// a negative number, written in the shortest notation.
pub proof fn law_shown_nothing_is_no_tempo(thousandths: int)
    requires
        thousandths <= 0,
    ensures
        tempo_of(plain(thousandths)) is None,
{
    let text = plain(thousandths);
    if thousandths == 0 {
        lemma_shown_is_numeral(0);
        lemma_ten_to_step(-342);
        assert(lowest() > 0real) by (nonlinear_arith)
            requires
                lowest() == 2_470_328_229_206_232_720real * ten_to(-342),
                ten_to(-342) > 0real,
        ;
        assert(0int as real / 1000real == 0real);
    } else {
        assert(text[0] == '-');
        lemma_first_of(text, 'e', 'E');
        let head = significand(text);
        assert(head[0] == text[0]);
        lemma_first_of(head, '.', '.');
        lemma_stray_character(head, 0);
    }
}

} // verus!
