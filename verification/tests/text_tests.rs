use delay_time_calculator::music::Unit;
use delay_time_calculator::ratio::{Ratio, EXPONENT_LIMIT, RATIO_LIMIT};
use delay_time_calculator::tempo::Tempo;
use delay_time_calculator::text::{
    format_absent, format_rounded, format_value, parse_tempo, NOT_APPLICABLE,
};

fn ratio(numerator: i128, denominator: i128) -> Ratio {
    Ratio::new(numerator, denominator).unwrap()
}

fn number(digits: Vec<u8>) -> u128 {
    digits.iter().fold(0, |sum, digit| sum * 10 + *digit as u128)
}

fn ten_to(exponent: u32) -> u128 {
    10u128.pow(exponent)
}

/// Whether `text` is read as exactly `numerator / denominator`.
fn reads(text: &str, numerator: u128, denominator: u128) -> bool {
    match parse_tempo(text) {
        Some(tempo) => {
            let digits = tempo.numerator() as u128;
            let exponent = tempo.exponent();
            assert_eq!(tempo.denominator(), 1);
            assert!((1_000_000_000_000_000_000..10_000_000_000_000_000_000).contains(&digits));
            if exponent >= 0 {
                digits * ten_to(exponent as u32) * denominator == numerator
            } else {
                digits * denominator == numerator * ten_to(-exponent as u32)
            }
        }
        None => false,
    }
}

fn parts(text: &str) -> Option<(u64, i32)> {
    parse_tempo(text).map(|tempo| (tempo.numerator(), tempo.exponent()))
}

fn as_float(tempo: Tempo) -> f64 {
    format!("{}e{}", tempo.numerator(), tempo.exponent()).parse::<f64>().unwrap()
        / tempo.denominator() as f64
}

#[test]
fn parse_tempo_rejects_what_is_no_positive_number() {
    assert_eq!(parse_tempo("abc"), None);
    assert_eq!(parse_tempo("-5"), None);
    assert_eq!(parse_tempo("0"), None);
    assert_eq!(parse_tempo(""), None);
}

#[test]
fn parse_tempo_reads_120() {
    assert!(reads("120", 120, 1));
    assert_eq!(parts("120"), Some((1_200_000_000_000_000_000, -16)));
    assert_eq!(as_float(parse_tempo("120").unwrap()), 120.0);
}

#[test]
fn parse_tempo_reads_fractions() {
    assert!(reads("120.5", 1205, 10));
    assert!(reads("97.125", 97125, 1000));
    assert!(reads("0.5", 5, 10));
    assert!(reads(".5", 5, 10));
    assert!(reads("5.", 5, 1));
    assert!(reads("+5", 5, 1));
    assert!(reads("+.25", 25, 100));
    assert!(reads("007.50", 750, 100));
    assert!(!reads("120.5", 1206, 10));
}

#[test]
fn parse_tempo_rejects_malformed_numerals() {
    for text in [
        ".", "+", "-", "+.", "1.2.3", "1..2", " 120", "120 ", "1 20", "12a", "a12", "++5", "+-5",
        "5+", "1,5", "0x10", "inf", "NaN", "nan", "infinity", "+inf", "-0", "−5", "１２０",
        "120\u{e9}", "\u{e9}", "1_000",
    ] {
        assert_eq!(parse_tempo(text), None, "{:?}", text);
    }
}

#[test]
fn parse_tempo_reads_exponents() {
    assert!(reads("1e3", 1000, 1));
    assert!(reads("1E3", 1000, 1));
    assert!(reads("1e+3", 1000, 1));
    assert!(reads("1e-3", 1, 1000));
    assert!(reads("1.2e2", 120, 1));
    assert!(reads("1.205e2", 1205, 10));
    assert!(reads("+12.5E1", 125, 1));
    assert!(reads(".5e1", 5, 1));
    assert!(reads("5.e1", 50, 1));
    assert!(reads("1200e-1", 120, 1));
    assert!(reads("12e0", 12, 1));
    assert!(reads("12e-0", 12, 1));
    assert!(reads("12e0000000000000000000000000000000000001", 120, 1));
}

#[test]
fn parse_tempo_rejects_malformed_exponents() {
    for text in [
        "1e", "e5", "1e+", "1e-", "E", "e", "1e5.0", "1e 5", "1ee5", "1e5e5", ".e5", "1e++5",
        "1e+-5", "+e5", "1e5+", "1e\u{e9}", "1.e", "1f5",
    ] {
        assert_eq!(parse_tempo(text), None, "{:?}", text);
    }
}

#[test]
fn parse_tempo_reads_the_number_not_the_digits() {
    assert!(reads("2.0000000000000000000", 2, 1));
    assert!(reads("120.000000000000000000", 120, 1));
    assert!(reads("120.000000000000000000000000000000000000000000000", 120, 1));
    assert!(reads("000000000000000000000000000000000000000000000120", 120, 1));
    assert!(reads("0.00000000000000000001e20", 1, 1));
    assert!(reads("0.000000000000000000012e21", 12, 1));
    assert!(reads("12000000000000000000000000000000e-29", 120, 1));
    assert!(reads("0.000000000000000000000000000000000000012e40", 120, 1));
    assert_eq!(parts("2.0000000000000000000"), parts("2"));
    assert_eq!(parts("120.000000000000000000"), parts("1.2e2"));
}

#[test]
fn parse_tempo_reads_large_and_small_numbers() {
    assert_eq!(parts("1e20"), Some((1_000_000_000_000_000_000, 2)));
    assert_eq!(parts("2e19"), Some((2_000_000_000_000_000_000, 1)));
    assert_eq!(parts("1e-20"), Some((1_000_000_000_000_000_000, -38)));
    assert_eq!(parts("18446744073709551615"), Some((1_844_674_407_370_955_161, 1)));
    assert_eq!(parts("18446744073709551616"), Some((1_844_674_407_370_955_161, 1)));
    assert_eq!(parts("99999999999999999999"), Some((9_999_999_999_999_999_999, 1)));
    assert_eq!(parts("1e100"), Some((1_000_000_000_000_000_000, 82)));
    assert_eq!(parts("1e308"), Some((1_000_000_000_000_000_000, 290)));
    assert_eq!(parts("1e-300"), Some((1_000_000_000_000_000_000, -318)));
    assert_eq!(parts("5e-324"), Some((5_000_000_000_000_000_000, -342)));
    assert_eq!(parts("0.0000000000000000001"), Some((1_000_000_000_000_000_000, -37)));
}

#[test]
fn parse_tempo_cuts_after_nineteen_digits() {
    assert_eq!(parts("1.23456789012345678949999"), Some((1_234_567_890_123_456_789, -18)));
    assert_eq!(parts("1.2345678901234567895"), Some((1_234_567_890_123_456_789, -18)));
    assert_eq!(parts("1.234567890123456789"), Some((1_234_567_890_123_456_789, -18)));
    assert_eq!(parts("123456789012345678999999.9e-3"), Some((1_234_567_890_123_456_789, 2)));
    assert_eq!(parts("0.00123456789012345678999"), Some((1_234_567_890_123_456_789, -21)));
}

#[test]
fn parse_tempo_at_the_ends_of_the_range() {
    assert_eq!(parts("1.7976931348623157e308"), Some((1_797_693_134_862_315_700, 290)));
    assert_eq!(parts("1.797693134862315807e308"), Some((1_797_693_134_862_315_807, 290)));
    assert_eq!(parts("1.7976931348623158079999e308"), Some((1_797_693_134_862_315_807, 290)));
    assert_eq!(parts("1.797693134862315808e308"), None);
    assert_eq!(parts("1.8e308"), None);
    assert_eq!(parts("1e309"), None);
    assert_eq!(parts("17976931348623158080e289"), None);
    assert_eq!(parts("2.47032822920623272e-324"), Some((2_470_328_229_206_232_720, -342)));
    assert_eq!(parts("2.470328229206232719e-324"), None);
    assert_eq!(parts("2.4703282292062327199999e-324"), None);
    assert_eq!(parts("2e-324"), None);
    assert_eq!(parts("1e-324"), None);
    assert_eq!(parts("1e-400"), None);
    assert_eq!(parts("1e400"), None);
    assert_eq!(parts("1e999999999999999999999999999999999999999999"), None);
    assert_eq!(parts("1e-999999999999999999999999999999999999999999"), None);
    assert_eq!(parts("1e1000000000000000000000000000000"), None);
    assert_eq!(parts("1e-1000000000000000000000000000001"), None);
    assert_eq!(parts("0e5"), None);
    assert_eq!(parts("0e999999999999999999999999999999999999999999"), None);
    assert_eq!(parts("0.0e-5"), None);
}

#[test]
fn parse_tempo_rejects_zero_in_any_form() {
    for text in ["0", "0.0", "000", ".0", "0.", "+0", "0.000", "0e0", "0e-5", "0.0e400"] {
        assert_eq!(parse_tempo(text), None, "{:?}", text);
    }
}

#[test]
fn parse_tempo_agrees_with_float_parsing() {
    for text in [
        "120", "120.5", "0.5", ".5", "5.", "+5", "-5", "0", "", "abc", "1e3", "1E3", "1e-3",
        "1.5e2", ".5e1", "5.e1", "1e", "e5", ".", "+", "-", "1.2.3", " 120", "120 ", "inf",
        "infinity", "nan", "NaN", "+inf", "-inf", "1e+3", "1e+", "0.0", "-0", "+0", "0e0",
        "97.125", "33.333", "1_0", "0x10", "1,5", "12e1e1", "007", "1e05", "1.e-2", ".e1",
        "+.5", "+.", "++1", "e", "E5", "1E", "44100", "0.001", "999.9995", "1e20", "1e-20",
        "2e19", "2.0000000000000000000", "120.000000000000000000", "18446744073709551616",
        "1e308", "1e309", "1.7976931348623157e308", "1.7976931348623158e308",
        "1.7976931348623159e308", "1.8e308", "1e-323", "1e-324", "2.5e-324", "2.4e-324",
        "5e-324", "4.9e-324", "1e-400", "1e400", "123456789012345678901234567890",
        "0.000000000000000000000000000001", "1e-999999999", "1e999999999",
    ] {
        let expected = text.parse::<f64>().ok().filter(|value| value.is_finite() && *value > 0.0);
        let found = parse_tempo(text).map(as_float);
        match (expected, found) {
            (Some(expected), Some(found)) => {
                assert!((expected - found).abs() <= 1e-15 * expected, "{:?}", text)
            }
            (None, None) => {}
            other => panic!("{:?}: {:?}", text, other),
        }
    }
}

#[test]
fn format_value_rounds_to_three_digits() {
    assert_eq!(format_value(&ratio(1250005, 10000), Unit::Milliseconds), "125.001 ms");
    assert_eq!(format_value(&ratio(1250004, 10000), Unit::Milliseconds), "125.000 ms");
    assert_eq!(format_value(&ratio(1250015, 10000), Unit::Hertz), "125.002 Hz");
    assert_eq!(format_value(&ratio(1, 3), Unit::Hertz), "0.333 Hz");
    assert_eq!(format_value(&ratio(2, 3), Unit::Hertz), "0.667 Hz");
    assert_eq!(format_value(&ratio(0, 1), Unit::Milliseconds), "0.000 ms");
    assert_eq!(format_value(&ratio(9, 1000), Unit::Milliseconds), "0.009 ms");
    assert_eq!(format_value(&ratio(99, 1000), Unit::Milliseconds), "0.099 ms");
    assert_eq!(format_value(&ratio(9995, 10000), Unit::Milliseconds), "1.000 ms");
    assert_eq!(format_value(&ratio(9999995, 10000), Unit::Milliseconds), "1000.000 ms");
    assert_eq!(format_value(&ratio(1234567, 1), Unit::Milliseconds), "1234567.000 ms");
    assert_eq!(format_value(&ratio(100, 1), Unit::Milliseconds), "100.000 ms");
    assert_eq!(format_value(&ratio(10, 1), Unit::Milliseconds), "10.000 ms");
}

#[test]
fn format_value_rounds_ties_away_from_zero() {
    assert_eq!(format_value(&ratio(5, 10000), Unit::Milliseconds), "0.001 ms");
    assert_eq!(format_value(&ratio(-5, 10000), Unit::Milliseconds), "-0.001 ms");
    assert_eq!(format_value(&ratio(-4, 10000), Unit::Milliseconds), "0.000 ms");
    assert_eq!(format_value(&ratio(-1250005, 10000), Unit::Milliseconds), "-125.001 ms");
    assert_eq!(format_value(&ratio(-3, 2), Unit::Hertz), "-1.500 Hz");
}

#[test]
fn format_value_of_large_and_small_values() {
    let third = Ratio::scaled(1, 3, 30).unwrap();
    assert_eq!(format_value(&third, Unit::Hertz), "333333333333333333333333333333.333 Hz");
    let two_thirds = Ratio::scaled(-2, 3, 30).unwrap();
    assert_eq!(format_value(&two_thirds, Unit::Hertz), "-666666666666666666666666666666.667 Hz");
    let nines = Ratio::scaled(9_999_999_995, 1, -10).unwrap();
    assert_eq!(format_value(&nines, Unit::Hertz), "1.000 Hz");
    let large = Ratio::scaled(6, 1, 304).unwrap();
    assert_eq!(format_value(&large, Unit::Milliseconds), format!("6{}.000 ms", "0".repeat(304)));
    let largest = Ratio::scaled(RATIO_LIMIT, 1, EXPONENT_LIMIT).unwrap();
    assert_eq!(
        format_rounded(&largest),
        format!("1329227995784915872903807060280344576{}", "0".repeat(400))
    );
    let small = Ratio::scaled(6, 1, -304).unwrap();
    assert_eq!(format_value(&small, Unit::Milliseconds), "0.000 ms");
    assert_eq!(format_value(&Ratio::scaled(5, 1, -4).unwrap(), Unit::Hertz), "0.001 Hz");
    assert_eq!(format_value(&Ratio::scaled(49999, 1, -8).unwrap(), Unit::Hertz), "0.000 Hz");
    assert_eq!(format_value(&Ratio::scaled(RATIO_LIMIT, 1, -39).unwrap(), Unit::Hertz), "0.001 Hz");
    assert_eq!(format_value(&Ratio::scaled(RATIO_LIMIT, 1, -40).unwrap(), Unit::Hertz), "0.000 Hz");
    assert_eq!(format_value(&Ratio::scaled(1, RATIO_LIMIT, 40).unwrap(), Unit::Hertz), "7523.164 Hz");
    assert_eq!(format_value(&Ratio::scaled(5, 1, -EXPONENT_LIMIT).unwrap(), Unit::Hertz), "0.000 Hz");
}

#[test]
fn format_rounded_drops_trailing_zeros() {
    assert_eq!(format_rounded(&ratio(120, 1)), "120");
    assert_eq!(format_rounded(&ratio(241, 2)), "120.5");
    assert_eq!(format_rounded(&ratio(12025, 100)), "120.25");
    assert_eq!(format_rounded(&ratio(1000, 3)), "333.333");
    assert_eq!(format_rounded(&ratio(2000, 3)), "666.667");
    assert_eq!(format_rounded(&ratio(1, 1000)), "0.001");
    assert_eq!(format_rounded(&ratio(1, 100)), "0.01");
    assert_eq!(format_rounded(&ratio(101, 1000)), "0.101");
    assert_eq!(format_rounded(&ratio(1, 10000)), "0");
    assert_eq!(format_rounded(&ratio(0, 7)), "0");
    assert_eq!(format_rounded(&ratio(-3, 1)), "-3");
    assert_eq!(format_rounded(&ratio(-7, 2)), "-3.5");
    assert_eq!(format_rounded(&ratio(10, 1)), "10");
    assert_eq!(format_rounded(&ratio(1000, 1)), "1000");
    assert_eq!(format_rounded(&Ratio::scaled(12, 1, 20).unwrap()), "1200000000000000000000");
    assert_eq!(format_rounded(&Ratio::scaled(1, 8, 3).unwrap()), "125");
    assert_eq!(format_rounded(&Ratio::scaled(1, 8, 1).unwrap()), "1.25");
}

#[test]
fn format_absent_is_the_sentinel() {
    assert_eq!(format_absent(), "N/A");
    assert_eq!(NOT_APPLICABLE, "N/A");
    assert_eq!(parse_tempo(&format_absent()), None);
}

#[test]
fn rounding_of_ratios() {
    assert_eq!(number(ratio(1250005, 10000).thousandths()), 125001);
    assert_eq!(ratio(1250005, 10000).thousandths(), vec![1, 2, 5, 0, 0, 1]);
    assert_eq!(number(ratio(5, 2).nearest_whole()), 3);
    assert_eq!(number(ratio(-5, 2).nearest_whole()), 3);
    assert!(ratio(-5, 2).is_negative());
    assert!(!ratio(5, 2).is_negative());
    assert!(!ratio(0, 2).is_negative());
    assert_eq!(number(ratio(7, 3).nearest_whole()), 2);
    assert_eq!(number(ratio(8, 3).nearest_whole()), 3);
    assert_eq!(number(ratio(1, 2).nearest_whole()), 1);
    assert_eq!(number(ratio(49, 100).nearest_whole()), 0);
    assert_eq!(ratio(0, 5).nearest_whole(), vec![0]);
    assert_eq!(ratio(99, 100).nearest_whole(), vec![1]);
    assert_eq!(ratio(999, 1).thousandths(), vec![9, 9, 9, 0, 0, 0]);
    assert_eq!(ratio(19999, 20000).thousandths(), vec![1, 0, 0, 0]);
    assert_eq!(number(ratio(1, RATIO_LIMIT).thousandths()), 0);
    assert_eq!(number(Ratio::scaled(1, 7, 20).unwrap().nearest_whole()), 14285714285714285714);
}

#[test]
fn ratios_within_and_beyond_the_limit() {
    assert!(Ratio::new(1, 1).is_some());
    assert!(Ratio::new(0, 1).is_some());
    assert!(Ratio::new(1, 0).is_none());
    assert!(Ratio::new(1, -1).is_none());
    assert!(Ratio::new(RATIO_LIMIT, RATIO_LIMIT).is_some());
    assert!(Ratio::new(RATIO_LIMIT + 1, 1).is_none());
    assert!(Ratio::new(-RATIO_LIMIT - 1, 1).is_none());
    assert!(Ratio::new(1, RATIO_LIMIT + 1).is_none());
    assert!(Ratio::scaled(1, 1, EXPONENT_LIMIT).is_some());
    assert!(Ratio::scaled(1, 1, -EXPONENT_LIMIT).is_some());
    assert!(Ratio::scaled(1, 1, EXPONENT_LIMIT + 1).is_none());
    assert!(Ratio::scaled(1, 1, -EXPONENT_LIMIT - 1).is_none());
    let half = Ratio::scaled(-1, 2, 7).unwrap();
    assert_eq!((half.numerator(), half.denominator(), half.exponent()), (-1, 2, 7));
    assert_eq!(RATIO_LIMIT, 1 << 120);
}

#[test]
fn tempos_are_positive() {
    assert!(Tempo::new(0, 1).is_none());
    assert!(Tempo::new(1, 0).is_none());
    assert!(Tempo::new(0, 0).is_none());
    assert!(Tempo::scaled(0, 5).is_none());
    assert!(Tempo::scaled(1, EXPONENT_LIMIT + 1).is_none());
    assert!(Tempo::scaled(1, -EXPONENT_LIMIT - 1).is_none());
    let tempo = Tempo::new(241, 2).unwrap();
    assert_eq!((tempo.numerator(), tempo.denominator(), tempo.exponent()), (241, 2, 0));
    let ratio = tempo.as_ratio();
    assert_eq!((ratio.numerator(), ratio.denominator(), ratio.exponent()), (241, 2, 0));
    let tempo = Tempo::scaled(12, -300).unwrap();
    assert_eq!((tempo.numerator(), tempo.denominator(), tempo.exponent()), (12, 1, -300));
    let ratio = tempo.as_ratio();
    assert_eq!((ratio.numerator(), ratio.denominator(), ratio.exponent()), (12, 1, -300));
}

#[test]
fn thousandths_agree_with_the_round_crate() {
    for (numerator, denominator) in [
        (1i128, 2i128), (33, 16), (20625, 10000), (-20625, 10000), (1, 8), (-1, 8), (12345, 8),
        (7, 1), (0, 1), (1000, 3), (2, 3), (-2, 3), (5, 16), (60000, 973),
    ] {
        let value = ratio(numerator, denominator);
        let sign = if value.is_negative() { -1.0 } else { 1.0 };
        let float = numerator as f64 / denominator as f64;
        let theirs = round::round(float, 3);
        let ours = sign * number(value.thousandths()) as f64 / 1000.0;
        assert_eq!(ours, theirs, "{} / {}", numerator, denominator);
        let theirs = round::round(float, 0);
        let ours = sign * number(value.nearest_whole()) as f64;
        assert_eq!(ours, theirs, "{} / {}", numerator, denominator);
    }
}

#[test]
fn shown_tempo_reads_back() {
    for thousandths in [
        1u128, 9, 10, 99, 100, 101, 110, 999, 1000, 1001, 1010, 1100, 120000, 120500, 120250,
        333333, 92308, 1234567890, 1_000_000_000_000_000_000, 9_999_999_999_999_999_999,
    ] {
        let shown = format_rounded(&ratio(thousandths as i128, 1000));
        assert!(reads(&shown, thousandths, 1000), "{:?}", shown);
        assert_eq!(format_rounded(&parse_tempo(&shown).unwrap().as_ratio()), shown);
    }
}

#[test]
fn shown_nothing_is_no_tempo() {
    for thousandths in [0i128, -1, -10, -999, -1000, -120500, -RATIO_LIMIT] {
        let shown = format_rounded(&ratio(thousandths, 1000));
        assert_eq!(parse_tempo(&shown), None, "{:?}", shown);
    }
}

#[test]
fn rounding_is_nearest_and_symmetric() {
    for (numerator, denominator) in
        [(7i128, 3i128), (5, 2), (1, 2), (1, 3), (2, 3), (999, 1000), (0, 1), (12, 1)]
    {
        let up = number(ratio(numerator, denominator).nearest_whole()) as i128;
        let down = number(ratio(-numerator, denominator).nearest_whole()) as i128;
        assert_eq!(up, down);
        assert!((2 * (up * denominator - numerator)).abs() <= denominator);
    }
    assert_eq!(number(ratio(12, 1).nearest_whole()), 12);
    assert_eq!(number(ratio(-12, 1).thousandths()), 12000);
}
