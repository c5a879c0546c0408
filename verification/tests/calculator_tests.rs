use delay_time_calculator::calculator::{
    handle_key_press, Calculator, Cell, Key, Message, NamedKey, TempoChange,
};
use delay_time_calculator::music::{RhythmicModifier, Unit};
use delay_time_calculator::ratio::Ratio;
use delay_time_calculator::tempo::Tempo;

fn character(text: &str) -> Key {
    Key::Character(text.to_string())
}

fn texts(cells: &[Cell]) -> Vec<&str> {
    cells.iter().map(|cell| cell.text.as_str()).collect()
}

fn is(value: &Ratio, numerator: i128, denominator: i128) -> bool {
    let exponent = value.exponent();
    if exponent >= 0 {
        value.numerator() * 10i128.pow(exponent as u32) * denominator
            == numerator * value.denominator()
    } else {
        value.numerator() * denominator
            == numerator * value.denominator() * 10i128.pow(-exponent as u32)
    }
}

fn changed(change: TempoChange, numerator: u64, denominator: u64) -> String {
    change.shown(Tempo::new(numerator, denominator).unwrap())
}

fn after(text: &str, change: TempoChange) -> String {
    let mut calculator = Calculator::new(true);
    calculator.update(Message::StoreTempoText(text.to_string()), 0);
    calculator.update(Message::ModifyTempo(change), 0);
    calculator.tempo_input_text
}

fn stated(calculator: &Calculator) -> Option<f64> {
    calculator.tempo().map(|tempo| {
        format!("{}e{}", tempo.numerator(), tempo.exponent()).parse::<f64>().unwrap()
            / tempo.denominator() as f64
    })
}

#[test]
fn starts_at_120_bpm_in_milliseconds() {
    let calculator = Calculator::new(true);
    assert_eq!(calculator.tempo_input_text, "120");
    assert_eq!(calculator.unit, Unit::Milliseconds);
    assert!(calculator.clipboard);
    assert_eq!(calculator.tap_tempo.tap_count(), 0);
    assert_eq!(stated(&calculator), Some(120.0));
    assert!(!calculator.reset_highlighted());
    assert!(!Calculator::new(false).clipboard);
}

#[test]
fn character_keys() {
    assert!(matches!(
        handle_key_press(&character("1")),
        Some(Message::ModifyTempo(TempoChange::Halve))
    ));
    assert!(matches!(
        handle_key_press(&character("2")),
        Some(Message::ModifyTempo(TempoChange::Double))
    ));
    assert!(matches!(handle_key_press(&character("h")), Some(Message::StoreUnit(Unit::Hertz))));
    assert!(matches!(
        handle_key_press(&character("m")),
        Some(Message::StoreUnit(Unit::Milliseconds))
    ));
    assert!(matches!(handle_key_press(&character("r")), Some(Message::Reset)));
    assert!(matches!(handle_key_press(&character("t")), Some(Message::Tap)));
}

#[test]
fn keys_without_a_meaning() {
    for text in ["", "3", "T", "R", "H", "M", "tt", "1 ", " 1", "12", "x", "é", "т"] {
        assert!(handle_key_press(&character(text)).is_none(), "{:?}", text);
    }
    assert!(handle_key_press(&Key::Named(NamedKey::Other)).is_none());
    assert!(handle_key_press(&Key::Unidentified).is_none());
}

#[test]
fn named_keys() {
    assert!(matches!(
        handle_key_press(&Key::Named(NamedKey::ArrowUp)),
        Some(Message::ModifyTempo(TempoChange::Shift(1)))
    ));
    assert!(matches!(
        handle_key_press(&Key::Named(NamedKey::ArrowDown)),
        Some(Message::ModifyTempo(TempoChange::Shift(-1)))
    ));
    assert!(matches!(
        handle_key_press(&Key::Named(NamedKey::ArrowRight)),
        Some(Message::ModifyTempo(TempoChange::Shift(5)))
    ));
    assert!(matches!(
        handle_key_press(&Key::Named(NamedKey::ArrowLeft)),
        Some(Message::ModifyTempo(TempoChange::Shift(-5)))
    ));
    assert!(matches!(
        handle_key_press(&Key::Named(NamedKey::Space)),
        Some(Message::ModifyTempo(TempoChange::Round))
    ));
}

#[test]
fn tempo_changes() {
    assert_eq!(changed(TempoChange::Halve, 120, 1), "60");
    assert_eq!(changed(TempoChange::Halve, 1, 3), "0.167");
    assert_eq!(changed(TempoChange::Double, 1205, 10), "241");
    assert_eq!(changed(TempoChange::Shift(5), 1205, 10), "125.5");
    assert_eq!(changed(TempoChange::Shift(-1), 1205, 10), "119.5");
    assert_eq!(changed(TempoChange::Shift(-200), 1205, 10), "-79.5");
    assert_eq!(changed(TempoChange::Shift(-120), 120, 1), "0");
    assert_eq!(changed(TempoChange::Round, 1205, 10), "121");
    assert_eq!(changed(TempoChange::Round, 1204, 10), "120");
    assert_eq!(changed(TempoChange::Round, 1, 3), "0");
    assert_eq!(changed(TempoChange::Round, 1, 2), "1");
    assert_eq!(changed(TempoChange::Shift(i32::MIN), u64::MAX, u64::MAX), "-2147483647");
    assert_eq!(changed(TempoChange::Shift(i32::MAX), u64::MAX, 1), "18446744075857035262");
    assert_eq!(changed(TempoChange::Double, u64::MAX, 1), "36893488147419103230");
    assert_eq!(changed(TempoChange::Halve, 1, u64::MAX), "0");
}

#[test]
fn tempo_changes_of_large_and_small_tempos() {
    assert_eq!(after("1e20", TempoChange::Shift(5)), "100000000000000000005");
    assert_eq!(after("1e20", TempoChange::Shift(-5)), "99999999999999999995");
    assert_eq!(after("1e20", TempoChange::Double), "200000000000000000000");
    assert_eq!(after("1e20", TempoChange::Halve), "50000000000000000000");
    assert_eq!(after("1e20", TempoChange::Round), "100000000000000000000");
    assert_eq!(after("1e17", TempoChange::Shift(5)), "100000000000000005");
    assert_eq!(after("1e18", TempoChange::Shift(-1)), "999999999999999999");
    assert_eq!(after("1e34", TempoChange::Shift(1)), format!("1{}1", "0".repeat(33)));
    assert_eq!(after("1e35", TempoChange::Shift(1)), format!("1{}1", "0".repeat(34)));
    assert_eq!(after("1e35", TempoChange::Shift(-1)), "9".repeat(35));
    assert_eq!(after("2e35", TempoChange::Shift(-1)), format!("1{}", "9".repeat(35)));
    assert_eq!(after("1e40", TempoChange::Shift(-1)), "9".repeat(40));
    assert_eq!(after("1e40", TempoChange::Shift(i32::MAX)), format!("1{}2147483647", "0".repeat(30)));
    assert_eq!(
        after("1.5e40", TempoChange::Shift(i32::MIN)),
        format!("14{}7852516352", "9".repeat(29))
    );
    assert_eq!(after("1e300", TempoChange::Shift(0)), format!("1{}", "0".repeat(300)));
    assert_eq!(after("1e300", TempoChange::Round), format!("1{}", "0".repeat(300)));
    assert_eq!(after("1e300", TempoChange::Double), format!("2{}", "0".repeat(300)));
    assert_eq!(after("1e300", TempoChange::Shift(-5)), format!("{}5", "9".repeat(299)));
    assert_eq!(after("0.5", TempoChange::Shift(5)), "5.5");
    assert_eq!(after("1e-3", TempoChange::Shift(5)), "5.001");
    assert_eq!(after("5e-4", TempoChange::Shift(5)), "5.001");
    assert_eq!(after("5e-4", TempoChange::Shift(-5)), "-5");
    assert_eq!(after("6e-4", TempoChange::Shift(-5)), "-4.999");
    assert_eq!(after("1e-10", TempoChange::Shift(5)), "5");
    assert_eq!(after("1e-30", TempoChange::Shift(5)), "5");
    assert_eq!(after("1e-30", TempoChange::Shift(-5)), "-5");
    assert_eq!(after("1e-30", TempoChange::Shift(0)), "0");
    assert_eq!(after("1e-300", TempoChange::Shift(1)), "1");
    assert_eq!(after("1e-30", TempoChange::Round), "0");
    assert_eq!(after("1e-300", TempoChange::Halve), "0");
    assert_eq!(after("4.9e-1", TempoChange::Round), "0");
    assert_eq!(after("1.7976931348623157e308", TempoChange::Double).len(), 309);
}

#[test]
fn tapping_fills_the_tempo_field() {
    let mut calculator = Calculator::new(true);
    assert!(calculator.update(Message::Tap, 1_000).is_none());
    assert_eq!(calculator.tempo_input_text, "N/A");
    assert!(calculator.reset_highlighted());
    assert_eq!(calculator.tempo(), None);
    calculator.update(Message::Tap, 1_500);
    assert_eq!(calculator.tempo_input_text, "120");
    calculator.update(Message::Tap, 2_300);
    assert_eq!(calculator.tempo_input_text, "92.308");
    assert_eq!(calculator.tap_tempo.tap_count(), 3);
    calculator.update(Message::Tap, 9_000);
    assert_eq!(calculator.tempo_input_text, "N/A");
    assert_eq!(calculator.tap_tempo.tap_count(), 1);
}

#[test]
fn reset_forgets_the_session_and_keeps_the_text() {
    let mut calculator = Calculator::new(true);
    calculator.update(Message::Tap, 0);
    calculator.update(Message::Tap, 600);
    assert_eq!(calculator.tempo_input_text, "100");
    calculator.update(Message::Reset, 700);
    assert_eq!(calculator.tempo_input_text, "100");
    assert_eq!(calculator.tap_tempo.tap_count(), 0);
    assert!(!calculator.reset_highlighted());
    calculator.update(Message::Tap, 800);
    assert_eq!(calculator.tempo_input_text, "N/A");
    assert_eq!(calculator.tap_tempo.tap_count(), 1);
}

#[test]
fn typing_and_submitting() {
    let mut calculator = Calculator::new(true);
    calculator.update(Message::StoreTempoText("97.12345".to_string()), 0);
    assert_eq!(calculator.tempo_input_text, "97.12345");
    assert_eq!(stated(&calculator), Some(97.12345));
    calculator.update(Message::StoreTempo, 0);
    assert_eq!(calculator.tempo_input_text, "97.123");
    calculator.update(Message::StoreTempoText("fast".to_string()), 0);
    calculator.update(Message::StoreTempo, 0);
    assert_eq!(calculator.tempo_input_text, "fast");
    calculator.update(Message::ModifyTempo(TempoChange::Double), 0);
    assert_eq!(calculator.tempo_input_text, "fast");
    calculator.update(Message::StoreTempoText("+090.".to_string()), 0);
    calculator.update(Message::StoreTempo, 0);
    assert_eq!(calculator.tempo_input_text, "90");
}

#[test]
fn modifying_the_tempo() {
    let mut calculator = Calculator::new(true);
    calculator.update(Message::ModifyTempo(TempoChange::Halve), 0);
    assert_eq!(calculator.tempo_input_text, "60");
    calculator.update(Message::ModifyTempo(TempoChange::Halve), 0);
    calculator.update(Message::ModifyTempo(TempoChange::Halve), 0);
    calculator.update(Message::ModifyTempo(TempoChange::Halve), 0);
    calculator.update(Message::ModifyTempo(TempoChange::Halve), 0);
    assert_eq!(calculator.tempo_input_text, "3.75");
    calculator.update(Message::ModifyTempo(TempoChange::Halve), 0);
    calculator.update(Message::ModifyTempo(TempoChange::Halve), 0);
    assert_eq!(calculator.tempo_input_text, "0.938");
    calculator.update(Message::ModifyTempo(TempoChange::Double), 0);
    assert_eq!(calculator.tempo_input_text, "1.876");
    calculator.update(Message::ModifyTempo(TempoChange::Shift(5)), 0);
    assert_eq!(calculator.tempo_input_text, "6.876");
    calculator.update(Message::ModifyTempo(TempoChange::Round), 0);
    assert_eq!(calculator.tempo_input_text, "7");
    calculator.update(Message::ModifyTempo(TempoChange::Shift(1)), 0);
    assert_eq!(calculator.tempo_input_text, "8");
    calculator.update(Message::ModifyTempo(TempoChange::Shift(-5)), 0);
    assert_eq!(calculator.tempo_input_text, "3");
    calculator.update(Message::ModifyTempo(TempoChange::Shift(-5)), 0);
    assert_eq!(calculator.tempo_input_text, "-2");
    assert_eq!(calculator.tempo(), None);
    calculator.update(Message::ModifyTempo(TempoChange::Shift(5)), 0);
    assert_eq!(calculator.tempo_input_text, "-2");
}

#[test]
fn a_shift_down_to_nothing_leaves_no_tempo() {
    let mut calculator = Calculator::new(true);
    calculator.update(Message::StoreTempoText("5".to_string()), 0);
    calculator.update(Message::ModifyTempo(TempoChange::Shift(-5)), 0);
    assert_eq!(calculator.tempo_input_text, "0");
    assert_eq!(calculator.tempo(), None);
    let column = calculator.values_column(RhythmicModifier::Normal);
    assert_eq!(texts(&column.cells), vec!["N/A"; 8]);
}

#[test]
fn choosing_the_unit() {
    let mut calculator = Calculator::new(true);
    calculator.update(Message::StoreUnit(Unit::Hertz), 0);
    assert_eq!(calculator.unit, Unit::Hertz);
    assert_eq!(calculator.tempo_input_text, "120");
    calculator.update(Message::StoreUnit(Unit::Milliseconds), 0);
    assert_eq!(calculator.unit, Unit::Milliseconds);
}

#[test]
fn copying_needs_a_clipboard() {
    let value = Ratio::new(1000, 3).unwrap();
    let mut calculator = Calculator::new(true);
    let copied = calculator.update(Message::CopyToClipboard(value), 0).unwrap();
    assert_eq!((copied.numerator(), copied.denominator()), (1000, 3));
    assert_eq!(calculator.tempo_input_text, "120");
    let mut calculator = Calculator::new(false);
    assert!(calculator.update(Message::CopyToClipboard(value), 0).is_none());
    for message in [
        Message::Tap,
        Message::Reset,
        Message::StoreTempo,
        Message::StoreTempoText("1".to_string()),
        Message::ModifyTempo(TempoChange::Double),
        Message::StoreUnit(Unit::Hertz),
    ] {
        assert!(Calculator::new(true).update(message, 0).is_none());
    }
}

#[test]
fn columns_at_120_bpm() {
    let mut calculator = Calculator::new(true);
    let column = calculator.values_column(RhythmicModifier::Normal);
    assert_eq!(column.heading, "Normal");
    assert_eq!(
        texts(&column.cells),
        vec![
            "2000.000 ms", "1000.000 ms", "500.000 ms", "250.000 ms", "125.000 ms", "62.500 ms",
            "31.250 ms", "15.625 ms"
        ]
    );
    let column = calculator.values_column(RhythmicModifier::Triplet);
    assert_eq!(column.heading, "Triplet");
    assert_eq!(
        texts(&column.cells),
        vec![
            "1333.333 ms", "666.667 ms", "333.333 ms", "166.667 ms", "83.333 ms", "41.667 ms",
            "20.833 ms", "10.417 ms"
        ]
    );
    calculator.update(Message::StoreUnit(Unit::Hertz), 0);
    let column = calculator.values_column(RhythmicModifier::Dotted);
    assert_eq!(column.heading, "Dotted");
    assert_eq!(
        texts(&column.cells),
        vec![
            "0.333 Hz", "0.667 Hz", "1.333 Hz", "2.667 Hz", "5.333 Hz", "10.667 Hz", "21.333 Hz",
            "42.667 Hz"
        ]
    );
}

#[test]
fn cells_offer_their_value_for_copying() {
    let calculator = Calculator::new(true);
    let column = calculator.values_column(RhythmicModifier::Triplet);
    match &column.cells[2].on_press {
        Some(Message::CopyToClipboard(value)) => {
            assert!(is(value, 1000, 3));
        }
        other => panic!("{:?}", other),
    }
    assert!(column.cells.iter().all(|cell| cell.on_press.is_some()));
    let calculator = Calculator::new(false);
    let column = calculator.values_column(RhythmicModifier::Triplet);
    assert_eq!(column.cells[2].text, "333.333 ms");
    assert!(column.cells.iter().all(|cell| cell.on_press.is_none()));
}

#[test]
fn without_a_tempo_every_cell_is_absent() {
    let mut calculator = Calculator::new(true);
    calculator.update(Message::StoreTempoText("".to_string()), 0);
    assert!(calculator.delay_times(RhythmicModifier::Normal).is_none());
    let table = calculator.table();
    assert_eq!(table.columns.len(), 3);
    for column in &table.columns {
        assert_eq!(texts(&column.cells), vec!["N/A"; 8]);
        assert!(column.cells.iter().all(|cell| cell.on_press.is_none()));
    }
    calculator.update(Message::Tap, 0);
    let table = calculator.table();
    for column in &table.columns {
        assert_eq!(texts(&column.cells), vec!["N/A"; 8]);
    }
}

#[test]
fn the_table_has_labels_and_three_columns() {
    let calculator = Calculator::new(true);
    let table = calculator.table();
    assert_eq!(
        table.note_labels,
        vec!["1:", "1/2:", "1/4:", "1/8:", "1/16:", "1/32:", "1/64:", "1/128:"]
    );
    let headings: Vec<&str> = table.columns.iter().map(|column| column.heading.as_str()).collect();
    assert_eq!(headings, vec!["Normal", "Dotted", "Triplet"]);
    assert_eq!(table.columns[0].cells[2].text, "500.000 ms");
    assert_eq!(table.columns[1].cells[2].text, "750.000 ms");
    assert_eq!(table.columns[2].cells[2].text, "333.333 ms");
    assert_eq!(table.columns[0].cells[3].text, "250.000 ms");
    let row = calculator.delay_times(RhythmicModifier::Dotted).unwrap();
    assert!(is(&row.v_quarter, 750, 1));
}

#[test]
fn submitting_twice_is_submitting_once() {
    for text in [
        "97.12345", "120", "0.0004", "1e3", "+5.", "abc", "", "0", "10000000000000000", "1e20",
        "1e300", "1e-300", "2.0000000000000000000", "18446744073709551616.5",
    ] {
        let mut calculator = Calculator::new(true);
        calculator.update(Message::StoreTempoText(text.to_string()), 0);
        calculator.update(Message::StoreTempo, 1);
        let once = calculator.tempo_input_text.clone();
        calculator.update(Message::StoreTempo, 2);
        assert_eq!(calculator.tempo_input_text, once, "{:?}", text);
    }
    let mut calculator = Calculator::new(true);
    calculator.update(Message::StoreTempoText("1e3".to_string()), 0);
    calculator.update(Message::StoreTempo, 1);
    assert_eq!(calculator.tempo_input_text, "1000");
    calculator.update(Message::StoreTempoText("0.0004".to_string()), 0);
    calculator.update(Message::StoreTempo, 1);
    assert_eq!(calculator.tempo_input_text, "0");
    calculator.update(Message::StoreTempoText("2.0000000000000000000".to_string()), 0);
    calculator.update(Message::StoreTempo, 1);
    assert_eq!(calculator.tempo_input_text, "2");
}

#[test]
fn every_finite_tempo_above_zero_fills_the_table() {
    for text in ["1e20", "1e-20", "2e19", "2.0000000000000000000", "120.000000000000000000", "5e-324", "1e308"] {
        let mut calculator = Calculator::new(true);
        calculator.update(Message::StoreTempoText(text.to_string()), 0);
        assert!(calculator.tempo().is_some(), "{:?}", text);
        assert!(calculator.delay_times(RhythmicModifier::Normal).is_some(), "{:?}", text);
        let table = calculator.table();
        for column in &table.columns {
            assert!(column.cells.iter().all(|cell| cell.text.ends_with(" ms")), "{:?}", text);
            assert!(column.cells.iter().all(|cell| cell.on_press.is_some()), "{:?}", text);
        }
    }
    let mut calculator = Calculator::new(true);
    calculator.update(Message::StoreTempoText("2.0000000000000000000".to_string()), 0);
    assert_eq!(calculator.values_column(RhythmicModifier::Normal).cells[2].text, "30000.000 ms");
    calculator.update(Message::StoreTempoText("1e20".to_string()), 0);
    calculator.update(Message::StoreUnit(Unit::Hertz), 0);
    assert_eq!(
        calculator.values_column(RhythmicModifier::Normal).cells[2].text,
        "1666666666666666666.667 Hz"
    );
    for text in ["1e309", "1e-324", "inf", "0"] {
        calculator.update(Message::StoreTempoText(text.to_string()), 0);
        assert!(calculator.tempo().is_none(), "{:?}", text);
        assert!(calculator.delay_times(RhythmicModifier::Normal).is_none(), "{:?}", text);
    }
}
