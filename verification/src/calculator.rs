//! The calculator's state, and the rules by which events change it and by
//! which it is shown.
//!
//! The state is a plain value. Whoever drives the calculator hands it each
//! event together with the clock reading at which it came, and carries out
//! what `update` returns.

use vstd::arithmetic::power::{lemma_pow0, lemma_pow_adds, lemma_pow_positive, pow};
use vstd::prelude::*;
use vstd::string::*;
use crate::delay::{delay, delay_times, DelayTimeRow};
use crate::digits::{
    from_number,
    lemma_leading_digit,
    push_padded,
    push_repeated,
    value_of,
};
use crate::music::{NoteValue, RhythmicModifier, Unit};
use crate::numeral::{
    in_range,
    law_numbers_in_range_have_a_cut,
    law_short_numbers_are_exact,
    numeral_value,
    unsigned,
};
use crate::power::{lemma_ten_to_grows, lemma_ten_to_step, lemma_ten_to_zero, ten_to};
use crate::ratio::{law_rounding_is_nearest, law_rounding_keeps_integers, round_half_away, Ratio};
use crate::tap::{estimate, session_after, TapEstimator};
use crate::tempo::Tempo;
use crate::text::{
    law_shown_nothing_is_no_tempo,
    law_shown_tempo_reads_back,
    format_absent,
    format_rounded,
    format_value,
    format_whole,
    lemma_text_of_whole,
    parse_tempo,
    rounded_text,
    tempo_of,
    value_text,
    NOT_APPLICABLE,
};

verus! {

/// A change that a key or a button makes to the tempo.
#[derive(Clone, Copy, Debug, PartialEq, Eq, Structural)]
pub enum TempoChange {
    /// Half the tempo.
    Halve,
    /// Twice the tempo.
    Double,
    /// The tempo moved by a whole number of beats per minute.
    Shift(i32),
    /// The tempo rounded to a whole number, ties away from zero.
    Round,
}

impl TempoChange {
    /// The tempo after the change.
    pub open spec fn applied(self, tempo: real) -> real {
        match self {
            TempoChange::Halve => tempo / 2real,
            TempoChange::Double => tempo * 2real,
            TempoChange::Shift(by) => tempo + by as real,
            TempoChange::Round => round_half_away(tempo) as real,
        }
    }

    /// The tempo after the change as the tempo field shows it: rounded to
    /// three fractional digits, in the shortest notation. What is shown need
    /// not state a tempo any more: a shift may leave nothing, or less.
    pub fn shown(&self, tempo: Tempo) -> (text: String)
        ensures
            text@ == rounded_text(self.applied(tempo.value())),
    {
        let n: i128 = tempo.numerator() as i128;
        let d: i128 = tempo.denominator() as i128;
        let e: i32 = tempo.exponent();
        let ghost t = tempo.value();
        let ghost up = ten_to(e as int);
        match self {
            TempoChange::Halve => {
                proof {
                    assert((n as real / (2 * d) as real) * up == t / 2real) by (nonlinear_arith)
                        requires
                            t == (n as real / d as real) * up,
                            d > 0,
                    ;
                }
                format_rounded(&Ratio::from_parts(n, 2 * d, e))
            },
            TempoChange::Double => {
                proof {
                    assert(((2 * n) as real / d as real) * up == t * 2real) by (nonlinear_arith)
                        requires
                            t == (n as real / d as real) * up,
                            d > 0,
                    ;
                }
                format_rounded(&Ratio::from_parts(2 * n, d, e))
            },
            TempoChange::Shift(by) => shifted(tempo, *by),
            TempoChange::Round => {
                let whole = tempo.as_ratio().nearest_whole();
                proof {
                    use_type_invariant(&tempo);
                    tempo.law_positive();
                    law_rounding_is_nearest(t);
                    lemma_text_of_whole(value_of(whole@));
                }
                format_whole(&whole)
            },
        }
    }
}

/// Ten to the power `k`.
fn power_of_ten(k: u32) -> (power: u128)
    requires
        k <= 30,
    ensures
        power == pow(10, k as nat),
        1 <= power <= 1_000_000_000_000_000_000_000_000_000_000,
{
    let mut power: u128 = 1;
    let mut i: u32 = 0;
    proof {
        lemma_pow0(10);
        assert(pow(10, 30) == 1_000_000_000_000_000_000_000_000_000_000) by {
            reveal_with_fuel(pow, 31);
        }
    }
    while i < k
        invariant
            i <= k <= 30,
            power == pow(10, i as nat),
            1 <= power,
            power * pow(10, (30 - i) as nat) == 1_000_000_000_000_000_000_000_000_000_000,
        decreases k - i,
    {
        proof {
            let rest = pow(10, (30 - i - 1) as nat);
            lemma_pow_positive(10, (30 - i - 1) as nat);
            assert(pow(10, (i + 1) as nat) == 10 * pow(10, i as nat)) by {
                reveal(pow);
            }
            assert(pow(10, (30 - i) as nat) == 10 * rest) by {
                reveal(pow);
            }
            assert(power * 10 * rest == power * (10 * rest)) by (nonlinear_arith);
            assert(power * 10 <= power * 10 * rest) by (nonlinear_arith)
                requires
                    rest >= 1,
                    power >= 1,
            ;
        }
        power = power * 10;
        i += 1;
    }
    proof {
        let rest = pow(10, (30 - k) as nat);
        lemma_pow_positive(10, (30 - k) as nat);
        assert(power <= power * rest) by (nonlinear_arith)
            requires
                rest >= 1,
                power >= 1,
        ;
    }
    power
}

/// A tempo held as a fraction, moved by `by`, as the tempo field shows it.
fn shifted_fraction(tempo: Tempo, by: i32) -> (text: String)
    requires
        tempo.expo() == 0,
    ensures
        text@ == rounded_text(tempo.value() + by as real),
{
    let n: i128 = tempo.numerator() as i128;
    let d: i128 = tempo.denominator() as i128;
    let e: i32 = tempo.exponent();
    let b: i128 = by as i128;
    let ghost t = tempo.value();
    let ghost up = ten_to(e as int);
    proof {
        lemma_ten_to_step(e as int);
        lemma_ten_to_zero();
    }
    assert(-0x8000_0000 * 0xffff_ffff_ffff_ffff <= b * d <= 0x8000_0000
        * 0xffff_ffff_ffff_ffff) by (nonlinear_arith)
        requires
            -0x8000_0000 <= b <= 0x8000_0000,
            0 < d <= 0xffff_ffff_ffff_ffff,
    ;
    let moved: i128 = n + b * d;
    proof {
        assert((moved as real / d as real) * up == t + b as real) by (nonlinear_arith)
            requires
                t == (n as real / d as real) * up,
                up == 1real,
                moved == n + b * d,
                d > 0,
        ;
    }
    format_rounded(&Ratio::from_parts(moved, d, 0))
}

/// A tempo of up to thirty-six digits before the point, moved by `by`, as the
/// tempo field shows it.
fn shifted_whole(tempo: Tempo, by: i32) -> (text: String)
    requires
        1 <= tempo.expo() <= 16,
    ensures
        text@ == rounded_text(tempo.value() + by as real),
{
    let n: i128 = tempo.numerator() as i128;
    let d: i128 = tempo.denominator() as i128;
    let e: i32 = tempo.exponent();
    let b: i128 = by as i128;
    let ghost t = tempo.value();
    let ghost up = ten_to(e as int);
    proof {
        lemma_ten_to_step(e as int);
        lemma_ten_to_zero();
    }
    let power: u128 = power_of_ten(e as u32);
    proof {
        crate::numeral::lemma_ten_to_shift(0, e as nat);
        lemma_pow_adds(10, e as nat, (16 - e) as nat);
        lemma_pow_positive(10, (16 - e) as nat);
        assert(pow(10, 16) == 10_000_000_000_000_000) by {
            reveal_with_fuel(pow, 17);
        }
        let rest = pow(10, (16 - e) as nat);
        assert(power <= power * rest) by (nonlinear_arith)
            requires
                rest >= 1,
                power >= 1,
        ;
        assert(n * power <= 0xffff_ffff_ffff_ffff * 10_000_000_000_000_000)
            by (nonlinear_arith)
            requires
                0 < n <= 0xffff_ffff_ffff_ffff,
                0 < power <= 10_000_000_000_000_000,
        ;
    }
    let moved: i128 = n * (power as i128) + b;
    proof {
        let p = power as int;
        assert((moved as real / 1int as real) * 1real == (n as real / 1int as real) * (p as real)
            + b as real) by (nonlinear_arith)
            requires
                moved == n * p + b,
        ;
        assert(up == p as real * 1real);
    }
    format_rounded(&Ratio::from_parts(moved, 1, 0))
}

/// A tempo of more digits before the point, moved by `by`, as the tempo
/// field shows it.
fn shifted_large(tempo: Tempo, by: i32) -> (text: String)
    requires
        tempo.expo() > 16,
    ensures
        text@ == rounded_text(tempo.value() + by as real),
{
    let n: i128 = tempo.numerator() as i128;
    let d: i128 = tempo.denominator() as i128;
    let e: i32 = tempo.exponent();
    let b: i128 = by as i128;
    let ghost t = tempo.value();
    let ghost up = ten_to(e as int);
    proof {
        lemma_ten_to_step(e as int);
        lemma_ten_to_zero();
    }
    let run: u32 = (e - 10) as u32;
    let low: u64 = if by >= 0 {
        by as u64
    } else {
        (10_000_000_000 + b) as u64
    };
    let mut digits: Vec<u8> = if by >= 0 || n > 1 {
        from_number(if by >= 0 {
            n as u128
        } else {
            (n - 1) as u128
        })
    } else {
        Vec::new()
    };
    let ghost head = value_of(digits@);
    proof {
        assert(pow(10, 10) == 10_000_000_000) by {
            reveal_with_fuel(pow, 11);
        }
        if digits@.len() == 0 {
            assert(head == 0);
        }
    }
    push_repeated(&mut digits, if by >= 0 {
        0
    } else {
        9
    }, run);
    let ghost middle = value_of(digits@);
    push_padded(&mut digits, low, 10);
    proof {
        crate::numeral::lemma_ten_to_shift(0, e as nat);
        lemma_pow_adds(10, run as nat, 10);
        lemma_pow_positive(10, run as nat);
        let r = pow(10, run as nat);
        let whole = value_of(digits@) as int;
        assert(whole == n * pow(10, e as nat) + b) by (nonlinear_arith)
            requires
                pow(10, e as nat) == r * 10_000_000_000,
                whole == middle * 10_000_000_000 + low,
                by >= 0 ==> middle == n * r && low == b,
                by < 0 ==> middle + 1 == n * r && low == 10_000_000_000 + b,
        ;
        lemma_leading_digit(digits@);
        let p = pow(10, e as nat);
        assert((n as real / 1int as real) * (p as real * 1real) + b as real == whole as real)
            by (nonlinear_arith)
            requires
                whole == n * p + b,
        ;
        lemma_text_of_whole(whole as nat);
    }
    format_whole(&digits)
}

/// A tempo of up to twenty-five digits after the point, moved by `by`, as
/// the tempo field shows it.
fn shifted_small(tempo: Tempo, by: i32) -> (text: String)
    requires
        -25 <= tempo.expo() <= -1,
    ensures
        text@ == rounded_text(tempo.value() + by as real),
{
    let n: i128 = tempo.numerator() as i128;
    let d: i128 = tempo.denominator() as i128;
    let e: i32 = tempo.exponent();
    let b: i128 = by as i128;
    let ghost t = tempo.value();
    let ghost up = ten_to(e as int);
    proof {
        lemma_ten_to_step(e as int);
        lemma_ten_to_zero();
    }
    let power: u128 = power_of_ten((-e) as u32);
    proof {
        lemma_pow_adds(10, (-e) as nat, (25 + e) as nat);
        lemma_pow_positive(10, (25 + e) as nat);
        assert(pow(10, 25) == 10_000_000_000_000_000_000_000_000) by {
            reveal_with_fuel(pow, 26);
        }
        let rest = pow(10, (25 + e) as nat);
        assert(power <= power * rest) by (nonlinear_arith)
            requires
                rest >= 1,
                power >= 1,
        ;
        assert(-0x8000_0000 * 10_000_000_000_000_000_000_000_000 <= b * power <= 0x8000_0000
            * 10_000_000_000_000_000_000_000_000) by (nonlinear_arith)
            requires
                -0x8000_0000 <= b <= 0x8000_0000,
                0 < power <= 10_000_000_000_000_000_000_000_000,
        ;
    }
    let moved: i128 = n + b * (power as i128);
    proof {
        let p = power as int;
        assert((moved as real / p as real) * 1real == (n as real / 1int as real) * (1real / (p
            as real)) + b as real) by (nonlinear_arith)
            requires
                moved == n + b * p,
                p > 0,
        ;
    }
    format_rounded(&Ratio::from_parts(moved, power as i128, 0))
}

/// A tempo too small to show beside a whole number, moved by `by`, as the
/// tempo field shows it.
fn shifted_tiny(tempo: Tempo, by: i32) -> (text: String)
    requires
        tempo.expo() < -25,
    ensures
        text@ == rounded_text(tempo.value() + by as real),
{
    let n: i128 = tempo.numerator() as i128;
    let d: i128 = tempo.denominator() as i128;
    let e: i32 = tempo.exponent();
    let b: i128 = by as i128;
    let ghost t = tempo.value();
    let ghost up = ten_to(e as int);
    proof {
        lemma_ten_to_step(e as int);
        lemma_ten_to_zero();
    }
    proof {
        lemma_ten_to_grows(e as int, -26);
        assert(pow(10, 26) == 100_000_000_000_000_000_000_000_000) by {
            reveal_with_fuel(pow, 27);
        }
        let low = ten_to(-26);
        assert(low * 100_000_000_000_000_000_000_000_000real == 1real) by (nonlinear_arith)
            requires
                low == 1real / 100_000_000_000_000_000_000_000_000real,
        ;
        let x = (t + b as real) * 1000real;
        let y = (b as real / 1int as real) * 1real * 1000real;
        assert(y == (1000 * b) as real && y < x < y + 1real / 2real) by (nonlinear_arith)
            requires
                y == (b as real / 1int as real) * 1real * 1000real,
                x == (t + b as real) * 1000real,
                t == (n as real / 1int as real) * up,
                0real < up <= low,
                low * 100_000_000_000_000_000_000_000_000real == 1real,
                0 < n <= 0xffff_ffff_ffff_ffff,
        ;
        law_rounding_keeps_integers(1000 * b);
    }
    format_rounded(&Ratio::from_parts(b, 1, 0))
}

/// A tempo moved by `by` beats per minute, as the tempo field shows it.
fn shifted(tempo: Tempo, by: i32) -> (text: String)
    ensures
        text@ == rounded_text(tempo.value() + by as real),
{
    let e: i32 = tempo.exponent();
    if e == 0 {
        shifted_fraction(tempo, by)
    } else if e > 16 {
        shifted_large(tempo, by)
    } else if e >= 1 {
        shifted_whole(tempo, by)
    } else if e >= -25 {
        shifted_small(tempo, by)
    } else {
        shifted_tiny(tempo, by)
    }
}

/// An event that the calculator answers.
#[derive(Clone, Debug)]
pub enum Message {
    /// The tap button was pressed.
    Tap,
    /// The tap session is to be forgotten.
    Reset,
    /// The tempo field now holds this text.
    StoreTempoText(String),
    /// The tempo field was submitted.
    StoreTempo,
    /// The tempo is to be changed.
    ModifyTempo(TempoChange),
    /// Delays are to be shown in this unit.
    StoreUnit(Unit),
    /// This value is to be copied to the clipboard.
    CopyToClipboard(Ratio),
}

/// A key with a name of its own.
#[derive(Clone, Copy, Debug, PartialEq, Eq, Structural)]
pub enum NamedKey {
    ArrowUp,
    ArrowDown,
    ArrowRight,
    ArrowLeft,
    Space,
    /// Any other named key.
    Other,
}

/// A key as the keyboard reports it.
#[derive(Clone, Debug)]
pub enum Key {
    /// A key that produces text.
    Character(String),
    /// A key with a name of its own.
    Named(NamedKey),
    /// A key that could not be identified.
    Unidentified,
}

/// What a key that produces the single character `c` asks for.
pub open spec fn character_binding(c: char) -> Option<Message> {
    if c == '1' {
        Some(Message::ModifyTempo(TempoChange::Halve))
    } else if c == '2' {
        Some(Message::ModifyTempo(TempoChange::Double))
    } else if c == 'h' {
        Some(Message::StoreUnit(Unit::Hertz))
    } else if c == 'm' {
        Some(Message::StoreUnit(Unit::Milliseconds))
    } else if c == 'r' {
        Some(Message::Reset)
    } else if c == 't' {
        Some(Message::Tap)
    } else {
        None
    }
}

/// What a named key asks for.
pub open spec fn named_binding(key: NamedKey) -> Option<Message> {
    match key {
        NamedKey::ArrowUp => Some(Message::ModifyTempo(TempoChange::Shift(1))),
        NamedKey::ArrowDown => Some(Message::ModifyTempo(TempoChange::Shift(-1i32))),
        NamedKey::ArrowRight => Some(Message::ModifyTempo(TempoChange::Shift(5))),
        NamedKey::ArrowLeft => Some(Message::ModifyTempo(TempoChange::Shift(-5i32))),
        NamedKey::Space => Some(Message::ModifyTempo(TempoChange::Round)),
        NamedKey::Other => None,
    }
}

/// What a key asks for. A key that produces text asks for something only
/// where the text is a single character.
pub open spec fn key_binding(key: Key) -> Option<Message> {
    match key {
        Key::Character(text) => if text@.len() == 1 {
            character_binding(text@[0])
        } else {
            None
        },
        Key::Named(named) => named_binding(named),
        Key::Unidentified => None,
    }
}

/// The message that a key press stands for, if any.
pub fn handle_key_press(key: &Key) -> (message: Option<Message>)
    ensures
        message == key_binding(*key),
{
    match key {
        Key::Character(text) => {
            let text = text.as_str();
            if text.unicode_len() != 1 {
                return None;
            }
            let c: char = text.get_char(0);
            if c == '1' {
                Some(Message::ModifyTempo(TempoChange::Halve))
            } else if c == '2' {
                Some(Message::ModifyTempo(TempoChange::Double))
            } else if c == 'h' {
                Some(Message::StoreUnit(Unit::Hertz))
            } else if c == 'm' {
                Some(Message::StoreUnit(Unit::Milliseconds))
            } else if c == 'r' {
                Some(Message::Reset)
            } else if c == 't' {
                Some(Message::Tap)
            } else {
                None
            }
        },
        Key::Named(named) => match named {
            NamedKey::ArrowUp => Some(Message::ModifyTempo(TempoChange::Shift(1))),
            NamedKey::ArrowDown => Some(Message::ModifyTempo(TempoChange::Shift(-1))),
            NamedKey::ArrowRight => Some(Message::ModifyTempo(TempoChange::Shift(5))),
            NamedKey::ArrowLeft => Some(Message::ModifyTempo(TempoChange::Shift(-5))),
            NamedKey::Space => Some(Message::ModifyTempo(TempoChange::Round)),
            NamedKey::Other => None,
        },
        Key::Unidentified => None,
    }
}

/// The tap session once `message` has come at `now`.
pub open spec fn next_session(session: Seq<u64>, message: Message, now: u64) -> Seq<u64> {
    match message {
        Message::Tap => session_after(session, now),
        Message::Reset => Seq::empty(),
        _ => session,
    }
}

/// The text of the tempo field once `message` has come at `now`.
///
/// A tap shows the tempo that the session then shows, or that there is none.
/// Submitting the field, or changing the tempo, rewrites a text that states a
/// tempo and leaves any other text alone.
pub open spec fn next_text(session: Seq<u64>, text: Seq<char>, message: Message, now: u64) -> Seq<
    char,
> {
    match message {
        Message::Tap => match estimate(session_after(session, now)) {
            Some(tempo) => rounded_text(tempo),
            None => NOT_APPLICABLE@,
        },
        Message::StoreTempoText(typed) => typed@,
        Message::StoreTempo => match tempo_of(text) {
            Some(tempo) => rounded_text(tempo),
            None => text,
        },
        Message::ModifyTempo(change) => match tempo_of(text) {
            Some(tempo) => rounded_text(change.applied(tempo)),
            None => text,
        },
        _ => text,
    }
}

/// The unit once `message` has come.
pub open spec fn next_unit(unit: Unit, message: Message) -> Unit {
    match message {
        Message::StoreUnit(chosen) => chosen,
        _ => unit,
    }
}

/// The value that `message` asks to have copied, where there is a clipboard.
pub open spec fn copy_request(clipboard: bool, message: Message) -> Option<Ratio> {
    match message {
        Message::CopyToClipboard(value) if clipboard => Some(value),
        _ => None,
    }
}

/// One cell of the table: its text, and what pressing it asks for.
#[derive(Clone, Debug)]
pub struct Cell {
    pub text: String,
    pub on_press: Option<Message>,
}

/// One column of the table: a heading and a cell for each note value.
#[derive(Clone, Debug)]
pub struct Column {
    pub heading: String,
    pub cells: Vec<Cell>,
}

/// The table: a label for each note value, and a column for each modifier.
#[derive(Clone, Debug)]
pub struct Table {
    pub note_labels: Vec<String>,
    pub columns: Vec<Column>,
}

/// The whole state of the calculator.
pub struct Calculator {
    /// The tap session.
    pub tap_tempo: TapEstimator,
    /// What the tempo field holds.
    pub tempo_input_text: String,
    /// The unit in which delays are shown.
    pub unit: Unit,
    /// Whether there is a clipboard to copy to.
    pub clipboard: bool,
}

impl Calculator {
    /// The calculator at its start: 120 beats per minute, in milliseconds,
    /// no tap yet.
    pub fn new(clipboard: bool) -> (calculator: Calculator)
        ensures
            calculator.tap_tempo@ == Seq::<u64>::empty(),
            calculator.tempo_input_text@ == "120"@,
            calculator.unit == Unit::Milliseconds,
            calculator.clipboard == clipboard,
    {
        Calculator {
            tap_tempo: TapEstimator::new(),
            tempo_input_text: String::from_str("120"),
            unit: Unit::Milliseconds,
            clipboard,
        }
    }

    /// The tempo that the tempo field states, as a real number.
    pub open spec fn spec_tempo(&self) -> Option<real> {
        tempo_of(self.tempo_input_text@)
    }

    /// Whether `cell` is the cell of `note` under `modifier`: it shows the
    /// delay, and offers it for copying where there is a clipboard; or it
    /// shows that there is no tempo, and offers nothing.
    pub open spec fn shows(&self, cell: Cell, note: NoteValue, modifier: RhythmicModifier) -> bool {
        match self.spec_tempo() {
            Some(tempo) => {
                &&& cell.text@ == value_text(delay(tempo, note, modifier, self.unit), self.unit)
                &&& if self.clipboard {
                    cell.on_press matches Some(Message::CopyToClipboard(value)) && value.value()
                        == delay(tempo, note, modifier, self.unit)
                } else {
                    cell.on_press is None
                }
            },
            None => cell.text@ == NOT_APPLICABLE@ && cell.on_press is None,
        }
    }

    /// Whether `column` is the column of `modifier`.
    pub open spec fn shows_column(&self, column: Column, modifier: RhythmicModifier) -> bool {
        &&& column.heading@ == modifier.spec_label()
        &&& column.cells@.len() == NoteValue::ordered().len()
        &&& forall|i: int|
            0 <= i < column.cells@.len() ==> self.shows(
                #[trigger] column.cells@[i],
                NoteValue::ordered()[i],
                modifier,
            )
    }

    /// Answers `message`, which came at `now` milliseconds on a monotonic
    /// clock, and returns the value to copy to the clipboard, if any.
    pub fn update(&mut self, message: Message, now: u64) -> (copied: Option<Ratio>)
        ensures
            final(self).tap_tempo@ == next_session(old(self).tap_tempo@, message, now),
            final(self).tempo_input_text@ == next_text(
                old(self).tap_tempo@,
                old(self).tempo_input_text@,
                message,
                now,
            ),
            final(self).unit == next_unit(old(self).unit, message),
            final(self).clipboard == old(self).clipboard,
            copied == copy_request(old(self).clipboard, message),
    {
        match message {
            Message::Tap => {
                match self.tap_tempo.tap(now) {
                    Some(tempo) => {
                        self.tempo_input_text = format_rounded(&tempo.as_ratio());
                    },
                    None => {
                        self.tempo_input_text = format_absent();
                    },
                }
                None
            },
            Message::Reset => {
                self.tap_tempo.reset();
                None
            },
            Message::StoreTempoText(text) => {
                self.tempo_input_text = text;
                None
            },
            Message::StoreTempo => {
                if let Some(tempo) = self.tempo() {
                    self.tempo_input_text = format_rounded(&tempo.as_ratio());
                }
                None
            },
            Message::ModifyTempo(change) => {
                if let Some(tempo) = self.tempo() {
                    self.tempo_input_text = change.shown(tempo);
                }
                None
            },
            Message::StoreUnit(unit) => {
                self.unit = unit;
                None
            },
            Message::CopyToClipboard(value) => {
                if self.clipboard {
                    Some(value)
                } else {
                    None
                }
            },
        }
    }

    /// The tempo that the tempo field states, if it states one.
    pub fn tempo(&self) -> (tempo: Option<Tempo>)
        ensures
            match tempo {
                Some(t) => t.wf() && self.spec_tempo() == Some(t.value()),
                None => self.spec_tempo() is None,
            },
    {
        parse_tempo(self.tempo_input_text.as_str())
    }

    /// The delays of all note values under `modifier`, at the tempo and in
    /// the unit of the calculator; none where the tempo field states no
    /// tempo.
    pub fn delay_times(&self, modifier: RhythmicModifier) -> (row: Option<DelayTimeRow>)
        ensures
            match row {
                Some(r) => self.spec_tempo() is Some && r.holds(
                    self.spec_tempo().unwrap(),
                    modifier,
                    self.unit,
                ),
                None => self.spec_tempo() is None,
            },
    {
        match self.tempo() {
            Some(tempo) => Some(delay_times(tempo, modifier, self.unit)),
            None => None,
        }
    }

    /// Whether the reset button stands out: a tap session is under way.
    pub fn reset_highlighted(&self) -> (highlighted: bool)
        ensures
            highlighted == (self.tap_tempo@.len() > 0),
    {
        self.tap_tempo.tap_count() > 0
    }

    /// The column of `modifier`: its heading, and the cells of the note
    /// values in display order.
    pub fn values_column(&self, modifier: RhythmicModifier) -> (column: Column)
        ensures
            self.shows_column(column, modifier),
    {
        let row = self.delay_times(modifier);
        let notes = NoteValue::all();
        let mut cells: Vec<Cell> = Vec::new();
        let mut i: usize = 0;
        while i < 8
            invariant
                i <= 8,
                notes@ == NoteValue::ordered(),
                cells@.len() == i,
                match row {
                    Some(r) => self.spec_tempo() is Some && r.holds(
                        self.spec_tempo().unwrap(),
                        modifier,
                        self.unit,
                    ),
                    None => self.spec_tempo() is None,
                },
                forall|k: int|
                    0 <= k < i ==> self.shows(#[trigger] cells@[k], NoteValue::ordered()[k], modifier),
            decreases 8 - i,
        {
            let note = notes[i];
            let cell = match row {
                Some(r) => {
                    let value = r.get(note);
                    assert(r.spec_get(note).value() == delay(
                        self.spec_tempo().unwrap(),
                        note,
                        modifier,
                        self.unit,
                    ));
                    Cell {
                        text: format_value(&value, self.unit),
                        on_press: if self.clipboard {
                            Some(Message::CopyToClipboard(value))
                        } else {
                            None
                        },
                    }
                },
                None => Cell { text: format_absent(), on_press: None },
            };
            assert(self.shows(cell, NoteValue::ordered()[i as int], modifier));
            cells.push(cell);
            i += 1;
        }
        Column { heading: String::from_str(modifier.label()), cells }
    }

    /// The table: the labels of the note values, each followed by a colon,
    /// and the columns of the modifiers, both in display order.
    pub fn table(&self) -> (table: Table)
        ensures
            table.note_labels@.len() == NoteValue::ordered().len(),
            forall|i: int|
                0 <= i < table.note_labels@.len() ==> (#[trigger] table.note_labels@[i])@
                    == NoteValue::ordered()[i].spec_label() + seq![':'],
            table.columns@.len() == RhythmicModifier::ordered().len(),
            forall|k: int|
                0 <= k < table.columns@.len() ==> self.shows_column(
                    #[trigger] table.columns@[k],
                    RhythmicModifier::ordered()[k],
                ),
    {
        let notes = NoteValue::all();
        let mut note_labels: Vec<String> = Vec::new();
        let mut i: usize = 0;
        while i < 8
            invariant
                i <= 8,
                notes@ == NoteValue::ordered(),
                note_labels@.len() == i,
                forall|k: int|
                    0 <= k < i ==> (#[trigger] note_labels@[k])@ == NoteValue::ordered()[k].spec_label()
                        + seq![':'],
            decreases 8 - i,
        {
            let mut label = String::from_str(notes[i].label());
            proof {
                reveal_strlit(":");
            }
            label.append(":");
            assert(label@ =~= NoteValue::ordered()[i as int].spec_label() + seq![':']);
            note_labels.push(label);
            i += 1;
        }
        let modifiers = RhythmicModifier::all();
        let mut columns: Vec<Column> = Vec::new();
        let mut k: usize = 0;
        while k < 3
            invariant
                k <= 3,
                modifiers@ == RhythmicModifier::ordered(),
                columns@.len() == k,
                forall|j: int|
                    0 <= j < k ==> self.shows_column(
                        #[trigger] columns@[j],
                        RhythmicModifier::ordered()[j],
                    ),
            decreases 3 - k,
        {
            columns.push(self.values_column(modifiers[k]));
            k += 1;
        }
        Table { note_labels, columns }
    }
}

/// What a tempo of nineteen digits shows is a number of up to nineteen
/// significant digits: it is read back exactly.
proof fn lemma_shown_is_short(m: int, e: int) -> (parts: (int, int))
    requires
        1_000_000_000_000_000_000 <= m < 10_000_000_000_000_000_000,
    ensures
        ({
            let shown = round_half_away(m as real * ten_to(e) * 1000real);
            &&& shown >= 0
            &&& shown > 0 ==> 1 <= parts.0 < 10_000_000_000_000_000_000
            &&& shown > 0 ==> shown as real / 1000real == parts.0 as real * ten_to(parts.1)
        }),
{
    let x = m as real * ten_to(e) * 1000real;
    let shown = round_half_away(x);
    lemma_ten_to_step(e);
    lemma_ten_to_step(e + 1);
    lemma_ten_to_step(e + 2);
    lemma_ten_to_step(-3);
    lemma_ten_to_step(-2);
    lemma_ten_to_step(-1);
    lemma_ten_to_zero();
    let t = ten_to(e);
    assert(x == m as real * ten_to(e + 3) && x > 0real) by (nonlinear_arith)
        requires
            x == m as real * t * 1000real,
            ten_to(e + 3) == 1000real * t,
            t > 0real,
            m >= 1,
    ;
    law_rounding_is_nearest(x);
    let milli = ten_to(-3);
    assert(milli * 1000real == 1real);
    if e + 3 >= 0 {
        let p = pow(10, (e + 3) as nat);
        assert(x == (m * p) as real) by (nonlinear_arith)
            requires
                x == m as real * (p as real),
        ;
        law_rounding_keeps_integers(m * p);
        assert(shown as real / 1000real == m as real * t) by (nonlinear_arith)
            requires
                shown as real == m as real * t * 1000real,
        ;
        (m, e)
    } else {
        lemma_ten_to_grows(e + 3, -1);
        let u = ten_to(e + 3);
        assert(x <= 1_000_000_000_000_000_000real) by (nonlinear_arith)
            requires
                x == m as real * u,
                0real < u <= ten_to(-1),
                10real * ten_to(-1) == 1real,
                m < 10_000_000_000_000_000_000,
        ;
        assert(shown as real / 1000real == shown as real * milli) by (nonlinear_arith)
            requires
                milli * 1000real == 1real,
        ;
        (shown, -3)
    }
}

/// Submitting the tempo field a second time changes nothing.
pub proof fn law_submit_is_idempotent(session: Seq<u64>, text: Seq<char>, first: u64, second: u64)
    ensures
        next_text(
            session,
            next_text(session, text, Message::StoreTempo, first),
            Message::StoreTempo,
            second,
        ) == next_text(session, text, Message::StoreTempo, first),
{
    match tempo_of(text) {
        Some(tempo) => {
            let v = numeral_value(unsigned(text));
            let cut = law_numbers_in_range_have_a_cut(v);
            let shown = round_half_away(tempo * 1000real);
            let short = lemma_shown_is_short(cut.0, cut.1);
            if shown <= 0 {
                law_shown_nothing_is_no_tempo(shown);
            } else {
                law_shown_tempo_reads_back(shown);
                let again = shown as real / 1000real;
                if in_range(again) {
                    law_short_numbers_are_exact(short.0, short.1);
                    law_rounding_keeps_integers(shown);
                    assert(again * 1000real == shown as real);
                }
            }
        },
        None => {},
    }
}

} // verus!
