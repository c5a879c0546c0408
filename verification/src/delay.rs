//! The conversion engine: from a tempo to the delay time of a note.

use vstd::prelude::*;
use crate::music::{NoteValue, RhythmicModifier, Unit};
use crate::power::{lemma_ten_to_opposite, ten_to};
use crate::ratio::Ratio;
use crate::tempo::Tempo;

verus! {

/// The delay of `note`, played with `modifier` at `tempo` beats per minute.
///
/// In milliseconds it is the length of the note; in hertz it is the rate at
/// which such notes follow each other.
pub open spec fn delay(tempo: real, note: NoteValue, modifier: RhythmicModifier, unit: Unit) -> real {
    match unit {
        Unit::Milliseconds => (60000real / tempo) * note.beats() * modifier.scale(),
        Unit::Hertz => tempo / (60real * note.beats() * modifier.scale()),
    }
}

/// Every note is longer than nothing.
proof fn lemma_beats_positive(note: NoteValue)
    ensures
        note.beats() > 0real,
{
}

/// Every modifier scales by a positive factor.
proof fn lemma_scale_positive(modifier: RhythmicModifier)
    ensures
        modifier.scale() > 0real,
{
}

/// A delay in milliseconds times the same delay in hertz is 1000.
pub proof fn law_milliseconds_times_hertz(tempo: real, note: NoteValue, modifier: RhythmicModifier)
    requires
        tempo > 0real,
    ensures
        delay(tempo, note, modifier, Unit::Milliseconds) * delay(
            tempo,
            note,
            modifier,
            Unit::Hertz,
        ) == 1000real,
{
    let b = note.beats();
    let s = modifier.scale();
    lemma_beats_positive(note);
    lemma_scale_positive(modifier);
    assert(((60000real / tempo) * b * s) * (tempo / (60real * b * s)) == 1000real)
        by (nonlinear_arith)
        requires
            tempo > 0real,
            b > 0real,
            s > 0real,
    ;
}

/// An unmodified quarter note lasts one beat: 60000 milliseconds divided by
/// the tempo.
pub proof fn law_quarter_note_is_one_beat(tempo: real)
    requires
        tempo > 0real,
    ensures
        delay(tempo, NoteValue::Quarter, RhythmicModifier::Normal, Unit::Milliseconds) == 60000real
            / tempo,
{
    let x = 60000real / tempo;
    assert(x * 1real * 1real == x);
}

/// Doubling the tempo halves every delay in milliseconds and doubles every
/// delay in hertz.
pub proof fn law_double_tempo(tempo: real, note: NoteValue, modifier: RhythmicModifier)
    requires
        tempo > 0real,
    ensures
        delay(2real * tempo, note, modifier, Unit::Milliseconds) == delay(
            tempo,
            note,
            modifier,
            Unit::Milliseconds,
        ) / 2real,
        delay(2real * tempo, note, modifier, Unit::Hertz) == 2real * delay(
            tempo,
            note,
            modifier,
            Unit::Hertz,
        ),
{
    let b = note.beats();
    let s = modifier.scale();
    lemma_beats_positive(note);
    lemma_scale_positive(modifier);
    assert((60000real / (2real * tempo)) * b * s == ((60000real / tempo) * b * s) / 2real)
        by (nonlinear_arith)
        requires
            tempo > 0real,
    ;
    assert((2real * tempo) / (60real * b * s) == 2real * (tempo / (60real * b * s)))
        by (nonlinear_arith)
        requires
            tempo > 0real,
            b > 0real,
            s > 0real,
    ;
}

/// In milliseconds a dotted note is one and a half times the plain note, and
/// a triplet note two thirds of it.
pub proof fn law_modifiers_in_milliseconds(tempo: real, note: NoteValue)
    requires
        tempo > 0real,
    ensures
        delay(tempo, note, RhythmicModifier::Dotted, Unit::Milliseconds) == delay(
            tempo,
            note,
            RhythmicModifier::Normal,
            Unit::Milliseconds,
        ) * (3real / 2real),
        delay(tempo, note, RhythmicModifier::Triplet, Unit::Milliseconds) == delay(
            tempo,
            note,
            RhythmicModifier::Normal,
            Unit::Milliseconds,
        ) * (2real / 3real),
{
    let x = (60000real / tempo) * note.beats();
    assert(x * 1real == x);
}

/// In hertz the modifiers act inversely: a dotted note repeats at two thirds
/// of the plain note's rate, a triplet note at one and a half times that rate.
pub proof fn law_modifiers_in_hertz(tempo: real, note: NoteValue)
    requires
        tempo > 0real,
    ensures
        delay(tempo, note, RhythmicModifier::Dotted, Unit::Hertz) == delay(
            tempo,
            note,
            RhythmicModifier::Normal,
            Unit::Hertz,
        ) / (3real / 2real),
        delay(tempo, note, RhythmicModifier::Triplet, Unit::Hertz) == delay(
            tempo,
            note,
            RhythmicModifier::Normal,
            Unit::Hertz,
        ) / (2real / 3real),
{
    let b = note.beats();
    lemma_beats_positive(note);
    assert(tempo / (60real * b * (3real / 2real)) == (tempo / (60real * b * 1real)) / (3real
        / 2real)) by (nonlinear_arith)
        requires
            b > 0real,
    ;
    assert(tempo / (60real * b * (2real / 3real)) == (tempo / (60real * b * 1real)) / (2real
        / 3real)) by (nonlinear_arith)
        requires
            b > 0real,
    ;
}

/// Every delay is positive.
pub proof fn law_delay_positive(tempo: real, note: NoteValue, modifier: RhythmicModifier, unit: Unit)
    requires
        tempo > 0real,
    ensures
        delay(tempo, note, modifier, unit) > 0real,
{
    let b = note.beats();
    let s = modifier.scale();
    lemma_beats_positive(note);
    lemma_scale_positive(modifier);
    assert((60000real / tempo) * b * s > 0real && tempo / (60real * b * s) > 0real)
        by (nonlinear_arith)
        requires
            tempo > 0real,
            b > 0real,
            s > 0real,
    ;
}

/// The delay of `note`, played with `modifier` at `tempo`, in `unit`.
pub fn compute(tempo: Tempo, note: NoteValue, modifier: RhythmicModifier, unit: Unit) -> (value:
    Ratio)
    ensures
        value.value() == delay(tempo.value(), note, modifier, unit),
{
    let n: i128 = tempo.numerator() as i128;
    let d: i128 = tempo.denominator() as i128;
    let beats: (u64, u64) = note.beats_parts();
    let scale: (u64, u64) = modifier.scale_parts();
    let bn: i128 = beats.0 as i128;
    let bd: i128 = beats.1 as i128;
    let sn: i128 = scale.0 as i128;
    let sd: i128 = scale.1 as i128;
    assert(1 <= bn * sn <= 12 && 1 <= bd * sd <= 96) by (nonlinear_arith)
        requires
            1 <= bn <= 4,
            1 <= sn <= 3,
            1 <= bd <= 32,
            1 <= sd <= 3,
    ;
    let length_num: i128 = bn * sn;
    let length_den: i128 = bd * sd;
    assert(0 < d * length_num <= 12 * 0xffff_ffff_ffff_ffff && 0 < n * length_den <= 96
        * 0xffff_ffff_ffff_ffff) by (nonlinear_arith)
        requires
            0 < d <= 0xffff_ffff_ffff_ffff,
            0 < n <= 0xffff_ffff_ffff_ffff,
            1 <= length_num <= 12,
            1 <= length_den <= 96,
    ;
    let e: i32 = tempo.exponent();
    let ghost t = tempo.value();
    let ghost b = note.beats();
    let ghost s = modifier.scale();
    let ghost up = ten_to(e as int);
    let ghost down = ten_to(-e);
    proof {
        lemma_ten_to_opposite(e as int);
    }
    match unit {
        Unit::Milliseconds => {
            let num: i128 = 60000 * (d * length_num);
            let den: i128 = n * length_den;
            proof {
                assert((num as real / den as real) * down == (60000real / t) * b * s)
                    by (nonlinear_arith)
                    requires
                        num == 60000 * (d * (bn * sn)),
                        den == n * (bd * sd),
                        t == (n as real / d as real) * up,
                        up * down == 1real,
                        up > 0real,
                        down > 0real,
                        b == bn as real / bd as real,
                        s == sn as real / sd as real,
                        n > 0,
                        d > 0,
                        bn > 0,
                        bd > 0,
                        sn > 0,
                        sd > 0,
                ;
            }
            Ratio::from_parts(num, den, -e)
        },
        Unit::Hertz => {
            let num: i128 = n * length_den;
            let den: i128 = 60 * (d * length_num);
            proof {
                assert((num as real / den as real) * up == t / (60real * b * s))
                    by (nonlinear_arith)
                    requires
                        num == n * (bd * sd),
                        den == 60 * (d * (bn * sn)),
                        t == (n as real / d as real) * up,
                        up > 0real,
                        b == bn as real / bd as real,
                        s == sn as real / sd as real,
                        n > 0,
                        d > 0,
                        bn > 0,
                        bd > 0,
                        sn > 0,
                        sd > 0,
                ;
            }
            Ratio::from_parts(num, den, e)
        },
    }
}

/// The delays of the eight note values under one modifier.
#[derive(Clone, Copy, Debug)]
pub struct DelayTimeRow {
    pub v_whole: Ratio,
    pub v_half: Ratio,
    pub v_quarter: Ratio,
    pub v_8th: Ratio,
    pub v_16th: Ratio,
    pub v_32nd: Ratio,
    pub v_64th: Ratio,
    pub v_128th: Ratio,
}

impl DelayTimeRow {
    /// The cell of `note`.
    pub open spec fn spec_get(self, note: NoteValue) -> Ratio {
        match note {
            NoteValue::Whole => self.v_whole,
            NoteValue::Half => self.v_half,
            NoteValue::Quarter => self.v_quarter,
            NoteValue::Eighth => self.v_8th,
            NoteValue::Sixteenth => self.v_16th,
            NoteValue::ThirtySecond => self.v_32nd,
            NoteValue::SixtyFourth => self.v_64th,
            NoteValue::HundredTwentyEighth => self.v_128th,
        }
    }

    /// Whether every cell holds the delay of its note at `tempo`.
    pub open spec fn holds(self, tempo: real, modifier: RhythmicModifier, unit: Unit) -> bool {
        forall|note: NoteValue| #[trigger]
            self.spec_get(note).value() == delay(tempo, note, modifier, unit)
    }

    /// The cell of `note`.
    pub fn get(&self, note: NoteValue) -> (value: Ratio)
        ensures
            value == self.spec_get(note),
    {
        match note {
            NoteValue::Whole => self.v_whole,
            NoteValue::Half => self.v_half,
            NoteValue::Quarter => self.v_quarter,
            NoteValue::Eighth => self.v_8th,
            NoteValue::Sixteenth => self.v_16th,
            NoteValue::ThirtySecond => self.v_32nd,
            NoteValue::SixtyFourth => self.v_64th,
            NoteValue::HundredTwentyEighth => self.v_128th,
        }
    }
}

/// The delays of all note values at `tempo` under `modifier`, in `unit`.
pub fn delay_times(tempo: Tempo, modifier: RhythmicModifier, unit: Unit) -> (row: DelayTimeRow)
    ensures
        row.holds(tempo.value(), modifier, unit),
{
    DelayTimeRow {
        v_whole: compute(tempo, NoteValue::Whole, modifier, unit),
        v_half: compute(tempo, NoteValue::Half, modifier, unit),
        v_quarter: compute(tempo, NoteValue::Quarter, modifier, unit),
        v_8th: compute(tempo, NoteValue::Eighth, modifier, unit),
        v_16th: compute(tempo, NoteValue::Sixteenth, modifier, unit),
        v_32nd: compute(tempo, NoteValue::ThirtySecond, modifier, unit),
        v_64th: compute(tempo, NoteValue::SixtyFourth, modifier, unit),
        v_128th: compute(tempo, NoteValue::HundredTwentyEighth, modifier, unit),
    }
}

/// The delays of all note values under all modifiers: twenty-four cells.
#[derive(Clone, Copy, Debug)]
pub struct DelayTimeTable {
    pub normal: DelayTimeRow,
    pub dotted: DelayTimeRow,
    pub triplet: DelayTimeRow,
}

impl DelayTimeTable {
    /// The row of `modifier`.
    pub open spec fn spec_row(self, modifier: RhythmicModifier) -> DelayTimeRow {
        match modifier {
            RhythmicModifier::Normal => self.normal,
            RhythmicModifier::Dotted => self.dotted,
            RhythmicModifier::Triplet => self.triplet,
        }
    }

    /// The cell of `note` under `modifier`.
    pub open spec fn spec_get(self, modifier: RhythmicModifier, note: NoteValue) -> Ratio {
        self.spec_row(modifier).spec_get(note)
    }

    /// Whether every cell holds the delay of its note and modifier at `tempo`.
    pub open spec fn holds(self, tempo: real, unit: Unit) -> bool {
        forall|modifier: RhythmicModifier| #[trigger]
            self.spec_row(modifier).holds(tempo, modifier, unit)
    }

    /// The row of `modifier`.
    pub fn row(&self, modifier: RhythmicModifier) -> (row: DelayTimeRow)
        ensures
            row == self.spec_row(modifier),
    {
        match modifier {
            RhythmicModifier::Normal => self.normal,
            RhythmicModifier::Dotted => self.dotted,
            RhythmicModifier::Triplet => self.triplet,
        }
    }

    /// The cell of `note` under `modifier`.
    pub fn get(&self, modifier: RhythmicModifier, note: NoteValue) -> (value: Ratio)
        ensures
            value == self.spec_get(modifier, note),
    {
        self.row(modifier).get(note)
    }
}

/// The whole table at `tempo`, in `unit`.
pub fn delay_table(tempo: Tempo, unit: Unit) -> (table: DelayTimeTable)
    ensures
        table.holds(tempo.value(), unit),
{
    DelayTimeTable {
        normal: delay_times(tempo, RhythmicModifier::Normal, unit),
        dotted: delay_times(tempo, RhythmicModifier::Dotted, unit),
        triplet: delay_times(tempo, RhythmicModifier::Triplet, unit),
    }
}

} // verus!
