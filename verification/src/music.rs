//! The fixed vocabulary of the calculator: note values, rhythmic modifiers and
//! display units.

use vstd::prelude::*;

verus! {

/// The unit in which a delay is shown.
#[derive(Clone, Copy, Debug, PartialEq, Eq, Structural)]
pub enum Unit {
    Milliseconds,
    Hertz,
}

/// The rhythmic feel applied to a note value.
#[derive(Clone, Copy, Debug, PartialEq, Eq, Structural)]
pub enum RhythmicModifier {
    Normal,
    Dotted,
    Triplet,
}

/// A note subdivision, from the coarsest to the finest.
#[derive(Clone, Copy, Debug, PartialEq, Eq, Structural)]
pub enum NoteValue {
    Whole,
    Half,
    Quarter,
    Eighth,
    Sixteenth,
    ThirtySecond,
    SixtyFourth,
    HundredTwentyEighth,
}

impl Unit {
    /// The short suffix that follows a value in this unit.
    pub open spec fn spec_label(self) -> Seq<char> {
        match self {
            Unit::Milliseconds => "ms"@,
            Unit::Hertz => "Hz"@,
        }
    }

    /// The short suffix that follows a value in this unit.
    pub fn label(&self) -> (text: &'static str)
        ensures
            text@ == self.spec_label(),
    {
        match self {
            Unit::Milliseconds => "ms",
            Unit::Hertz => "Hz",
        }
    }
}

impl RhythmicModifier {
    /// The factor by which the modifier scales a note's length.
    pub open spec fn scale(self) -> real {
        match self {
            RhythmicModifier::Normal => 1real,
            RhythmicModifier::Dotted => 3real / 2real,
            RhythmicModifier::Triplet => 2real / 3real,
        }
    }

    /// The scale factor as a fraction `(numerator, denominator)`.
    pub fn scale_parts(&self) -> (parts: (u64, u64))
        ensures
            1 <= parts.0 <= 3,
            1 <= parts.1 <= 3,
            parts.0 as real / parts.1 as real == self.scale(),
    {
        proof {
            assert(1u64 as real / 1u64 as real == 1real);
        }
        match self {
            RhythmicModifier::Normal => (1, 1),
            RhythmicModifier::Dotted => (3, 2),
            RhythmicModifier::Triplet => (2, 3),
        }
    }

    /// The heading of the modifier's column.
    pub open spec fn spec_label(self) -> Seq<char> {
        match self {
            RhythmicModifier::Normal => "Normal"@,
            RhythmicModifier::Dotted => "Dotted"@,
            RhythmicModifier::Triplet => "Triplet"@,
        }
    }

    /// The heading of the modifier's column.
    pub fn label(&self) -> (text: &'static str)
        ensures
            text@ == self.spec_label(),
    {
        match self {
            RhythmicModifier::Normal => "Normal",
            RhythmicModifier::Dotted => "Dotted",
            RhythmicModifier::Triplet => "Triplet",
        }
    }

    /// The modifiers in display order.
    pub open spec fn ordered() -> Seq<RhythmicModifier> {
        seq![RhythmicModifier::Normal, RhythmicModifier::Dotted, RhythmicModifier::Triplet]
    }

    /// The modifiers in display order.
    pub fn all() -> (list: [RhythmicModifier; 3])
        ensures
            list@ == Self::ordered(),
    {
        let list = [RhythmicModifier::Normal, RhythmicModifier::Dotted, RhythmicModifier::Triplet];
        assert(list@ =~= Self::ordered());
        list
    }
}

impl NoteValue {
    /// The note's length in quarter-note beats.
    pub open spec fn beats(self) -> real {
        match self {
            NoteValue::Whole => 4real,
            NoteValue::Half => 2real,
            NoteValue::Quarter => 1real,
            NoteValue::Eighth => 1real / 2real,
            NoteValue::Sixteenth => 1real / 4real,
            NoteValue::ThirtySecond => 1real / 8real,
            NoteValue::SixtyFourth => 1real / 16real,
            NoteValue::HundredTwentyEighth => 1real / 32real,
        }
    }

    /// The length in beats as a fraction `(numerator, denominator)`.
    pub fn beats_parts(&self) -> (parts: (u64, u64))
        ensures
            1 <= parts.0 <= 4,
            1 <= parts.1 <= 32,
            parts.0 as real / parts.1 as real == self.beats(),
    {
        proof {
            assert(4u64 as real / 1u64 as real == 4real);
            assert(2u64 as real / 1u64 as real == 2real);
            assert(1u64 as real / 1u64 as real == 1real);
        }
        match self {
            NoteValue::Whole => (4, 1),
            NoteValue::Half => (2, 1),
            NoteValue::Quarter => (1, 1),
            NoteValue::Eighth => (1, 2),
            NoteValue::Sixteenth => (1, 4),
            NoteValue::ThirtySecond => (1, 8),
            NoteValue::SixtyFourth => (1, 16),
            NoteValue::HundredTwentyEighth => (1, 32),
        }
    }

    /// The note's name as a fraction of a whole note.
    pub open spec fn spec_label(self) -> Seq<char> {
        match self {
            NoteValue::Whole => "1"@,
            NoteValue::Half => "1/2"@,
            NoteValue::Quarter => "1/4"@,
            NoteValue::Eighth => "1/8"@,
            NoteValue::Sixteenth => "1/16"@,
            NoteValue::ThirtySecond => "1/32"@,
            NoteValue::SixtyFourth => "1/64"@,
            NoteValue::HundredTwentyEighth => "1/128"@,
        }
    }

    /// The note's name as a fraction of a whole note.
    pub fn label(&self) -> (text: &'static str)
        ensures
            text@ == self.spec_label(),
    {
        match self {
            NoteValue::Whole => "1",
            NoteValue::Half => "1/2",
            NoteValue::Quarter => "1/4",
            NoteValue::Eighth => "1/8",
            NoteValue::Sixteenth => "1/16",
            NoteValue::ThirtySecond => "1/32",
            NoteValue::SixtyFourth => "1/64",
            NoteValue::HundredTwentyEighth => "1/128",
        }
    }

    /// The note values in display order, coarse to fine.
    pub open spec fn ordered() -> Seq<NoteValue> {
        seq![
            NoteValue::Whole,
            NoteValue::Half,
            NoteValue::Quarter,
            NoteValue::Eighth,
            NoteValue::Sixteenth,
            NoteValue::ThirtySecond,
            NoteValue::SixtyFourth,
            NoteValue::HundredTwentyEighth,
        ]
    }

    /// The note values in display order, coarse to fine.
    pub fn all() -> (list: [NoteValue; 8])
        ensures
            list@ == Self::ordered(),
    {
        let list = [
            NoteValue::Whole,
            NoteValue::Half,
            NoteValue::Quarter,
            NoteValue::Eighth,
            NoteValue::Sixteenth,
            NoteValue::ThirtySecond,
            NoteValue::SixtyFourth,
            NoteValue::HundredTwentyEighth,
        ];
        assert(list@ =~= Self::ordered());
        list
    }
}

} // verus!
