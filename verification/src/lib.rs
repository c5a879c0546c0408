//! A musical delay-time calculator.
//!
//! Given a tempo in beats per minute, the crate yields the delay time of every
//! note value from a whole note down to a 1/128 note, in its normal, dotted and
//! triplet feel, in milliseconds or in hertz. The tempo is typed in or tapped.
//!
//! All quantities are exact: fractions of integers, times powers of ten.
//! Their meaning in contracts is a real number.
//!
//! - [`music`]: note values, rhythmic modifiers and units.
//! - [`ratio`] and [`tempo`]: exact quantities, and rounding.
//! - [`power`] and [`digits`]: powers of ten, and whole numbers of any size.
//! - [`delay`]: the conversion from a tempo to delay times, and its laws.
//! - [`tap`]: the tap-tempo estimator.
//! - [`numeral`] and [`text`]: reading a tempo from text, and showing values.
//! - [`calculator`]: the state of the calculator and its answers to events.

pub mod calculator;
pub mod delay;
pub mod digits;
pub mod music;
pub mod numeral;
pub mod power;
pub mod ratio;
pub mod tap;
pub mod tempo;
pub mod text;
