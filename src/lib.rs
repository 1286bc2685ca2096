//! A four-function calculator engine: a small state machine that turns
//! button presses into changes of a display text, a pending operand and a
//! pending operator.
//!
//! Numbers are exact decimals (a mantissa and a count of places), read from
//! the display text. Sums, differences, products and quotients are computed
//! exactly and then rounded to six places for display, halves away from
//! zero; square roots are rounded the same way. A division by zero, and a
//! square root of a negative number or of text that is no number, show the
//! error text; so does the square root of text written below zero, even
//! where its value rounds to zero. A number on the display is read rounded
//! to eighteen places; one whose mantissa then needs more than eighteen
//! digits is beyond the range held: it is still taken as an operand, but
//! equals or a square root on it shows the error text.
//!
//! - `text`: decimal text and reading a number from it.
//! - `number`: exact arithmetic, rounding, and the text of a result.
//! - `engine`: the calculator state, its model, and one operation per key.
//! - `laws`: properties that hold of every state and every input.
use vstd::prelude::*;

pub mod engine;
pub mod laws;
pub mod number;
pub mod text;

verus! {

} // verus!
