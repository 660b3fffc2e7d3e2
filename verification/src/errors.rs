//! What can go wrong with a FEEL number.

use vstd::prelude::*;

verus! {

/// The reason for which an operation on numbers is refused.
#[derive(Debug)]
pub enum NumberError {
    /// The effective scale of a rounding is outside the allowed range.
    InvalidScale { min: i32, max: i32, actual: i32 },
    /// The text is no number, or is a number that the format has not.
    InvalidNumberLiteral(String),
    /// The number does not fit in the integer type.
    NumberConversionFailed,
}

} // verus!
