//! What can go wrong with the values of the language.
use vstd::prelude::*;

verus! {

/// Why a text is no decimal number of the wanted kind.
#[derive(Debug, Clone, Copy, PartialEq, Eq, Hash, Structural)]
pub enum NumberError {
    /// The text is empty.
    Empty,
    /// The text holds something else than digits after an optional sign.
    InvalidDigit,
    /// The number is above the largest of its kind.
    PosOverflow,
    /// The number is below the smallest of its kind.
    NegOverflow,
}

/// Why a value is none of the language.
#[derive(Debug, Clone, Copy, PartialEq, Eq, Hash, Structural)]
pub enum Error {
    /// The value does not fit into so many bits.
    OutOfBounds(u8),
    /// The ASCII byte has no AwaSCII character.
    InvalidAwaSCII(u8),
    /// The text is no number.
    ParseError(NumberError),
}

} // verus!
