//! The error kinds that the codec and the identifier generator report.

use vstd::prelude::*;

verus! {

/// Everything that can go wrong in this library.
///
/// Each operation either returns a valid result or reports exactly one of
/// these kinds; no operation partially succeeds.
#[derive(Clone, Copy, Debug, PartialEq, Eq, Structural)]
pub enum Error {
    /// The alphabet has fewer than two characters, or holds a duplicate.
    InvalidAlphabet,
    /// A character of a decode input does not occur in the alphabet.
    InvalidSymbol,
    /// A decoded value would exceed the target integer width.
    OutOfRange,
    /// The wall clock could not be read.
    ClockUnavailable,
}

impl Error {
    /// A short human-readable name for the error kind.
    pub fn describe(&self) -> (r: &'static str)
        ensures
            r@ == match *self {
                Error::InvalidAlphabet => "invalid alphabet"@,
                Error::InvalidSymbol => "invalid symbol"@,
                Error::OutOfRange => "out of range"@,
                Error::ClockUnavailable => "clock unavailable"@,
            },
    {
        match *self {
            Error::InvalidAlphabet => "invalid alphabet",
            Error::InvalidSymbol => "invalid symbol",
            Error::OutOfRange => "out of range",
            Error::ClockUnavailable => "clock unavailable",
        }
    }
}

} // verus!
