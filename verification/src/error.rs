//! The failures the interpreter can report. All failures are values; no
//! input makes the library panic.

use vstd::prelude::*;

verus! {

/// The four kinds of failure, as a payload-free tag for specifications.
#[derive(Clone, Copy, PartialEq, Eq, Structural, Debug)]
pub enum Kind {
    /// A token is not one of the seven numeral literals.
    InvalidSymbol,
    /// A symbol sequence violates the Roman-numeral formation rules.
    InvalidNumeral,
    /// A malformed statement or question shape.
    InvalidInput,
    /// The credit amount is not a valid integer.
    NumberFormat,
}

/// A failure, carrying a message that names the offending token, phrase or
/// line.
#[derive(Debug)]
pub enum Error {
    InvalidSymbol(String),
    InvalidNumeral(String),
    InvalidInput(String),
    NumberFormat(String),
}

impl Error {
    /// The kind of this failure.
    pub open spec fn kind(&self) -> Kind {
        match self {
            Error::InvalidSymbol(_) => Kind::InvalidSymbol,
            Error::InvalidNumeral(_) => Kind::InvalidNumeral,
            Error::InvalidInput(_) => Kind::InvalidInput,
            Error::NumberFormat(_) => Kind::NumberFormat,
        }
    }

    /// The catch-all message shown when a line cannot be made sense of.
    pub fn into_generic(self) -> (r: String)
        ensures
            r@ == "I have no idea what you are talking about"@,
    {
        "I have no idea what you are talking about".to_owned()
    }
}

} // verus!
