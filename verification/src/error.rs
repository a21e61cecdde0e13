//! What can go wrong with an entry.

use vstd::prelude::*;

verus! {

/// Why a monetary expression has no value.
#[derive(Clone, Copy, Debug, PartialEq, Eq, Structural)]
pub enum ParseError {
    /// A term between two `+` is neither empty nor a decimal literal.
    MalformedTerm,
    /// The terms are sound, but their sum is more than an expression can be
    /// worth.
    OutOfRange,
}

pub open spec fn malformed_text() -> Seq<char> {
    "invalid float literal"@
}

pub open spec fn out_of_range_text() -> Seq<char> {
    "amount out of range"@
}

impl ParseError {
    pub open spec fn text(self) -> Seq<char> {
        match self {
            ParseError::MalformedTerm => malformed_text(),
            ParseError::OutOfRange => out_of_range_text(),
        }
    }

    /// The error in words, for showing beside the field.
    pub fn message(&self) -> (s: String)
        ensures
            s@ == self.text(),
    {
        match self {
            ParseError::MalformedTerm => "invalid float literal".to_owned(),
            ParseError::OutOfRange => "amount out of range".to_owned(),
        }
    }
}

/// Why no record was built.
#[derive(Clone, Copy, Debug, PartialEq, Eq, Structural)]
pub enum BuildError {
    /// One of the three amounts could not be read.
    Amount(ParseError),
    /// The date is not a calendar date written as year, month and day.
    InvalidDate,
}

pub open spec fn invalid_date_text() -> Seq<char> {
    "invalid date"@
}

impl BuildError {
    pub open spec fn text(self) -> Seq<char> {
        match self {
            BuildError::Amount(e) => e.text(),
            BuildError::InvalidDate => invalid_date_text(),
        }
    }

    /// The error in words, for showing beside the field.
    pub fn message(&self) -> (s: String)
        ensures
            s@ == self.text(),
    {
        match self {
            BuildError::Amount(e) => e.message(),
            BuildError::InvalidDate => "invalid date".to_owned(),
        }
    }
}

} // verus!
