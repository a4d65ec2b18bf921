//! What can go wrong.
use vstd::prelude::*;

verus! {

/// The ways in which parsing, changing or writing out a URI can fail.
#[derive(PartialEq, Eq, Clone, Copy, Debug)]
pub enum Error {
    /// The input does not match the grammar.
    ParseError,
    /// The input ends before the grammar can decide.
    ParseIncomplete,
    /// The output does not fit in the buffer.
    BufferToSmall,
    /// The unmatched input is not valid UTF-8.
    Conversion(core::str::Utf8Error),
    /// A part of the authority was to be set on a URI that has none.
    NoAuthority,
}

impl Error {
    /// A sentence that describes the error.
    pub fn message(&self) -> (r: &'static str)
        ensures
            r@ == match self {
                Error::ParseError => "Could not parse input"@,
                Error::ParseIncomplete => "Incomplete parsing."@,
                Error::BufferToSmall => "Output does not fit in buffer."@,
                Error::Conversion(_) => "Tried to convert non utf8 to string."@,
                Error::NoAuthority => "Tried to set authority field on an uri without authority."@,
            },
    {
        match self {
            Error::ParseError => "Could not parse input",
            Error::ParseIncomplete => "Incomplete parsing.",
            Error::BufferToSmall => "Output does not fit in buffer.",
            Error::Conversion(_) => "Tried to convert non utf8 to string.",
            Error::NoAuthority => "Tried to set authority field on an uri without authority.",
        }
    }
}

} // verus!
