//! The errors a parse can produce, together with their sequence-level model.
//!
//! Error payloads borrow the offending substring of the parsed input, so an
//! error cannot outlive the string it describes.

use vstd::prelude::*;

verus! {

use vstd::string::StringExecFns;

/// Why a digit string could not be read as a number.
#[derive(Clone, Copy, Debug, PartialEq, Eq, Structural)]
pub enum IntErrorCause {
    /// A character that is not an ASCII digit.
    InvalidDigit,
    /// The digits name a value above `u64::MAX`.
    Overflow,
}

/// Errors that can happen when using parsing functions.
#[derive(Debug, Clone)]
pub enum Error<'s> {
    /// The input string is not fully ASCII.
    NotAscii,
    /// The unit substring could not be resolved; carries the whole original
    /// unit substring, not just the unconsumed remainder.
    InvalidUnit(&'s str),
    /// The numeric substring could not be read; carries that substring and,
    /// when digits were present but unreadable, the cause.
    ParseIntError(&'s str, Option<IntErrorCause>),
}

/// The model of an [`Error`]: the same three cases over character sequences.
pub ghost enum ErrorModel {
    NotAscii,
    InvalidUnit(Seq<char>),
    ParseIntError(Seq<char>, Option<IntErrorCause>),
}

impl<'s> View for Error<'s> {
    type V = ErrorModel;

    open spec fn view(&self) -> ErrorModel {
        match self {
            Error::NotAscii => ErrorModel::NotAscii,
            Error::InvalidUnit(unit) => ErrorModel::InvalidUnit(unit@),
            Error::ParseIntError(text, cause) => ErrorModel::ParseIntError(text@, *cause),
        }
    }
}

impl<'s> Error<'s> {
    /// The displayable description of the error, quoting the offending
    /// substring verbatim.
    pub fn message(&self) -> (r: String)
        ensures
            r@ == match self@ {
                ErrorModel::NotAscii => "input must be ascii"@,
                ErrorModel::InvalidUnit(unit) => "invalid unit \""@ + unit + "\""@,
                ErrorModel::ParseIntError(text, _) => "invalid number \""@ + text + "\""@,
            },
    {
        match self {
            Error::NotAscii => String::from_str("input must be ascii"),
            Error::InvalidUnit(unit) => String::from_str("invalid unit \"").concat(unit).concat(
                "\"",
            ),
            Error::ParseIntError(text, _) => String::from_str("invalid number \"").concat(
                text,
            ).concat("\""),
        }
    }
}

} // verus!
