//! Why a piece of input was rejected.

use vstd::prelude::*;

verus! {

/// The ways in which a line or a text node can be malformed.
#[derive(Clone, Copy, Debug, PartialEq, Eq, Structural)]
pub enum ParseError {
    /// A line has fewer fields than its format asks for.
    MissingField,
    /// A numeric field is not a decimal numeral that fits its type.
    InvalidNumber,
    /// A text node holds a character reference that cannot be resolved.
    BadEntity,
    /// A text node that is read is not UTF-8.
    BadEncoding,
}

impl ParseError {
    /// A short description for messages.
    pub fn message(&self) -> (text: String)
        ensures
            text@ == match *self {
                ParseError::MissingField => "missing field"@,
                ParseError::InvalidNumber => "invalid number"@,
                ParseError::BadEntity => "unresolvable character reference"@,
                ParseError::BadEncoding => "text is not UTF-8"@,
            },
    {
        match self {
            ParseError::MissingField => "missing field".to_owned(),
            ParseError::InvalidNumber => "invalid number".to_owned(),
            ParseError::BadEntity => "unresolvable character reference".to_owned(),
            ParseError::BadEncoding => "text is not UTF-8".to_owned(),
        }
    }
}

} // verus!
