//! The error type of the pipeline. Every error is terminal to the current
//! call and carries the offending text for diagnostics.

use vstd::prelude::*;
use vstd::string::StringExecFns;

verus! {

/// Why an expression was rejected.
#[derive(Debug)]
pub enum ParseError {
    /// The input holds a character outside digits, `d`/`D`, `+`, `-` and space.
    InvalidCharacter { input: String },
    /// A dice marker is not followed by a positive digit.
    InvalidDiceType { input: String },
    /// A segmented term is neither a valid constant nor a valid dice term,
    /// or a numeric part does not fit its integer width.
    MalformedTerm { term: String },
}

impl ParseError {
    /// The offending text the error carries.
    pub open spec fn payload(&self) -> Seq<char> {
        match self {
            ParseError::InvalidCharacter { input } => input@,
            ParseError::InvalidDiceType { input } => input@,
            ParseError::MalformedTerm { term } => term@,
        }
    }

    /// A human-readable description, `"<message>: <offending text>"`.
    pub fn message(&self) -> (r: String)
        ensures
            self is InvalidCharacter ==> r@ == "Invalid input"@ + ": "@ + self.payload(),
            self is InvalidDiceType ==> r@ == "Invalid dice type"@ + ": "@ + self.payload(),
            self is MalformedTerm ==> r@ == "Malformed term"@ + ": "@ + self.payload(),
    {
        match self {
            ParseError::InvalidCharacter { input } => roll_error(input.as_str(), "Invalid input"),
            ParseError::InvalidDiceType { input } => roll_error(input.as_str(), "Invalid dice type"),
            ParseError::MalformedTerm { term } => roll_error(term.as_str(), "Malformed term"),
        }
    }
}

impl PartialEq for ParseError {
    /// Two errors are equal when they are of the same kind and carry the same text.
    fn eq(&self, other: &Self) -> (r: bool) {
        match (self, other) {
            (
                ParseError::InvalidCharacter { input: a },
                ParseError::InvalidCharacter { input: b },
            ) => *a == *b,
            (ParseError::InvalidDiceType { input: a }, ParseError::InvalidDiceType { input: b }) => {
                *a == *b
            },
            (ParseError::MalformedTerm { term: a }, ParseError::MalformedTerm { term: b }) => {
                *a == *b
            },
            _ => false,
        }
    }
}

impl vstd::std_specs::cmp::PartialEqSpecImpl for ParseError {
    open spec fn obeys_eq_spec() -> bool {
        true
    }

    open spec fn eq_spec(&self, other: &Self) -> bool {
        match (self, other) {
            (
                ParseError::InvalidCharacter { input: a },
                ParseError::InvalidCharacter { input: b },
            ) => a@ == b@,
            (ParseError::InvalidDiceType { input: a }, ParseError::InvalidDiceType { input: b }) => {
                a@ == b@
            },
            (ParseError::MalformedTerm { term: a }, ParseError::MalformedTerm { term: b }) => {
                a@ == b@
            },
            _ => false,
        }
    }
}

/// Joins an error message and the text that caused it, separated by a colon
/// and a space.
pub fn roll_error(dice_roll: &str, msg: &str) -> (r: String)
    ensures
        r@ == msg@ + ": "@ + dice_roll@,
{
    let mut r = String::from_str(msg);
    r.append(": ");
    r.append(dice_roll);
    r
}

} // verus!
