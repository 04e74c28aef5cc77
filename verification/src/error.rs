//! The ways in which a parse can fail.
use vstd::prelude::*;
use vstd::std_specs::cmp::PartialEqSpecImpl;

verus! {

/// Why a text is not accepted. Every failure ends the parse: nothing is
/// skipped and nothing is repaired.
#[derive(Debug)]
pub enum ParseError {
    /// A structural character was expected and something else was found;
    /// `found` is `None` at the end of the input.
    SyntaxError { expected: char, found: Option<char> },
    /// The key of an object member does not begin with a quotation mark.
    TypeError,
    /// A bare word that is none of `null`, `true` and `false`.
    UnexpectedLiteralError { token: String },
    /// A number was asked for where no digit stands.
    IntegerExpectedError,
    /// The input ended inside a string.
    UnterminatedStringError,
    /// The input ended inside an array or an object.
    UnterminatedContainerError,
}

/// What a [`ParseError`] is, mathematically.
pub enum Failure {
    SyntaxError { expected: char, found: Option<char> },
    TypeError,
    UnexpectedLiteralError { token: Seq<char> },
    IntegerExpectedError,
    UnterminatedStringError,
    UnterminatedContainerError,
}

impl View for ParseError {
    type V = Failure;

    open spec fn view(&self) -> Failure {
        match *self {
            ParseError::SyntaxError { expected, found } => Failure::SyntaxError { expected, found },
            ParseError::TypeError => Failure::TypeError,
            ParseError::UnexpectedLiteralError { token } => Failure::UnexpectedLiteralError {
                token: token@,
            },
            ParseError::IntegerExpectedError => Failure::IntegerExpectedError,
            ParseError::UnterminatedStringError => Failure::UnterminatedStringError,
            ParseError::UnterminatedContainerError => Failure::UnterminatedContainerError,
        }
    }
}

impl PartialEq for ParseError {
    fn eq(&self, other: &Self) -> (same: bool) {
        match (self, other) {
            (
                ParseError::SyntaxError { expected: e1, found: f1 },
                ParseError::SyntaxError { expected: e2, found: f2 },
            ) => {
                let same_found = match (f1, f2) {
                    (Some(a), Some(b)) => *a == *b,
                    (None, None) => true,
                    _ => false,
                };
                *e1 == *e2 && same_found
            },
            (ParseError::TypeError, ParseError::TypeError) => true,
            (
                ParseError::UnexpectedLiteralError { token: t1 },
                ParseError::UnexpectedLiteralError { token: t2 },
            ) => *t1 == *t2,
            (ParseError::IntegerExpectedError, ParseError::IntegerExpectedError) => true,
            (ParseError::UnterminatedStringError, ParseError::UnterminatedStringError) => true,
            (
                ParseError::UnterminatedContainerError,
                ParseError::UnterminatedContainerError,
            ) => true,
            _ => false,
        }
    }
}

impl Eq for ParseError {

}

impl PartialEqSpecImpl for ParseError {
    open spec fn obeys_eq_spec() -> bool {
        true
    }

    open spec fn eq_spec(&self, other: &Self) -> bool {
        self@ == other@
    }
}

} // verus!
