//! The error taxonomy: every failure of tokenizing or parsing is one of
//! these classified values, returned to the caller, never a panic.

use vstd::prelude::*;

use crate::token::{SpecToken, Token};

verus! {

/// A classified failure.
///
/// - `UnexpectedToken`: the parser received a structurally invalid token.
/// - `InvalidCharacter`: the tokenizer saw a character that can start no token.
/// - `InvalidLabel`: a lowercase-letter run other than `true`, `false`, `null`.
/// - `MalformedNumber`: a numeric literal without a digit, or with an
///   embedded minus sign.
/// - `UnexpectedEndOfInput`: a token or character was required but the input
///   was exhausted.
#[derive(Debug, PartialEq)]
pub enum JsonError {
    UnexpectedToken(Token),
    InvalidCharacter(char),
    InvalidLabel(String),
    MalformedNumber(String),
    UnexpectedEndOfInput,
}

/// The mathematical form of a classified failure.
pub enum SpecError {
    UnexpectedToken(SpecToken),
    InvalidCharacter(char),
    InvalidLabel(Seq<char>),
    MalformedNumber(Seq<char>),
    UnexpectedEndOfInput,
}

/// The abstraction from an executable error to its mathematical form.
pub open spec fn error_view(e: JsonError) -> SpecError {
    match e {
        JsonError::UnexpectedToken(t) => SpecError::UnexpectedToken(t@),
        JsonError::InvalidCharacter(c) => SpecError::InvalidCharacter(c),
        JsonError::InvalidLabel(s) => SpecError::InvalidLabel(s@),
        JsonError::MalformedNumber(s) => SpecError::MalformedNumber(s@),
        JsonError::UnexpectedEndOfInput => SpecError::UnexpectedEndOfInput,
    }
}

impl View for JsonError {
    type V = SpecError;

    open spec fn view(&self) -> SpecError {
        error_view(*self)
    }
}

} // verus!
