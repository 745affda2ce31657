//! Lexical tokens: the short-lived units the tokenizer hands to the parser.

use vstd::prelude::*;

verus! {

/// One lexical unit: punctuation, a delimiter, or a literal.
///
/// A numeric literal is carried as its text; the parser stores that text
/// unchanged in the value it builds.
#[derive(Debug, PartialEq)]
pub enum Token {
    Comma,
    Colon,
    BracketOn,
    BracketOff,
    BraceOn,
    BraceOff,
    String(String),
    Number(String),
    Boolean(bool),
    Null,
}

/// The mathematical form of a token.
pub enum SpecToken {
    Comma,
    Colon,
    BracketOn,
    BracketOff,
    BraceOn,
    BraceOff,
    Text(Seq<char>),
    Number(Seq<char>),
    Boolean(bool),
    Null,
}

/// The abstraction from an executable token to its mathematical form.
pub open spec fn token_view(t: Token) -> SpecToken {
    match t {
        Token::Comma => SpecToken::Comma,
        Token::Colon => SpecToken::Colon,
        Token::BracketOn => SpecToken::BracketOn,
        Token::BracketOff => SpecToken::BracketOff,
        Token::BraceOn => SpecToken::BraceOn,
        Token::BraceOff => SpecToken::BraceOff,
        Token::String(s) => SpecToken::Text(s@),
        Token::Number(t) => SpecToken::Number(t@),
        Token::Boolean(b) => SpecToken::Boolean(b),
        Token::Null => SpecToken::Null,
    }
}

impl View for Token {
    type V = SpecToken;

    open spec fn view(&self) -> SpecToken {
        token_view(*self)
    }
}

} // verus!
