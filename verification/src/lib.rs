//! A small, dependency-free JSON library: a tokenizer, a recursive-descent
//! parser producing a tree of [`value::Json`] values, and a serializer
//! turning such a tree back into text.
//!
//! Every fallible operation returns a classified [`error::JsonError`];
//! nothing panics.

use vstd::prelude::*;

pub mod code_generator;
pub mod error;
pub mod parser;
pub mod round_trip;
mod text;
pub mod token;
pub mod tokenizer;
pub mod value;

use crate::code_generator::{spec_stringify, CodeGenerator};
use crate::error::JsonError;
use crate::parser::{parse_ensures, Parser};
use crate::value::Json;

verus! {

/// Parse one top-level value from the front of the text.  Trailing
/// content after that value is not inspected: a document with trailing
/// garbage still parses, using only its first value.  Every failure is a
/// classified [`JsonError`].
pub fn parse(s: &str) -> (r: Result<Json, JsonError>)
    ensures
        parse_ensures(s@, r),
{
    let mut parser = Parser::new(s);
    parser.parse()
}

/// Serialize a value to its minimal-whitespace text.  Total: no failure
/// mode, whatever the value holds.
pub fn stringify(value: &Json) -> (r: String)
    ensures
        r@ == spec_stringify(value@),
{
    let mut generator = CodeGenerator::new();
    generator.gather(value);
    generator.product()
}

} // verus!
