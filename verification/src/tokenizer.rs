//! The tokenizer: a one-pass cursor over the input characters that hands
//! out one token at a time.
//!
//! The function [`spec_lex`] is the mathematical description of one pull:
//! given the remaining input it yields the next token and the input left
//! after it, or the end-of-input signal, or a classified error.
//! [`Tokenizer::next`] is proved to follow it exactly.

use vstd::prelude::*;

use crate::error::{JsonError, SpecError};
use crate::text::push_char;
use crate::token::{SpecToken, Token};
use vstd::string::StrSliceExecFns;

verus! {

/// The Unicode characters that the tokenizer skips between tokens.
pub open spec fn is_ws(c: char) -> bool {
    let u = c as u32;
    u == 0x09 || u == 0x0A || u == 0x0B || u == 0x0C || u == 0x0D || u == 0x20 || u == 0x85
        || u == 0xA0 || u == 0x1680 || (0x2000 <= u && u <= 0x200A) || u == 0x2028 || u == 0x2029
        || u == 0x202F || u == 0x205F || u == 0x3000
}

/// A decimal digit.
pub open spec fn is_digit(c: char) -> bool {
    0x30 <= (c as u32) && (c as u32) <= 0x39
}

/// A lowercase ASCII letter, the characters a literal label is made of.
pub open spec fn is_lower(c: char) -> bool {
    0x61 <= (c as u32) && (c as u32) <= 0x7A
}

/// Whether some character of the text is a digit; a numeric literal is
/// well formed exactly when this holds of its accumulated text.
pub open spec fn has_digit(t: Seq<char>) -> bool {
    exists|i: int| 0 <= i < t.len() && is_digit(#[trigger] t[i])
}

/// A well-formed numeric literal: an optional leading minus sign, then
/// digits with at most one decimal point among them, and at least one
/// digit somewhere.  Exactly these texts the tokenizer accepts as one
/// number token.
pub open spec fn wf_number(t: Seq<char>) -> bool {
    &&& t.len() > 0
    &&& (is_digit(t[0]) || t[0] == '-')
    &&& forall|i: int| 1 <= i < t.len() ==> is_digit(#[trigger] t[i]) || t[i] == '.'
    &&& forall|i: int, j: int| 0 <= i < j < t.len() && t[i] == '.' ==> t[j] != '.'
    &&& has_digit(t)
}

/// The characters of the label `true`.
pub open spec fn true_text() -> Seq<char> {
    seq!['t', 'r', 'u', 'e']
}

/// The characters of the label `false`.
pub open spec fn false_text() -> Seq<char> {
    seq!['f', 'a', 'l', 's', 'e']
}

/// The characters of the label `null`.
pub open spec fn null_text() -> Seq<char> {
    seq!['n', 'u', 'l', 'l']
}

/// The outcome of pulling one token: the token and the input after it,
/// the end-of-input signal, or a classified error.
pub enum SpecLex {
    Tok(SpecToken, Seq<char>),
    End,
    Fail(SpecError),
}

/// String lexing after the opening quote: a one-bit escape state machine.
/// A backslash seen outside an escape sets the flag and is dropped; any
/// character seen inside an escape is appended literally; an unescaped
/// quote terminates.  Exhausting the input before the closing quote fails.
pub open spec fn spec_read_string(s: Seq<char>, acc: Seq<char>, escape: bool) -> SpecLex
    decreases s.len(),
{
    if s.len() == 0 {
        SpecLex::Fail(SpecError::UnexpectedEndOfInput)
    } else {
        let c = s[0];
        let rest = s.drop_first();
        if c == '"' && !escape {
            SpecLex::Tok(SpecToken::Text(acc), rest)
        } else if c == '\\' && !escape {
            spec_read_string(rest, acc, true)
        } else {
            spec_read_string(rest, acc.push(c), false)
        }
    }
}

/// Classification of a finished numeric literal: it must contain a digit.
pub open spec fn spec_num_done(acc: Seq<char>, s: Seq<char>) -> SpecLex {
    if has_digit(acc) {
        SpecLex::Tok(SpecToken::Number(acc), s)
    } else {
        SpecLex::Fail(SpecError::MalformedNumber(acc))
    }
}

/// Number lexing after the first character: a maximal run of digits with
/// at most one decimal point.  A minus sign after the first character is
/// malformed; any other character stops the literal and is not consumed.
pub open spec fn spec_read_number(s: Seq<char>, acc: Seq<char>, point: bool) -> SpecLex
    decreases s.len(),
{
    if s.len() == 0 {
        spec_num_done(acc, s)
    } else {
        let c = s[0];
        let rest = s.drop_first();
        if is_digit(c) {
            spec_read_number(rest, acc.push(c), point)
        } else if c == '.' && !point {
            spec_read_number(rest, acc.push(c), true)
        } else if c == '-' {
            SpecLex::Fail(SpecError::MalformedNumber(acc.push('-')))
        } else {
            spec_num_done(acc, s)
        }
    }
}

/// Label lexing after the first character: a maximal run of lowercase
/// letters, which must be exactly `true`, `false` or `null`.
pub open spec fn spec_read_symbol(s: Seq<char>, acc: Seq<char>) -> SpecLex
    decreases s.len(),
{
    if s.len() > 0 && is_lower(s[0]) {
        spec_read_symbol(s.drop_first(), acc.push(s[0]))
    } else if acc == true_text() {
        SpecLex::Tok(SpecToken::Boolean(true), s)
    } else if acc == false_text() {
        SpecLex::Tok(SpecToken::Boolean(false), s)
    } else if acc == null_text() {
        SpecLex::Tok(SpecToken::Null, s)
    } else {
        SpecLex::Fail(SpecError::InvalidLabel(acc))
    }
}

/// One pull of the tokenizer, on the remaining input: skip whitespace,
/// then dispatch on the first significant character.
pub open spec fn spec_lex(s: Seq<char>) -> SpecLex
    decreases s.len(),
{
    if s.len() == 0 {
        SpecLex::End
    } else {
        let c = s[0];
        let rest = s.drop_first();
        if is_ws(c) {
            spec_lex(rest)
        } else if c == ',' {
            SpecLex::Tok(SpecToken::Comma, rest)
        } else if c == ':' {
            SpecLex::Tok(SpecToken::Colon, rest)
        } else if c == '[' {
            SpecLex::Tok(SpecToken::BracketOn, rest)
        } else if c == ']' {
            SpecLex::Tok(SpecToken::BracketOff, rest)
        } else if c == '{' {
            SpecLex::Tok(SpecToken::BraceOn, rest)
        } else if c == '}' {
            SpecLex::Tok(SpecToken::BraceOff, rest)
        } else if c == '"' {
            spec_read_string(rest, Seq::empty(), false)
        } else if is_digit(c) || c == '-' {
            spec_read_number(rest, seq![c], false)
        } else if is_lower(c) {
            spec_read_symbol(rest, seq![c])
        } else {
            SpecLex::Fail(SpecError::InvalidCharacter(c))
        }
    }
}

/// What one call of [`Tokenizer::next`] guarantees, given the remaining
/// input before and after the call.
pub open spec fn lex_ensures(
    pre: Seq<char>,
    post: Seq<char>,
    r: Result<Option<Token>, JsonError>,
) -> bool {
    match spec_lex(pre) {
        SpecLex::Tok(t, rest) => match r {
            Ok(Some(tok)) => tok@ == t && post == rest && rest.len() < pre.len(),
            _ => false,
        },
        SpecLex::End => match r {
            Ok(o) => o is None && post.len() == 0,
            _ => false,
        },
        SpecLex::Fail(e) => match r {
            Err(err) => err@ == e,
            _ => false,
        },
    }
}

/// Whitespace test, the executable twin of [`is_ws`].
fn ws(c: char) -> (r: bool)
    ensures
        r == is_ws(c),
{
    let u = c as u32;
    u == 0x09 || u == 0x0A || u == 0x0B || u == 0x0C || u == 0x0D || u == 0x20 || u == 0x85
        || u == 0xA0 || u == 0x1680 || (0x2000 <= u && u <= 0x200A) || u == 0x2028 || u == 0x2029
        || u == 0x202F || u == 0x205F || u == 0x3000
}

/// Digit test, the executable twin of [`is_digit`].
fn digit(c: char) -> (r: bool)
    ensures
        r == is_digit(c),
{
    let u = c as u32;
    0x30 <= u && u <= 0x39
}

/// Lowercase-letter test, the executable twin of [`is_lower`].
fn lower(c: char) -> (r: bool)
    ensures
        r == is_lower(c),
{
    let u = c as u32;
    0x61 <= u && u <= 0x7A
}

/// Whether a number may keep consuming at this character.
fn num_cont(c: char, point: bool) -> (r: bool)
    ensures
        r == (is_digit(c) || (c == '.' && !point)),
{
    digit(c) || (c == '.' && !point)
}

/// Appending a character keeps or creates a digit occurrence.
proof fn lemma_has_digit_push(t: Seq<char>, c: char)
    ensures
        has_digit(t.push(c)) == (has_digit(t) || is_digit(c)),
{
    if is_digit(c) {
        assert(t.push(c)[t.len() as int] == c);
    }
    if has_digit(t) {
        let i = choose|i: int| 0 <= i < t.len() && is_digit(#[trigger] t[i]);
        assert(t.push(c)[i] == t[i]);
    }
    if has_digit(t.push(c)) && !is_digit(c) {
        let i = choose|i: int| 0 <= i < t.push(c).len() && is_digit(#[trigger] t.push(c)[i]);
        assert(t[i] == t.push(c)[i]);
    }
}

/// The one-pass cursor over the input characters.
pub struct Tokenizer {
    chars: Vec<char>,
    pos: usize,
}

impl View for Tokenizer {
    type V = Seq<char>;

    /// The input not yet consumed.
    closed spec fn view(&self) -> Seq<char> {
        self.chars@.skip(self.pos as int)
    }
}

impl Tokenizer {
    /// The read cursor never passes the end of the input.
    pub closed spec fn wf(&self) -> bool {
        self.pos <= self.chars@.len()
    }

    /// A tokenizer whose remaining input is the whole given text.
    pub fn new(s: &str) -> (r: Tokenizer)
        ensures
            r.wf(),
            r@ == s@,
    {
        let n = s.unicode_len();
        let mut chars: Vec<char> = Vec::new();
        let mut i: usize = 0;
        while i < n
            invariant
                i <= n,
                n == s@.len(),
                chars@.len() == i,
                forall|k: int| 0 <= k < i ==> chars@[k] == s@[k],
            decreases n - i,
        {
            chars.push(s.get_char(i));
            i += 1;
        }
        let r = Tokenizer { chars, pos: 0 };
        proof {
            assert(r@ =~= s@);
        }
        r
    }

    /// String lexing, entered after the opening quote was consumed.
    fn read_string(&mut self) -> (r: Result<Token, JsonError>)
        requires
            old(self).wf(),
        ensures
            final(self).wf(),
            final(self)@.len() <= old(self)@.len(),
            match spec_read_string(old(self)@, Seq::empty(), false) {
                SpecLex::Tok(t, rest) => match r {
                    Ok(tok) => tok@ == t && final(self)@ == rest,
                    _ => false,
                },
                SpecLex::Fail(e) => match r {
                    Err(err) => err@ == e,
                    _ => false,
                },
                SpecLex::End => false,
            },
    {
        let mut value = String::new();
        let mut escape = false;
        while self.pos < self.chars.len()
            invariant
                self.wf(),
                self.chars == old(self).chars,
                self@.len() <= old(self)@.len(),
                spec_read_string(old(self)@, Seq::empty(), false) == spec_read_string(
                    self@,
                    value@,
                    escape,
                ),
            decreases self@.len(),
        {
            let c = self.chars[self.pos];
            let ghost pre = self@;
            self.pos = self.pos + 1;
            proof {
                assert(pre.drop_first() =~= self@);
            }
            if c == '"' && !escape {
                return Ok(Token::String(value));
            }
            if c == '\\' && !escape {
                escape = true;
            } else {
                push_char(&mut value, c);
                escape = false;
            }
        }
        Err(JsonError::UnexpectedEndOfInput)
    }

    /// Number lexing, entered after its first character was consumed.
    fn read_number(&mut self, first: char) -> (r: Result<Token, JsonError>)
        requires
            old(self).wf(),
        ensures
            final(self).wf(),
            final(self)@.len() <= old(self)@.len(),
            match spec_read_number(old(self)@, seq![first], false) {
                SpecLex::Tok(t, rest) => match r {
                    Ok(tok) => tok@ == t && final(self)@ == rest,
                    _ => false,
                },
                SpecLex::Fail(e) => match r {
                    Err(err) => err@ == e,
                    _ => false,
                },
                SpecLex::End => false,
            },
    {
        let mut value = String::new();
        push_char(&mut value, first);
        let mut point = false;
        let mut has_dig = digit(first);
        proof {
            assert(value@ =~= seq![first]);
            assert(seq![first][0] == first);
            lemma_has_digit_push(Seq::empty(), first);
            assert(Seq::empty().push(first) =~= seq![first]);
        }
        while self.pos < self.chars.len() && num_cont(self.chars[self.pos], point)
            invariant
                self.wf(),
                self.chars == old(self).chars,
                self@.len() <= old(self)@.len(),
                has_dig == has_digit(value@),
                spec_read_number(old(self)@, seq![first], false) == spec_read_number(
                    self@,
                    value@,
                    point,
                ),
            decreases self@.len(),
        {
            let c = self.chars[self.pos];
            let ghost pre = self@;
            self.pos = self.pos + 1;
            proof {
                assert(pre.drop_first() =~= self@);
                lemma_has_digit_push(value@, c);
            }
            if c == '.' {
                point = true;
            } else {
                has_dig = true;
            }
            push_char(&mut value, c);
        }
        if self.pos < self.chars.len() && self.chars[self.pos] == '-' {
            push_char(&mut value, '-');
            return Err(JsonError::MalformedNumber(value));
        }
        if has_dig {
            Ok(Token::Number(value))
        } else {
            Err(JsonError::MalformedNumber(value))
        }
    }

    /// Label lexing, entered after its first character was consumed.
    fn read_symbol(&mut self, first: char) -> (r: Result<Token, JsonError>)
        requires
            old(self).wf(),
        ensures
            final(self).wf(),
            final(self)@.len() <= old(self)@.len(),
            match spec_read_symbol(old(self)@, seq![first]) {
                SpecLex::Tok(t, rest) => match r {
                    Ok(tok) => tok@ == t && final(self)@ == rest,
                    _ => false,
                },
                SpecLex::Fail(e) => match r {
                    Err(err) => err@ == e,
                    _ => false,
                },
                SpecLex::End => false,
            },
    {
        let mut symbol = String::new();
        push_char(&mut symbol, first);
        proof {
            assert(symbol@ =~= seq![first]);
        }
        while self.pos < self.chars.len() && lower(self.chars[self.pos])
            invariant
                self.wf(),
                self.chars == old(self).chars,
                self@.len() <= old(self)@.len(),
                spec_read_symbol(old(self)@, seq![first]) == spec_read_symbol(self@, symbol@),
            decreases self@.len(),
        {
            let c = self.chars[self.pos];
            let ghost pre = self@;
            self.pos = self.pos + 1;
            proof {
                assert(pre.drop_first() =~= self@);
            }
            push_char(&mut symbol, c);
        }
        proof {
            reveal_strlit("true");
            reveal_strlit("false");
            reveal_strlit("null");
            assert("true"@ =~= true_text());
            assert("false"@ =~= false_text());
            assert("null"@ =~= null_text());
        }
        if symbol == String::from_str("true") {
            Ok(Token::Boolean(true))
        } else if symbol == String::from_str("false") {
            Ok(Token::Boolean(false))
        } else if symbol == String::from_str("null") {
            Ok(Token::Null)
        } else {
            Err(JsonError::InvalidLabel(symbol))
        }
    }

    /// Pull the next token: the end-of-input signal is `Ok(None)`, a
    /// classified failure is `Err`.  Follows [`spec_lex`] exactly on the
    /// remaining input; consumed characters cannot be re-read.
    pub fn next(&mut self) -> (r: Result<Option<Token>, JsonError>)
        requires
            old(self).wf(),
        ensures
            final(self).wf(),
            final(self)@.len() <= old(self)@.len(),
            lex_ensures(old(self)@, final(self)@, r),
    {
        while self.pos < self.chars.len() && ws(self.chars[self.pos])
            invariant
                self.wf(),
                self.chars == old(self).chars,
                self@.len() <= old(self)@.len(),
                spec_lex(old(self)@) == spec_lex(self@),
            decreases self@.len(),
        {
            let ghost pre = self@;
            self.pos = self.pos + 1;
            proof {
                assert(pre.drop_first() =~= self@);
            }
        }
        if self.pos == self.chars.len() {
            return Ok(None);
        }
        let c = self.chars[self.pos];
        let ghost pre = self@;
        self.pos = self.pos + 1;
        proof {
            assert(pre.drop_first() =~= self@);
        }
        if c == ',' {
            Ok(Some(Token::Comma))
        } else if c == ':' {
            Ok(Some(Token::Colon))
        } else if c == '[' {
            Ok(Some(Token::BracketOn))
        } else if c == ']' {
            Ok(Some(Token::BracketOff))
        } else if c == '{' {
            Ok(Some(Token::BraceOn))
        } else if c == '}' {
            Ok(Some(Token::BraceOff))
        } else if c == '"' {
            match self.read_string() {
                Ok(tok) => Ok(Some(tok)),
                Err(e) => Err(e),
            }
        } else if digit(c) || c == '-' {
            match self.read_number(c) {
                Ok(tok) => Ok(Some(tok)),
                Err(e) => Err(e),
            }
        } else if lower(c) {
            match self.read_symbol(c) {
                Ok(tok) => Ok(Some(tok)),
                Err(e) => Err(e),
            }
        } else {
            Err(JsonError::InvalidCharacter(c))
        }
    }
}

} // verus!
