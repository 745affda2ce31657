//! The parser: recursive descent over the token sequence, producing one
//! top-level value.
//!
//! The function [`spec_parse`] is the mathematical description: given the
//! input characters it yields the parsed value together with the input
//! left over after it (trailing content is not inspected), or a classified
//! error.  Internally the description carries a fuel bound so that its
//! recursion visibly terminates; one unit per input character and one to
//! spare is always enough, and [`Parser::parse`] is proved to meet the
//! description at exactly that bound, which in particular proves that the
//! bound is never exhausted.

use vstd::prelude::*;

use crate::error::{JsonError, SpecError};
use crate::token::{SpecToken, Token};
use crate::tokenizer::{spec_lex, SpecLex, Tokenizer};
use crate::value::{
    arr_view, lemma_arr_view_push, lemma_obj_insert_hit, lemma_obj_insert_miss, lemma_obj_view,
    lemma_obj_view_push, obj_insert, obj_view, Json, SpecJson,
};

verus! {

/// The outcome of parsing one value from the front of some input: the
/// value and the input left after it, a classified error, or exhaustion
/// of the internal fuel bound (which [`Parser::parse`] proves unreachable
/// at the bound it uses).
pub enum SpecParse {
    Val(SpecJson, Seq<char>),
    Fail(SpecError),
    OutOfFuel,
}

/// Parsing one value: pull one token and dispatch on it.
pub open spec fn spec_parse_value(s: Seq<char>, f: nat) -> SpecParse
    decreases f, 3int,
{
    match spec_lex(s) {
        SpecLex::End => SpecParse::Fail(SpecError::UnexpectedEndOfInput),
        SpecLex::Fail(e) => SpecParse::Fail(e),
        SpecLex::Tok(t, r) => spec_parse_from(t, r, f),
    }
}

/// Parsing one value whose first token was already pulled: scalar tokens
/// map directly; an opening bracket or brace opens a container; any other
/// token is structurally invalid here.
pub open spec fn spec_parse_from(t: SpecToken, s: Seq<char>, f: nat) -> SpecParse
    decreases f, 2int,
{
    match t {
        SpecToken::Null => SpecParse::Val(SpecJson::Null, s),
        SpecToken::Boolean(b) => SpecParse::Val(SpecJson::Boolean(b), s),
        SpecToken::Number(x) => SpecParse::Val(SpecJson::Number(x), s),
        SpecToken::Text(x) => SpecParse::Val(SpecJson::Text(x), s),
        SpecToken::BracketOn => spec_parse_array_first(s, f),
        SpecToken::BraceOn => spec_parse_object_first(s, f),
        _ => SpecParse::Fail(SpecError::UnexpectedToken(t)),
    }
}

/// Array parsing just after the opening bracket: an immediate closing
/// bracket makes the empty array; otherwise the token already pulled
/// starts the first element.
pub open spec fn spec_parse_array_first(s: Seq<char>, f: nat) -> SpecParse
    decreases f, 1int,
{
    match spec_lex(s) {
        SpecLex::End => SpecParse::Fail(SpecError::UnexpectedEndOfInput),
        SpecLex::Fail(e) => SpecParse::Fail(e),
        SpecLex::Tok(t, r) => {
            if t is BracketOff {
                SpecParse::Val(SpecJson::Array(Seq::empty()), r)
            } else if f == 0 {
                SpecParse::OutOfFuel
            } else {
                match spec_parse_from(t, r, (f - 1) as nat) {
                    SpecParse::Val(v, r2) => spec_parse_array_loop(seq![v], r2, (f - 1) as nat),
                    SpecParse::Fail(e) => SpecParse::Fail(e),
                    SpecParse::OutOfFuel => SpecParse::OutOfFuel,
                }
            }
        },
    }
}

/// Array parsing between elements: a comma parses one more element, a
/// closing bracket ends the array, anything else is structurally invalid.
pub open spec fn spec_parse_array_loop(acc: Seq<SpecJson>, s: Seq<char>, f: nat) -> SpecParse
    decreases f, 0int,
{
    match spec_lex(s) {
        SpecLex::End => SpecParse::Fail(SpecError::UnexpectedEndOfInput),
        SpecLex::Fail(e) => SpecParse::Fail(e),
        SpecLex::Tok(t, r) => {
            if t is BracketOff {
                SpecParse::Val(SpecJson::Array(acc), r)
            } else if t is Comma {
                if f == 0 {
                    SpecParse::OutOfFuel
                } else {
                    match spec_parse_value(r, (f - 1) as nat) {
                        SpecParse::Val(v, r2) => spec_parse_array_loop(
                            acc.push(v),
                            r2,
                            (f - 1) as nat,
                        ),
                        SpecParse::Fail(e) => SpecParse::Fail(e),
                        SpecParse::OutOfFuel => SpecParse::OutOfFuel,
                    }
                }
            } else {
                SpecParse::Fail(SpecError::UnexpectedToken(t))
            }
        },
    }
}

/// Object parsing just after the opening brace: an immediate closing
/// brace makes the empty object; otherwise a string key, a colon and a
/// value form the first entry.
pub open spec fn spec_parse_object_first(s: Seq<char>, f: nat) -> SpecParse
    decreases f, 1int,
{
    match spec_lex(s) {
        SpecLex::End => SpecParse::Fail(SpecError::UnexpectedEndOfInput),
        SpecLex::Fail(e) => SpecParse::Fail(e),
        SpecLex::Tok(t, r) => match t {
            SpecToken::BraceOff => SpecParse::Val(SpecJson::Object(Seq::empty()), r),
            SpecToken::Text(k) => match spec_lex(r) {
                SpecLex::End => SpecParse::Fail(SpecError::UnexpectedEndOfInput),
                SpecLex::Fail(e) => SpecParse::Fail(e),
                SpecLex::Tok(t2, r2) => {
                    if t2 is Colon {
                        if f == 0 {
                            SpecParse::OutOfFuel
                        } else {
                            match spec_parse_value(r2, (f - 1) as nat) {
                                SpecParse::Val(v, r3) => spec_parse_object_loop(
                                    seq![(k, v)],
                                    r3,
                                    (f - 1) as nat,
                                ),
                                SpecParse::Fail(e) => SpecParse::Fail(e),
                                SpecParse::OutOfFuel => SpecParse::OutOfFuel,
                            }
                        }
                    } else {
                        SpecParse::Fail(SpecError::UnexpectedToken(t2))
                    }
                },
            },
            _ => SpecParse::Fail(SpecError::UnexpectedToken(t)),
        },
    }
}

/// Object parsing between entries: a comma parses one more key/colon/value
/// entry (a duplicate key overwrites, it is no error), a closing brace
/// ends the object, anything else is structurally invalid.
pub open spec fn spec_parse_object_loop(
    acc: Seq<(Seq<char>, SpecJson)>,
    s: Seq<char>,
    f: nat,
) -> SpecParse
    decreases f, 0int,
{
    match spec_lex(s) {
        SpecLex::End => SpecParse::Fail(SpecError::UnexpectedEndOfInput),
        SpecLex::Fail(e) => SpecParse::Fail(e),
        SpecLex::Tok(t, r) => match t {
            SpecToken::BraceOff => SpecParse::Val(SpecJson::Object(acc), r),
            SpecToken::Comma => match spec_lex(r) {
                SpecLex::End => SpecParse::Fail(SpecError::UnexpectedEndOfInput),
                SpecLex::Fail(e) => SpecParse::Fail(e),
                SpecLex::Tok(t2, r2) => match t2 {
                    SpecToken::Text(k) => match spec_lex(r2) {
                        SpecLex::End => SpecParse::Fail(SpecError::UnexpectedEndOfInput),
                        SpecLex::Fail(e) => SpecParse::Fail(e),
                        SpecLex::Tok(t3, r3) => {
                            if t3 is Colon {
                                if f == 0 {
                                    SpecParse::OutOfFuel
                                } else {
                                    match spec_parse_value(r3, (f - 1) as nat) {
                                        SpecParse::Val(v, r4) => spec_parse_object_loop(
                                            obj_insert(acc, k, v),
                                            r4,
                                            (f - 1) as nat,
                                        ),
                                        SpecParse::Fail(e) => SpecParse::Fail(e),
                                        SpecParse::OutOfFuel => SpecParse::OutOfFuel,
                                    }
                                }
                            } else {
                                SpecParse::Fail(SpecError::UnexpectedToken(t3))
                            }
                        },
                    },
                    _ => SpecParse::Fail(SpecError::UnexpectedToken(t2)),
                },
            },
            _ => SpecParse::Fail(SpecError::UnexpectedToken(t)),
        },
    }
}

/// The fuel bound that always suffices: one unit per input character and
/// one to spare.
pub open spec fn parse_fuel(s: Seq<char>) -> nat {
    (s.len() + 1) as nat
}

/// Parsing a whole input: one value from the front, at the fuel bound
/// that [`Parser::parse`] proves sufficient.  Whatever input is left over
/// is reported, not inspected.
pub open spec fn spec_parse(s: Seq<char>) -> SpecParse {
    spec_parse_value(s, parse_fuel(s))
}

/// How an executable outcome and a leftover input realize a described one.
pub open spec fn parse_matches(out: SpecParse, post: Seq<char>, r: Result<Json, JsonError>) -> bool {
    match out {
        SpecParse::Val(v, rest) => match r {
            Ok(j) => j@ == v && post == rest,
            _ => false,
        },
        SpecParse::Fail(e) => match r {
            Err(err) => err@ == e,
            _ => false,
        },
        SpecParse::OutOfFuel => false,
    }
}

/// What [`Parser::parse`] (and the crate-level `parse`) guarantees about
/// its result alone.
pub open spec fn parse_ensures(s: Seq<char>, r: Result<Json, JsonError>) -> bool {
    match spec_parse(s) {
        SpecParse::Val(v, _) => match r {
            Ok(j) => j@ == v,
            _ => false,
        },
        SpecParse::Fail(e) => match r {
            Err(err) => err@ == e,
            _ => false,
        },
        SpecParse::OutOfFuel => false,
    }
}

/// Replace the value of the first entry holding this key, or append a new
/// entry; the executable form of [`obj_insert`].
fn obj_put(entries: Vec<(String, Json)>, key: String, value: Json) -> (r: Vec<(String, Json)>)
    ensures
        obj_view(r@) == obj_insert(obj_view(entries@), key@, value@),
{
    let mut entries = entries;
    let ghost s0 = entries@;
    let ghost gk = key@;
    let ghost gv = value@;
    let n = entries.len();
    let mut i: usize = 0;
    #[verifier::loop_isolation(false)]
    while i < n
        invariant
            i <= n,
            entries@ == s0,
            forall|j: int| 0 <= j < i ==> s0[j].0@ != gk,
        decreases n - i,
    {
        if entries[i].0 == key {
            proof {
                lemma_obj_view(s0);
                lemma_obj_insert_hit(obj_view(s0), gk, gv, i as int);
            }
            let ghost pair = (key, value);
            entries.remove(i);
            entries.insert(i, (key, value));
            proof {
                assert(entries@ =~= s0.update(i as int, pair));
                lemma_obj_view(entries@);
                assert(obj_view(entries@) =~= obj_view(s0).update(i as int, (gk, gv)));
            }
            return entries;
        }
        i += 1;
    }
    proof {
        lemma_obj_view(s0);
        lemma_obj_insert_miss(obj_view(s0), gk, gv);
        lemma_obj_view_push(s0, key, value);
    }
    entries.push((key, value));
    entries
}

/// The recursive-descent consumer of the token sequence.
pub struct Parser {
    tokenizer: Tokenizer,
}

impl View for Parser {
    type V = Seq<char>;

    /// The input not yet consumed.
    closed spec fn view(&self) -> Seq<char> {
        self.tokenizer@
    }
}

impl Parser {
    /// The internal cursor is well formed.
    pub closed spec fn wf(&self) -> bool {
        self.tokenizer.wf()
    }

    /// A parser over the whole given text.
    pub fn new(s: &str) -> (r: Parser)
        ensures
            r.wf(),
            r@ == s@,
    {
        Parser { tokenizer: Tokenizer::new(s) }
    }

    /// Pull one token, turning the end-of-input signal into the error it
    /// is wherever a token is required.
    fn step(&mut self) -> (r: Result<Token, JsonError>)
        requires
            old(self).wf(),
        ensures
            final(self).wf(),
            final(self)@.len() <= old(self)@.len(),
            match spec_lex(old(self)@) {
                SpecLex::Tok(t, rest) => match r {
                    Ok(tok) => tok@ == t && final(self)@ == rest && rest.len() < old(self)@.len(),
                    _ => false,
                },
                SpecLex::End => match r {
                    Err(err) => err@ == SpecError::UnexpectedEndOfInput,
                    _ => false,
                },
                SpecLex::Fail(e) => match r {
                    Err(err) => err@ == e,
                    _ => false,
                },
            },
    {
        match self.tokenizer.next() {
            Ok(Some(tok)) => Ok(tok),
            Ok(None) => Err(JsonError::UnexpectedEndOfInput),
            Err(e) => Err(e),
        }
    }

    /// Parse one value from the front of the remaining input.
    fn parse_value(&mut self, Ghost(f): Ghost<nat>) -> (r: Result<Json, JsonError>)
        requires
            old(self).wf(),
            f >= old(self)@.len() + 1,
        ensures
            final(self).wf(),
            final(self)@.len() <= old(self)@.len(),
            r is Ok ==> final(self)@.len() < old(self)@.len(),
            parse_matches(spec_parse_value(old(self)@, f), final(self)@, r),
        decreases f, 3int,
    {
        let t = match self.step() {
            Ok(t) => t,
            Err(e) => {
                return Err(e);
            },
        };
        self.parse_from(t, Ghost(f))
    }

    /// Parse one value whose first token was already pulled.
    fn parse_from(&mut self, token: Token, Ghost(f): Ghost<nat>) -> (r: Result<Json, JsonError>)
        requires
            old(self).wf(),
            f >= old(self)@.len() + 1,
        ensures
            final(self).wf(),
            final(self)@.len() <= old(self)@.len(),
            parse_matches(spec_parse_from(token@, old(self)@, f), final(self)@, r),
        decreases f, 2int,
    {
        match token {
            Token::Null => Ok(Json::Null),
            Token::String(s) => Ok(Json::String(s)),
            Token::Number(n) => Ok(Json::Number(n)),
            Token::Boolean(b) => Ok(Json::Boolean(b)),
            Token::BracketOn => self.parse_array(Ghost(f)),
            Token::BraceOn => self.parse_object(Ghost(f)),
            other => Err(JsonError::UnexpectedToken(other)),
        }
    }

    /// Parse the elements and closing bracket of an array whose opening
    /// bracket was already consumed.
    fn parse_array(&mut self, Ghost(f): Ghost<nat>) -> (r: Result<Json, JsonError>)
        requires
            old(self).wf(),
            f >= old(self)@.len() + 1,
        ensures
            final(self).wf(),
            final(self)@.len() <= old(self)@.len(),
            parse_matches(spec_parse_array_first(old(self)@, f), final(self)@, r),
        decreases f, 1int,
    {
        let mut array: Vec<Json> = Vec::new();
        let t = match self.step() {
            Ok(t) => t,
            Err(e) => {
                return Err(e);
            },
        };
        match t {
            Token::BracketOff => {
                proof {
                    assert(arr_view(array@) =~= Seq::<SpecJson>::empty());
                }
                return Ok(Json::Array(array));
            },
            first => {
                let v = match self.parse_from(first, Ghost((f - 1) as nat)) {
                    Ok(v) => v,
                    Err(e) => {
                        return Err(e);
                    },
                };
                proof {
                    lemma_arr_view_push(array@, v);
                    assert(arr_view(array@) =~= Seq::<SpecJson>::empty());
                }
                array.push(v);
            },
        }
        let ghost mut fuel: nat = (f - 1) as nat;
        loop
            invariant
                self.wf(),
                fuel < f,
                fuel >= self@.len() + 1,
                spec_parse_array_first(old(self)@, f) == spec_parse_array_loop(
                    arr_view(array@),
                    self@,
                    fuel,
                ),
                self@.len() < old(self)@.len(),
            decreases fuel,
        {
            let t2 = match self.step() {
                Ok(t2) => t2,
                Err(e) => {
                    return Err(e);
                },
            };
            match t2 {
                Token::BracketOff => {
                    return Ok(Json::Array(array));
                },
                Token::Comma => {
                    let v = match self.parse_value(Ghost((fuel - 1) as nat)) {
                        Ok(v) => v,
                        Err(e) => {
                            return Err(e);
                        },
                    };
                    proof {
                        lemma_arr_view_push(array@, v);
                    }
                    array.push(v);
                    proof {
                        fuel = (fuel - 1) as nat;
                    }
                },
                other => {
                    return Err(JsonError::UnexpectedToken(other));
                },
            }
        }
    }

    /// Parse the entries and closing brace of an object whose opening
    /// brace was already consumed.
    fn parse_object(&mut self, Ghost(f): Ghost<nat>) -> (r: Result<Json, JsonError>)
        requires
            old(self).wf(),
            f >= old(self)@.len() + 1,
        ensures
            final(self).wf(),
            final(self)@.len() <= old(self)@.len(),
            parse_matches(spec_parse_object_first(old(self)@, f), final(self)@, r),
        decreases f, 1int,
    {
        let mut object: Vec<(String, Json)> = Vec::new();
        let t = match self.step() {
            Ok(t) => t,
            Err(e) => {
                return Err(e);
            },
        };
        let key0 = match t {
            Token::BraceOff => {
                proof {
                    assert(obj_view(object@) =~= Seq::<(Seq<char>, SpecJson)>::empty());
                }
                return Ok(Json::Object(object));
            },
            Token::String(key) => key,
            other => {
                return Err(JsonError::UnexpectedToken(other));
            },
        };
        let c = match self.step() {
            Ok(c) => c,
            Err(e) => {
                return Err(e);
            },
        };
        match c {
            Token::Colon => {},
            other => {
                return Err(JsonError::UnexpectedToken(other));
            },
        }
        let v0 = match self.parse_value(Ghost((f - 1) as nat)) {
            Ok(v) => v,
            Err(e) => {
                return Err(e);
            },
        };
        proof {
            lemma_obj_view_push(object@, key0, v0);
            assert(obj_view(object@) =~= Seq::<(Seq<char>, SpecJson)>::empty());
            assert(Seq::<(Seq<char>, SpecJson)>::empty().push((key0@, v0@)) =~= seq![
                (key0@, v0@),
            ]);
        }
        object.push((key0, v0));
        let ghost mut fuel: nat = (f - 1) as nat;
        loop
            invariant
                self.wf(),
                fuel < f,
                fuel >= self@.len() + 1,
                spec_parse_object_first(old(self)@, f) == spec_parse_object_loop(
                    obj_view(object@),
                    self@,
                    fuel,
                ),
                self@.len() < old(self)@.len(),
            decreases fuel,
        {
            let t2 = match self.step() {
                Ok(t2) => t2,
                Err(e) => {
                    return Err(e);
                },
            };
            match t2 {
                Token::BraceOff => {
                    return Ok(Json::Object(object));
                },
                Token::Comma => {
                    let k = match self.step() {
                        Ok(k) => k,
                        Err(e) => {
                            return Err(e);
                        },
                    };
                    let key = match k {
                        Token::String(key) => key,
                        other => {
                            return Err(JsonError::UnexpectedToken(other));
                        },
                    };
                    let c2 = match self.step() {
                        Ok(c2) => c2,
                        Err(e) => {
                            return Err(e);
                        },
                    };
                    match c2 {
                        Token::Colon => {},
                        other => {
                            return Err(JsonError::UnexpectedToken(other));
                        },
                    }
                    let v = match self.parse_value(Ghost((fuel - 1) as nat)) {
                        Ok(v) => v,
                        Err(e) => {
                            return Err(e);
                        },
                    };
                    object = obj_put(object, key, v);
                    proof {
                        fuel = (fuel - 1) as nat;
                    }
                },
                other => {
                    return Err(JsonError::UnexpectedToken(other));
                },
            }
        }
    }

    /// Parse exactly one top-level value from the front of the input.
    /// Trailing content after that value is not inspected; a caller
    /// requiring a fully consumed document must check the remainder.
    pub fn parse(&mut self) -> (r: Result<Json, JsonError>)
        requires
            old(self).wf(),
        ensures
            final(self).wf(),
            !(spec_parse(old(self)@) is OutOfFuel),
            parse_matches(spec_parse(old(self)@), final(self)@, r),
    {
        let ghost f = parse_fuel(self@);
        self.parse_value(Ghost(f))
    }
}

} // verus!
