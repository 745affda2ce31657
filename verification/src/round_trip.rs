//! The round-trip law: parsing the serializer's output of a well-formed
//! value yields exactly that value, with nothing left over.
//!
//! The proof walks the value: one lemma shows the tokenizer reads each
//! serialized token back, and mutually recursive lemmas follow the
//! parser's recursion through arrays and objects.

use vstd::prelude::*;

use crate::code_generator::{
    esc, ser_member, ser_members, ser_members_tail, ser_elems, ser_tail, spec_stringify,
};
use crate::parser::{
    parse_fuel, spec_parse, spec_parse_array_first, spec_parse_array_loop, spec_parse_object_first,
    spec_parse_object_loop, spec_parse_from, spec_parse_value, SpecParse,
};
use crate::token::SpecToken;
use crate::tokenizer::{
    false_text, has_digit, is_digit, is_lower, is_ws, null_text, spec_lex, spec_read_number,
    spec_read_string, spec_read_symbol, true_text, wf_number, SpecLex,
};
use crate::value::{obj_insert, wf_json, SpecJson};

verus! {

broadcast use
    vstd::seq::axiom_seq_index_decreases,
    vstd::seq::axiom_seq_subrange_decreases;

/// Input whose first character cannot extend a preceding token: nothing,
/// or a separator the parser is about to read.
pub open spec fn sep_start(rest: Seq<char>) -> bool {
    rest.len() == 0 || rest[0] == ',' || rest[0] == ']' || rest[0] == '}'
}

/// Reading string content: the escaped text followed by a closing quote
/// reads back as the original content, consuming exactly through the quote.
proof fn lemma_read_string_ser(s: Seq<char>, acc: Seq<char>, rest: Seq<char>)
    ensures
        spec_read_string(esc(s) + seq!['"'] + rest, acc, false) == SpecLex::Tok(
            SpecToken::Text(acc + s),
            rest,
        ),
    decreases s.len(),
{
    let full = esc(s) + seq!['"'] + rest;
    if s.len() == 0 {
        assert(full =~= seq!['"'] + rest);
        assert(full[0] == '"');
        assert(full.drop_first() =~= rest);
        assert(acc + s =~= acc);
    } else {
        let c = s[0];
        let s1 = s.drop_first();
        if c == '"' || c == '\\' {
            reveal_with_fuel(spec_read_string, 3);
            assert(full =~= seq!['\\', c] + esc(s1) + seq!['"'] + rest);
            assert(full[0] == '\\');
            let f1 = full.drop_first();
            assert(f1 =~= seq![c] + esc(s1) + seq!['"'] + rest);
            assert(f1[0] == c);
            let f2 = f1.drop_first();
            assert(f2 =~= esc(s1) + seq!['"'] + rest);
            lemma_read_string_ser(s1, acc.push(c), rest);
            assert(acc.push(c) + s1 =~= acc + s);
        } else {
            assert(full =~= seq![c] + esc(s1) + seq!['"'] + rest);
            assert(full[0] == c);
            let f1 = full.drop_first();
            assert(f1 =~= esc(s1) + seq!['"'] + rest);
            lemma_read_string_ser(s1, acc.push(c), rest);
            assert(acc.push(c) + s1 =~= acc + s);
        }
    }
}

/// Lexing a serialized string: the quoted, escaped text reads back as one
/// string token holding the original content.
proof fn lemma_lex_string(s: Seq<char>, rest: Seq<char>)
    ensures
        spec_lex(seq!['"'] + esc(s) + seq!['"'] + rest) == SpecLex::Tok(SpecToken::Text(s), rest),
{
    let full = seq!['"'] + esc(s) + seq!['"'] + rest;
    assert(full[0] == '"');
    assert(full.drop_first() =~= esc(s) + seq!['"'] + rest);
    lemma_read_string_ser(s, Seq::empty(), rest);
    assert(Seq::<char>::empty() + s =~= s);
}

/// The characters a number literal's tail may hold, given whether the
/// decimal point was already seen.
spec fn num_tail_ok(t: Seq<char>, point: bool) -> bool {
    &&& forall|i: int| 0 <= i < t.len() ==> is_digit(#[trigger] t[i]) || t[i] == '.'
    &&& forall|i: int, j: int| 0 <= i < j < t.len() && t[i] == '.' ==> t[j] != '.'
    &&& point ==> forall|i: int| 0 <= i < t.len() ==> #[trigger] t[i] != '.'
}

/// Reading a number's tail: the remaining literal text followed by a
/// separator reads back, stopping exactly at the separator.
proof fn lemma_read_number_ser(t: Seq<char>, acc: Seq<char>, point: bool, rest: Seq<char>)
    requires
        num_tail_ok(t, point),
        has_digit(acc + t),
        sep_start(rest),
    ensures
        spec_read_number(t + rest, acc, point) == SpecLex::Tok(SpecToken::Number(acc + t), rest),
    decreases t.len(),
{
    let full = t + rest;
    if t.len() == 0 {
        assert(full =~= rest);
        assert(acc + t =~= acc);
        if rest.len() > 0 {
            assert(!is_digit(rest[0]));
        }
    } else {
        let c = t[0];
        let t1 = t.drop_first();
        assert(full[0] == c);
        assert(full.drop_first() =~= t1 + rest);
        if is_digit(c) {
            assert(acc.push(c) + t1 =~= acc + t);
            lemma_read_number_ser(t1, acc.push(c), point, rest);
        } else {
            assert(c == '.');
            assert(!point);
            assert(forall|j: int| 0 <= j < t1.len() ==> #[trigger] t1[j] != '.');
            assert(acc.push(c) + t1 =~= acc + t);
            lemma_read_number_ser(t1, acc.push(c), true, rest);
        }
    }
}

/// Lexing a serialized number: a well-formed literal followed by a
/// separator reads back as one number token holding exactly the literal.
proof fn lemma_lex_number(t: Seq<char>, rest: Seq<char>)
    requires
        wf_number(t),
        sep_start(rest),
    ensures
        spec_lex(t + rest) == SpecLex::Tok(SpecToken::Number(t), rest),
{
    let full = t + rest;
    let c = t[0];
    assert(full[0] == c);
    assert(!is_ws(c)) by {
        assert(is_digit(c) || c == '-');
    }
    assert(full.drop_first() =~= t.drop_first() + rest);
    assert(seq![c] + t.drop_first() =~= t);
    assert(has_digit(seq![c] + t.drop_first()));
    assert(num_tail_ok(t.drop_first(), false)) by {
        assert(forall|i: int| 0 <= i < t.drop_first().len() ==> is_digit(
            #[trigger] t.drop_first()[i],
        ) || t.drop_first()[i] == '.');
    }
    lemma_read_number_ser(t.drop_first(), seq![c], false, rest);
}

/// Lexing a serialized keyword: `null`, `true` or `false` followed by a
/// separator reads back as its one token.
proof fn lemma_lex_keyword(rest: Seq<char>)
    requires
        sep_start(rest),
    ensures
        spec_lex(null_text() + rest) == SpecLex::Tok(SpecToken::Null, rest),
        spec_lex(true_text() + rest) == SpecLex::Tok(SpecToken::Boolean(true), rest),
        spec_lex(false_text() + rest) == SpecLex::Tok(SpecToken::Boolean(false), rest),
{
    if rest.len() > 0 {
        assert(!is_lower(rest[0]));
    }
    assert(null_text()[0] == 'n');
    assert(true_text()[0] == 't');
    assert(false_text()[0] == 'f');
    let n = null_text() + rest;
    assert(n[0] == 'n');
    assert(n.drop_first() =~= seq!['u', 'l', 'l'] + rest);
    lemma_read_keyword_tail(seq!['u', 'l', 'l'], seq!['n'], rest);
    assert(seq!['n'] + seq!['u', 'l', 'l'] =~= null_text());
    let t = true_text() + rest;
    assert(t[0] == 't');
    assert(t.drop_first() =~= seq!['r', 'u', 'e'] + rest);
    lemma_read_keyword_tail(seq!['r', 'u', 'e'], seq!['t'], rest);
    assert(seq!['t'] + seq!['r', 'u', 'e'] =~= true_text());
    let f = false_text() + rest;
    assert(f[0] == 'f');
    assert(f.drop_first() =~= seq!['a', 'l', 's', 'e'] + rest);
    lemma_read_keyword_tail(seq!['a', 'l', 's', 'e'], seq!['f'], rest);
    assert(seq!['f'] + seq!['a', 'l', 's', 'e'] =~= false_text());
}

/// Reading a label's tail: lowercase letters followed by a separator are
/// all consumed, stopping exactly at the separator.
proof fn lemma_read_keyword_tail(t: Seq<char>, acc: Seq<char>, rest: Seq<char>)
    requires
        forall|i: int| 0 <= i < t.len() ==> is_lower(#[trigger] t[i]),
        rest.len() == 0 || !is_lower(rest[0]),
    ensures
        spec_read_symbol(t + rest, acc) == spec_read_symbol(rest, acc + t),
    decreases t.len(),
{
    if t.len() == 0 {
        assert(t + rest =~= rest);
        assert(acc + t =~= acc);
    } else {
        let full = t + rest;
        assert(full[0] == t[0]);
        assert(full.drop_first() =~= t.drop_first() + rest);
        assert(acc.push(t[0]) + t.drop_first() =~= acc + t);
        lemma_read_keyword_tail(t.drop_first(), acc.push(t[0]), rest);
    }
}

/// Parsing a serialized value, ahead of separated leftover input, yields
/// exactly that value and leaves exactly that input.
pub proof fn lemma_parse_ser_value(v: SpecJson, rest: Seq<char>, f: nat)
    requires
        wf_json(v),
        sep_start(rest),
        f >= spec_stringify(v).len() + rest.len() + 1,
    ensures
        spec_parse_value(spec_stringify(v) + rest, f) == SpecParse::Val(v, rest),
    decreases v,
{
    let full = spec_stringify(v) + rest;
    match v {
        SpecJson::Null => {
            assert(full =~= null_text() + rest);
            lemma_lex_keyword(rest);
        },
        SpecJson::Boolean(b) => {
            if b {
                assert(full =~= true_text() + rest);
            } else {
                assert(full =~= false_text() + rest);
            }
            lemma_lex_keyword(rest);
        },
        SpecJson::Number(t) => {
            assert(full =~= t + rest);
            lemma_lex_number(t, rest);
        },
        SpecJson::Text(s) => {
            assert(full =~= seq!['"'] + esc(s) + seq!['"'] + rest);
            lemma_lex_string(s, rest);
        },
        SpecJson::Array(es) => {
            assert(full[0] == '[');
            let s0 = ser_elems(es) + seq![']'] + rest;
            assert(full.drop_first() =~= s0);
            assert(f >= s0.len() + 2);
            lemma_parse_ser_array_first(es, rest, f);
        },
        SpecJson::Object(ms) => {
            assert(full[0] == '{');
            let s0 = ser_members(ms) + seq!['}'] + rest;
            assert(full.drop_first() =~= s0);
            assert(f >= s0.len() + 2);
            lemma_parse_ser_object_first(ms, rest, f);
        },
    }
}

/// Parsing an array's elements and closing bracket, just after its
/// opening bracket, yields exactly those elements.
proof fn lemma_parse_ser_array_first(es: Seq<SpecJson>, rest: Seq<char>, f: nat)
    requires
        forall|i: int| 0 <= i < es.len() ==> wf_json(#[trigger] es[i]),
        sep_start(rest),
        f >= (ser_elems(es) + seq![']'] + rest).len() + 2,
    ensures
        spec_parse_array_first(ser_elems(es) + seq![']'] + rest, f) == SpecParse::Val(
            SpecJson::Array(es),
            rest,
        ),
    decreases es,
{
    let s0 = ser_elems(es) + seq![']'] + rest;
    if es.len() == 0 {
        assert(s0 =~= seq![']'] + rest);
        assert(s0[0] == ']');
        assert(s0.drop_first() =~= rest);
        assert(es =~= Seq::<SpecJson>::empty());
    } else {
        let e0 = es[0];
        let es1 = es.drop_first();
        let tail1 = ser_tail(es1) + seq![']'] + rest;
        assert(s0 =~= spec_stringify(e0) + tail1);
        assert(wf_json(e0));
        if es1.len() == 0 {
            assert(tail1 =~= seq![']'] + rest);
            assert(tail1[0] == ']');
        } else {
            assert(tail1[0] == ',');
        }
        assert(s0.len() == spec_stringify(e0).len() + tail1.len());
        lemma_parse_ser_value(e0, tail1, (f - 1) as nat);
        let lx = spec_lex(s0);
        match lx {
            SpecLex::Tok(t0, r0) => {
                assert(spec_parse_from(t0, r0, (f - 1) as nat) == SpecParse::Val(e0, tail1));
                assert(!(t0 is BracketOff));
                lemma_parse_ser_array_tail(seq![e0], es1, rest, (f - 1) as nat);
                assert(seq![e0] + es1 =~= es);
            },
            _ => {
                assert(false);
            },
        }
    }
}

/// Parsing an object's entries and closing brace, just after its opening
/// brace, yields exactly those entries.
proof fn lemma_parse_ser_object_first(ms: Seq<(Seq<char>, SpecJson)>, rest: Seq<char>, f: nat)
    requires
        forall|i: int| 0 <= i < ms.len() ==> wf_json(#[trigger] ms[i].1),
        forall|i: int, j: int| 0 <= i < j < ms.len() ==> ms[i].0 != ms[j].0,
        sep_start(rest),
        f >= (ser_members(ms) + seq!['}'] + rest).len() + 2,
    ensures
        spec_parse_object_first(ser_members(ms) + seq!['}'] + rest, f) == SpecParse::Val(
            SpecJson::Object(ms),
            rest,
        ),
    decreases ms,
{
    let s0 = ser_members(ms) + seq!['}'] + rest;
    if ms.len() == 0 {
        assert(s0 =~= seq!['}'] + rest);
        assert(s0[0] == '}');
        assert(s0.drop_first() =~= rest);
        assert(ms =~= Seq::<(Seq<char>, SpecJson)>::empty());
    } else {
        let m0 = ms[0];
        let ms1 = ms.drop_first();
        let tail1 = ser_members_tail(ms1) + seq!['}'] + rest;
        let after_key = seq![':'] + spec_stringify(m0.1) + tail1;
        assert(ser_member(m0) =~= seq!['"'] + esc(m0.0) + seq!['"'] + seq![':'] + spec_stringify(
            m0.1,
        ));
        assert(s0 =~= seq!['"'] + esc(m0.0) + seq!['"'] + after_key);
        lemma_lex_string(m0.0, after_key);
        assert(after_key[0] == ':');
        let r2 = after_key.drop_first();
        assert(r2 =~= spec_stringify(m0.1) + tail1);
        if ms1.len() == 0 {
            assert(tail1 =~= seq!['}'] + rest);
            assert(tail1[0] == '}');
        } else {
            assert(tail1[0] == ',');
        }
        assert(wf_json(m0.1));
        lemma_parse_ser_value(m0.1, tail1, (f - 1) as nat);
        assert((m0.0, m0.1) == m0);
        lemma_parse_ser_object_tail(seq![m0], ms1, rest, (f - 1) as nat);
        assert(seq![m0] + ms1 =~= ms);
    }
}

/// Parsing an array's remaining comma-led elements and closing bracket
/// appends exactly those elements to the ones already parsed.
proof fn lemma_parse_ser_array_tail(
    acc: Seq<SpecJson>,
    es: Seq<SpecJson>,
    rest: Seq<char>,
    f: nat,
)
    requires
        forall|i: int| 0 <= i < es.len() ==> wf_json(#[trigger] es[i]),
        sep_start(rest),
        f >= (ser_tail(es) + seq![']'] + rest).len() + 1,
    ensures
        spec_parse_array_loop(acc, ser_tail(es) + seq![']'] + rest, f) == SpecParse::Val(
            SpecJson::Array(acc + es),
            rest,
        ),
    decreases es,
{
    let s = ser_tail(es) + seq![']'] + rest;
    if es.len() == 0 {
        assert(s =~= seq![']'] + rest);
        assert(s[0] == ']');
        assert(s.drop_first() =~= rest);
        assert(acc + es =~= acc);
    } else {
        let e0 = es[0];
        let es1 = es.drop_first();
        assert(s[0] == ',');
        let r = s.drop_first();
        let tail1 = ser_tail(es1) + seq![']'] + rest;
        assert(r =~= spec_stringify(e0) + tail1);
        if es1.len() == 0 {
            assert(tail1 =~= seq![']'] + rest);
            assert(tail1[0] == ']');
        } else {
            assert(tail1[0] == ',');
        }
        assert(r.len() == spec_stringify(e0).len() + tail1.len());
        lemma_parse_ser_value(e0, tail1, (f - 1) as nat);
        lemma_parse_ser_array_tail(acc.push(e0), es1, rest, (f - 1) as nat);
        assert(acc.push(e0) + es1 =~= acc + es);
    }
}

/// Parsing an object's remaining comma-led entries and closing brace
/// appends exactly those entries, whose keys are new, to the ones already
/// parsed.
proof fn lemma_parse_ser_object_tail(
    acc: Seq<(Seq<char>, SpecJson)>,
    ms: Seq<(Seq<char>, SpecJson)>,
    rest: Seq<char>,
    f: nat,
)
    requires
        forall|i: int| 0 <= i < ms.len() ==> wf_json(#[trigger] ms[i].1),
        forall|i: int, j: int| 0 <= i < j < ms.len() ==> ms[i].0 != ms[j].0,
        forall|i: int, j: int|
            #![trigger acc[i], ms[j]]
            0 <= i < acc.len() && 0 <= j < ms.len() ==> acc[i].0 != ms[j].0,
        sep_start(rest),
        f >= (ser_members_tail(ms) + seq!['}'] + rest).len() + 1,
    ensures
        spec_parse_object_loop(acc, ser_members_tail(ms) + seq!['}'] + rest, f) == SpecParse::Val(
            SpecJson::Object(acc + ms),
            rest,
        ),
    decreases ms,
{
    let s = ser_members_tail(ms) + seq!['}'] + rest;
    if ms.len() == 0 {
        assert(s =~= seq!['}'] + rest);
        assert(s[0] == '}');
        assert(s.drop_first() =~= rest);
        assert(acc + ms =~= acc);
    } else {
        let m0 = ms[0];
        let ms1 = ms.drop_first();
        assert(s[0] == ',');
        let r = s.drop_first();
        let tail1 = ser_members_tail(ms1) + seq!['}'] + rest;
        let after_key = seq![':'] + spec_stringify(m0.1) + tail1;
        assert(ser_member(m0) =~= seq!['"'] + esc(m0.0) + seq!['"'] + seq![':'] + spec_stringify(
            m0.1,
        ));
        assert(r =~= ser_member(m0) + tail1);
        assert(r =~= seq!['"'] + esc(m0.0) + seq!['"'] + after_key);
        lemma_lex_string(m0.0, after_key);
        assert(after_key[0] == ':');
        let r2 = after_key.drop_first();
        assert(r2 =~= spec_stringify(m0.1) + tail1);
        if ms1.len() == 0 {
            assert(tail1 =~= seq!['}'] + rest);
            assert(tail1[0] == '}');
        } else {
            assert(tail1[0] == ',');
        }
        assert(wf_json(m0.1));
        lemma_parse_ser_value(m0.1, tail1, (f - 1) as nat);
        assert(forall|j: int| 0 <= j < acc.len() ==> acc[j].0 != m0.0);
        lemma_obj_insert_miss_entry(acc, m0);
        lemma_parse_ser_object_tail(acc.push(m0), ms1, rest, (f - 1) as nat);
        assert(acc.push(m0) + ms1 =~= acc + ms);
    }
}

/// Inserting an entry whose key is absent appends it whole.
proof fn lemma_obj_insert_miss_entry(acc: Seq<(Seq<char>, SpecJson)>, m: (Seq<char>, SpecJson))
    requires
        forall|j: int| 0 <= j < acc.len() ==> acc[j].0 != m.0,
    ensures
        obj_insert(acc, m.0, m.1) == acc.push(m),
{
    crate::value::lemma_obj_insert_miss(acc, m.0, m.1);
    assert((m.0, m.1) == m);
}

/// The round-trip law: for every valid value, parsing the serializer's
/// output yields exactly that value, with no input left over.  (This is
/// equality of the trees themselves, which in particular is structural
/// equality up to object key order.)
pub proof fn lemma_parse_stringify(v: SpecJson)
    requires
        wf_json(v),
    ensures
        spec_parse(spec_stringify(v)) == SpecParse::Val(v, Seq::<char>::empty()),
{
    lemma_parse_ser_value(v, Seq::empty(), parse_fuel(spec_stringify(v)));
    assert(spec_stringify(v) + Seq::<char>::empty() =~= spec_stringify(v));
}

/// String lexing yields only string tokens.
proof fn lemma_read_string_shape(s: Seq<char>, acc: Seq<char>, escape: bool)
    ensures
        match spec_read_string(s, acc, escape) {
            SpecLex::Tok(t, _) => t is Text,
            _ => true,
        },
    decreases s.len(),
{
    if s.len() > 0 {
        lemma_read_string_shape(s.drop_first(), acc, true);
        lemma_read_string_shape(s.drop_first(), acc.push(s[0]), false);
    }
}

/// Label lexing yields only boolean and null tokens.
proof fn lemma_read_symbol_shape(s: Seq<char>, acc: Seq<char>)
    ensures
        match spec_read_symbol(s, acc) {
            SpecLex::Tok(t, _) => t is Boolean || t is Null,
            _ => true,
        },
    decreases s.len(),
{
    if s.len() > 0 && is_lower(s[0]) {
        lemma_read_symbol_shape(s.drop_first(), acc.push(s[0]));
    }
}

/// What the number state machine maintains about its accumulated text: a
/// literal begun correctly that can still end well formed.
spec fn num_acc_ok(acc: Seq<char>, point: bool) -> bool {
    &&& acc.len() > 0
    &&& (is_digit(acc[0]) || acc[0] == '-')
    &&& forall|i: int| 1 <= i < acc.len() ==> is_digit(#[trigger] acc[i]) || acc[i] == '.'
    &&& forall|i: int, j: int| 0 <= i < j < acc.len() && acc[i] == '.' ==> acc[j] != '.'
    &&& (!point ==> forall|i: int| 0 <= i < acc.len() ==> #[trigger] acc[i] != '.')
}

/// Number lexing from a correctly begun literal yields only well-formed
/// number tokens.
proof fn lemma_read_number_wf(s: Seq<char>, acc: Seq<char>, point: bool)
    requires
        num_acc_ok(acc, point),
    ensures
        match spec_read_number(s, acc, point) {
            SpecLex::Tok(t, _) => match t {
                SpecToken::Number(x) => wf_number(x),
                _ => true,
            },
            _ => true,
        },
    decreases s.len(),
{
    if s.len() == 0 {
    } else {
        let c = s[0];
        if is_digit(c) {
            assert(num_acc_ok(acc.push(c), point)) by {
                assert(forall|i: int| 0 <= i < acc.len() ==> acc.push(c)[i] == acc[i]);
                assert(acc.push(c)[acc.len() as int] == c);
            }
            lemma_read_number_wf(s.drop_first(), acc.push(c), point);
        } else if c == '.' && !point {
            assert(num_acc_ok(acc.push(c), true)) by {
                assert(forall|i: int| 0 <= i < acc.len() ==> acc.push(c)[i] == acc[i]);
                assert(acc.push(c)[acc.len() as int] == c);
            }
            lemma_read_number_wf(s.drop_first(), acc.push(c), true);
        }
    }
}

/// Whatever the input, a number token the tokenizer hands out holds a
/// well-formed literal.
proof fn lemma_lex_number_wf(s: Seq<char>)
    ensures
        match spec_lex(s) {
            SpecLex::Tok(t, _) => match t {
                SpecToken::Number(x) => wf_number(x),
                _ => true,
            },
            _ => true,
        },
    decreases s.len(),
{
    if s.len() > 0 {
        let c = s[0];
        let rest = s.drop_first();
        if is_ws(c) {
            lemma_lex_number_wf(rest);
        } else if c == '"' {
            lemma_read_string_shape(rest, Seq::empty(), false);
        } else if is_digit(c) || c == '-' {
            assert(num_acc_ok(seq![c], false)) by {
                assert(seq![c][0] == c);
            }
            lemma_read_number_wf(rest, seq![c], false);
        } else if is_lower(c) {
            lemma_read_symbol_shape(rest, seq![c]);
        }
    }
}

/// Whether some entry holds this key.
spec fn has_key(s: Seq<(Seq<char>, SpecJson)>, k: Seq<char>) -> bool {
    exists|i: int| 0 <= i < s.len() && (#[trigger] s[i]).0 == k
}

/// Pairwise-distinct keys among entries.
spec fn distinct_keys(s: Seq<(Seq<char>, SpecJson)>) -> bool {
    forall|i: int, j: int| 0 <= i < j < s.len() ==> s[i].0 != s[j].0
}

/// Insertion with overwrite keeps keys distinct and values valid, and
/// introduces no key but the inserted one.
proof fn lemma_obj_insert_wf(acc: Seq<(Seq<char>, SpecJson)>, k: Seq<char>, v: SpecJson)
    requires
        distinct_keys(acc),
        forall|i: int| 0 <= i < acc.len() ==> wf_json((#[trigger] acc[i]).1),
        wf_json(v),
    ensures
        distinct_keys(obj_insert(acc, k, v)),
        forall|i: int|
            0 <= i < obj_insert(acc, k, v).len() ==> wf_json((#[trigger] obj_insert(acc, k, v)[i]).1),
        forall|i: int|
            0 <= i < obj_insert(acc, k, v).len() ==> (#[trigger] obj_insert(acc, k, v)[i]).0 == k
                || has_key(acc, obj_insert(acc, k, v)[i].0),
    decreases acc.len(),
{
    let r = obj_insert(acc, k, v);
    if acc.len() == 0 {
        assert(r =~= seq![(k, v)]);
    } else if acc[0].0 == k {
        assert(r =~= seq![(k, v)] + acc.drop_first());
        assert(forall|j: int| 0 <= j < acc.drop_first().len() ==> acc.drop_first()[j] == acc[j + 1]);
        assert(forall|j: int| 1 <= j < r.len() ==> r[j].0 != k);
        assert(forall|i: int| 1 <= i < r.len() ==> has_key(acc, r[i].0)) by {
            assert(forall|i: int| 1 <= i < r.len() ==> acc[i] == #[trigger] r[i]);
        }
    } else {
        let acc1 = acc.drop_first();
        assert(forall|j: int| 0 <= j < acc1.len() ==> acc1[j] == acc[j + 1]);
        assert(distinct_keys(acc1));
        lemma_obj_insert_wf(acc1, k, v);
        let r1 = obj_insert(acc1, k, v);
        assert(r =~= seq![acc[0]] + r1);
        assert(forall|j: int| 0 <= j < r1.len() ==> r1[j] == #[trigger] r[j + 1]);
        assert(forall|j: int| 1 <= j < r.len() ==> r[j].0 != acc[0].0) by {
            assert(forall|j: int| 0 <= j < r1.len() ==> r1[j].0 == k || has_key(acc1, r1[j].0));
            assert(forall|j: int| 0 <= j < acc1.len() ==> acc1[j].0 != acc[0].0);
        }
        assert(forall|i: int| 0 <= i < r.len() ==> r[i].0 == k || has_key(acc, r[i].0)) by {
            assert(r[0] == acc[0]);
            assert(forall|j: int| 0 <= j < acc1.len() && has_key(acc1, acc1[j].0) ==> has_key(
                acc,
                acc1[j].0,
            ));
        }
    }
}

/// Parsing one value yields a valid tree.
proof fn lemma_wf_value(s: Seq<char>, f: nat)
    ensures
        match spec_parse_value(s, f) {
            SpecParse::Val(v, _) => wf_json(v),
            _ => true,
        },
    decreases f, 3int,
{
    lemma_lex_number_wf(s);
    if let SpecLex::Tok(t, r) = spec_lex(s) {
        lemma_wf_from(t, r, f);
    }
}

/// Dispatching on an already-pulled token yields a valid tree, given that
/// a number token holds a well-formed literal.
proof fn lemma_wf_from(t: SpecToken, s: Seq<char>, f: nat)
    requires
        match t {
            SpecToken::Number(x) => wf_number(x),
            _ => true,
        },
    ensures
        match spec_parse_from(t, s, f) {
            SpecParse::Val(v, _) => wf_json(v),
            _ => true,
        },
    decreases f, 2int,
{
    match t {
        SpecToken::BracketOn => lemma_wf_array_first(s, f),
        SpecToken::BraceOn => lemma_wf_object_first(s, f),
        _ => {},
    }
}

/// Parsing an array's elements yields a valid tree.
proof fn lemma_wf_array_first(s: Seq<char>, f: nat)
    ensures
        match spec_parse_array_first(s, f) {
            SpecParse::Val(v, _) => wf_json(v),
            _ => true,
        },
    decreases f, 1int,
{
    lemma_lex_number_wf(s);
    if let SpecLex::Tok(t, r) = spec_lex(s) {
        if !(t is BracketOff) && f > 0 {
            lemma_wf_from(t, r, (f - 1) as nat);
            if let SpecParse::Val(v, r2) = spec_parse_from(t, r, (f - 1) as nat) {
                assert(forall|i: int| 0 <= i < seq![v].len() ==> wf_json(#[trigger] seq![v][i]));
                lemma_wf_array_loop(seq![v], r2, (f - 1) as nat);
            }
        }
    }
}

/// Continuing an array whose parsed elements are valid yields a valid tree.
proof fn lemma_wf_array_loop(acc: Seq<SpecJson>, s: Seq<char>, f: nat)
    requires
        forall|i: int| 0 <= i < acc.len() ==> wf_json(#[trigger] acc[i]),
    ensures
        match spec_parse_array_loop(acc, s, f) {
            SpecParse::Val(v, _) => wf_json(v),
            _ => true,
        },
    decreases f, 0int,
{
    if let SpecLex::Tok(t, r) = spec_lex(s) {
        if t is Comma && f > 0 {
            lemma_wf_value(r, (f - 1) as nat);
            if let SpecParse::Val(v, r2) = spec_parse_value(r, (f - 1) as nat) {
                assert(forall|i: int| 0 <= i < acc.push(v).len() ==> wf_json(
                    #[trigger] acc.push(v)[i],
                ));
                lemma_wf_array_loop(acc.push(v), r2, (f - 1) as nat);
            }
        }
    }
}

/// Parsing an object's entries yields a valid tree.
proof fn lemma_wf_object_first(s: Seq<char>, f: nat)
    ensures
        match spec_parse_object_first(s, f) {
            SpecParse::Val(v, _) => wf_json(v),
            _ => true,
        },
    decreases f, 1int,
{
    lemma_lex_number_wf(s);
    if let SpecLex::Tok(t, r) = spec_lex(s) {
        if let SpecToken::Text(k) = t {
            if let SpecLex::Tok(t2, r2) = spec_lex(r) {
                if t2 is Colon && f > 0 {
                    lemma_wf_value(r2, (f - 1) as nat);
                    if let SpecParse::Val(v, r3) = spec_parse_value(r2, (f - 1) as nat) {
                        assert(distinct_keys(seq![(k, v)]));
                        assert(forall|i: int| 0 <= i < seq![(k, v)].len() ==> wf_json(
                            (#[trigger] seq![(k, v)][i]).1,
                        ));
                        lemma_wf_object_loop(seq![(k, v)], r3, (f - 1) as nat);
                    }
                }
            }
        }
    }
}

/// Continuing an object whose parsed entries are valid yields a valid tree.
proof fn lemma_wf_object_loop(acc: Seq<(Seq<char>, SpecJson)>, s: Seq<char>, f: nat)
    requires
        distinct_keys(acc),
        forall|i: int| 0 <= i < acc.len() ==> wf_json((#[trigger] acc[i]).1),
    ensures
        match spec_parse_object_loop(acc, s, f) {
            SpecParse::Val(v, _) => wf_json(v),
            _ => true,
        },
    decreases f, 0int,
{
    if let SpecLex::Tok(t, r) = spec_lex(s) {
        if t is Comma {
            if let SpecLex::Tok(t2, r2) = spec_lex(r) {
                if let SpecToken::Text(k) = t2 {
                    if let SpecLex::Tok(t3, r3) = spec_lex(r2) {
                        if t3 is Colon && f > 0 {
                            lemma_wf_value(r3, (f - 1) as nat);
                            if let SpecParse::Val(v, r4) = spec_parse_value(r3, (f - 1) as nat) {
                                lemma_obj_insert_wf(acc, k, v);
                                lemma_wf_object_loop(obj_insert(acc, k, v), r4, (f - 1) as nat);
                            }
                        }
                    }
                }
            }
        }
    }
}

/// Every tree the parser yields is valid: its numeric literal texts are
/// well formed and its objects' keys are pairwise distinct.
pub proof fn lemma_parse_wf(s: Seq<char>)
    ensures
        match spec_parse(s) {
            SpecParse::Val(v, _) => wf_json(v),
            _ => true,
        },
{
    lemma_wf_value(s, parse_fuel(s));
}

/// Reparsing: serializing any parsed tree and parsing that text again
/// yields the same tree, with nothing left over.
pub proof fn lemma_reparse(s: Seq<char>, v: SpecJson, rest: Seq<char>)
    requires
        spec_parse(s) == SpecParse::Val(v, rest),
    ensures
        spec_parse(spec_stringify(v)) == SpecParse::Val(v, Seq::<char>::empty()),
{
    lemma_parse_wf(s);
    lemma_parse_stringify(v);
}


} // verus!
