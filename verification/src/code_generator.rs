//! The serializer: a depth-first walk of a value tree emitting its
//! minimal-whitespace textual form.
//!
//! The function [`spec_stringify`] is the mathematical description of the
//! text produced; [`CodeGenerator::gather`] is proved to emit exactly it.
//! Serialization is total: it never fails, whatever the value holds.

use vstd::prelude::*;

use crate::text::push_char;
use crate::tokenizer::{false_text, null_text, true_text};
use crate::value::{arr_view, lemma_arr_view, lemma_obj_view, obj_view, Json, SpecJson};
use vstd::string::{StrSliceExecFns, StringExecFns};

verus! {

broadcast use
    vstd::std_specs::vec::axiom_vec_index_decreases,
    vstd::seq::axiom_seq_index_decreases,
    vstd::seq::axiom_seq_subrange_decreases;

/// The escaped form of one character of string content: a backslash is
/// put before a quote or a backslash; every other character stands alone.
pub open spec fn esc_char(c: char) -> Seq<char> {
    if c == '"' || c == '\\' {
        seq!['\\', c]
    } else {
        seq![c]
    }
}

/// The escaped form of string content, character by character.
pub open spec fn esc(s: Seq<char>) -> Seq<char>
    decreases s.len(),
{
    if s.len() == 0 {
        Seq::empty()
    } else {
        esc_char(s[0]) + esc(s.drop_first())
    }
}

/// Escaping one more character appends its escaped form.
pub proof fn lemma_esc_snoc(t: Seq<char>, c: char)
    ensures
        esc(t.push(c)) == esc(t) + esc_char(c),
    decreases t.len(),
{
    if t.len() == 0 {
        reveal_with_fuel(esc, 2);
        assert(t.push(c).drop_first() =~= Seq::<char>::empty());
        assert(t.push(c)[0] == c);
        assert(esc(t.push(c)) =~= esc(t) + esc_char(c));
    } else {
        assert(t.push(c).drop_first() =~= t.drop_first().push(c));
        assert(t.push(c)[0] == t[0]);
        lemma_esc_snoc(t.drop_first(), c);
        assert(esc(t.push(c)) =~= esc(t) + esc_char(c));
    }
}

/// The text of one serialized value.
pub open spec fn spec_stringify(v: SpecJson) -> Seq<char>
    decreases v, 1int,
{
    match v {
        SpecJson::Null => null_text(),
        SpecJson::Boolean(b) => if b {
            true_text()
        } else {
            false_text()
        },
        SpecJson::Number(t) => t,
        SpecJson::Text(s) => seq!['"'] + esc(s) + seq!['"'],
        SpecJson::Array(es) => seq!['['] + ser_elems(es) + seq![']'],
        SpecJson::Object(ms) => seq!['{'] + ser_members(ms) + seq!['}'],
    }
}

/// The text between an array's brackets: its elements, comma-separated.
pub open spec fn ser_elems(es: Seq<SpecJson>) -> Seq<char>
    decreases es, 0int,
{
    if es.len() == 0 {
        Seq::empty()
    } else {
        spec_stringify(es[0]) + ser_tail(es.drop_first())
    }
}

/// The text of an array's elements after the first, each behind a comma.
pub open spec fn ser_tail(es: Seq<SpecJson>) -> Seq<char>
    decreases es, 1int,
{
    if es.len() == 0 {
        Seq::empty()
    } else {
        seq![','] + spec_stringify(es[0]) + ser_tail(es.drop_first())
    }
}

/// The text of one object entry: quoted escaped key, colon, value.
pub open spec fn ser_member(m: (Seq<char>, SpecJson)) -> Seq<char>
    decreases m, 2int,
{
    seq!['"'] + esc(m.0) + seq!['"', ':'] + spec_stringify(m.1)
}

/// The text between an object's braces: its entries, comma-separated.
pub open spec fn ser_members(ms: Seq<(Seq<char>, SpecJson)>) -> Seq<char>
    decreases ms, 0int,
{
    if ms.len() == 0 {
        Seq::empty()
    } else {
        ser_member(ms[0]) + ser_members_tail(ms.drop_first())
    }
}

/// The text of an object's entries after the first, each behind a comma.
pub open spec fn ser_members_tail(ms: Seq<(Seq<char>, SpecJson)>) -> Seq<char>
    decreases ms, 1int,
{
    if ms.len() == 0 {
        Seq::empty()
    } else {
        seq![','] + ser_member(ms[0]) + ser_members_tail(ms.drop_first())
    }
}

/// One more element extends the comma-separated element text at its end.
pub proof fn lemma_ser_tail_snoc(es: Seq<SpecJson>, v: SpecJson)
    ensures
        ser_tail(es.push(v)) == ser_tail(es) + seq![','] + spec_stringify(v),
    decreases es.len(),
{
    if es.len() == 0 {
        reveal_with_fuel(ser_tail, 2);
        assert(es.push(v).drop_first() =~= Seq::<SpecJson>::empty());
        assert(es.push(v)[0] == v);
        assert(ser_tail(es.push(v)) =~= ser_tail(es) + seq![','] + spec_stringify(v));
    } else {
        assert(es.push(v).drop_first() =~= es.drop_first().push(v));
        lemma_ser_tail_snoc(es.drop_first(), v);
        assert(es.push(v)[0] == es[0]);
        assert(ser_tail(es.push(v)) =~= ser_tail(es) + seq![','] + spec_stringify(v));
    }
}

/// One more element extends the element text at its end, behind a comma
/// unless it is the first.
pub proof fn lemma_ser_elems_snoc(es: Seq<SpecJson>, v: SpecJson)
    ensures
        es.len() == 0 ==> ser_elems(es.push(v)) == spec_stringify(v),
        es.len() > 0 ==> ser_elems(es.push(v)) == ser_elems(es) + seq![','] + spec_stringify(v),
{
    if es.len() == 0 {
        assert(es.push(v).drop_first() =~= Seq::<SpecJson>::empty());
        assert(es.push(v)[0] == v);
        assert(ser_elems(es.push(v)) =~= spec_stringify(v));
    } else {
        assert(es.push(v).drop_first() =~= es.drop_first().push(v));
        lemma_ser_tail_snoc(es.drop_first(), v);
        assert(es.push(v)[0] == es[0]);
        assert(ser_elems(es.push(v)) =~= ser_elems(es) + seq![','] + spec_stringify(v));
    }
}

/// One more entry extends the comma-separated entry text at its end.
pub proof fn lemma_ser_members_tail_snoc(ms: Seq<(Seq<char>, SpecJson)>, m: (Seq<char>, SpecJson))
    ensures
        ser_members_tail(ms.push(m)) == ser_members_tail(ms) + seq![','] + ser_member(m),
    decreases ms.len(),
{
    if ms.len() == 0 {
        reveal_with_fuel(ser_members_tail, 2);
        assert(ms.push(m).drop_first() =~= Seq::<(Seq<char>, SpecJson)>::empty());
        assert(ms.push(m)[0] == m);
        assert(ser_members_tail(ms.push(m)) =~= ser_members_tail(ms) + seq![','] + ser_member(m));
    } else {
        assert(ms.push(m).drop_first() =~= ms.drop_first().push(m));
        lemma_ser_members_tail_snoc(ms.drop_first(), m);
        assert(ms.push(m)[0] == ms[0]);
        assert(ser_members_tail(ms.push(m)) =~= ser_members_tail(ms) + seq![','] + ser_member(m));
    }
}

/// One more entry extends the entry text at its end, behind a comma
/// unless it is the first.
pub proof fn lemma_ser_members_snoc(ms: Seq<(Seq<char>, SpecJson)>, m: (Seq<char>, SpecJson))
    ensures
        ms.len() == 0 ==> ser_members(ms.push(m)) == ser_member(m),
        ms.len() > 0 ==> ser_members(ms.push(m)) == ser_members(ms) + seq![','] + ser_member(m),
{
    if ms.len() == 0 {
        assert(ms.push(m).drop_first() =~= Seq::<(Seq<char>, SpecJson)>::empty());
        assert(ms.push(m)[0] == m);
        assert(ser_members(ms.push(m)) =~= ser_member(m));
    } else {
        assert(ms.push(m).drop_first() =~= ms.drop_first().push(m));
        lemma_ser_members_tail_snoc(ms.drop_first(), m);
        assert(ms.push(m)[0] == ms[0]);
        assert(ser_members(ms.push(m)) =~= ser_members(ms) + seq![','] + ser_member(m));
    }
}

/// The tree walk that accumulates the serialized text.
pub struct CodeGenerator {
    value: String,
}

impl View for CodeGenerator {
    type V = Seq<char>;

    /// The text accumulated so far.
    closed spec fn view(&self) -> Seq<char> {
        self.value@
    }
}

impl CodeGenerator {
    /// A generator holding no text yet.
    pub fn new() -> (r: CodeGenerator)
        ensures
            r@ == Seq::<char>::empty(),
    {
        CodeGenerator { value: String::new() }
    }

    /// Append a ready-made slice to the accumulated text.
    pub fn write(&mut self, slice: &str)
        ensures
            final(self)@ == old(self)@ + slice@,
    {
        self.value.append(slice);
    }

    /// Append one character to the accumulated text.
    pub fn write_char(&mut self, ch: char)
        ensures
            final(self)@ == old(self)@.push(ch),
    {
        push_char(&mut self.value, ch);
    }

    /// Append the serialized text of the given value.
    pub fn gather(&mut self, json: &Json)
        ensures
            final(self)@ == old(self)@ + spec_stringify(json@),
    {
        self.write_json(json)
    }

    /// Hand out the accumulated text.
    pub fn product(self) -> (r: String)
        ensures
            r@ == self@,
    {
        self.value
    }

    /// Append a quoted, escaped form of the given string content.
    fn write_escaped(&mut self, s: &str)
        ensures
            final(self)@ == old(self)@ + seq!['"'] + esc(s@) + seq!['"'],
    {
        self.write_char('"');
        let n = s.unicode_len();
        let mut i: usize = 0;
        #[verifier::loop_isolation(false)]
        while i < n
            invariant
                i <= n,
                self@ == old(self)@ + seq!['"'] + esc(s@.take(i as int)),
            decreases n - i,
        {
            let c = s.get_char(i);
            proof {
                lemma_esc_snoc(s@.take(i as int), c);
                assert(s@.take(i as int).push(c) =~= s@.take(i + 1 as int));
            }
            if c == '"' || c == '\\' {
                self.write_char('\\');
            }
            self.write_char(c);
            proof {
                assert(self@ =~= old(self)@ + seq!['"'] + esc(s@.take(i + 1 as int)));
            }
            i += 1;
        }
        proof {
            assert(s@.take(n as int) =~= s@);
        }
        self.write_char('"');
        proof {
            assert(self@ =~= old(self)@ + seq!['"'] + esc(s@) + seq!['"']);
        }
    }

    /// Append the serialized text of one value: the tree walk's dispatch.
    fn write_json(&mut self, json: &Json)
        ensures
            final(self)@ == old(self)@ + spec_stringify(json@),
        decreases json,
    {
        match json {
            Json::Null => {
                proof {
                    reveal_strlit("null");
                    assert("null"@ =~= null_text());
                }
                self.write("null");
            },
            Json::Boolean(b) => {
                proof {
                    reveal_strlit("true");
                    reveal_strlit("false");
                    assert("true"@ =~= true_text());
                    assert("false"@ =~= false_text());
                }
                if *b {
                    self.write("true");
                } else {
                    self.write("false");
                }
            },
            Json::Number(t) => {
                self.write(t.as_str());
            },
            Json::String(s) => {
                self.write_escaped(s.as_str());
            },
            Json::Array(a) => {
                self.write_array(a);
            },
            Json::Object(o) => {
                self.write_object(o);
            },
        }
    }

    /// Append a serialized array: elements comma-separated in order,
    /// between brackets.
    fn write_array(&mut self, array: &Vec<Json>)
        ensures
            final(self)@ == old(self)@ + seq!['['] + ser_elems(arr_view(array@)) + seq![']'],
        decreases array,
    {
        self.write_char('[');
        let n = array.len();
        let mut i: usize = 0;
        #[verifier::loop_isolation(false)]
        while i < n
            invariant
                i <= n,
                self@ == old(self)@ + seq!['['] + ser_elems(arr_view(array@.take(i as int))),
            decreases n - i,
        {
            proof {
                lemma_arr_view(array@.take(i as int));
                lemma_arr_view(array@.take(i + 1 as int));
                assert(arr_view(array@.take(i + 1 as int)) =~= arr_view(
                    array@.take(i as int),
                ).push(array@[i as int]@));
                lemma_ser_elems_snoc(arr_view(array@.take(i as int)), array@[i as int]@);
            }
            if i > 0 {
                self.write_char(',');
            }
            self.write_json(&array[i]);
            i += 1;
        }
        proof {
            assert(array@.take(n as int) =~= array@);
        }
        self.write_char(']');
        proof {
            assert(self@ =~= old(self)@ + seq!['['] + ser_elems(arr_view(array@)) + seq![']']);
        }
    }

    /// Append a serialized object: entries comma-separated in the order
    /// held, between braces.
    fn write_object(&mut self, object: &Vec<(String, Json)>)
        ensures
            final(self)@ == old(self)@ + seq!['{'] + ser_members(obj_view(object@)) + seq!['}'],
        decreases object,
    {
        self.write_char('{');
        let n = object.len();
        let mut i: usize = 0;
        #[verifier::loop_isolation(false)]
        while i < n
            invariant
                i <= n,
                self@ == old(self)@ + seq!['{'] + ser_members(obj_view(object@.take(i as int))),
            decreases n - i,
        {
            proof {
                lemma_obj_view(object@.take(i as int));
                lemma_obj_view(object@.take(i + 1 as int));
                assert(obj_view(object@.take(i + 1 as int)) =~= obj_view(
                    object@.take(i as int),
                ).push((object@[i as int].0@, object@[i as int].1@)));
                lemma_ser_members_snoc(
                    obj_view(object@.take(i as int)),
                    (object@[i as int].0@, object@[i as int].1@),
                );
            }
            if i > 0 {
                self.write_char(',');
            }
            self.write_escaped(object[i].0.as_str());
            self.write_char(':');
            self.write_json(&object[i].1);
            proof {
                assert(self@ =~= old(self)@ + seq!['{'] + ser_members(
                    obj_view(object@.take(i + 1 as int)),
                ));
            }
            i += 1;
        }
        proof {
            assert(object@.take(n as int) =~= object@);
        }
        self.write_char('}');
        proof {
            assert(self@ =~= old(self)@ + seq!['{'] + ser_members(obj_view(object@)) + seq!['}']);
        }
    }
}

} // verus!
