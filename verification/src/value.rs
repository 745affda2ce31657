//! The value model: the tagged union that parsing produces and
//! serialization consumes, together with its mathematical view.

use vstd::prelude::*;

verus! {

broadcast use
    vstd::std_specs::vec::axiom_vec_index_decreases,
    vstd::seq::axiom_seq_index_decreases,
    vstd::seq::axiom_seq_subrange_decreases;

/// A parsed document: a closed tagged union with exactly six variants.
///
/// A numeric literal is kept as its text (sign, digits and at most one
/// decimal point); converting it to a machine float is left to callers.
/// An object is a sequence of key/value entries whose keys are unique
/// whenever the tree was built by the parser; entry order carries no
/// meaning.
#[derive(Debug, PartialEq)]
pub enum Json {
    Null,
    String(String),
    Number(String),
    Boolean(bool),
    Array(Vec<Json>),
    Object(Vec<(String, Json)>),
}

/// The mathematical form of a document tree, used by every contract.
pub enum SpecJson {
    Null,
    Text(Seq<char>),
    Number(Seq<char>),
    Boolean(bool),
    Array(Seq<SpecJson>),
    Object(Seq<(Seq<char>, SpecJson)>),
}

/// The view of a sequence of array elements, element by element.
pub open spec fn arr_view(s: Seq<Json>) -> Seq<SpecJson>
    decreases s,
{
    if s.len() == 0 {
        Seq::empty()
    } else {
        arr_view(s.drop_last()).push(json_view(s.last()))
    }
}

/// The view of a sequence of object entries, entry by entry.
pub open spec fn obj_view(s: Seq<(String, Json)>) -> Seq<(Seq<char>, SpecJson)>
    decreases s,
{
    if s.len() == 0 {
        Seq::empty()
    } else {
        obj_view(s.drop_last()).push((s.last().0@, json_view(s.last().1)))
    }
}

/// An array's view has one element for each element of the array, in order.
pub proof fn lemma_arr_view(s: Seq<Json>)
    ensures
        arr_view(s).len() == s.len(),
        forall|i: int| 0 <= i < s.len() ==> arr_view(s)[i] == json_view(s[i]),
    decreases s.len(),
{
    if s.len() > 0 {
        lemma_arr_view(s.drop_last());
    }
}

/// An object's view has one entry for each entry of the object, in order.
pub proof fn lemma_obj_view(s: Seq<(String, Json)>)
    ensures
        obj_view(s).len() == s.len(),
        forall|i: int| 0 <= i < s.len() ==> obj_view(s)[i] == (s[i].0@, json_view(s[i].1)),
    decreases s.len(),
{
    if s.len() > 0 {
        lemma_obj_view(s.drop_last());
    }
}

/// The abstraction from an executable tree to its mathematical form.
pub open spec fn json_view(j: Json) -> SpecJson
    decreases j,
{
    match j {
        Json::Null => SpecJson::Null,
        Json::String(s) => SpecJson::Text(s@),
        Json::Number(t) => SpecJson::Number(t@),
        Json::Boolean(b) => SpecJson::Boolean(b),
        Json::Array(a) => SpecJson::Array(arr_view(a@)),
        Json::Object(o) => SpecJson::Object(obj_view(o@)),
    }
}

/// A valid value: every numeric literal text is well formed and every
/// object's keys are pairwise distinct.  Every tree the parser builds is
/// valid, and the round-trip law holds of valid trees.
pub open spec fn wf_json(v: SpecJson) -> bool
    decreases v,
{
    match v {
        SpecJson::Null => true,
        SpecJson::Text(_) => true,
        SpecJson::Number(t) => crate::tokenizer::wf_number(t),
        SpecJson::Boolean(_) => true,
        SpecJson::Array(es) => forall|i: int| 0 <= i < es.len() ==> wf_json(#[trigger] es[i]),
        SpecJson::Object(ms) => {
            &&& forall|i: int, j: int| 0 <= i < j < ms.len() ==> ms[i].0 != ms[j].0
            &&& forall|i: int| 0 <= i < ms.len() ==> wf_json(#[trigger] ms[i].1)
        },
    }
}

/// Appending an element appends its view.
pub proof fn lemma_arr_view_push(s: Seq<Json>, j: Json)
    ensures
        arr_view(s.push(j)) == arr_view(s).push(json_view(j)),
{
    assert(s.push(j).drop_last() =~= s);
}

/// Appending an entry appends its view.
pub proof fn lemma_obj_view_push(s: Seq<(String, Json)>, k: String, j: Json)
    ensures
        obj_view(s.push((k, j))) == obj_view(s).push((k@, json_view(j))),
{
    assert(s.push((k, j)).drop_last() =~= s);
}

/// Insertion with overwrite, the object-building step: a later entry for
/// an existing key replaces that key's value in place; a new key is
/// appended at the end.
pub open spec fn obj_insert(
    s: Seq<(Seq<char>, SpecJson)>,
    k: Seq<char>,
    v: SpecJson,
) -> Seq<(Seq<char>, SpecJson)>
    decreases s.len(),
{
    if s.len() == 0 {
        seq![(k, v)]
    } else if s[0].0 == k {
        seq![(k, v)] + s.drop_first()
    } else {
        seq![s[0]] + obj_insert(s.drop_first(), k, v)
    }
}

/// Inserting a key that is present overwrites its first entry in place.
pub proof fn lemma_obj_insert_hit(
    s: Seq<(Seq<char>, SpecJson)>,
    k: Seq<char>,
    v: SpecJson,
    i: int,
)
    requires
        0 <= i < s.len(),
        s[i].0 == k,
        forall|j: int| 0 <= j < i ==> s[j].0 != k,
    ensures
        obj_insert(s, k, v) == s.update(i, (k, v)),
    decreases i,
{
    if i == 0 {
        assert(seq![(k, v)] + s.drop_first() =~= s.update(0, (k, v)));
    } else {
        assert(s.drop_first()[i - 1].0 == k);
        assert(forall|j: int| 0 <= j < i - 1 ==> s.drop_first()[j].0 != k);
        lemma_obj_insert_hit(s.drop_first(), k, v, i - 1);
        assert(seq![s[0]] + s.drop_first().update(i - 1, (k, v)) =~= s.update(i, (k, v)));
    }
}

/// Inserting a key that is absent appends the entry.
pub proof fn lemma_obj_insert_miss(s: Seq<(Seq<char>, SpecJson)>, k: Seq<char>, v: SpecJson)
    requires
        forall|j: int| 0 <= j < s.len() ==> s[j].0 != k,
    ensures
        obj_insert(s, k, v) == s.push((k, v)),
    decreases s.len(),
{
    if s.len() == 0 {
        assert(seq![(k, v)] =~= s.push((k, v)));
    } else {
        assert(forall|j: int| 0 <= j < s.drop_first().len() ==> s.drop_first()[j].0 != k);
        lemma_obj_insert_miss(s.drop_first(), k, v);
        assert(seq![s[0]] + s.drop_first().push((k, v)) =~= s.push((k, v)));
    }
}

impl View for Json {
    type V = SpecJson;

    open spec fn view(&self) -> SpecJson {
        json_view(*self)
    }
}

impl Json {
    /// True exactly of the `Null` variant.
    pub fn is_null(&self) -> (r: bool)
        ensures
            r == (self@ is Null),
    {
        match *self {
            Json::Null => true,
            _ => false,
        }
    }

    /// True exactly of the `String` variant.
    pub fn is_string(&self) -> (r: bool)
        ensures
            r == (self@ is Text),
    {
        match *self {
            Json::String(_) => true,
            _ => false,
        }
    }

    /// True exactly of the `Number` variant.
    pub fn is_number(&self) -> (r: bool)
        ensures
            r == (self@ is Number),
    {
        match *self {
            Json::Number(_) => true,
            _ => false,
        }
    }

    /// True exactly of the `Boolean` variant.
    pub fn is_boolean(&self) -> (r: bool)
        ensures
            r == (self@ is Boolean),
    {
        match *self {
            Json::Boolean(_) => true,
            _ => false,
        }
    }

    /// True exactly of the `Array` variant.
    pub fn is_array(&self) -> (r: bool)
        ensures
            r == (self@ is Array),
    {
        match *self {
            Json::Array(_) => true,
            _ => false,
        }
    }

    /// True exactly of the `Object` variant.
    pub fn is_object(&self) -> (r: bool)
        ensures
            r == (self@ is Object),
    {
        match *self {
            Json::Object(_) => true,
            _ => false,
        }
    }
}

} // verus!
