//! The JSON value tree, its mathematical model, and its serialization.
use vstd::prelude::*;

use crate::round_trip::{
    lemma_round_trip, lemma_valid_numbers_elements_all, lemma_valid_numbers_members_all,
    lemma_well_formed_elements_all, lemma_well_formed_members_all, valid_numbers, well_formed,
};
use crate::text::chars_of;
use crate::{spec_from_str, SpecJsonError};

verus! {

/// The mathematical model of a JSON value. A number is kept as the exact
/// text it was written with; an object is the sequence of its entries in
/// insertion order.
pub enum SpecValue {
    Null,
    Boolean(bool),
    Number(Seq<char>),
    String(Seq<char>),
    Array(Seq<SpecValue>),
    Object(Seq<(Seq<char>, SpecValue)>),
}

/// Represents any valid JSON data type in a structured hierarchical tree.
#[derive(Debug, PartialEq)]
pub enum Value {
    Null,
    Boolean(bool),
    /// The number's text as it appeared in the input, e.g. `-45.5` or `6.022e+23`.
    Number(String),
    String(String),
    Array(Vec<Value>),
    Object(ObjectMap),
}

/// A JSON object: keys in insertion order, each key at most once.
#[verifier::external_body]
#[derive(Debug, PartialEq)]
pub struct ObjectMap {
    map: indexmap::IndexMap<String, Value>,
}

/// The entries of an `ObjectMap`, in the map's order, each taken by its view.
pub uninterp spec fn object_entries(m: ObjectMap) -> Seq<(Seq<char>, SpecValue)>;

impl ObjectMap {
    /// No key occurs twice in an object.
    #[verifier::type_invariant]
    spec fn keys_are_distinct(self) -> bool {
        keys_distinct(object_entries(self))
    }
}

pub open spec fn view_value(v: Value) -> SpecValue
    decreases v, 0int,
{
    match v {
        Value::Null => SpecValue::Null,
        Value::Boolean(b) => SpecValue::Boolean(b),
        Value::Number(t) => SpecValue::Number(t@),
        Value::String(s) => SpecValue::String(s@),
        Value::Array(items) => SpecValue::Array(view_values(items@)),
        Value::Object(m) => SpecValue::Object(object_entries(m)),
    }
}

pub open spec fn view_values(s: Seq<Value>) -> Seq<SpecValue>
    decreases s, s.len(),
{
    if s.len() == 0 {
        Seq::empty()
    } else {
        view_values(s.drop_last()).push(view_value(s.last()))
    }
}

impl View for Value {
    type V = SpecValue;

    open spec fn view(&self) -> SpecValue {
        view_value(*self)
    }
}

/// Whether some entry of `e` has key `k`.
pub open spec fn has_key(e: Seq<(Seq<char>, SpecValue)>, k: Seq<char>) -> bool {
    exists|i: int| 0 <= i < e.len() && e[i].0 == k
}

/// The index of the entry with key `k` (meaningful when `has_key(e, k)`).
pub open spec fn key_index(e: Seq<(Seq<char>, SpecValue)>, k: Seq<char>) -> int {
    choose|i: int| 0 <= i < e.len() && e[i].0 == k
}

/// The value stored under `k`, if any.
pub open spec fn entries_get(e: Seq<(Seq<char>, SpecValue)>, k: Seq<char>) -> Option<SpecValue> {
    if has_key(e, k) {
        Some(e[key_index(e, k)].1)
    } else {
        None
    }
}

/// Inserting `(k, v)`: an existing key keeps its place and takes the new
/// value; a new key goes last.
pub open spec fn entries_insert(
    e: Seq<(Seq<char>, SpecValue)>,
    k: Seq<char>,
    v: SpecValue,
) -> Seq<(Seq<char>, SpecValue)> {
    if has_key(e, k) {
        e.update(key_index(e, k), (k, v))
    } else {
        e.push((k, v))
    }
}

/// No key occurs twice.
pub open spec fn keys_distinct(e: Seq<(Seq<char>, SpecValue)>) -> bool {
    forall|i: int, j: int| 0 <= i < j < e.len() ==> e[i].0 != e[j].0
}

/// Calls `IndexMap::new`: the new map has no entries.
#[verifier::external_body]
fn map_new() -> (m: ObjectMap)
    ensures
        object_entries(m) == Seq::<(Seq<char>, SpecValue)>::empty(),
{
    ObjectMap { map: indexmap::IndexMap::new() }
}

/// Calls `IndexMap::insert`: an equivalent key already present keeps its
/// position and gets the new value; otherwise the pair is appended last.
#[verifier::external_body]
fn map_insert(m: &mut ObjectMap, k: String, v: Value)
    ensures
        object_entries(*final(m)) == entries_insert(object_entries(*old(m)), k@, v@),
{
    m.map.insert(k, v);
}

/// Calls `IndexMap::len`: the number of entries.
#[verifier::external_body]
fn map_len(m: &ObjectMap) -> (n: usize)
    ensures
        n == object_entries(*m).len(),
{
    m.map.len()
}

/// Calls `IndexMap::get_index`: the entry at position `i`, if `i` is in range.
#[verifier::external_body]
fn map_get_index(m: &ObjectMap, i: usize) -> (r: Option<(&String, &Value)>)
    ensures
        r is Some <==> i < object_entries(*m).len(),
        r matches Some((k, v)) ==> object_entries(*m)[i as int] == (k@, v@),
{
    m.map.get_index(i)
}

/// Calls `IndexMap::get`: the value stored under `key`, if any.
#[verifier::external_body]
fn map_get<'a>(m: &'a ObjectMap, key: &str) -> (r: Option<&'a Value>)
    ensures
        match r {
            Some(v) => entries_get(object_entries(*m), key@) == Some(v@),
            None => entries_get(object_entries(*m), key@) is None,
        },
{
    m.map.get(key)
}

/// Inserting keeps keys distinct.
pub proof fn lemma_insert_keeps_keys_distinct(
    e: Seq<(Seq<char>, SpecValue)>,
    k: Seq<char>,
    v: SpecValue,
)
    requires
        keys_distinct(e),
    ensures
        keys_distinct(entries_insert(e, k, v)),
{
    let r = entries_insert(e, k, v);
    if has_key(e, k) {
        assert forall|i: int| 0 <= i < r.len() implies #[trigger] r[i].0 == e[i].0 by {}
    } else {
        assert forall|i: int, j: int| 0 <= i < j < r.len() implies r[i].0 != r[j].0 by {
            assert(r[i] == e[i]);
            if j < e.len() {
                assert(r[j] == e[j]);
            }
        }
    }
}

impl ObjectMap {
    /// An empty object.
    pub fn new() -> (m: ObjectMap)
        ensures
            object_entries(m) == Seq::<(Seq<char>, SpecValue)>::empty(),
            keys_distinct(object_entries(m)),
    {
        map_new()
    }

    /// Inserts `(k, v)`; an existing key keeps its place and takes the new value.
    pub fn insert(&mut self, k: String, v: Value)
        ensures
            object_entries(*final(self)) == entries_insert(object_entries(*old(self)), k@, v@),
            keys_distinct(object_entries(*final(self))),
    {
        proof {
            use_type_invariant(&*self);
            lemma_insert_keeps_keys_distinct(object_entries(*self), k@, v@);
        }
        map_insert(self, k, v)
    }

    /// The number of entries.
    pub fn len(&self) -> (n: usize)
        ensures
            n == object_entries(*self).len(),
            keys_distinct(object_entries(*self)),
    {
        proof {
            use_type_invariant(self);
        }
        map_len(self)
    }

    /// The entry at position `i` in insertion order.
    pub fn get_index(&self, i: usize) -> (r: Option<(&String, &Value)>)
        ensures
            r is Some <==> i < object_entries(*self).len(),
            r matches Some((k, v)) ==> object_entries(*self)[i as int] == (k@, v@),
    {
        map_get_index(self, i)
    }

    /// The value stored under `key`.
    pub fn get(&self, key: &str) -> (r: Option<&Value>)
        ensures
            match r {
                Some(v) => entries_get(object_entries(*self), key@) == Some(v@),
                None => entries_get(object_entries(*self), key@) is None,
            },
    {
        map_get(self, key)
    }
}

pub proof fn lemma_view_values_push(s: Seq<Value>, v: Value)
    ensures
        view_values(s.push(v)) == view_values(s).push(v@),
{
    assert(s.push(v).drop_last() =~= s);
}

pub proof fn lemma_view_values_index(s: Seq<Value>)
    ensures
        view_values(s).len() == s.len(),
        forall|i: int| 0 <= i < s.len() ==> #[trigger] view_values(s)[i] == s[i]@,
    decreases s.len(),
{
    if s.len() > 0 {
        lemma_view_values_index(s.drop_last());
    }
}

// ---------------------------------------------------------------------------
// Serialization
// ---------------------------------------------------------------------------

/// How the character `c` is written inside a string literal.
pub open spec fn escape_char(c: char) -> Seq<char> {
    if c == '"' {
        seq!['\\', '"']
    } else if c == '\\' {
        seq!['\\', '\\']
    } else if c == '\n' {
        seq!['\\', 'n']
    } else if c == '\r' {
        seq!['\\', 'r']
    } else if c == '\t' {
        seq!['\\', 't']
    } else if c == '\x08' {
        seq!['\\', 'b']
    } else if c == '\x0c' {
        seq!['\\', 'f']
    } else {
        seq![c]
    }
}

/// The text `s` with quotes, backslashes and the control characters
/// `\n \r \t \x08 \x0c` escaped; every other character is kept.
pub open spec fn escape(s: Seq<char>) -> Seq<char>
    decreases s.len(),
{
    if s.len() == 0 {
        Seq::empty()
    } else {
        escape_char(s[0]) + escape(s.drop_first())
    }
}

pub proof fn lemma_escape_append(a: Seq<char>, b: Seq<char>)
    ensures
        escape(a + b) == escape(a) + escape(b),
    decreases a.len(),
{
    if a.len() == 0 {
        assert(a + b =~= b);
        assert(Seq::<char>::empty() + escape(b) =~= escape(b));
    } else {
        assert((a + b).drop_first() =~= a.drop_first() + b);
        lemma_escape_append(a.drop_first(), b);
        assert(escape_char(a[0]) + (escape(a.drop_first()) + escape(b)) =~= (escape_char(a[0])
            + escape(a.drop_first())) + escape(b));
    }
}

/// A string literal: the escaped text between double quotes.
pub open spec fn quote(s: Seq<char>) -> Seq<char> {
    seq!['"'] + escape(s) + seq!['"']
}

/// The compact JSON text of a value: no whitespace, members as
/// `"key":value`, items and members separated by commas, numbers as their text.
pub open spec fn serialize(v: SpecValue) -> Seq<char>
    decreases v, 0int,
{
    match v {
        SpecValue::Null => seq!['n', 'u', 'l', 'l'],
        SpecValue::Boolean(b) => if b {
            seq!['t', 'r', 'u', 'e']
        } else {
            seq!['f', 'a', 'l', 's', 'e']
        },
        SpecValue::Number(t) => t,
        SpecValue::String(s) => quote(s),
        SpecValue::Array(items) => seq!['['] + serialize_elements(items) + seq![']'],
        SpecValue::Object(es) => seq!['{'] + serialize_members(es) + seq!['}'],
    }
}

/// The items, each serialized, separated by commas.
pub open spec fn serialize_elements(items: Seq<SpecValue>) -> Seq<char>
    decreases items, items.len(),
{
    if items.len() == 0 {
        Seq::empty()
    } else if items.len() == 1 {
        serialize(items[0])
    } else {
        serialize(items[0]) + seq![','] + serialize_elements(items.drop_first())
    }
}

/// The members, each as `"key":value`, separated by commas.
pub open spec fn serialize_members(es: Seq<(Seq<char>, SpecValue)>) -> Seq<char>
    decreases es, es.len(),
{
    if es.len() == 0 {
        Seq::empty()
    } else if es.len() == 1 {
        quote(es[0].0) + seq![':'] + serialize(es[0].1)
    } else {
        quote(es[0].0) + seq![':'] + serialize(es[0].1) + seq![','] + serialize_members(
            es.drop_first(),
        )
    }
}

pub proof fn lemma_serialize_elements_push(items: Seq<SpecValue>, v: SpecValue)
    ensures
        serialize_elements(items.push(v)) == if items.len() == 0 {
            serialize(v)
        } else {
            serialize_elements(items) + seq![','] + serialize(v)
        },
    decreases items.len(),
{
    let s = items.push(v);
    assert(s[0] == if items.len() == 0 { v } else { items[0] });
    if items.len() == 0 {
    } else if items.len() == 1 {
        assert(s.drop_first() =~= seq![v]);
        assert(seq![v][0] == v);
        assert(serialize_elements(seq![v]) == serialize(v));
    } else {
        assert(s.drop_first() =~= items.drop_first().push(v));
        lemma_serialize_elements_push(items.drop_first(), v);
        assert(serialize(items[0]) + seq![','] + (serialize_elements(items.drop_first()) + seq![
            ',',
        ] + serialize(v)) =~= serialize(items[0]) + seq![','] + serialize_elements(
            items.drop_first(),
        ) + seq![','] + serialize(v));
    }
}

pub proof fn lemma_serialize_members_push(es: Seq<(Seq<char>, SpecValue)>, e: (Seq<char>, SpecValue))
    ensures
        serialize_members(es.push(e)) == if es.len() == 0 {
            quote(e.0) + seq![':'] + serialize(e.1)
        } else {
            serialize_members(es) + seq![','] + quote(e.0) + seq![':'] + serialize(e.1)
        },
    decreases es.len(),
{
    let s = es.push(e);
    assert(s[0] == if es.len() == 0 { e } else { es[0] });
    if es.len() == 0 {
    } else if es.len() == 1 {
        assert(s.drop_first() =~= seq![e]);
        assert(seq![e][0] == e);
        assert(serialize_members(seq![e]) == quote(e.0) + seq![':'] + serialize(e.1));
    } else {
        assert(s.drop_first() =~= es.drop_first().push(e));
        lemma_serialize_members_push(es.drop_first(), e);
        let h = quote(es[0].0) + seq![':'] + serialize(es[0].1);
        let m = quote(e.0) + seq![':'] + serialize(e.1);
        assert(h + seq![','] + (serialize_members(es.drop_first()) + seq![','] + m) =~= h
            + seq![','] + serialize_members(es.drop_first()) + seq![','] + m);
    }
}

/// Escapes `s` for use inside a JSON string literal: `"`, `\`, and the
/// control characters newline, carriage return, tab, backspace and form
/// feed become two-character escapes; every other character is kept.
pub fn escape_string(s: &str) -> (output: String)
    ensures
        output@ == escape(s@),
{
    let cs = chars_of(s);
    let mut output = String::new();
    let mut i: usize = 0;
    while i < cs.len()
        invariant
            i <= cs.len(),
            cs@ == s@,
            output@ == escape(cs@.take(i as int)),
        decreases cs.len() - i,
    {
        let c = cs[i];
        let ghost before = output@;
        if c == '"' {
            output.push('\\');
            output.push('"');
        } else if c == '\\' {
            output.push('\\');
            output.push('\\');
        } else if c == '\n' {
            output.push('\\');
            output.push('n');
        } else if c == '\r' {
            output.push('\\');
            output.push('r');
        } else if c == '\t' {
            output.push('\\');
            output.push('t');
        } else if c == '\x08' {
            output.push('\\');
            output.push('b');
        } else if c == '\x0c' {
            output.push('\\');
            output.push('f');
        } else {
            output.push(c);
        }
        proof {
            assert(output@ =~= before + escape_char(c));
            assert(cs@.take(i + 1) =~= cs@.take(i as int) + seq![c]);
            lemma_escape_append(cs@.take(i as int), seq![c]);
            assert(escape(seq![c]) =~= escape_char(c)) by {
                assert(seq![c][0] == c);
                assert(seq![c].drop_first() =~= Seq::<char>::empty());
                assert(escape(Seq::<char>::empty()) =~= Seq::<char>::empty());
                assert(escape_char(c) + Seq::<char>::empty() =~= escape_char(c));
            }
        }
        i = i + 1;
    }
    assert(cs@.take(cs@.len() as int) =~= cs@);
    output
}

/// Appends the string literal for `s` to `out`.
fn write_quoted(out: &mut String, s: &str)
    ensures
        final(out)@ == old(out)@ + quote(s@),
{
    let e = escape_string(s);
    out.push('"');
    out.append(e.as_str());
    out.push('"');
    assert(final(out)@ =~= old(out)@ + quote(s@));
}

impl Value {
    /// Appends the JSON text of this value to `out`. A value whose numbers
    /// are valid is well formed: its objects never repeat a key.
    fn write_json(&self, out: &mut String)
        ensures
            final(out)@ == old(out)@ + serialize(self@),
            valid_numbers(self@) ==> well_formed(self@),
        decreases self@,
    {
        match self {
            Value::Null => {
                out.push('n');
                out.push('u');
                out.push('l');
                out.push('l');
                assert(final(out)@ =~= old(out)@ + serialize(self@));
            },
            Value::Boolean(b) => {
                if *b {
                    out.push('t');
                    out.push('r');
                    out.push('u');
                    out.push('e');
                } else {
                    out.push('f');
                    out.push('a');
                    out.push('l');
                    out.push('s');
                    out.push('e');
                }
                assert(final(out)@ =~= old(out)@ + serialize(self@));
            },
            Value::Number(t) => {
                out.append(t.as_str());
            },
            Value::String(s) => {
                write_quoted(out, s.as_str());
            },
            Value::Array(items) => {
                let ghost vs = view_values(items@);
                proof {
                    lemma_view_values_index(items@);
                }
                out.push('[');
                let ghost start = out@;
                let mut i: usize = 0;
                while i < items.len()
                    invariant
                        i <= items@.len(),
                        self@ == SpecValue::Array(vs),
                        vs == view_values(items@),
                        vs.len() == items@.len(),
                        forall|k: int| 0 <= k < items@.len() ==> #[trigger] vs[k] == items@[k]@,
                        out@ == start + serialize_elements(vs.take(i as int)),
                        forall|k: int|
                            0 <= k < i ==> (valid_numbers(#[trigger] vs[k]) ==> well_formed(vs[k])),
                    decreases items@.len() - i,
                {
                    if i > 0 {
                        out.push(',');
                    }
                    let item = &items[i];
                    assert(decreases_to!(self@ => self@->Array_0));
                    assert(decreases_to!(vs => vs[i as int]));
                    assert(decreases_to!(self@ => vs[i as int]));
                    item.write_json(out);
                    proof {
                        assert(vs.take(i + 1) =~= vs.take(i as int).push(vs[i as int]));
                        lemma_serialize_elements_push(vs.take(i as int), vs[i as int]);
                        assert(out@ =~= start + serialize_elements(vs.take(i + 1)));
                    }
                    i = i + 1;
                }
                assert(vs.take(vs.len() as int) =~= vs);
                proof {
                    lemma_valid_numbers_elements_all(vs);
                    lemma_well_formed_elements_all(vs);
                }
                out.push(']');
                assert(final(out)@ =~= old(out)@ + serialize(self@));
            },
            Value::Object(m) => {
                let ghost es = object_entries(*m);
                proof {
                    use_type_invariant(m);
                }
                out.push('{');
                let ghost start = out@;
                let n = m.len();
                let mut i: usize = 0;
                while i < n
                    invariant
                        i <= n,
                        n == es.len(),
                        es == object_entries(*m),
                        self@ == SpecValue::Object(es),
                        out@ == start + serialize_members(es.take(i as int)),
                        forall|k: int|
                            0 <= k < i ==> (valid_numbers(#[trigger] es[k].1) ==> well_formed(
                                es[k].1,
                            )),
                    decreases n - i,
                {
                    if i > 0 {
                        out.push(',');
                    }
                    match m.get_index(i) {
                        Some((k, v)) => {
                            write_quoted(out, k.as_str());
                            out.push(':');
                            assert(decreases_to!(self@ => self@->Object_0));
                            assert(decreases_to!(es => es[i as int]));
                            assert(decreases_to!(es[i as int] => es[i as int].1));
                            assert(decreases_to!(self@ => es[i as int].1));
                            v.write_json(out);
                            proof {
                                assert(es.take(i + 1) =~= es.take(i as int).push(es[i as int]));
                                lemma_serialize_members_push(es.take(i as int), es[i as int]);
                                assert(out@ =~= start + serialize_members(es.take(i + 1)));
                            }
                        },
                        None => {},
                    }
                    i = i + 1;
                }
                assert(es.take(es.len() as int) =~= es);
                proof {
                    lemma_valid_numbers_members_all(es);
                    lemma_well_formed_members_all(es);
                }
                out.push('}');
                assert(final(out)@ =~= old(out)@ + serialize(self@));
            },
        }
    }

    /// The compact JSON text of this value. Numbers are written as the text
    /// they hold, as parsed.
    ///
    /// Where every number's text is one the tokenizer reads back as a single
    /// number, the text parses back to this very value.
    pub fn to_string(&self) -> (s: String)
        ensures
            s@ == serialize(self@),
            valid_numbers(self@) ==> spec_from_str(s@) == Ok::<SpecValue, SpecJsonError>(self@),
    {
        let mut out = String::new();
        self.write_json(&mut out);
        assert(out@ =~= serialize(self@));
        proof {
            if valid_numbers(self@) {
                lemma_round_trip(self@);
            }
        }
        out
    }
}

// ---------------------------------------------------------------------------
// Copies
// ---------------------------------------------------------------------------

/// A copy of the object: the same entries in the same order.
fn clone_object(m: &ObjectMap) -> (r: ObjectMap)
    ensures
        object_entries(r) == object_entries(*m),
    decreases object_entries(*m), 0int,
{
    let ghost es = object_entries(*m);
    proof {
        use_type_invariant(m);
    }
    let n = m.len();
    let mut out = ObjectMap::new();
    let mut i: usize = 0;
    assert(es.take(0) =~= Seq::<(Seq<char>, SpecValue)>::empty());
    while i < n
        invariant
            i <= n,
            n == es.len(),
            es == object_entries(*m),
            keys_distinct(es),
            object_entries(out) == es.take(i as int),
        decreases n - i,
    {
        match m.get_index(i) {
            Some((k, v)) => {
                assert(decreases_to!(es => es[i as int]));
                assert(decreases_to!(es[i as int] => es[i as int].1));
                assert(decreases_to!(es => es[i as int].1));
                let v2 = v.clone();
                let ghost before = object_entries(out);
                out.insert(k.clone(), v2);
                proof {
                    assert(!has_key(before, es[i as int].0)) by {
                        if has_key(before, es[i as int].0) {
                            let j = choose|j: int| 0 <= j < before.len() && before[j].0 == es[i as int].0;
                            assert(before[j] == es[j]);
                        }
                    }
                    assert(es.take(i + 1) =~= before.push(es[i as int]));
                }
            },
            None => {},
        }
        i = i + 1;
    }
    assert(es.take(n as int) =~= es);
    out
}

impl Clone for ObjectMap {
    /// A copy of the object: the same entries in the same order.
    fn clone(&self) -> (r: ObjectMap)
        ensures
            object_entries(r) == object_entries(*self),
    {
        clone_object(self)
    }
}

impl Clone for Value {
    /// A copy of the value.
    fn clone(&self) -> (r: Value)
        ensures
            r@ == self@,
        decreases self@, 1int,
    {
        match self {
            Value::Null => Value::Null,
            Value::Boolean(b) => Value::Boolean(*b),
            Value::Number(t) => Value::Number(t.clone()),
            Value::String(s) => Value::String(s.clone()),
            Value::Array(items) => {
                let ghost vs = view_values(items@);
                proof {
                    lemma_view_values_index(items@);
                }
                let mut out: Vec<Value> = Vec::new();
                let mut i: usize = 0;
                assert(view_values(out@) =~= vs.take(0));
                while i < items.len()
                    invariant
                        i <= items@.len(),
                        self@ == SpecValue::Array(vs),
                        vs == view_values(items@),
                        vs.len() == items@.len(),
                        forall|k: int| 0 <= k < items@.len() ==> #[trigger] vs[k] == items@[k]@,
                        view_values(out@) == vs.take(i as int),
                    decreases items@.len() - i,
                {
                    assert(decreases_to!(self@ => self@->Array_0));
                    assert(decreases_to!(vs => vs[i as int]));
                    assert(decreases_to!(self@ => vs[i as int]));
                    let c = items[i].clone();
                    proof {
                        lemma_view_values_push(out@, c);
                        assert(vs.take(i + 1) =~= vs.take(i as int).push(vs[i as int]));
                    }
                    out.push(c);
                    i = i + 1;
                }
                assert(vs.take(vs.len() as int) =~= vs);
                Value::Array(out)
            },
            Value::Object(m) => {
                assert(decreases_to!(self@ => self@->Object_0));
                Value::Object(clone_object(m))
            },
        }
    }
}

} // verus!
