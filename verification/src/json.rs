//! The JSON model: a value type whose contracts speak about a ghost
//! counterpart built from sequences, an exactly specified compact
//! serializer, and a trusted parser.
//!
//! Numbers keep the literal text they were parsed from, so no floating
//! point runs through the library.

use vstd::prelude::*;

use crate::text::{chars_of, push_str, string_of};

verus! {

broadcast use vstd::seq::group_seq_axioms;

/// The mathematical shape of a JSON value.
pub enum JsonVal {
    Null,
    Bool(bool),
    Num(Seq<char>),
    Str(Seq<char>),
    Arr(Seq<JsonVal>),
    Obj(Seq<(Seq<char>, JsonVal)>),
}

/// A JSON value.
pub enum JsonValue {
    Null,
    Bool(bool),
    Num(String),
    Str(String),
    Array(Vec<JsonValue>),
    Object(Vec<(String, JsonValue)>),
}

impl View for JsonValue {
    type V = JsonVal;

    open spec fn view(&self) -> JsonVal
        decreases self,
    {
        match self {
            JsonValue::Null => JsonVal::Null,
            JsonValue::Bool(b) => JsonVal::Bool(*b),
            JsonValue::Num(s) => JsonVal::Num(s@),
            JsonValue::Str(s) => JsonVal::Str(s@),
            JsonValue::Array(a) => JsonVal::Arr(view_arr(a@)),
            JsonValue::Object(o) => JsonVal::Obj(view_obj(o@)),
        }
    }
}

/// The views of a sequence of JSON values.
pub open spec fn view_arr(s: Seq<JsonValue>) -> Seq<JsonVal>
    decreases s,
{
    if s.len() == 0 {
        Seq::empty()
    } else {
        view_arr(s.drop_last()).push(s.last()@)
    }
}

/// The views of a sequence of JSON object members.
pub open spec fn view_obj(s: Seq<(String, JsonValue)>) -> Seq<(Seq<char>, JsonVal)>
    decreases s,
{
    if s.len() == 0 {
        Seq::empty()
    } else {
        view_obj(s.drop_last()).push((s.last().0@, s.last().1@))
    }
}

pub broadcast proof fn lemma_view_arr(s: Seq<JsonValue>)
    ensures
        (#[trigger] view_arr(s)).len() == s.len(),
        forall|i: int| 0 <= i < s.len() ==> view_arr(s)[i] == s[i]@,
    decreases s,
{
    if s.len() != 0 {
        lemma_view_arr(s.drop_last());
        assert(view_arr(s) == view_arr(s.drop_last()).push(s.last()@));
        assert forall|i: int| 0 <= i < s.len() implies view_arr(s)[i] == s[i]@ by {
            if i < s.len() - 1 {
                assert(view_arr(s)[i] == view_arr(s.drop_last())[i]);
                assert(s.drop_last()[i] == s[i]);
            } else {
                assert(view_arr(s)[i] == s.last()@);
            }
        }
    }
}

pub broadcast proof fn lemma_view_obj(s: Seq<(String, JsonValue)>)
    ensures
        (#[trigger] view_obj(s)).len() == s.len(),
        forall|i: int| 0 <= i < s.len() ==> view_obj(s)[i] == (s[i].0@, s[i].1@),
    decreases s,
{
    if s.len() != 0 {
        lemma_view_obj(s.drop_last());
        assert(view_obj(s) == view_obj(s.drop_last()).push((s.last().0@, s.last().1@)));
        assert forall|i: int| 0 <= i < s.len() implies view_obj(s)[i] == (s[i].0@, s[i].1@) by {
            if i < s.len() - 1 {
                assert(view_obj(s)[i] == view_obj(s.drop_last())[i]);
                assert(s.drop_last()[i] == s[i]);
            } else {
                assert(view_obj(s)[i] == (s.last().0@, s.last().1@));
            }
        }
    }
}

// ------------------------------------------------------------------
// Object member lookup and update
// ------------------------------------------------------------------

/// The value under the first member named `k`, if any.
pub open spec fn obj_lookup(o: Seq<(Seq<char>, JsonVal)>, k: Seq<char>) -> Option<JsonVal>
    decreases o.len(),
{
    if o.len() == 0 {
        None
    } else if o[0].0 == k {
        Some(o[0].1)
    } else {
        obj_lookup(o.drop_first(), k)
    }
}

/// Whether the object has a member named `k`.
pub open spec fn obj_has_key(o: Seq<(Seq<char>, JsonVal)>, k: Seq<char>) -> bool {
    obj_lookup(o, k) is Some
}

/// The object with the first member named `k` replaced by `v`, or with
/// `(k, v)` appended when no member has that name.
pub open spec fn obj_put(
    o: Seq<(Seq<char>, JsonVal)>,
    k: Seq<char>,
    v: JsonVal,
) -> Seq<(Seq<char>, JsonVal)>
    decreases o.len(),
{
    if o.len() == 0 {
        seq![(k, v)]
    } else if o[0].0 == k {
        seq![(k, v)] + o.drop_first()
    } else {
        seq![o[0]] + obj_put(o.drop_first(), k, v)
    }
}

/// The first index whose member is named `k`.
fn obj_index_of(o: &Vec<(String, JsonValue)>, k: &str) -> (r: Option<usize>)
    ensures
        match r {
            Some(i) => i < o@.len() && o@[i as int].0@ == k@ && forall|j: int|
                0 <= j < i ==> o@[j].0@ != k@,
            None => forall|j: int| 0 <= j < o@.len() ==> o@[j].0@ != k@,
        },
{
    let mut i: usize = 0;
    while i < o.len()
        invariant
            i <= o@.len(),
            forall|j: int| 0 <= j < i ==> o@[j].0@ != k@,
        decreases o@.len() - i,
    {
        if crate::text::str_eq(o[i].0.as_str(), k) {
            return Some(i);
        }
        i = i + 1;
    }
    None
}

/// A member named `k` at first index `i` fixes what `obj_lookup` returns.
proof fn lemma_obj_lookup_index(o: Seq<(Seq<char>, JsonVal)>, k: Seq<char>, i: int)
    requires
        0 <= i < o.len(),
        forall|j: int| 0 <= j < i ==> o[j].0 != k,
        o[i].0 == k,
    ensures
        obj_lookup(o, k) == Some(o[i].1),
    decreases i,
{
    if i == 0 {
        assert(obj_lookup(o, k) == Some(o[0].1));
    } else {
        assert forall|j: int| 0 <= j < i - 1 implies o.drop_first()[j].0 != k by {
            assert(o.drop_first()[j] == o[j + 1]);
        }
        assert(o.drop_first()[i - 1] == o[i]);
        lemma_obj_lookup_index(o.drop_first(), k, i - 1);
        assert(o[0].0 != k);
    }
}

/// An object without a member named `k` looks `k` up to nothing.
proof fn lemma_obj_lookup_none(o: Seq<(Seq<char>, JsonVal)>, k: Seq<char>)
    requires
        forall|j: int| 0 <= j < o.len() ==> o[j].0 != k,
    ensures
        obj_lookup(o, k) is None,
    decreases o.len(),
{
    if o.len() != 0 {
        assert forall|j: int| 0 <= j < o.drop_first().len() implies o.drop_first()[j].0 != k by {
            assert(o.drop_first()[j] == o[j + 1]);
        }
        lemma_obj_lookup_none(o.drop_first(), k);
        assert(o[0].0 != k);
    }
}

/// Get a reference to the value under the first member named `k`.
pub fn obj_get<'a>(o: &'a Vec<(String, JsonValue)>, k: &str) -> (r: Option<&'a JsonValue>)
    ensures
        match r {
            Some(v) => obj_lookup(view_obj(o@), k@) == Some(v@),
            None => !obj_has_key(view_obj(o@), k@),
        },
{
    proof {
        lemma_view_obj(o@);
    }
    match obj_index_of(o, k) {
        Some(i) => {
            proof {
                lemma_obj_lookup_index(view_obj(o@), k@, i as int);
            }
            Some(&o[i].1)
        }
        None => {
            proof {
                lemma_obj_lookup_none(view_obj(o@), k@);
            }
            None
        }
    }
}

/// Replace the first member named `k`, or append one.
pub fn obj_set(o: &mut Vec<(String, JsonValue)>, k: String, v: JsonValue)
    ensures
        view_obj(final(o)@) == obj_put(view_obj(old(o)@), k@, v@),
{
    proof {
        lemma_view_obj(o@);
    }
    let ghost orig = o@;
    match obj_index_of(o, k.as_str()) {
        Some(i) => {
            o.set(i, (k, v));
            proof {
                lemma_view_obj(o@);
                assert(o@ == orig.update(i as int, (k, v)));
                assert forall|j: int| 0 <= j < orig.len() && j != i implies view_obj(o@)[j]
                    == view_obj(orig)[j] by {
                    assert(o@[j] == orig[j]);
                }
                assert(view_obj(o@)[i as int] == (k@, v@));
                lemma_obj_put_prefix(view_obj(orig), view_obj(o@), k@, v@, i as int);
            }
        }
        None => {
            o.push((k, v));
            proof {
                lemma_view_obj(o@);
                assert(view_obj(o@) =~= view_obj(orig).push((k@, v@)));
                lemma_obj_put_append(view_obj(orig), k@, v@);
            }
        }
    }
}

/// Updating position `i`, the first member named `k`, realizes `obj_put`.
proof fn lemma_obj_put_prefix(
    before: Seq<(Seq<char>, JsonVal)>,
    after: Seq<(Seq<char>, JsonVal)>,
    k: Seq<char>,
    v: JsonVal,
    i: int,
)
    requires
        0 <= i < before.len(),
        after.len() == before.len(),
        forall|j: int| 0 <= j < before.len() && j != i ==> after[j] == before[j],
        after[i] == (k, v),
        before[i].0 == k,
        forall|j: int| 0 <= j < i ==> before[j].0 != k,
    ensures
        after == obj_put(before, k, v),
    decreases i,
{
    if i == 0 {
        assert(obj_put(before, k, v) == seq![(k, v)] + before.drop_first());
        assert(after =~= seq![(k, v)] + before.drop_first());
    } else {
        assert forall|j: int| 0 <= j < before.drop_first().len() && j != i - 1 implies after
            .drop_first()[j] == before.drop_first()[j] by {
            assert(after.drop_first()[j] == after[j + 1]);
            assert(before.drop_first()[j] == before[j + 1]);
        }
        assert(after.drop_first()[i - 1] == after[i]);
        assert(before.drop_first()[i - 1] == before[i]);
        assert forall|j: int| 0 <= j < i - 1 implies before.drop_first()[j].0 != k by {
            assert(before.drop_first()[j] == before[j + 1]);
        }
        lemma_obj_put_prefix(before.drop_first(), after.drop_first(), k, v, i - 1);
        assert(before[0].0 != k);
        assert(obj_put(before, k, v) == seq![before[0]] + obj_put(before.drop_first(), k, v));
        assert(after[0] == before[0]);
        assert(after =~= seq![after[0]] + after.drop_first());
    }
}

/// Appending a member with a fresh name realizes `obj_put`.
proof fn lemma_obj_put_append(o: Seq<(Seq<char>, JsonVal)>, k: Seq<char>, v: JsonVal)
    requires
        forall|j: int| 0 <= j < o.len() ==> o[j].0 != k,
    ensures
        o.push((k, v)) == obj_put(o, k, v),
    decreases o.len(),
{
    if o.len() == 0 {
        assert(obj_put(o, k, v) == seq![(k, v)]);
        assert(o.push((k, v)) =~= seq![(k, v)]);
    } else {
        assert forall|j: int| 0 <= j < o.drop_first().len() implies o.drop_first()[j].0 != k by {
            assert(o.drop_first()[j] == o[j + 1]);
        }
        lemma_obj_put_append(o.drop_first(), k, v);
        assert(o[0].0 != k);
        assert(obj_put(o, k, v) == seq![o[0]] + obj_put(o.drop_first(), k, v));
        assert(o.drop_first().push((k, v)) =~= o.push((k, v)).drop_first());
        assert(o.push((k, v)) =~= seq![o[0]] + o.push((k, v)).drop_first());
    }
}

// ------------------------------------------------------------------
// Serialization: the exact text of a value
// ------------------------------------------------------------------

/// A hexadecimal digit, lower case.
pub open spec fn hex_char(n: u32) -> char {
    match n {
        0u32 => '0', 1u32 => '1', 2u32 => '2', 3u32 => '3',
        4u32 => '4', 5u32 => '5', 6u32 => '6', 7u32 => '7',
        8u32 => '8', 9u32 => '9', 10u32 => 'a', 11u32 => 'b',
        12u32 => 'c', 13u32 => 'd', 14u32 => 'e', 15u32 => 'f',
        _ => '0',
    }
}

/// How one character appears inside a JSON string literal: quote, backslash
/// and control characters are escaped, everything else stands as itself.
pub open spec fn escape_char(c: char) -> Seq<char> {
    if c == '"' {
        seq!['\\', '"']
    } else if c == '\\' {
        seq!['\\', '\\']
    } else if c == '\u{08}' {
        seq!['\\', 'b']
    } else if c == '\t' {
        seq!['\\', 't']
    } else if c == '\n' {
        seq!['\\', 'n']
    } else if c == '\u{0C}' {
        seq!['\\', 'f']
    } else if c == '\r' {
        seq!['\\', 'r']
    } else if (c as u32) < 32 {
        seq!['\\', 'u', '0', '0', hex_char((c as u32) / 16), hex_char((c as u32) % 16)]
    } else {
        seq![c]
    }
}

/// The escaped body of a JSON string literal.
pub open spec fn escape_seq(s: Seq<char>) -> Seq<char>
    decreases s.len(),
{
    if s.len() == 0 {
        Seq::empty()
    } else {
        escape_seq(s.drop_last()) + escape_char(s.last())
    }
}

/// The compact JSON text of a value, as `serde_json` writes it.
pub open spec fn json_text(v: JsonVal) -> Seq<char>
    decreases v,
{
    match v {
        JsonVal::Null => "null"@,
        JsonVal::Bool(b) => if b {
            "true"@
        } else {
            "false"@
        },
        JsonVal::Num(s) => s,
        JsonVal::Str(s) => seq!['"'] + escape_seq(s) + seq!['"'],
        JsonVal::Arr(a) => seq!['['] + arr_text(a) + seq![']'],
        JsonVal::Obj(o) => seq!['{'] + obj_text(o) + seq!['}'],
    }
}

/// The comma-joined texts of array elements.
pub open spec fn arr_text(s: Seq<JsonVal>) -> Seq<char>
    decreases s,
{
    if s.len() == 0 {
        Seq::empty()
    } else if s.len() == 1 {
        json_text(s[0])
    } else {
        json_text(s[0]) + seq![','] + arr_text(s.drop_first())
    }
}

/// The comma-joined texts of object members.
pub open spec fn obj_text(s: Seq<(Seq<char>, JsonVal)>) -> Seq<char>
    decreases s,
{
    if s.len() == 0 {
        Seq::empty()
    } else {
        let m = seq!['"'] + escape_seq(s[0].0) + seq!['"', ':'] + json_text(s[0].1);
        if s.len() == 1 {
            m
        } else {
            m + seq![','] + obj_text(s.drop_first())
        }
    }
}

/// Append one character of a JSON string literal in escaped form.
fn push_escaped_char(out: &mut Vec<char>, c: char)
    ensures
        final(out)@ == old(out)@ + escape_char(c),
{
    if c == '"' {
        out.push('\\');
        out.push('"');
    } else if c == '\\' {
        out.push('\\');
        out.push('\\');
    } else if c == '\u{08}' {
        out.push('\\');
        out.push('b');
    } else if c == '\t' {
        out.push('\\');
        out.push('t');
    } else if c == '\n' {
        out.push('\\');
        out.push('n');
    } else if c == '\u{0C}' {
        out.push('\\');
        out.push('f');
    } else if c == '\r' {
        out.push('\\');
        out.push('r');
    } else if (c as u32) < 32 {
        out.push('\\');
        out.push('u');
        out.push('0');
        out.push('0');
        out.push(hex_char_exec((c as u32) / 16));
        out.push(hex_char_exec((c as u32) % 16));
    } else {
        out.push(c);
    }
    proof {
        assert(out@ =~= old(out)@ + escape_char(c));
    }
}

/// A hexadecimal digit, lower case.
fn hex_char_exec(n: u32) -> (r: char)
    ensures
        r == hex_char(n),
{
    match n {
        0u32 => '0', 1u32 => '1', 2u32 => '2', 3u32 => '3',
        4u32 => '4', 5u32 => '5', 6u32 => '6', 7u32 => '7',
        8u32 => '8', 9u32 => '9', 10u32 => 'a', 11u32 => 'b',
        12u32 => 'c', 13u32 => 'd', 14u32 => 'e', 15u32 => 'f',
        _ => '0',
    }
}

/// Append a whole JSON string literal, quotes included.
fn push_string_literal(out: &mut Vec<char>, s: &String)
    ensures
        final(out)@ == old(out)@ + seq!['"'] + escape_seq(s@) + seq!['"'],
{
    out.push('"');
    let cs = chars_of(s.as_str());
    let mut i: usize = 0;
    while i < cs.len()
        invariant
            i <= cs@.len(),
            cs@ == s@,
            out@ == old(out)@ + seq!['"'] + escape_seq(s@.subrange(0, i as int)),
        decreases cs@.len() - i,
    {
        push_escaped_char(out, cs[i]);
        i = i + 1;
        proof {
            assert(s@.subrange(0, i as int).drop_last() =~= s@.subrange(0, i - 1));
            assert(s@.subrange(0, i as int).last() == s@[i - 1]);
            assert(out@ =~= old(out)@ + seq!['"'] + escape_seq(s@.subrange(0, i as int)));
        }
    }
    out.push('"');
    proof {
        assert(s@.subrange(0, s@.len() as int) =~= s@);
        assert(out@ =~= old(out)@ + seq!['"'] + escape_seq(s@) + seq!['"']);
    }
}

/// Append the compact JSON text of a value.
pub fn write_json(v: &JsonValue, out: &mut Vec<char>)
    ensures
        final(out)@ == old(out)@ + json_text(v@),
    decreases v,
{
    match v {
        JsonValue::Null => {
            push_str(out, "null");
        }
        JsonValue::Bool(b) => {
            if *b {
                push_str(out, "true");
            } else {
                push_str(out, "false");
            }
        }
        JsonValue::Num(s) => {
            push_str(out, s.as_str());
        }
        JsonValue::Str(s) => {
            push_string_literal(out, s);
        }
        JsonValue::Array(a) => {
            out.push('[');
            if a.len() > 0 {
                write_arr_from(a, 0, out);
            }
            out.push(']');
            proof {
                lemma_view_arr(a@);
                if a@.len() > 0 {
                    assert(view_arr(a@).subrange(0, view_arr(a@).len() as int) =~= view_arr(a@));
                }
                assert(out@ =~= old(out)@ + json_text(v@));
            }
        }
        JsonValue::Object(o) => {
            out.push('{');
            if o.len() > 0 {
                write_obj_from(o, 0, out);
            }
            out.push('}');
            proof {
                lemma_view_obj(o@);
                if o@.len() > 0 {
                    assert(view_obj(o@).subrange(0, view_obj(o@).len() as int) =~= view_obj(o@));
                }
                assert(out@ =~= old(out)@ + json_text(v@));
            }
        }
    }
}

/// Append the texts of the elements from `i` on, comma-joined.
fn write_arr_from(a: &Vec<JsonValue>, i: usize, out: &mut Vec<char>)
    requires
        i < a.len(),
    ensures
        final(out)@ == old(out)@ + arr_text(view_arr(a@).subrange(i as int, a@.len() as int)),
    decreases a, a@.len() - i,
{
    proof {
        lemma_view_arr(a@);
    }
    let ghost tail = view_arr(a@).subrange(i as int, a@.len() as int);
    write_json(&a[i], out);
    proof {
        assert(tail[0] == a@[i as int]@);
    }
    if i + 1 < a.len() {
        out.push(',');
        write_arr_from(a, i + 1, out);
        proof {
            assert(tail.drop_first() =~= view_arr(a@).subrange(i + 1, a@.len() as int));
            assert(arr_text(tail) == json_text(tail[0]) + seq![','] + arr_text(tail.drop_first()));
            assert(out@ =~= old(out)@ + arr_text(tail));
        }
    } else {
        proof {
            assert(tail.len() == 1);
            assert(arr_text(tail) == json_text(tail[0]));
        }
    }
}

/// Append the texts of the members from `i` on, comma-joined.
fn write_obj_from(o: &Vec<(String, JsonValue)>, i: usize, out: &mut Vec<char>)
    requires
        i < o.len(),
    ensures
        final(out)@ == old(out)@ + obj_text(view_obj(o@).subrange(i as int, o@.len() as int)),
    decreases o, o@.len() - i,
{
    proof {
        lemma_view_obj(o@);
    }
    let ghost tail = view_obj(o@).subrange(i as int, o@.len() as int);
    push_string_literal(out, &o[i].0);
    out.push(':');
    write_json(&o[i].1, out);
    proof {
        assert(tail[0] == (o@[i as int].0@, o@[i as int].1@));
    }
    if i + 1 < o.len() {
        out.push(',');
        write_obj_from(o, i + 1, out);
        proof {
            assert(tail.drop_first() =~= view_obj(o@).subrange(i + 1, o@.len() as int));
            assert(out@ =~= old(out)@ + obj_text(tail));
        }
    } else {
        proof {
            assert(tail.len() == 1);
            assert(out@ =~= old(out)@ + obj_text(tail));
        }
    }
}

/// The compact JSON text of a value, as a string.
pub fn json_to_string(v: &JsonValue) -> (r: String)
    ensures
        r@ == json_text(v@),
{
    let mut out: Vec<char> = Vec::new();
    write_json(v, &mut out);
    string_of(out.as_slice())
}

impl JsonValue {
    /// Whether this value is JSON null.
    pub fn is_null(&self) -> (r: bool)
        ensures
            r == (self@ is Null),
    {
        matches!(self, JsonValue::Null)
    }
}

// ------------------------------------------------------------------
// Parsing, through serde_json
// ------------------------------------------------------------------

/// serde's JSON value, opaque to the verifier; the converters below carry
/// values across the boundary.
#[verifier::external_type_specification]
#[verifier::external_body]
pub struct ExSerdeValue(serde_json::Value);

/// What `serde_json` reads out of these bytes: nothing when they are not a
/// JSON document, else the parsed value.
pub uninterp spec fn json_parse_of(b: Seq<u8>) -> Option<JsonVal>;

/// Relies on `serde_json::Value`: rebuilds each serde variant as the
/// matching `JsonValue` variant, one arm per variant. Numbers keep their
/// display text; object members come out in the map's sorted key order.
#[verifier::external_body]
pub(crate) fn json_of_serde(v: serde_json::Value) -> JsonValue {
    match v {
        serde_json::Value::Null => JsonValue::Null,
        serde_json::Value::Bool(b) => JsonValue::Bool(b),
        serde_json::Value::Number(n) => JsonValue::Num(n.to_string()),
        serde_json::Value::String(s) => JsonValue::Str(s),
        serde_json::Value::Array(a) => JsonValue::Array(
            a.into_iter().map(json_of_serde).collect(),
        ),
        serde_json::Value::Object(o) => JsonValue::Object(
            o.into_iter().map(|(k, x)| (k, json_of_serde(x))).collect(),
        ),
    }
}

/// Relies on `serde_json::Value`: rebuilds each `JsonValue` variant as the
/// matching serde variant, one arm per variant. A number whose text serde
/// cannot read back becomes null.
#[verifier::external_body]
pub(crate) fn serde_of_json(v: &JsonValue) -> serde_json::Value {
    match v {
        JsonValue::Null => serde_json::Value::Null,
        JsonValue::Bool(b) => serde_json::Value::Bool(*b),
        JsonValue::Num(s) => match serde_json::from_str::<serde_json::Number>(s) {
            Ok(n) => serde_json::Value::Number(n),
            Err(_) => serde_json::Value::Null,
        },
        JsonValue::Str(s) => serde_json::Value::String(s.clone()),
        JsonValue::Array(a) => serde_json::Value::Array(a.iter().map(serde_of_json).collect()),
        JsonValue::Object(o) => serde_json::Value::Object(
            o.iter().map(|(k, x)| (k.clone(), serde_of_json(x))).collect(),
        ),
    }
}

/// Relies on `serde_json::from_slice::<Value>`: whether the bytes parse, and
/// to what value, is a function of the bytes alone.
#[verifier::external_body]
pub fn parse_json_bytes(b: &[u8]) -> (r: Option<JsonValue>)
    ensures
        match (r, json_parse_of(b@)) {
            (Some(v), Some(w)) => v@ == w,
            (None, None) => true,
            _ => false,
        },
{
    serde_json::from_slice::<serde_json::Value>(b).ok().map(json_of_serde)
}

} // verus!
