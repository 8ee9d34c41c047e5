//! A plain model of JSON values and its compact text form.

use vstd::prelude::*;
use vstd::string::StringExecFns;
use crate::text::{join, join_s, str_eq};

verus! {

/// A JSON value. Numbers keep their textual form; object members keep
/// their order.
#[derive(Debug)]
pub enum JsonValue {
    Null,
    Bool(bool),
    Number(String),
    Str(String),
    Array(Vec<JsonValue>),
    Object(Vec<(String, JsonValue)>),
}

/// The lower-case hexadecimal digit of `n` (`0 <= n < 16`).
pub open spec fn hex_digit(n: int) -> char {
    if n == 0 {
        '0'
    } else if n == 1 {
        '1'
    } else if n == 2 {
        '2'
    } else if n == 3 {
        '3'
    } else if n == 4 {
        '4'
    } else if n == 5 {
        '5'
    } else if n == 6 {
        '6'
    } else if n == 7 {
        '7'
    } else if n == 8 {
        '8'
    } else if n == 9 {
        '9'
    } else if n == 10 {
        'a'
    } else if n == 11 {
        'b'
    } else if n == 12 {
        'c'
    } else if n == 13 {
        'd'
    } else if n == 14 {
        'e'
    } else {
        'f'
    }
}

/// How serde_json writes one character inside a string: `"` and `\` and
/// the control characters below U+0020 are escaped (`\b`, `\t`, `\n`,
/// `\f`, `\r`, else `\u00` and two lower-case hex digits); every other
/// character stands for itself.
pub open spec fn json_escaped_char(c: char) -> Seq<char> {
    let n = c as int;
    if c == '"' {
        seq!['\\', '"']
    } else if c == '\\' {
        seq!['\\', '\\']
    } else if n == 8 {
        seq!['\\', 'b']
    } else if n == 9 {
        seq!['\\', 't']
    } else if n == 10 {
        seq!['\\', 'n']
    } else if n == 12 {
        seq!['\\', 'f']
    } else if n == 13 {
        seq!['\\', 'r']
    } else if n < 32 {
        seq!['\\', 'u', '0', '0', hex_digit(n / 16), hex_digit(n % 16)]
    } else {
        seq![c]
    }
}

/// The characters of `s`, each escaped as serde_json does.
pub open spec fn json_escaped(s: Seq<char>) -> Seq<char>
    decreases s.len(),
{
    if s.len() == 0 {
        Seq::empty()
    } else {
        json_escaped(s.drop_last()) + json_escaped_char(s.last())
    }
}

/// What `serde_json::to_string` gives for a string: the string escaped
/// and put between double quotes.
pub open spec fn json_quoted(s: Seq<char>) -> Seq<char> {
    seq!['"'] + json_escaped(s) + seq!['"']
}

/// Calls `serde_json::to_string` on a string slice. Its contract claims
/// that the result is `json_quoted` of the argument: serde_json's string
/// formatter writes `"`, then each character escaped by its table, then
/// `"`. For a `str` the serializer only writes into an in-memory buffer,
/// which cannot fail, so the error arm is never taken.
#[verifier::external_body]
pub(crate) fn quote_json(s: &str) -> (r: String)
    ensures
        r@ == json_quoted(s@),
{
    match serde_json::to_string(s) {
        Ok(t) => t,
        Err(_) => String::new(),
    }
}

/// What `serde_json::from_str::<serde_json::Value>` reads from a text,
/// written as a `JsonValue`: `None` when the text is not one JSON value.
/// Numbers keep the text `serde_json::Number` displays; object members come
/// in the order of serde_json's map (by key).
pub uninterp spec fn json_parsed(s: Seq<char>) -> Option<JsonValue>;

/// Calls `serde_json::from_str::<serde_json::Value>`; its contract names
/// the result `json_parsed` of the text. A parse error gives `None`. The
/// value is rewritten variant for variant by `json_of_value`.
#[verifier::external_body]
pub fn parse_json(raw: &str) -> (r: Option<JsonValue>)
    ensures
        r == json_parsed(raw@),
{
    match serde_json::from_str::<serde_json::Value>(raw) {
        Ok(v) => Some(json_of_value(&v)),
        Err(_) => None,
    }
}

/// Rewrites a `serde_json::Value` as a `JsonValue`, variant for variant
/// (a number as its displayed text, an object's members in its map's
/// order). It is part of `parse_json`'s body, whose contract covers it.
#[verifier::external_body]
fn json_of_value(v: &serde_json::Value) -> JsonValue {
    match v {
        serde_json::Value::Null => JsonValue::Null,
        serde_json::Value::Bool(b) => JsonValue::Bool(*b),
        serde_json::Value::Number(n) => JsonValue::Number(n.to_string()),
        serde_json::Value::String(s) => JsonValue::Str(s.clone()),
        serde_json::Value::Array(a) => JsonValue::Array(a.iter().map(json_of_value).collect()),
        serde_json::Value::Object(o) => JsonValue::Object(
            o.iter().map(|(k, x)| (k.clone(), json_of_value(x))).collect(),
        ),
    }
}

pub open spec fn json_text(v: JsonValue) -> Seq<char>
    decreases v,
{
    match v {
        JsonValue::Null => seq!['n', 'u', 'l', 'l'],
        JsonValue::Bool(b) => if b {
            seq!['t', 'r', 'u', 'e']
        } else {
            seq!['f', 'a', 'l', 's', 'e']
        },
        JsonValue::Number(n) => n@,
        JsonValue::Str(s) => json_quoted(s@),
        JsonValue::Array(items) => seq!['['] + items_text(items@) + seq![']'],
        JsonValue::Object(fields) => seq!['{'] + members_text(fields@) + seq!['}'],
    }
}

pub open spec fn items_text(items: Seq<JsonValue>) -> Seq<char>
    decreases items,
{
    if items.len() == 0 {
        Seq::empty()
    } else if items.len() == 1 {
        json_text(items[0])
    } else {
        items_text(items.drop_last()) + seq![','] + json_text(items.last())
    }
}

pub open spec fn members_text(fields: Seq<(String, JsonValue)>) -> Seq<char>
    decreases fields,
{
    if fields.len() == 0 {
        Seq::empty()
    } else if fields.len() == 1 {
        json_quoted(fields[0].0@) + seq![':'] + json_text(fields[0].1)
    } else {
        members_text(fields.drop_last()) + seq![','] + json_quoted(fields.last().0@) + seq![':']
            + json_text(fields.last().1)
    }
}

proof fn lemma_items_take(s: Seq<JsonValue>, i: int)
    requires
        0 <= i < s.len(),
    ensures
        items_text(s.take(i + 1)) == if i == 0 {
            json_text(s[0])
        } else {
            items_text(s.take(i)) + seq![','] + json_text(s[i])
        },
{
    let t = s.take(i + 1);
    assert(t.drop_last() =~= s.take(i));
    assert(t.last() == s[i]);
    assert(t[0] == s[0]);
}

proof fn lemma_members_take(s: Seq<(String, JsonValue)>, i: int)
    requires
        0 <= i < s.len(),
    ensures
        members_text(s.take(i + 1)) == if i == 0 {
            json_quoted(s[0].0@) + seq![':'] + json_text(s[0].1)
        } else {
            members_text(s.take(i)) + seq![','] + json_quoted(s[i].0@) + seq![':'] + json_text(
                s[i].1,
            )
        },
{
    let t = s.take(i + 1);
    assert(t.drop_last() =~= s.take(i));
    assert(t.last() == s[i]);
    assert(t[0] == s[0]);
}

/// The first member named `key` among `fields`.
pub open spec fn obj_get(fields: Seq<(String, JsonValue)>, key: Seq<char>) -> Option<JsonValue>
    decreases fields.len(),
{
    if fields.len() == 0 {
        None
    } else if fields[0].0@ == key {
        Some(fields[0].1)
    } else {
        obj_get(fields.drop_first(), key)
    }
}

/// `Value::get(key)`: the member `key` of an object; `None` for any other
/// value.
pub open spec fn get_s(v: JsonValue, key: Seq<char>) -> Option<JsonValue> {
    match v {
        JsonValue::Object(fields) => obj_get(fields@, key),
        _ => None,
    }
}

/// `Value::as_str` lifted to an optional value.
pub open spec fn as_str_s(v: Option<JsonValue>) -> Option<Seq<char>> {
    match v {
        Some(JsonValue::Str(s)) => Some(s@),
        _ => None,
    }
}

/// `v.get(key).and_then(Value::as_str)`.
pub open spec fn str_field(v: JsonValue, key: Seq<char>) -> Option<Seq<char>> {
    as_str_s(get_s(v, key))
}

/// A member `"key":value` of an object, given the text of the value.
pub open spec fn member_text(k: Seq<char>, value_text: Seq<char>) -> Seq<char> {
    json_quoted(k) + seq![':'] + value_text
}

/// An object written from the texts of its members.
pub open spec fn object_text(members: Seq<Seq<char>>) -> Seq<char> {
    seq!['{'] + join_s(members, seq![',']) + seq!['}']
}

/// The members of `fields`, each written out.
pub open spec fn fields_members(fields: Seq<(String, JsonValue)>) -> Seq<Seq<char>> {
    fields.map_values(|f: (String, JsonValue)| member_text(f.0@, json_text(f.1)))
}

/// The first member named `key` among `fields`.
pub fn obj_lookup<'a>(fields: &'a Vec<(String, JsonValue)>, key: &str) -> (r: Option<
    &'a JsonValue,
>)
    ensures
        match r {
            Some(x) => obj_get(fields@, key@) == Some(*x),
            None => obj_get(fields@, key@) is None,
        },
{
    let mut i: usize = 0;
    assert(fields@.skip(0) =~= fields@);
    while i < fields.len()
        invariant
            i <= fields.len(),
            obj_get(fields@, key@) == obj_get(fields@.skip(i as int), key@),
        decreases fields.len() - i,
    {
        let ghost rest = fields@.skip(i as int);
        assert(rest[0] == fields@[i as int]);
        assert(rest.drop_first() =~= fields@.skip(i + 1));
        if str_eq(fields[i].0.as_str(), key) {
            return Some(&fields[i].1);
        }
        i = i + 1;
    }
    None
}

/// `v.get(key)`.
pub fn get<'a>(v: &'a JsonValue, key: &str) -> (r: Option<&'a JsonValue>)
    ensures
        match r {
            Some(x) => get_s(*v, key@) == Some(*x),
            None => get_s(*v, key@) is None,
        },
{
    match v {
        JsonValue::Object(fields) => obj_lookup(fields, key),
        _ => None,
    }
}

/// `v.get(key).and_then(Value::as_str)`.
pub fn get_str<'a>(v: &'a JsonValue, key: &str) -> (r: Option<&'a String>)
    ensures
        match r {
            Some(x) => str_field(*v, key@) == Some(x@),
            None => str_field(*v, key@) is None,
        },
{
    match get(v, key) {
        Some(JsonValue::Str(s)) => Some(s),
        _ => None,
    }
}

/// `v.get(key).and_then(Value::as_str) == Some(expected)`.
pub fn field_is(v: &JsonValue, key: &str, expected: &str) -> (r: bool)
    ensures
        r == (str_field(*v, key@) == Some(expected@)),
{
    match get_str(v, key) {
        Some(s) => str_eq(s.as_str(), expected),
        None => false,
    }
}

/// The text of one object member.
pub fn member(key: &str, value_text: &str) -> (r: String)
    ensures
        r@ == member_text(key@, value_text@),
{
    proof {
        reveal_strlit(":");
        assert(":"@ =~= seq![':']);
    }
    let mut r = quote_json(key);
    r.append(":");
    r.append(value_text);
    r
}

/// An object written from the texts of its members.
pub fn object_of(members: &Vec<String>) -> (r: String)
    ensures
        r@ == object_text(members@.map_values(|p: String| p@)),
{
    proof {
        reveal_strlit("{");
        reveal_strlit("}");
        reveal_strlit(",");
        assert("{"@ =~= seq!['{']);
        assert("}"@ =~= seq!['}']);
        assert(","@ =~= seq![',']);
    }
    let mut r = String::new();
    r.append("{");
    let inner = join(members, ",");
    r.append(inner.as_str());
    r.append("}");
    r
}

/// `json_text(v)` as a new string.
pub fn json_string(v: &JsonValue) -> (r: String)
    ensures
        r@ == json_text(*v),
{
    let mut r = String::new();
    write_json(v, &mut r);
    r
}

/// Appends the members of `fields`, each written out, to `parts`.
pub fn push_fields(parts: &mut Vec<String>, fields: &Vec<(String, JsonValue)>)
    ensures
        final(parts)@.map_values(|p: String| p@) == old(parts)@.map_values(|p: String| p@)
            + fields_members(fields@),
{
    let ghost start = parts@.map_values(|p: String| p@);
    let mut i: usize = 0;
    while i < fields.len()
        invariant
            i <= fields.len(),
            parts@.map_values(|p: String| p@) == start + fields_members(fields@.take(i as int)),
        decreases fields.len() - i,
    {
        let t = json_string(&fields[i].1);
        let m = member(fields[i].0.as_str(), t.as_str());
        let ghost before = parts@;
        parts.push(m);
        assert(parts@.map_values(|p: String| p@) =~= before.map_values(|p: String| p@).push(m@));
        assert(fields_members(fields@.take(i + 1)) =~= fields_members(fields@.take(i as int)).push(
            member_text(fields@[i as int].0@, json_text(fields@[i as int].1)),
        ));
        assert(parts@.map_values(|p: String| p@) =~= start + fields_members(fields@.take(i + 1)));
        i = i + 1;
    }
    assert(fields@.take(fields.len() as int) =~= fields@);
}

/// Appends `json_text(v)` to `out`.
#[verifier::loop_isolation(false)]
pub fn write_json(v: &JsonValue, out: &mut String)
    ensures
        final(out)@ == old(out)@ + json_text(*v),
    decreases v,
{
    proof {
        reveal_strlit("null");
        reveal_strlit("true");
        reveal_strlit("false");
        reveal_strlit("[");
        reveal_strlit("]");
        reveal_strlit("{");
        reveal_strlit("}");
        reveal_strlit(",");
        reveal_strlit(":");
        assert("null"@ =~= seq!['n', 'u', 'l', 'l']);
        assert("true"@ =~= seq!['t', 'r', 'u', 'e']);
        assert("false"@ =~= seq!['f', 'a', 'l', 's', 'e']);
        assert("["@ =~= seq!['[']);
        assert("]"@ =~= seq![']']);
        assert("{"@ =~= seq!['{']);
        assert("}"@ =~= seq!['}']);
        assert(","@ =~= seq![',']);
        assert(":"@ =~= seq![':']);
    }
    match v {
        JsonValue::Null => out.append("null"),
        JsonValue::Bool(b) => if *b { out.append("true") } else { out.append("false") },
        JsonValue::Number(n) => out.append(n.as_str()),
        JsonValue::Str(s) => {
            let q = quote_json(s.as_str());
            out.append(q.as_str());
        },
        JsonValue::Array(items) => {
            out.append("[");
            let ghost start = out@;
            let mut i: usize = 0;
            while i < items.len()
                invariant
                    i <= items.len(),
                    out@ == start + items_text(items@.take(i as int)),
                    *v == JsonValue::Array(*items),
                decreases items.len() - i,
            {
                if i > 0 {
                    out.append(",");
                }
                proof {
                    assert(decreases_to!(*v => (*v)->Array_0));
                    assert(decreases_to!((*v)->Array_0 => items@));
                    assert(decreases_to!(*v => items@));
                    assert(decreases_to!(items@ => items@[i as int]));
                    assert(decreases_to!(*v => items@[i as int]));
                }
                let ghost before = out@;
                write_json(&items[i], out);
                proof {
                    lemma_items_take(items@, i as int);
                    if i > 0 {
                        assert(out@ =~= start + (items_text(items@.take(i as int)) + seq![',']
                            + json_text(items@[i as int])));
                    } else {
                        assert(out@ =~= start + json_text(items@[i as int]));
                    }
                }
                i = i + 1;
            }
            assert(items@.take(items.len() as int) == items@);
            out.append("]");
        },
        JsonValue::Object(fields) => {
            out.append("{");
            let ghost start = out@;
            let mut i: usize = 0;
            while i < fields.len()
                invariant
                    i <= fields.len(),
                    out@ == start + members_text(fields@.take(i as int)),
                    *v == JsonValue::Object(*fields),
                decreases fields.len() - i,
            {
                if i > 0 {
                    out.append(",");
                }
                let q = quote_json(fields[i].0.as_str());
                out.append(q.as_str());
                out.append(":");
                proof {
                    assert(decreases_to!(*v => (*v)->Object_0));
                    assert(decreases_to!((*v)->Object_0 => fields@));
                    assert(decreases_to!(*v => fields@));
                    assert(decreases_to!(fields@ => fields@[i as int]));
                    assert(decreases_to!(fields@[i as int] => fields@[i as int].1));
                    assert(decreases_to!(*v => fields@[i as int].1));
                }
                write_json(&fields[i].1, out);
                proof {
                    lemma_members_take(fields@, i as int);
                    let m = json_quoted(fields@[i as int].0@) + seq![':'] + json_text(
                        fields@[i as int].1,
                    );
                    if i > 0 {
                        assert(out@ =~= start + (members_text(fields@.take(i as int)) + seq![',']
                            + m));
                    } else {
                        assert(out@ =~= start + m);
                    }
                }
                i = i + 1;
            }
            assert(fields@.take(fields.len() as int) == fields@);
            out.append("}");
        },
    }
}

} // verus!
