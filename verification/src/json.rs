//! JSON values as the library reads and writes them. Parsing JSON text and printing it are
//! serde_json's work; what the library reads out of a value, and what it puts into one, is
//! its own.
use vstd::prelude::*;
use crate::text::{seq_less, str_eq};

verus! {

/// A JSON number as serde_json holds it: a non-negative integer, a negative integer, or a
/// floating-point number (whose value the library never reads).
#[derive(Debug)]
pub enum JsonNumber {
    UInt(u64),
    Int(i64),
    Float,
}

/// A JSON value; an object keeps its members in the order serde_json gives them.
#[derive(Debug)]
pub enum JsonValue {
    Null,
    Bool(bool),
    Number(JsonNumber),
    Str(String),
    Array(Vec<JsonValue>),
    Object(Vec<(String, JsonValue)>),
}

/// serde_json's `Number::as_i64`.
pub open spec fn number_i64(n: JsonNumber) -> Option<i64> {
    match n {
        JsonNumber::UInt(u) => if u <= i64::MAX {
            Some(u as i64)
        } else {
            None
        },
        JsonNumber::Int(i) => Some(i),
        JsonNumber::Float => None,
    }
}

/// serde_json's `Number::as_u64`.
pub open spec fn number_u64(n: JsonNumber) -> Option<u64> {
    match n {
        JsonNumber::UInt(u) => Some(u),
        JsonNumber::Int(i) => if i >= 0 {
            Some(i as u64)
        } else {
            None
        },
        JsonNumber::Float => None,
    }
}

/// `Value::as_i64`.
pub open spec fn value_i64(v: JsonValue) -> Option<i64> {
    match v {
        JsonValue::Number(n) => number_i64(n),
        _ => None,
    }
}

/// `Value::as_u64`.
pub open spec fn value_u64(v: JsonValue) -> Option<u64> {
    match v {
        JsonValue::Number(n) => number_u64(n),
        _ => None,
    }
}

/// `Value::as_str`.
pub open spec fn value_str(v: JsonValue) -> Option<Seq<char>> {
    match v {
        JsonValue::Str(s) => Some(s@),
        _ => None,
    }
}

/// The first member of `es` named `key`.
pub open spec fn member(es: Seq<(String, JsonValue)>, key: Seq<char>) -> Option<JsonValue>
    decreases es.len(),
{
    if es.len() == 0 {
        None
    } else if es[0].0@ == key {
        Some(es[0].1)
    } else {
        member(es.drop_first(), key)
    }
}

/// `Value::get` with a string key: the member of an object, nothing for other values.
pub open spec fn value_get(v: JsonValue, key: Seq<char>) -> Option<JsonValue> {
    match v {
        JsonValue::Object(es) => member(es@, key),
        _ => None,
    }
}

/// The member `key` of `v`, if `v` is an object that has one.
pub fn get<'a>(v: &'a JsonValue, key: &str) -> (r: Option<&'a JsonValue>)
    ensures
        match r {
            Some(x) => value_get(*v, key@) == Some(*x),
            None => value_get(*v, key@) == None::<JsonValue>,
        },
{
    match v {
        JsonValue::Object(es) => {
            assert(value_get(*v, key@) == member(es@, key@));
            let mut i: usize = 0;
            assert(es@.skip(0) =~= es@);
            while i < es.len()
                invariant
                    0 <= i <= es.len(),
                    member(es@, key@) == member(es@.skip(i as int), key@),
                    value_get(*v, key@) == member(es@, key@),
                decreases es.len() - i,
            {
                assert(es@.skip(i as int)[0] == es@[i as int]);
                if str_eq(es[i].0.as_str(), key) {
                    assert(member(es@.skip(i as int), key@) == Some(es@[i as int].1));
                    return Some(&es[i].1);
                }
                assert(es@.skip(i as int).drop_first() =~= es@.skip(i + 1));
                i += 1;
            }
            None
        },
        _ => None,
    }
}

/// `Value::as_i64`.
pub fn as_i64(v: &JsonValue) -> (r: Option<i64>)
    ensures
        r == value_i64(*v),
{
    match v {
        JsonValue::Number(JsonNumber::UInt(u)) => if *u <= 0x7fff_ffff_ffff_ffffu64 {
            Some(*u as i64)
        } else {
            None
        },
        JsonValue::Number(JsonNumber::Int(i)) => Some(*i),
        _ => None,
    }
}

/// `Value::as_u64`.
pub fn as_u64(v: &JsonValue) -> (r: Option<u64>)
    ensures
        r == value_u64(*v),
{
    match v {
        JsonValue::Number(JsonNumber::UInt(u)) => Some(*u),
        JsonValue::Number(JsonNumber::Int(i)) => if *i >= 0 {
            Some(*i as u64)
        } else {
            None
        },
        _ => None,
    }
}

/// The JSON number for `n`, as serde_json makes it from an `i64`.
pub fn int_value(n: i64) -> (v: JsonValue)
    ensures
        value_i64(v) == Some(n),
        v == (if n >= 0 {
            JsonValue::Number(JsonNumber::UInt(n as u64))
        } else {
            JsonValue::Number(JsonNumber::Int(n))
        }),
{
    if n >= 0 {
        JsonValue::Number(JsonNumber::UInt(n as u64))
    } else {
        JsonValue::Number(JsonNumber::Int(n))
    }
}

/// serde_json's own value type, carried through opaquely.
#[verifier::external_type_specification]
#[verifier::external_body]
pub struct ExSerdeValue(serde_json::Value);

/// What serde_json reads from `text`: the value, or the text of its error.
pub uninterp spec fn json_parse(text: Seq<char>) -> Result<JsonValue, Seq<char>>;

/// What serde_json writes for `v` (compact, object members in ascending key order).
pub uninterp spec fn json_render(v: JsonValue) -> Result<Seq<char>, Seq<char>>;

/// `v` is a value as serde_json reads it back, nested at most `levels` deep: no
/// floating-point number, a number held as `Int` only when negative, and every object's
/// keys strictly ascending (the order of serde_json's map).
pub open spec fn json_plain(v: JsonValue, levels: nat) -> bool
    decreases levels,
{
    match v {
        JsonValue::Number(JsonNumber::Float) => false,
        JsonValue::Number(JsonNumber::Int(i)) => i < 0,
        JsonValue::Array(a) => levels > 0 && forall|i: int|
            0 <= i < a@.len() ==> json_plain(#[trigger] a@[i], (levels - 1) as nat),
        JsonValue::Object(es) => levels > 0 && (forall|i: int, j: int|
            0 <= i < j < es@.len() ==> seq_less(#[trigger] es@[i].0@, #[trigger] es@[j].0@)) && (
        forall|i: int| 0 <= i < es@.len() ==> json_plain(#[trigger] es@[i].1, (levels - 1) as nat)),
        _ => true,
    }
}

/// How deep serde_json nests arrays and objects when it reads text.
pub const JSON_LEVELS: u64 = 127;

/// `serde_json::from_str::<serde_json::Value>`, its result moved into a `JsonValue`.
/// Claimed: the result is `json_parse` of the text, a function of the text alone.
#[verifier::external_body]
pub(crate) fn parse_json(text: &str) -> (r: Result<JsonValue, String>)
    ensures
        match r {
            Ok(v) => json_parse(text@) == Ok::<JsonValue, Seq<char>>(v),
            Err(e) => json_parse(text@) == Err::<JsonValue, Seq<char>>(e@),
        },
{
    match serde_json::from_str::<serde_json::Value>(text) {
        Ok(v) => Ok(from_serde(v)),
        Err(e) => Err(e.to_string()),
    }
}

/// `serde_json::to_string` of the `serde_json::Value` that `v` stands for.
/// Claimed: the result is `json_render` of the value, a function of the value alone; and
/// `serde_json::from_str` reads the text back as the same value, when the value is one
/// that serde_json's reading gives (`json_plain`): serde_json writes every string, integer
/// and map so that its reader gives them back (its `Map` is a `BTreeMap`, so members come
/// back in ascending key order).
#[verifier::external_body]
pub(crate) fn render_json(v: &JsonValue) -> (r: Result<String, String>)
    ensures
        match r {
            Ok(s) => json_render(*v) == Ok::<Seq<char>, Seq<char>>(s@),
            Err(e) => json_render(*v) == Err::<Seq<char>, Seq<char>>(e@),
        },
        r matches Ok(s) ==> (json_plain(*v, JSON_LEVELS as nat) ==> (json_parse(s@) matches Ok(
            w,
        ) && w == *v)),
{
    serde_json::to_string(&to_serde(v)).map_err(|e| e.to_string())
}

/// Moves a `serde_json::Value` into a `JsonValue`, variant by variant.
#[verifier::external_body]
fn from_serde(v: serde_json::Value) -> JsonValue {
    match v {
        serde_json::Value::Null => JsonValue::Null,
        serde_json::Value::Bool(b) => JsonValue::Bool(b),
        n @ serde_json::Value::Number(_) => JsonValue::Number(number_from_serde(&n)),
        serde_json::Value::String(s) => JsonValue::Str(s),
        serde_json::Value::Array(a) => JsonValue::Array(a.into_iter().map(from_serde).collect()),
        serde_json::Value::Object(m) => JsonValue::Object(m.into_iter().map(member_from_serde).collect()),
    }
}

/// Moves an object member of a `serde_json::Value` into a member of a `JsonValue`.
#[verifier::external_body]
fn member_from_serde(m: (String, serde_json::Value)) -> (String, JsonValue) {
    (m.0, from_serde(m.1))
}

/// A number held in a `serde_json::Value` as a `JsonNumber`: which of its three kinds it is,
/// and its integer.
#[verifier::external_body]
fn number_from_serde(n: &serde_json::Value) -> JsonNumber {
    match (n.as_u64(), n.as_i64()) {
        (Some(u), _) => JsonNumber::UInt(u),
        (None, Some(i)) => JsonNumber::Int(i),
        (None, None) => JsonNumber::Float,
    }
}

/// Makes the `serde_json::Value` that a `JsonValue` stands for, variant by variant.
#[verifier::external_body]
fn to_serde(v: &JsonValue) -> serde_json::Value {
    match v {
        JsonValue::Null | JsonValue::Number(JsonNumber::Float) => serde_json::Value::Null,
        JsonValue::Bool(b) => serde_json::Value::Bool(*b),
        JsonValue::Number(JsonNumber::UInt(u)) => serde_json::Value::from(*u),
        JsonValue::Number(JsonNumber::Int(i)) => serde_json::Value::from(*i),
        JsonValue::Str(s) => serde_json::Value::String(s.clone()),
        JsonValue::Array(a) => serde_json::Value::Array(a.iter().map(to_serde).collect()),
        JsonValue::Object(es) => serde_json::Value::Object(es.iter().map(member_to_serde).collect()),
    }
}

/// Makes an object member of a `serde_json::Value` from a member of a `JsonValue`.
#[verifier::external_body]
fn member_to_serde(m: &(String, JsonValue)) -> (String, serde_json::Value) {
    (m.0.clone(), to_serde(&m.1))
}

} // verus!
