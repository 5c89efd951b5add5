//! JSON values, as the exchange sends them.

use vstd::prelude::*;
use crate::text::{decimal_value, parse_decimal};

verus! {

/// A value of the JSON library.
#[verifier::external_type_specification]
#[verifier::external_body]
pub struct ExValue(serde_json::Value);

/// What a JSON value is. A number is given by the text that the JSON library
/// writes for it.
pub enum Json {
    Null,
    Bool(bool),
    Number(Seq<char>),
    Text(Seq<char>),
    List(Seq<Json>),
    Object(Map<Seq<char>, Json>),
}

/// What a value of the JSON library holds.
pub uninterp spec fn json_of(v: serde_json::Value) -> Json;

/// What a JSON document stands for; nothing where the text is no JSON document.
pub uninterp spec fn document(text: Seq<char>) -> Option<Json>;

/// The value of an object's member; nothing where `v` is no object or has no
/// such member.
pub open spec fn member_of(v: Json, key: Seq<char>) -> Option<Json> {
    match v {
        Json::Object(m) => if m.contains_key(key) { Some(m[key]) } else { None },
        _ => None,
    }
}

/// `serde_json::from_str`, into the library's own value type.
#[verifier::external_body]
pub(crate) fn parse(text: &str) -> (r: Option<serde_json::Value>)
    ensures
        match r {
            Some(v) => document(text@) == Some(json_of(v)),
            None => document(text@) is None,
        },
{
    serde_json::from_str(text).ok()
}

/// `serde_json::Value::get` with a key: the member of an object.
#[verifier::external_body]
pub(crate) fn member(v: &serde_json::Value, key: &str) -> (r: Option<serde_json::Value>)
    ensures
        match r {
            Some(m) => member_of(json_of(*v), key@) == Some(json_of(m)),
            None => member_of(json_of(*v), key@) is None,
        },
{
    v.get(key).cloned()
}

/// `serde_json::Value::as_array`: the elements of a list.
#[verifier::external_body]
pub(crate) fn elements(v: &serde_json::Value) -> (r: Option<Vec<serde_json::Value>>)
    ensures
        match r {
            Some(list) => json_of(*v) == Json::List(
                list@.map_values(|x: serde_json::Value| json_of(x)),
            ),
            None => !(json_of(*v) is List),
        },
{
    v.as_array().cloned()
}

/// `serde_json::Value::as_str`: the characters of a text.
#[verifier::external_body]
pub(crate) fn text(v: &serde_json::Value) -> (r: Option<String>)
    ensures
        match r {
            Some(s) => json_of(*v) == Json::Text(s@),
            None => !(json_of(*v) is Text),
        },
{
    v.as_str().map(String::from)
}

/// `serde_json::Value::as_number`, and the text that the library writes for the
/// number.
#[verifier::external_body]
pub(crate) fn number(v: &serde_json::Value) -> (r: Option<String>)
    ensures
        match r {
            Some(s) => json_of(*v) == Json::Number(s@),
            None => !(json_of(*v) is Number),
        },
{
    match v.as_number() {
        Some(n) => Some(n.to_string()),
        None => None,
    }
}

/// `serde_json::Value::is_null`.
#[verifier::external_body]
pub(crate) fn is_null(v: &serde_json::Value) -> (r: bool)
    ensures
        r == (json_of(*v) is Null),
{
    v.is_null()
}

/// The text of an object's member, or a default where it is no text.
pub open spec fn text_member(v: Json, key: Seq<char>, default: Seq<char>) -> Seq<char> {
    match member_of(v, key) {
        Some(Json::Text(t)) => t,
        _ => default,
    }
}

/// The amount in an object's member; nothing where it is no number.
pub open spec fn amount_member(v: Json, key: Seq<char>) -> Option<i64> {
    match member_of(v, key) {
        Some(Json::Number(t)) => decimal_value(t),
        _ => None,
    }
}

/// An amount, or a default where there is none.
pub open spec fn amount_or(x: Option<i64>, default: i64) -> i64 {
    match x {
        Some(v) => v,
        None => default,
    }
}

/// The amount in an object's member.
pub(crate) fn read_amount(v: &serde_json::Value, key: &str) -> (r: Option<i64>)
    ensures
        r == amount_member(json_of(*v), key@),
{
    match member(v, key) {
        Some(m) => match number(&m) {
            Some(t) => parse_decimal(t.as_str()),
            None => None,
        },
        None => None,
    }
}

/// The text in an object's member.
pub(crate) fn read_text(v: &serde_json::Value, key: &str) -> (r: Option<String>)
    ensures
        match r {
            Some(t) => member_of(json_of(*v), key@) == Some(Json::Text(t@)),
            None => !(member_of(json_of(*v), key@) matches Some(m) && m is Text),
        },
{
    match member(v, key) {
        Some(m) => text(&m),
        None => None,
    }
}

/// The JSON form of a text: in quotes, with what JSON asks to be escaped
/// escaped.
pub uninterp spec fn quoted_text(t: Seq<char>) -> Seq<char>;

/// `serde_json::to_string` of a text. It fails only where a value's own
/// serialisation does, which that of a text never does.
#[verifier::external_body]
pub(crate) fn quoted(t: &str) -> (r: String)
    ensures
        r@ == quoted_text(t@),
{
    serde_json::to_string(t).unwrap()
}

} // verus!
