//! Parsing of JSON text with `serde_json`, into a plain JSON value the
//! library can read.

use vstd::prelude::*;
use serde_json::Value as SerdeJsonValue;

verus! {

#[verifier::external_type_specification]
#[verifier::external_body]
pub struct ExSerdeJsonValue(SerdeJsonValue);


/// A JSON value as `serde_json` parses it. A number keeps what it reads as a
/// signed 64-bit integer and as a 64-bit float (its raw bits), where it can.
#[derive(Debug)]
pub enum JsonValue {
    Null,
    Bool(bool),
    Number { as_i64: Option<i64>, as_f64_bits: Option<u64> },
    Text(String),
    Array(Vec<JsonValue>),
    Object(Vec<(String, JsonValue)>),
}

/// Why a command-line JSON argument was refused: the text is not JSON
/// (`serde_json`'s message), or the JSON does not have the expected shape.
#[derive(Clone, Debug, PartialEq)]
pub enum ArgError {
    Json(String),
    Usage(String),
}

/// What `serde_json::from_str` makes of a text: the value, or its error
/// message.
pub uninterp spec fn json_parsed(text: Seq<char>) -> Result<JsonValue, Seq<char>>;

/// Converts a parsed `serde_json::Value` one for one: objects keep the
/// entries in the order `serde_json::Map` yields them, numbers keep
/// `as_i64()` and the bits of `as_f64()`.
#[verifier::external_body]
fn json_from_serde(v: &SerdeJsonValue) -> JsonValue {
    match v {
        SerdeJsonValue::Null => JsonValue::Null,
        SerdeJsonValue::Bool(b) => JsonValue::Bool(*b),
        SerdeJsonValue::Number(n) => JsonValue::Number { as_i64: n.as_i64(), as_f64_bits: n.as_f64().map(|x| x.to_bits()) },
        SerdeJsonValue::String(s) => JsonValue::Text(s.clone()),
        SerdeJsonValue::Array(items) => JsonValue::Array(items.iter().map(json_from_serde).collect()),
        SerdeJsonValue::Object(map) => JsonValue::Object(map.iter().map(|(k, x)| (k.clone(), json_from_serde(x))).collect()),
    }
}

/// Calls `serde_json::from_str` for a `serde_json::Value` and converts the
/// result one for one. The contract states that the outcome is the named
/// parse of the text: the value, or the error's message.
#[verifier::external_body]
pub fn parse_json(raw: &str) -> (r: Result<JsonValue, String>)
    ensures
        match json_parsed(raw@) {
            Ok(j) => r == Ok::<JsonValue, String>(j),
            Err(m) => r matches Err(e) && e@ == m,
        },
{
    match serde_json::from_str::<SerdeJsonValue>(raw) {
        Ok(v) => Ok(json_from_serde(&v)),
        Err(e) => Err(e.to_string()),
    }
}

} // verus!
