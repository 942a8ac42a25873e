use vstd::prelude::*;

verus! {

/// The image of a parsed JSON document. Numbers that are not unsigned
/// 64-bit integers are kept only as `OtherNumber`: no payload field of this
/// system carries one, so they can be skipped but never bound.
pub enum JsonValue {
    Null,
    Bool(bool),
    UInt(u64),
    OtherNumber,
    Str(String),
    Arr(Vec<JsonValue>),
    Obj(Vec<(String, JsonValue)>),
}

/// What parsing a given text yields: `None` on malformed input, otherwise
/// the document. The result depends on the text alone.
pub uninterp spec fn json_of(s: Seq<char>) -> Option<JsonValue>;

#[verifier::external_type_specification]
#[verifier::external_body]
pub struct ExJsonValue(serde_json::Value);

/// Conversion half of `parse_json`: translates a `serde_json` document into
/// the library's image of it, variant by variant. Object entries keep the
/// order in which `serde_json`'s map iterates them (sorted by key).
#[verifier::external_body]
fn value_to_json(v: serde_json::Value) -> JsonValue {
    match v {
        serde_json::Value::Null => JsonValue::Null,
        serde_json::Value::Bool(b) => JsonValue::Bool(b),
        serde_json::Value::Number(n) => match n.as_u64() {
            Some(u) => JsonValue::UInt(u),
            None => JsonValue::OtherNumber,
        },
        serde_json::Value::String(s) => JsonValue::Str(s),
        serde_json::Value::Array(a) => JsonValue::Arr(a.into_iter().map(value_to_json).collect()),
        serde_json::Value::Object(m) => JsonValue::Obj(
            m.into_iter().map(|(k, x)| (k, value_to_json(x))).collect(),
        ),
    }
}

/// Relies on `serde_json::from_str` and `serde_json::Number::as_u64`: what a
/// given text parses into depends on that text alone, so the result is named
/// by `json_of`.
#[verifier::external_body]
pub fn parse_json(s: &str) -> (r: Option<JsonValue>)
    ensures
        r == json_of(s@),
{
    match serde_json::from_str::<serde_json::Value>(s) {
        Err(_) => None,
        Ok(v) => Some(value_to_json(v)),
    }
}

} // verus!
