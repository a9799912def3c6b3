//! A JSON document model: what configuration files (`package.json`,
//! `tsconfig.json`) and tool-server messages hold once parsed, and the
//! parsers that produce it.
use vstd::prelude::*;
use crate::text::chars_of;
use crate::order::compare_str;

verus! {

/// A parsed JSON value. Object members keep their order.
pub enum JsonValue {
    Null,
    Bool(bool),
    /// the number's text
    Number(String),
    Str(String),
    Array(Vec<JsonValue>),
    Object(Vec<(String, JsonValue)>),
}

/// The value of the first member named `k`.
pub open spec fn obj_get(es: Seq<(String, JsonValue)>, k: Seq<char>) -> Option<JsonValue>
    decreases es.len(),
{
    if es.len() == 0 {
        None
    } else if es[0].0@ == k {
        Some(es[0].1)
    } else {
        obj_get(es.drop_first(), k)
    }
}

impl JsonValue {
    /// Member `k` of an object; `None` for a missing member or a non-object.
    pub open spec fn get_spec(self, k: Seq<char>) -> Option<JsonValue> {
        match self {
            JsonValue::Object(es) => obj_get(es@, k),
            _ => None,
        }
    }

    /// Member `key` of an object (the first one of that name).
    pub fn get(&self, key: &str) -> (r: Option<&JsonValue>)
        ensures
            r matches Some(v) ==> self.get_spec(key@) == Some(*v),
            r is None ==> self.get_spec(key@) is None,
    {
        match self {
            JsonValue::Object(es) => {
                let mut i: usize = 0;
                assert(es@.skip(0) =~= es@);
                while i < es.len()
                    invariant
                        i <= es@.len(),
                        self.get_spec(key@) == obj_get(es@, key@),
                        obj_get(es@, key@) == obj_get(es@.skip(i as int), key@),
                    decreases es@.len() - i,
                {
                    assert(es@.skip(i as int).drop_first() =~= es@.skip(i + 1));
                    assert(es@.skip(i as int)[0] == es@[i as int]);
                    if compare_str(es[i].0.as_str(), key) == 0 {
                        return Some(&es[i].1);
                    }
                    i = i + 1;
                }
                None
            }
            _ => None,
        }
    }
}

/// The JSON value of `serde_json`, which both parsers below produce.
#[verifier::external_type_specification]
#[verifier::external_body]
pub struct ExSerdeJsonValue(serde_json::Value);

/// Turns a `serde_json::Value` into the library's JSON model, variant for
/// variant (a number by its text, an object's members in the map's order).
/// Nothing is claimed of it beyond what the two parsers below name.
#[verifier::external_body]
fn json_from_serde(v: &serde_json::Value) -> JsonValue {
    match v {
        serde_json::Value::Null => JsonValue::Null,
        serde_json::Value::Bool(b) => JsonValue::Bool(*b),
        serde_json::Value::Number(n) => JsonValue::Number(n.to_string()),
        serde_json::Value::String(s) => JsonValue::Str(s.clone()),
        serde_json::Value::Array(a) => JsonValue::Array(a.iter().map(json_from_serde).collect()),
        serde_json::Value::Object(o) => JsonValue::Object(o.iter().map(|(k, x)| (k.clone(), json_from_serde(x))).collect()),
    }
}

/// What `jsonc_parser::parse_to_serde_value` (default options: comments and
/// trailing commas allowed) makes of a text: the document as a JSON value,
/// or the message of the parse error.
pub uninterp spec fn jsonc_document(text: Seq<char>) -> Result<JsonValue, Seq<char>>;

/// Parses JSONC text through `jsonc_parser::parse_to_serde_value` into a
/// `serde_json::Value`, handed on in the library's JSON model; a parse error
/// is handed on by its message. The contract claims only that the outcome
/// is a function of the text, named `jsonc_document`.
#[verifier::external_body]
pub(crate) fn parse_jsonc(text: &str) -> (r: Result<JsonValue, String>)
    ensures
        match r {
            Ok(v) => jsonc_document(text@) == Ok::<JsonValue, Seq<char>>(v),
            Err(e) => jsonc_document(text@) == Err::<JsonValue, Seq<char>>(e@),
        },
{
    match jsonc_parser::parse_to_serde_value::<serde_json::Value>(text, &Default::default()) {
        Ok(v) => Ok(json_from_serde(&v)),
        Err(e) => Err(e.to_string()),
    }
}

/// What `serde_json::from_str` makes of a text read as one strict JSON
/// document: the document as a JSON value, or the message of the error.
pub uninterp spec fn json_document(text: Seq<char>) -> Result<JsonValue, Seq<char>>;

/// Parses JSON text through `serde_json::from_str` into a
/// `serde_json::Value`, handed on in the library's JSON model; an error is
/// handed on by its message. The contract claims only that the outcome is
/// a function of the text, named `json_document`.
#[verifier::external_body]
pub(crate) fn parse_json(text: &str) -> (r: Result<JsonValue, String>)
    ensures
        match r {
            Ok(v) => json_document(text@) == Ok::<JsonValue, Seq<char>>(v),
            Err(e) => json_document(text@) == Err::<JsonValue, Seq<char>>(e@),
        },
{
    match serde_json::from_str::<serde_json::Value>(text) {
        Ok(v) => Ok(json_from_serde(&v)),
        Err(e) => Err(e.to_string()),
    }
}

} // verus!
