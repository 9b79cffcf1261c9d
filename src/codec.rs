use vstd::prelude::*;

use crate::json::{Json, JsonV};

verus! {

/// serde_json::Value, opaque: a document only passes through it on its way
/// to or from JSON text.
#[verifier::external_type_specification]
#[verifier::external_body]
pub struct ExValue(serde_json::Value);

/// serde_json::Error, opaque: only whether a call failed is used.
#[verifier::external_type_specification]
#[verifier::external_body]
pub struct ExError(serde_json::Error);

/// The document that serde_json reads from a JSON text, if the text is one.
pub uninterp spec fn parsed_json(text: Seq<char>) -> Option<JsonV>;

/// The document that serde_json reads from bytes, if they hold one JSON text.
pub uninterp spec fn parsed_json_bytes(bytes: Seq<u8>) -> Option<JsonV>;

/// The compact JSON text that serde_json writes for a document.
pub uninterp spec fn json_bytes(doc: JsonV) -> Seq<u8>;

/// The characters that a lossy UTF-8 decoding gives for bytes.
pub uninterp spec fn lossy_text(bytes: Seq<u8>) -> Seq<char>;

/// Converts a serde_json document into the library's own, variant by
/// variant; a number keeps the text that serde_json writes for it (relies on
/// `Display` for serde_json::Number). Used only inside the parse wrappers,
/// whose named results cover it.
#[verifier::external_body]
fn json_from_value(v: serde_json::Value) -> Json {
    match v {
        serde_json::Value::Null => Json::Null,
        serde_json::Value::Bool(b) => Json::Bool(b),
        serde_json::Value::Number(n) => Json::Number(n.to_string()),
        serde_json::Value::String(s) => Json::Str(s),
        serde_json::Value::Array(a) => Json::Array(a.into_iter().map(json_from_value).collect()),
        serde_json::Value::Object(m) => Json::Object(
            m.into_iter().map(|(k, x)| (k, json_from_value(x))).collect(),
        ),
    }
}

/// Converts the library's document into a serde_json one, variant by
/// variant; a number is read back from its text with `FromStr` for
/// serde_json::Number (`null` if it is none). Used only inside the write
/// wrapper, whose named result covers it.
#[verifier::external_body]
fn json_to_value(j: &Json) -> serde_json::Value {
    match j {
        Json::Null => serde_json::Value::Null,
        Json::Bool(b) => serde_json::Value::Bool(*b),
        Json::Number(t) => t.parse().map_or(serde_json::Value::Null, serde_json::Value::Number),
        Json::Str(s) => serde_json::Value::String(s.clone()),
        Json::Array(a) => serde_json::Value::Array(a.iter().map(json_to_value).collect()),
        Json::Object(e) => serde_json::Value::Object(
            e.iter().map(|(k, x)| (k.clone(), json_to_value(x))).collect(),
        ),
    }
}

/// Relies on serde_json::from_str: the document of a JSON text, or `None`
/// where serde_json reports an error.
#[verifier::external_body]
pub(crate) fn parse_json_text(text: &[char]) -> (r: Option<Json>)
    ensures
        match r {
            Some(j) => parsed_json(text@) == Some(j@),
            None => parsed_json(text@) is None,
        },
{
    let s: String = text.iter().collect();
    serde_json::from_str::<serde_json::Value>(&s).ok().map(json_from_value)
}

/// Relies on serde_json::from_slice: the document that bytes hold, or `None`
/// where serde_json reports an error.
#[verifier::external_body]
pub(crate) fn parse_json_bytes(bytes: &[u8]) -> (r: Option<Json>)
    ensures
        match r {
            Some(j) => parsed_json_bytes(bytes@) == Some(j@),
            None => parsed_json_bytes(bytes@) is None,
        },
{
    serde_json::from_slice::<serde_json::Value>(bytes).ok().map(json_from_value)
}

/// Relies on serde_json::to_vec: the compact JSON text of a document. For a
/// serde_json::Value it succeeds, as its `Serialize` only forwards and its
/// map keys are strings.
#[verifier::external_body]
pub(crate) fn write_json(j: &Json) -> (r: Result<Vec<u8>, serde_json::Error>)
    ensures
        r is Ok,
        r matches Ok(b) ==> b@ == json_bytes(j@),
{
    serde_json::to_vec(&json_to_value(j))
}

/// Relies on String::from_utf8_lossy: the characters of the bytes, where
/// each ill-formed sequence becomes U+FFFD.
#[verifier::external_body]
pub(crate) fn decode_lossy(bytes: &[u8]) -> (r: Vec<char>)
    ensures
        r@ == lossy_text(bytes@),
{
    String::from_utf8_lossy(bytes).chars().collect()
}

/// Reads a JSON document from bytes, or `None` if they do not hold one.
pub fn read_document(bytes: &[u8]) -> (r: Option<Json>)
    ensures
        match r {
            Some(j) => parsed_json_bytes(bytes@) == Some(j@),
            None => parsed_json_bytes(bytes@) is None,
        },
{
    parse_json_bytes(bytes)
}

/// Writes a document as compact JSON text.
pub fn write_document(doc: &Json) -> (r: Option<Vec<u8>>)
    ensures
        r matches Some(b) && b@ == json_bytes(doc@),
{
    match write_json(doc) {
        Ok(b) => Some(b),
        Err(_) => None,
    }
}

} // verus!
