//! The little of JSON that the broker needs, read and written by
//! `serde_json`.

use vstd::prelude::*;

verus! {

/// What a member of a JSON object is, as far as the broker reads it: its
/// kind, and its value where it is a boolean.
#[derive(Clone, Copy, Debug, PartialEq, Eq, Structural)]
pub enum JsonKind {
    Null,
    Bool(bool),
    Number,
    Text,
    Array,
    Object,
}

/// `serde_json::Value`, a JSON value. Nothing inside it is visible here.
#[verifier::external_type_specification]
#[verifier::external_body]
pub struct ExJsonValue(serde_json::Value);

/// `serde_json::Map`, the members of a JSON object. What it holds is
/// spoken of through [`json_fields`].
#[verifier::external_type_specification]
#[verifier::external_body]
#[verifier::reject_recursive_types(K)]
#[verifier::reject_recursive_types(V)]
pub struct ExJsonMap<K, V>(serde_json::Map<K, V>);

/// The members of a JSON object that `serde_json` has read, each reduced to
/// its kind.
pub uninterp spec fn json_fields(object: serde_json::Map<String, serde_json::Value>) -> Map<
    Seq<char>,
    JsonKind,
>;

/// The members of the JSON object that `text` spells, as `serde_json` reads
/// it, or `None` where `serde_json` does not read `text` as one JSON object.
pub uninterp spec fn json_object(text: Seq<char>) -> Option<Map<Seq<char>, JsonKind>>;

/// Trusted: `serde_json::from_str`, asked for a `serde_json::Map`. It
/// returns the object that `text` spells, if `text` spells one and nothing
/// else; the contract only names that result.
#[verifier::external_body]
fn parse_object(text: &str) -> (object: Option<serde_json::Map<String, serde_json::Value>>)
    ensures
        match object {
            Some(o) => json_object(text@) == Some(json_fields(o)),
            None => json_object(text@) is None,
        },
{
    match serde_json::from_str::<serde_json::Map<String, serde_json::Value>>(text) {
        Ok(object) => Some(object),
        Err(_) => None,
    }
}

/// Trusted: `serde_json::Map::get`. It returns the member stored under
/// `key`, if there is one; the member is handed out as its kind.
#[verifier::external_body]
fn member_kind(object: &serde_json::Map<String, serde_json::Value>, key: &str) -> (kind: Option<
    JsonKind,
>)
    ensures
        kind == member_of(json_fields(*object), key@),
{
    match object.get(key) {
        None => None,
        Some(serde_json::Value::Null) => Some(JsonKind::Null),
        Some(serde_json::Value::Bool(b)) => Some(JsonKind::Bool(*b)),
        Some(serde_json::Value::Number(_)) => Some(JsonKind::Number),
        Some(serde_json::Value::String(_)) => Some(JsonKind::Text),
        Some(serde_json::Value::Array(_)) => Some(JsonKind::Array),
        Some(serde_json::Value::Object(_)) => Some(JsonKind::Object),
    }
}

/// The member of `fields` called `key`, if there is one.
pub open spec fn member_of(fields: Map<Seq<char>, JsonKind>, key: Seq<char>) -> Option<JsonKind> {
    if fields.contains_key(key) {
        Some(fields[key])
    } else {
        None
    }
}

/// What a lookup of `key` in the JSON text `text` gives: `None` where the
/// text is no JSON object, else the member called `key`, if any.
pub open spec fn lookup_spec(text: Seq<char>, key: Seq<char>) -> Option<Option<JsonKind>> {
    match json_object(text) {
        Some(fields) => Some(member_of(fields, key)),
        None => None,
    }
}

/// Reads `text` as a JSON object and looks up the member called `key`.
pub fn lookup(text: &str, key: &str) -> (found: Option<Option<JsonKind>>)
    ensures
        found == lookup_spec(text@, key@),
{
    match parse_object(text) {
        Some(object) => Some(member_kind(&object, key)),
        None => None,
    }
}

/// The JSON string literal that `serde_json` writes for `text`: the text
/// between double quotes, with the characters escaped that JSON asks to
/// escape.
pub uninterp spec fn json_quoted(text: Seq<char>) -> Seq<char>;

/// Trusted: the `Display` of a `serde_json::Value` that holds a string. It
/// writes the string as a JSON string literal; the contract only names
/// that result.
#[verifier::external_body]
pub(crate) fn quote(text: &str) -> (quoted: String)
    ensures
        quoted@ == json_quoted(text@),
{
    serde_json::Value::String(text.to_owned()).to_string()
}

} // verus!
