//! JSON documents, as `serde_json` parses them.

use vstd::prelude::*;

verus! {

/// `serde_json::Value`: a JSON document.
#[verifier::external_type_specification]
#[verifier::external_body]
pub struct ExValue(serde_json::Value);

/// What a JSON document holds. Of the numbers only those that are unsigned 64-bit integers are
/// told apart.
pub enum Json {
    Null,
    Flag(bool),
    Unsigned(u64),
    OtherNumber,
    Text(Seq<char>),
    List(Seq<Json>),
    Record(Map<Seq<char>, Json>),
}

/// The contents of a JSON document.
pub uninterp spec fn contents(document: serde_json::Value) -> Json;

/// What parsing a text of JSON gives: the contents of the document, or what is wrong with it.
pub uninterp spec fn parsed(bytes: Seq<u8>) -> Result<Json, Seq<char>>;

/// The contents of a document, or the message of an error.
pub open spec fn outcome(document: Result<serde_json::Value, String>) -> Result<Json, Seq<char>> {
    match document {
        Ok(d) => Ok(contents(d)),
        Err(message) => Err(message@),
    }
}

/// The value that a record has for a key; null where there is none, or where the value is no
/// record.
pub open spec fn member(json: Json, key: Seq<char>) -> Json {
    match json {
        Json::Record(members) => if members.contains_key(key) {
            members[key]
        } else {
            Json::Null
        },
        _ => Json::Null,
    }
}

/// The value that a list has at a position; null where there is none, or where the value is no
/// list.
pub open spec fn element(json: Json, i: int) -> Json {
    match json {
        Json::List(elements) => if 0 <= i < elements.len() {
            elements[i]
        } else {
            Json::Null
        },
        _ => Json::Null,
    }
}

/// The text that a value is, if it is one.
pub open spec fn text(json: Json) -> Option<Seq<char>> {
    match json {
        Json::Text(t) => Some(t),
        _ => None,
    }
}

/// The unsigned 64-bit integer that a value is, if it is one.
pub open spec fn unsigned(json: Json) -> Option<u64> {
    match json {
        Json::Unsigned(n) => Some(n),
        _ => None,
    }
}

/// `serde_json::from_slice`: the document that the bytes spell, or the message of the error.
/// What is an error and what it says is left to the name `parsed`.
#[verifier::external_body]
pub(crate) fn parse(bytes: &[u8]) -> (document: Result<serde_json::Value, String>)
    ensures
        outcome(document) == parsed(bytes@),
{
    serde_json::from_slice(bytes).map_err(|e| e.to_string())
}

/// `Value::index` with a key: the value for it, or null where there is none.
#[verifier::external_body]
pub(crate) fn get_member<'a>(document: &'a serde_json::Value, key: &str) -> (value: &'a serde_json::Value)
    ensures
        contents(*value) == member(contents(*document), key@),
{
    &document[key]
}

/// `Value::index` with a position: the value there, or null where there is none.
#[verifier::external_body]
pub(crate) fn get_element(document: &serde_json::Value, i: usize) -> (value: &serde_json::Value)
    ensures
        contents(*value) == element(contents(*document), i as int),
{
    &document[i]
}

/// `Value::as_str`: the text that the value is, if it is one.
#[verifier::external_body]
pub(crate) fn as_text(document: &serde_json::Value) -> (value: Option<&str>)
    ensures
        value is Some == text(contents(*document)) is Some,
        value matches Some(t) ==> text(contents(*document)) == Some(t@),
{
    document.as_str()
}

/// `Value::as_u64`: the unsigned 64-bit integer that the value is, if it is one.
#[verifier::external_body]
pub(crate) fn as_unsigned(document: &serde_json::Value) -> (value: Option<u64>)
    ensures
        value == unsigned(contents(*document)),
{
    document.as_u64()
}

} // verus!
