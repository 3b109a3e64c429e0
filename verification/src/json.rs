use vstd::prelude::*;

use vstd::utf8::encode_utf8;

use crate::nix::views;

verus! {

#[verifier::external_type_specification]
#[verifier::external_body]
pub struct ExJsonError(serde_json::Error);

/// The list of strings that the JSON text `text` denotes, as serde_json reads a
/// `Vec<String>` from it; `None` where it denotes none (malformed JSON, or a
/// value that is not an array of strings).
pub uninterp spec fn json_string_list(text: Seq<char>) -> Option<Seq<Seq<char>>>;

/// Reads a JSON array of strings with `serde_json::from_str::<Vec<String>>`.
/// Claimed of it: it succeeds exactly where `json_string_list` has a value, and
/// then returns those strings; the parse depends on the text alone.
#[verifier::external_body]
pub(crate) fn parse_string_list(text: &str) -> (res: Result<Vec<String>, serde_json::Error>)
    ensures
        match json_string_list(text@) {
            Some(list) => res is Ok && views(res->Ok_0@) == list,
            None => res is Err,
        },
{
    serde_json::from_str::<Vec<String>>(text)
}

/// The message of a serde_json error (its `Display` text). Nothing is claimed
/// of the message.
#[verifier::external_body]
pub(crate) fn json_error_message(e: &serde_json::Error) -> (message: String) {
    e.to_string()
}

/// The kind of a JSON read error (serde_json's `Category`).
#[derive(Debug, Clone, Copy, PartialEq, Eq)]
pub enum JsonErrorCategory {
    Io,
    Syntax,
    Data,
    Eof,
}

/// The category of a serde_json error (`serde_json::Error::classify`). Nothing
/// is claimed of which category comes out.
#[verifier::external_body]
pub(crate) fn json_error_category(e: &serde_json::Error) -> (category: JsonErrorCategory) {
    match e.classify() {
        serde_json::error::Category::Io => JsonErrorCategory::Io,
        serde_json::error::Category::Syntax => JsonErrorCategory::Syntax,
        serde_json::error::Category::Data => JsonErrorCategory::Data,
        serde_json::error::Category::Eof => JsonErrorCategory::Eof,
    }
}

#[verifier::external_type_specification]
#[verifier::external_body]
pub struct ExJsonValue(serde_json::Value);

#[verifier::external_type_specification]
#[verifier::external_body]
#[verifier::reject_recursive_types(K)]
#[verifier::reject_recursive_types(V)]
pub struct ExJsonMap<K, V>(serde_json::Map<K, V>);

/// The top level of a JSON value: an array with its elements, an object with
/// its entries, a string, or any other value.
pub enum JsonTop {
    Array(Vec<serde_json::Value>),
    Object(serde_json::Map<String, serde_json::Value>),
    Text(String),
    Other,
}

/// The keys of a JSON object.
pub uninterp spec fn json_object_keys(m: serde_json::Map<String, serde_json::Value>) -> Set<Seq<char>>;

/// The kind and size of the top level of the JSON value that `text` denotes, as
/// serde_json reads a `Value` from it: kind 0 for an array (size: its
/// elements), 1 for an object (size: its keys), 2 for a string (size: its
/// UTF-8 bytes), 3 for any other value (size 0); `None` for malformed JSON.
pub uninterp spec fn json_top(text: Seq<char>) -> Option<(nat, nat)>;

/// Reads a JSON value with `serde_json::from_str::<serde_json::Value>` and
/// keeps its top level. Claimed of it: it fails exactly where `json_top` has
/// no value, and otherwise returns the kind that `json_top` names, whose size
/// is the element count, key count or UTF-8 length of the content returned.
#[verifier::external_body]
pub(crate) fn parse_json_top(text: &str) -> (res: Result<JsonTop, serde_json::Error>)
    ensures
        match json_top(text@) {
            None => res is Err,
            Some((kind, size)) => match res {
                Ok(JsonTop::Array(a)) => kind == 0 && a@.len() == size,
                Ok(JsonTop::Object(o)) => kind == 1 && json_object_keys(o).len() == size,
                Ok(JsonTop::Text(t)) => kind == 2 && encode_utf8(t@).len() == size && size <= usize::MAX,
                Ok(JsonTop::Other) => kind == 3 && size == 0,
                Err(_) => false,
            },
        },
{
    match serde_json::from_str::<serde_json::Value>(text) {
        Ok(serde_json::Value::Array(a)) => Ok(JsonTop::Array(a)),
        Ok(serde_json::Value::Object(o)) => Ok(JsonTop::Object(o)),
        Ok(serde_json::Value::String(t)) => Ok(JsonTop::Text(t)),
        Ok(_) => Ok(JsonTop::Other),
        Err(e) => Err(e),
    }
}

/// The number of entries of a JSON object (`serde_json::Map::len`): one per
/// key.
#[verifier::external_body]
pub(crate) fn json_object_len(m: &serde_json::Map<String, serde_json::Value>) -> (n: usize)
    ensures
        n == json_object_keys(*m).len(),
{
    m.len()
}

} // verus!
