//! The two questions the library asks of a JSON document, answered by
//! `serde_json`.
use vstd::prelude::*;

verus! {

/// The member `key` of the JSON object `text`, when `text` parses as one and
/// that member is a string (its contents, with `true`) or a number (its
/// shortest form, with `false`).
pub uninterp spec fn json_field_of(text: Seq<char>, key: Seq<char>) -> Option<(Seq<char>, bool)>;

/// `text` re-serialised as compact JSON, when it parses.
pub uninterp spec fn json_compact_of(text: Seq<char>) -> Option<Seq<char>>;

pub open spec fn opt_chars(r: Option<String>) -> Option<Seq<char>> {
    match r {
        Some(s) => Some(s@),
        None => None,
    }
}

pub open spec fn field_chars(r: Option<(String, bool)>) -> Option<(Seq<char>, bool)> {
    match r {
        Some((s, b)) => Some((s@, b)),
        None => None,
    }
}

/// Relies on `serde_json::from_str` into a `Value` and `Value::get`: the
/// string or number stored under `key` in a JSON object, and whether it was
/// a string.
#[verifier::external_body]
pub(crate) fn json_field(text: &str, key: &str) -> (r: Option<(String, bool)>)
    ensures
        field_chars(r) == json_field_of(text@, key@),
{
    match serde_json::from_str::<serde_json::Value>(text) {
        Ok(v) => match v.get(key) {
            Some(serde_json::Value::String(s)) => Some((s.clone(), true)),
            Some(serde_json::Value::Number(n)) => Some((n.to_string(), false)),
            _ => None,
        },
        Err(_) => None,
    }
}

/// Relies on `serde_json::from_str` into a `Value` and `serde_json::to_string`:
/// the document in compact form, or nothing when it does not parse.
#[verifier::external_body]
pub(crate) fn json_compact(text: &str) -> (r: Option<String>)
    ensures
        opt_chars(r) == json_compact_of(text@),
{
    match serde_json::from_str::<serde_json::Value>(text) {
        Ok(v) => serde_json::to_string(&v).ok(),
        Err(_) => None,
    }
}

} // verus!
