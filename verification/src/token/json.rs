//! Members of a JSON object, read by `serde_json`.

use vstd::prelude::*;

verus! {

/// The string that the JSON document `document` holds under `key`, as
/// `serde_json` reads it: `None` where the bytes are no JSON document, the
/// document is no object, it has no such member, or the member is no
/// string. Of several members with one name `serde_json` keeps the last.
pub uninterp spec fn json_string_member(document: Seq<u8>, key: Seq<char>) -> Option<Seq<char>>;

/// The integer that the JSON document `document` holds under `key`, as
/// `serde_json` reads it: `None` where the bytes are no JSON document, the
/// document is no object, it has no such member, or the member is not an
/// integer that fits in 64 bits.
pub uninterp spec fn json_integer_member(document: Seq<u8>, key: Seq<char>) -> Option<i64>;

/// Calls `serde_json::from_slice` for a `serde_json::Value`, then
/// `Value::get` and `Value::as_str` on it. Trusted: what comes back
/// depends on the document and the key alone, so it is given the name
/// `json_string_member`; nothing else is claimed of it.
#[verifier::external_body]
pub(crate) fn read_string_member(document: &[u8], key: &str) -> (found: Option<String>)
    ensures
        match found {
            Some(text) => json_string_member(document@, key@) == Some(text@),
            None => json_string_member(document@, key@) is None,
        },
{
    let value: serde_json::Value = serde_json::from_slice(document).ok()?;
    Some(value.get(key)?.as_str()?.to_owned())
}

/// Calls `serde_json::from_slice` for a `serde_json::Value`, then
/// `Value::get` and `Value::as_i64` on it. Trusted: what comes back
/// depends on the document and the key alone, so it is given the name
/// `json_integer_member`; nothing else is claimed of it.
#[verifier::external_body]
pub(crate) fn read_integer_member(document: &[u8], key: &str) -> (found: Option<i64>)
    ensures
        found == json_integer_member(document@, key@),
{
    let value: serde_json::Value = serde_json::from_slice(document).ok()?;
    value.get(key)?.as_i64()
}

} // verus!
