//! The JSON reads the library relies on, each made by `serde_json` behind one
//! trusted wrapper from plain values to plain values. Their results are
//! named, not modelled: each name stands for what `serde_json` gives on
//! those arguments.
use vstd::prelude::*;

verus! {

/// For the bytes of a JSON document: `None` when `serde_json::from_slice`
/// refuses them, else the member `key` of the document read by `Value::as_u64`
/// (`None` when there is no such member or it is no `u64`).
pub uninterp spec fn json_u64_member(bytes: Seq<u8>, key: Seq<char>) -> Option<Option<u64>>;

/// For the bytes of a JSON document: `None` when `serde_json::from_slice`
/// refuses them, else the member `inner` of the member `outer` of the
/// document read by `Value::as_str` (`None` when either member is missing or
/// the value is no string).
pub uninterp spec fn json_nested_str(bytes: Seq<u8>, outer: Seq<char>, inner: Seq<char>) -> Option<
    Option<Seq<char>>,
>;

/// For the text of a JSON document: the `Display` text of the error of
/// `serde_json::from_str` when it refuses it, else the member `key` of the
/// document read by `Value::as_str` (`None` when there is no such member or
/// it is no string).
pub uninterp spec fn json_str_member(text: Seq<char>, key: Seq<char>) -> Result<
    Option<Seq<char>>,
    Seq<char>,
>;

/// `serde_json::from_slice::<Value>`, then `Index<&str>` and `Value::as_u64`
/// (indexing gives `Null` for a missing member or a non-object, and `Null`
/// reads as no number). The contract claims only that the result is the one
/// named by `json_u64_member` for these arguments.
#[verifier::external_body]
pub(crate) fn read_u64_member(bytes: &[u8], key: &str) -> (r: Option<Option<u64>>)
    ensures
        r == json_u64_member(bytes@, key@),
{
    match serde_json::from_slice::<serde_json::Value>(bytes) {
        Ok(doc) => Some(doc[key].as_u64()),
        Err(_) => None,
    }
}

/// `serde_json::from_slice::<Value>`, then `Index<&str>` twice and
/// `Value::as_str`, copied into a `String`. The contract claims only that the
/// result is the one named by `json_nested_str` for these arguments.
#[verifier::external_body]
pub(crate) fn read_nested_str(bytes: &[u8], outer: &str, inner: &str) -> (r: Option<
    Option<String>,
>)
    ensures
        match json_nested_str(bytes@, outer@, inner@) {
            None => r is None,
            Some(s) => r matches Some(x) && match x {
                Some(t) => s == Some(t@),
                None => s is None,
            },
        },
{
    match serde_json::from_slice::<serde_json::Value>(bytes) {
        Ok(doc) => Some(doc[outer][inner].as_str().map(str::to_string)),
        Err(_) => None,
    }
}

/// `serde_json::from_str::<Value>`, then `Index<&str>` and `Value::as_str`,
/// copied into a `String`; the error by its `Display` text. The contract
/// claims only that the result is the one named by `json_str_member` for
/// these arguments.
#[verifier::external_body]
pub(crate) fn read_str_member(text: &str, key: &str) -> (r: Result<Option<String>, String>)
    ensures
        match json_str_member(text@, key@) {
            Err(e) => r matches Err(m) && m@ == e,
            Ok(s) => r matches Ok(x) && match x {
                Some(t) => s == Some(t@),
                None => s is None,
            },
        },
{
    match serde_json::from_str::<serde_json::Value>(text) {
        Ok(doc) => Ok(doc[key].as_str().map(str::to_string)),
        Err(e) => Err(e.to_string()),
    }
}

} // verus!
