//! JSON values, as the `serde_json` crate parses them.
use vstd::prelude::*;

verus! {

/// A JSON value.
#[verifier::external_type_specification]
#[verifier::external_body]
pub struct ExJsonValue(serde_json::Value);

/// What `serde_json` says of bytes that are no JSON.
#[verifier::external_type_specification]
#[verifier::external_body]
pub struct ExJsonError(serde_json::Error);

/// The value that `serde_json::from_slice` reads from bytes.
pub uninterp spec fn json_value(bytes: Seq<u8>) -> Option<serde_json::Value>;

/// The member of an object under a key; null where there is none.
pub uninterp spec fn json_member(value: serde_json::Value, key: Seq<char>) -> serde_json::Value;

/// Whether an object has a member under a key, if only null.
pub uninterp spec fn json_has(value: serde_json::Value, key: Seq<char>) -> bool;

/// The text of a string.
pub uninterp spec fn json_text(value: serde_json::Value) -> Option<Seq<char>>;

/// The number that a value is, where it is a natural number below 2 to the
/// 64th.
pub uninterp spec fn json_u64(value: serde_json::Value) -> Option<u64>;

/// The number that a value is, where it is an integer of 64 bits.
pub uninterp spec fn json_i64(value: serde_json::Value) -> Option<i64>;

/// The truth value that a value is.
pub uninterp spec fn json_bool(value: serde_json::Value) -> Option<bool>;

/// The items of an array.
pub uninterp spec fn json_items(value: serde_json::Value) -> Option<Seq<serde_json::Value>>;

/// `serde_json::from_slice` into a `Value`: what it accepts, and what it
/// reads, depends on the bytes alone.
#[verifier::external_body]
pub(crate) fn parse_json(bytes: &[u8]) -> (r: Result<serde_json::Value, serde_json::Error>)
    ensures
        match r {
            Ok(v) => json_value(bytes@) == Some(v),
            Err(_) => json_value(bytes@) is None,
        },
{
    serde_json::from_slice(bytes)
}

/// Indexing a `serde_json::Value` by a string never fails: what is missing is
/// null.
#[verifier::external_body]
pub(crate) fn member<'a>(value: &'a serde_json::Value, key: &str) -> (r: &'a serde_json::Value)
    ensures
        *r == json_member(*value, key@),
{
    &value[key]
}

/// `serde_json::Value::get` finds something under the key.
#[verifier::external_body]
pub(crate) fn has_member(value: &serde_json::Value, key: &str) -> (r: bool)
    ensures
        r == json_has(*value, key@),
{
    value.get(key).is_some()
}

/// `serde_json::Value::as_str`.
#[verifier::external_body]
pub(crate) fn text_of(value: &serde_json::Value) -> (r: Option<&str>)
    ensures
        match r {
            Some(t) => json_text(*value) == Some(t@),
            None => json_text(*value) is None,
        },
{
    value.as_str()
}

/// `serde_json::Value::as_u64`.
#[verifier::external_body]
pub(crate) fn natural_of(value: &serde_json::Value) -> (r: Option<u64>)
    ensures
        r == json_u64(*value),
{
    value.as_u64()
}

/// `serde_json::Value::as_i64`.
#[verifier::external_body]
pub(crate) fn integer_of(value: &serde_json::Value) -> (r: Option<i64>)
    ensures
        r == json_i64(*value),
{
    value.as_i64()
}

/// `serde_json::Value::as_bool`.
#[verifier::external_body]
pub(crate) fn truth_of(value: &serde_json::Value) -> (r: Option<bool>)
    ensures
        r == json_bool(*value),
{
    value.as_bool()
}

/// `serde_json::Value::as_array`.
#[verifier::external_body]
pub(crate) fn items_of(value: &serde_json::Value) -> (r: Option<&Vec<serde_json::Value>>)
    ensures
        match r {
            Some(items) => json_items(*value) == Some(items@),
            None => json_items(*value) is None,
        },
{
    value.as_array()
}

/// A value as compact JSON text.
pub uninterp spec fn json_display(value: serde_json::Value) -> Seq<char>;

/// `serde_json::Value::to_string` writes a value as compact JSON.
#[verifier::external_body]
pub(crate) fn display_of(value: &serde_json::Value) -> (r: String)
    ensures
        r@ == json_display(*value),
{
    value.to_string()
}

/// The text under `key`, or `default` where there is none.
pub open spec fn text_member(value: serde_json::Value, key: Seq<char>, default: Seq<char>) -> Seq<
    char,
> {
    match json_text(json_member(value, key)) {
        Some(t) => t,
        None => default,
    }
}

/// The text under `key`, or `default` where there is none.
pub(crate) fn text_at_key(value: &serde_json::Value, key: &str, default: &str) -> (r: String)
    ensures
        r@ == text_member(*value, key@, default@),
{
    match text_of(member(value, key)) {
        Some(t) => crate::text::copy_text(t),
        None => crate::text::copy_text(default),
    }
}

/// The items under `key`; none where there is no array.
pub open spec fn items_member(value: serde_json::Value, key: Seq<char>) -> Seq<serde_json::Value> {
    match json_items(json_member(value, key)) {
        Some(items) => items,
        None => Seq::empty(),
    }
}

} // verus!
