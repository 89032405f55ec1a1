//! What the library takes from `serde_json`: reading members of a reply, and
//! writing a list of strings.

use vstd::prelude::*;

verus! {

/// A parsed JSON value.
#[verifier::external_type_specification]
#[verifier::external_body]
pub struct ExValue(serde_json::Value);

/// What `serde_json::Value::get` finds under a member name.
pub uninterp spec fn json_member(value: serde_json::Value, name: Seq<char>) -> Option<
    serde_json::Value,
>;

/// What `serde_json::Value::as_str` returns.
pub uninterp spec fn json_str(value: serde_json::Value) -> Option<Seq<char>>;

/// What `serde_json::Value::as_u64` returns.
pub uninterp spec fn json_u64(value: serde_json::Value) -> Option<u64>;

/// The text that a `serde_json::Value` is displayed as.
pub uninterp spec fn json_display(value: serde_json::Value) -> Seq<char>;

/// What `serde_json::to_string` writes for a list of strings.
pub uninterp spec fn json_string_array(items: Seq<Seq<char>>) -> Seq<char>;

/// `serde_json::Value::get` with a string: the member of that name, or nothing
/// where the value is no object or has no such member.
#[verifier::external_body]
pub(crate) fn member<'a>(value: &'a serde_json::Value, name: &str) -> (found: Option<
    &'a serde_json::Value,
>)
    ensures
        match found {
            Some(v) => json_member(*value, name@) == Some(*v),
            None => json_member(*value, name@) is None,
        },
{
    value.get(name)
}

/// `serde_json::Value::as_str`: the text of a JSON string, nothing otherwise.
#[verifier::external_body]
pub(crate) fn as_text<'a>(value: &'a serde_json::Value) -> (text: Option<&'a str>)
    ensures
        match text {
            Some(t) => json_str(*value) == Some(t@),
            None => json_str(*value) is None,
        },
{
    value.as_str()
}

/// `serde_json::Value::as_u64`: the number, where it is an integer in range.
#[verifier::external_body]
pub(crate) fn as_number(value: &serde_json::Value) -> (number: Option<u64>)
    ensures
        number == json_u64(*value),
{
    value.as_u64()
}

/// The `Display` text of a `serde_json::Value`, which is its compact JSON.
#[verifier::external_body]
pub(crate) fn display(value: &serde_json::Value) -> (text: String)
    ensures
        text@ == json_display(*value),
{
    value.to_string()
}

/// The error of `serde_json`.
#[verifier::external_type_specification]
#[verifier::external_body]
pub struct ExError(serde_json::Error);

/// `serde_json::to_string` of a list of strings. It fails only where a
/// `Serialize` implementation does or where a map has keys that are no
/// strings; a list of strings is neither.
#[verifier::external_body]
pub(crate) fn string_array(items: &Vec<String>) -> (text: Result<String, serde_json::Error>)
    ensures
        match text {
            Ok(t) => t@ == json_string_array(items.deep_view()),
            Err(_) => false,
        },
{
    serde_json::to_string(items)
}

} // verus!
