//! Parsed JSON.
//!
//! Parsing is `serde_json`'s. What a parsed value holds is a [`JsonTree`].
use vstd::prelude::*;

use crate::number::Number;

verus! {

/// A parsed value.
#[verifier::external_type_specification]
#[verifier::external_body]
pub struct ExValue(serde_json::Value);

/// What a parsed value holds.
pub enum JsonTree {
    Text(Seq<char>),
    /// A number, where it has a double-precision value.
    Number(Option<Number>),
    List(Seq<JsonTree>),
    Object(Map<Seq<char>, JsonTree>),
    /// A boolean or null.
    Other,
}

/// What a parsed value holds.
pub uninterp spec fn json_tree(value: serde_json::Value) -> JsonTree;

/// What `serde_json::from_str` makes of a text.
pub uninterp spec fn json_of(text: Seq<char>) -> Option<JsonTree>;

/// `serde_json::from_str`: what it makes of a text, or nothing where the text
/// is not JSON.
#[verifier::external_body]
pub(crate) fn parse_json(text: &str) -> (r: Option<serde_json::Value>)
    ensures
        match r {
            Some(v) => json_of(text@) == Some(json_tree(v)),
            None => json_of(text@) is None,
        },
{
    match serde_json::from_str::<serde_json::Value>(text) {
        Ok(v) => Some(v),
        Err(_) => None,
    }
}

/// `serde_json::Value::get` with a key: the member of an object, and nothing
/// for any other value or an object without that member.
#[verifier::external_body]
pub(crate) fn json_member<'a>(value: &'a serde_json::Value, key: &str) -> (r: Option<
    &'a serde_json::Value,
>)
    ensures
        match r {
            Some(v) => json_tree(*value) is Object && json_tree(*value)->Object_0.dom().contains(
                key@,
            ) && json_tree(*value)->Object_0[key@] == json_tree(*v),
            None => !(json_tree(*value) is Object) || !json_tree(*value)->Object_0.dom().contains(
                key@,
            ),
        },
{
    value.get(key)
}

/// `serde_json::Value::as_array`: the items of a list, in order, and nothing
/// for any other value.
#[verifier::external_body]
pub(crate) fn json_items<'a>(value: &'a serde_json::Value) -> (r: Option<
    &'a Vec<serde_json::Value>,
>)
    ensures
        match r {
            Some(v) => json_tree(*value) is List && json_tree(*value)->List_0 == v@.map_values(
                |item: serde_json::Value| json_tree(item),
            ),
            None => !(json_tree(*value) is List),
        },
{
    value.as_array()
}

/// `serde_json::Value::as_str`: a text, and nothing for any other value.
#[verifier::external_body]
pub(crate) fn json_text<'a>(value: &'a serde_json::Value) -> (r: Option<&'a str>)
    ensures
        match r {
            Some(s) => json_tree(*value) == JsonTree::Text(s@),
            None => !(json_tree(*value) is Text),
        },
{
    value.as_str()
}

/// `serde_json::Value::as_f64`, by its bit pattern: the double-precision value
/// of a number that has one, and nothing for any other value.
#[verifier::external_body]
pub(crate) fn json_number(value: &serde_json::Value) -> (r: Option<Number>)
    ensures
        match json_tree(*value) {
            JsonTree::Number(n) => r == n,
            _ => r is None,
        },
{
    match value.as_f64() {
        Some(v) => Some(Number { bits: v.to_bits() }),
        None => None,
    }
}

} // verus!
