//! The calls into `serde_json`: reading JSON text into its normalized compact
//! form, and comparing two number texts as the doubles they denote.
use vstd::prelude::*;

use serde::Deserialize;

use crate::compact::{numbers_ok, write_json};
use crate::json::Json;
use crate::text::Order;

verus! {

/// `serde_json`'s error type, carried through without being looked into.
#[verifier::external_type_specification]
#[verifier::external_body]
pub struct ExJsonError(serde_json::Error);

/// The compact text that `serde_json` writes for the document it reads from
/// `text` (`None` when it refuses the text).
pub uninterp spec fn json_normalized(text: Seq<char>) -> Option<Seq<char>>;

/// How the doubles that two number texts denote compare (`None` when a text
/// is not a number, or the doubles are unordered).
pub uninterp spec fn double_order(left: Seq<char>, right: Seq<char>) -> Option<Order>;

/// The compact text that `serde_json::from_str` and `serde_json::to_string`
/// give for `text`, with `serde_json`'s default nesting limit (`None` when
/// it refuses the text).
pub uninterp spec fn json_normalized_limited(text: Seq<char>) -> Option<Seq<char>>;

/// The order with its sides swapped.
pub open spec fn swapped(o: Option<Order>) -> Option<Order> {
    match o {
        Some(Order::Less) => Some(Order::Greater),
        Some(Order::Greater) => Some(Order::Less),
        other => other,
    }
}

/// The text is the compact rendering of some document whose numbers are
/// well-formed number texts.
pub open spec fn is_compact_document(s: Seq<char>) -> bool {
    exists|v: Json| numbers_ok(v) && #[trigger] write_json(v, false) == s
}

/// Reads `text` with `serde_json` (no nesting limit, nothing but white space
/// after the document) and writes the document back with
/// `serde_json::to_string`.
///
/// Trusted: the result is the named `json_normalized(text)`, and what
/// `serde_json` writes for a `Value` is compact JSON: `null`, `true`,
/// `false`, integers and shortest round-trip doubles that match the JSON
/// number grammar, strings with `"`, `\` and control characters escaped
/// (`\b \t \n \f \r`, else `\u00xx`), arrays and objects with no white space.
/// Which texts it refuses is not stated.
#[verifier::external_body]
pub(crate) fn normalize_json(text: &str) -> (r: Result<String, serde_json::Error>)
    ensures
        r is Ok <==> json_normalized(text@) is Some,
        r matches Ok(s) ==> json_normalized(text@) == Some(s@) && is_compact_document(s@),
{
    let mut deserializer = serde_json::Deserializer::from_str(text);
    deserializer.disable_recursion_limit();
    let value = serde_json::Value::deserialize(&mut deserializer)?;
    deserializer.end()?;
    serde_json::to_string(&value)
}

/// Reads `text` with `serde_json::from_str` into a `Value` (nesting limited
/// to `serde_json`'s default, nothing but white space after the document)
/// and writes it back with `serde_json::to_string`.
///
/// Trusted: the result is the named `json_normalized_limited(text)`, and it
/// is compact JSON as `normalize_json` describes. Which texts it refuses is
/// not stated.
#[verifier::external_body]
pub(crate) fn normalize_json_limited(text: &str) -> (r: Result<String, serde_json::Error>)
    ensures
        r is Ok <==> json_normalized_limited(text@) is Some,
        r matches Ok(s) ==> json_normalized_limited(text@) == Some(s@) && is_compact_document(s@),
{
    let value = serde_json::from_str::<serde_json::Value>(text)?;
    serde_json::to_string(&value)
}

/// Parses both texts as `serde_json::Number`, converts them with `as_f64`
/// and compares the doubles with `partial_cmp`.
///
/// Trusted: the result is the named `double_order(left, right)`. Both texts
/// are read the same way each time and `partial_cmp` on doubles is a partial
/// order, so a text compares equal to itself whenever the comparison is
/// defined, and swapping the texts swaps the result.
#[verifier::external_body]
pub(crate) fn compare_as_doubles(left: &str, right: &str) -> (r: Option<Order>)
    ensures
        r == double_order(left@, right@),
        left@ == right@ && r is Some ==> r == Some(Order::Equal),
        double_order(right@, left@) == swapped(r),
{
    let l = left.parse::<serde_json::Number>().ok()?.as_f64()?;
    let r = right.parse::<serde_json::Number>().ok()?.as_f64()?;
    match l.partial_cmp(&r)? {
        std::cmp::Ordering::Less => Some(Order::Less),
        std::cmp::Ordering::Equal => Some(Order::Equal),
        std::cmp::Ordering::Greater => Some(Order::Greater),
    }
}

/// The `Display` text of a `serde_json` error.
///
/// Trusted: nothing is stated of the text.
#[verifier::external_body]
pub(crate) fn error_text(error: &serde_json::Error) -> (r: String) {
    error.to_string()
}

} // verus!
