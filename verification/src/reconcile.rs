//! Reconciling JSON texts: reading both documents, merging them and writing
//! the result as canonical compact JSON.
use vstd::prelude::*;
use vstd::string::StringExecFns;

use crate::compact::{write_json, write_value};
use crate::json::{Json, JsonValue};
use crate::merge::{merge_values, merged, ArrayMergeStrategy, MergeOptions};
use crate::reader::{document_of, read_document};
use crate::scalar::{int_text, integer_text};
use crate::serde_support::{error_text, json_normalized, normalize_json};
use crate::text::{chars_of, join, string_from_chars};

verus! {

/// Version shared by the Rust, C ABI and WebAssembly surfaces.
pub const VERSION: &'static str = "0.2.1";

/// A malformed input or an unsupported option.
#[derive(Debug)]
pub enum MergeError {
    InvalidBase(serde_json::Error),
    InvalidIncoming(serde_json::Error),
    Serialization(serde_json::Error),
    InvalidArrayStrategy(i32),
    InvalidOptions(String),
}

impl ArrayMergeStrategy {
    /// The strategy's code on the wire: `0` to `4` in declaration order.
    pub open spec fn spec_code(self) -> i32 {
        match self {
            ArrayMergeStrategy::Replace => 0,
            ArrayMergeStrategy::Append => 1,
            ArrayMergeStrategy::Union => 2,
            ArrayMergeStrategy::MergeByIndex => 3,
            ArrayMergeStrategy::MergeByKey => 4,
        }
    }

    /// The strategy's code on the wire.
    pub fn code(self) -> (r: i32)
        ensures
            r == self.spec_code(),
    {
        match self {
            ArrayMergeStrategy::Replace => 0,
            ArrayMergeStrategy::Append => 1,
            ArrayMergeStrategy::Union => 2,
            ArrayMergeStrategy::MergeByIndex => 3,
            ArrayMergeStrategy::MergeByKey => 4,
        }
    }

}

/// The strategy with a wire code.
pub open spec fn strategy_of_code(value: i32) -> ArrayMergeStrategy {
    if value == 0 {
        ArrayMergeStrategy::Replace
    } else if value == 1 {
        ArrayMergeStrategy::Append
    } else if value == 2 {
        ArrayMergeStrategy::Union
    } else if value == 3 {
        ArrayMergeStrategy::MergeByIndex
    } else {
        ArrayMergeStrategy::MergeByKey
    }
}

impl TryFrom<i32> for ArrayMergeStrategy {
    type Error = MergeError;

    /// The strategy with a wire code; codes outside `0..=4` are refused.
    fn try_from(value: i32) -> (r: Result<Self, MergeError>) {
        if value == 0 {
            Ok(ArrayMergeStrategy::Replace)
        } else if value == 1 {
            Ok(ArrayMergeStrategy::Append)
        } else if value == 2 {
            Ok(ArrayMergeStrategy::Union)
        } else if value == 3 {
            Ok(ArrayMergeStrategy::MergeByIndex)
        } else if value == 4 {
            Ok(ArrayMergeStrategy::MergeByKey)
        } else {
            Err(MergeError::InvalidArrayStrategy(value))
        }
    }
}

impl vstd::std_specs::convert::TryFromSpecImpl<i32> for ArrayMergeStrategy {
    open spec fn obeys_try_from_spec() -> bool {
        true
    }

    open spec fn try_from_spec(value: i32) -> Result<Self, MergeError> {
        if 0 <= value <= 4 {
            Ok(strategy_of_code(value))
        } else {
            Err(MergeError::InvalidArrayStrategy(value))
        }
    }
}

impl MergeError {
    /// The error's message; it holds no document content.
    pub fn message(&self) -> (r: String)
        ensures
            self matches MergeError::InvalidBase(_) ==> r@.len() >= "base is not valid JSON: "@.len()
                && r@.subrange(0, "base is not valid JSON: "@.len() as int)
                == "base is not valid JSON: "@,
            self matches MergeError::InvalidIncoming(_) ==> r@.len()
                >= "incoming is not valid JSON: "@.len() && r@.subrange(
                0,
                "incoming is not valid JSON: "@.len() as int,
            ) == "incoming is not valid JSON: "@,
            self matches MergeError::Serialization(_) ==> r@.len()
                >= "could not serialize merged JSON: "@.len() && r@.subrange(
                0,
                "could not serialize merged JSON: "@.len() as int,
            ) == "could not serialize merged JSON: "@,
            self matches MergeError::InvalidArrayStrategy(v) ==> r@ == "array strategy "@ + int_text(
                v as int,
            ) + " is outside the supported range 0..=4"@,
            self matches MergeError::InvalidOptions(m) ==> r@ == "invalid merge options: "@ + m@,
    {
        match self {
            MergeError::InvalidBase(e) => {
                let r = join("base is not valid JSON: ", error_text(e).as_str());
                proof {
                    assert(r@.subrange(0, "base is not valid JSON: "@.len() as int)
                        =~= "base is not valid JSON: "@);
                }
                r
            },
            MergeError::InvalidIncoming(e) => {
                let r = join("incoming is not valid JSON: ", error_text(e).as_str());
                proof {
                    assert(r@.subrange(0, "incoming is not valid JSON: "@.len() as int)
                        =~= "incoming is not valid JSON: "@);
                }
                r
            },
            MergeError::Serialization(e) => {
                let r = join("could not serialize merged JSON: ", error_text(e).as_str());
                proof {
                    assert(r@.subrange(0, "could not serialize merged JSON: "@.len() as int)
                        =~= "could not serialize merged JSON: "@);
                }
                r
            },
            MergeError::InvalidArrayStrategy(value) => {
                let digits = integer_text(*value as i128);
                let number = string_from_chars(digits.as_slice());
                let head = join("array strategy ", number.as_str());
                join(head.as_str(), " is outside the supported range 0..=4")
            },
            MergeError::InvalidOptions(message) => join(
                "invalid merge options: ",
                message.as_str(),
            ),
        }
    }
}

/// The document that `serde_json` reads from a text: the one document whose
/// compact text is what `serde_json` writes back for it (`None` for a text
/// that `serde_json` refuses).
pub open spec fn parsed(text: Seq<char>) -> Option<Json> {
    match json_normalized(text) {
        Some(s) => Some(document_of(s)),
        None => None,
    }
}

/// Reads a JSON text into a document.
pub(crate) fn parse_json(text: &str) -> (r: Result<JsonValue, serde_json::Error>)
    ensures
        r is Ok <==> parsed(text@) is Some,
        r matches Ok(v) ==> parsed(text@) == Some(v@),
{
    match normalize_json(text) {
        Ok(normalized) => {
            let chars = chars_of(normalized.as_str());
            Ok(read_document(&chars))
        },
        Err(e) => Err(e),
    }
}

/// The canonical compact text of a document.
fn canonical_text(v: &JsonValue) -> (r: String)
    ensures
        r@ == write_json(v@, true),
{
    let mut out: Vec<char> = Vec::new();
    write_value(v, true, &mut out);
    proof {
        assert(out@ =~= write_json(v@, true));
    }
    string_from_chars(out.as_slice())
}

/// The document given for one side: `None` when the side is absent.
pub open spec fn side(text: Option<&str>) -> Option<Json> {
    match text {
        Some(t) => parsed(t@),
        None => None,
    }
}

/// The side is absent or holds JSON.
pub open spec fn side_ok(text: Option<&str>) -> bool {
    match text {
        Some(t) => parsed(t@) is Some,
        None => true,
    }
}

/// The result of reconciling the documents that are present: the merge of
/// both, the one that is present, or nothing.
pub open spec fn reconciled(base: Option<Json>, incoming: Option<Json>, o: MergeOptions) -> Option<
    Json,
> {
    match (base, incoming) {
        (Some(b), Some(i)) => Some(merged(b, i, o, 0)),
        (Some(b), None) => Some(b),
        (None, Some(i)) => Some(i),
        (None, None) => None,
    }
}

/// Reconciles optional JSON texts and writes the result as canonical compact
/// JSON. A present side that is not JSON is an error (the base is checked
/// first); with one side present, that side is normalized; `Ok(None)` only
/// when both sides are absent.
pub fn merge_optional_json(base: Option<&str>, incoming: Option<&str>, options: &MergeOptions) -> (r:
    Result<Option<String>, MergeError>)
    ensures
        !side_ok(base) ==> r matches Err(MergeError::InvalidBase(_)),
        side_ok(base) && !side_ok(incoming) ==> r matches Err(MergeError::InvalidIncoming(_)),
        side_ok(base) && side_ok(incoming) ==> (r matches Ok(out) && match reconciled(
            side(base),
            side(incoming),
            *options,
        ) {
            Some(doc) => (out matches Some(s) && s@ == write_json(doc, true)),
            None => out is None,
        }),
{
    let base_value = match base {
        Some(text) => match parse_json(text) {
            Ok(v) => Some(v),
            Err(e) => {
                return Err(MergeError::InvalidBase(e));
            },
        },
        None => None,
    };
    let incoming_value = match incoming {
        Some(text) => match parse_json(text) {
            Ok(v) => Some(v),
            Err(e) => {
                return Err(MergeError::InvalidIncoming(e));
            },
        },
        None => None,
    };
    let merged_value = match (base_value, incoming_value) {
        (None, None) => {
            return Ok(None);
        },
        (Some(b), None) => b,
        (None, Some(i)) => i,
        (Some(b), Some(i)) => merge_values(b, &i, options),
    };
    Ok(Some(canonical_text(&merged_value)))
}

/// Reconciles two JSON texts and writes the result as canonical compact JSON.
pub fn merge_json(base: &str, incoming: &str, options: &MergeOptions) -> (r: Result<
    String,
    MergeError,
>)
    ensures
        match (parsed(base@), parsed(incoming@)) {
            (None, _) => r matches Err(MergeError::InvalidBase(_)),
            (Some(_), None) => r matches Err(MergeError::InvalidIncoming(_)),
            (Some(b), Some(i)) => (r matches Ok(s) && s@ == write_json(merged(b, i, *options, 0), true)),
        },
{
    match merge_optional_json(Some(base), Some(incoming), options) {
        Ok(Some(s)) => Ok(s),
        Ok(None) => Err(
            MergeError::InvalidOptions(String::from_str("both inputs were absent")),
        ),
        Err(e) => Err(e),
    }
}

} // verus!
