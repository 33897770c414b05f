use serde_json::Value;
use syncer_rs::scalar::compare_timestamp_strings;
use syncer_rs::text::Order;
use syncer_rs::values::{
    compare_timestamps, identity_values_equal, numbers_equal, resolve_selector_in,
    values_deep_equal,
};
use syncer_rs::{merge_json, merge_optional_json, merge_values, JsonValue, MergeError, MergeOptions};

fn to_doc(v: &Value) -> JsonValue {
    match v {
        Value::Null => JsonValue::Null,
        Value::Bool(b) => JsonValue::Bool(*b),
        Value::Number(n) => JsonValue::Number(n.to_string()),
        Value::String(s) => JsonValue::String(s.clone()),
        Value::Array(a) => JsonValue::Array(a.iter().map(to_doc).collect()),
        Value::Object(o) => {
            JsonValue::Object(o.iter().map(|(k, v)| (k.clone(), to_doc(v))).collect())
        }
    }
}

fn doc(text: &str) -> JsonValue {
    to_doc(&serde_json::from_str::<Value>(text).unwrap())
}

fn members(v: &JsonValue) -> &Vec<(String, JsonValue)> {
    match v {
        JsonValue::Object(m) => m,
        _ => panic!("not an object"),
    }
}

fn chars(s: &str) -> Vec<char> {
    s.chars().collect()
}

#[test]
fn timestamp_digit_strings_compare_numerically() {
    assert_eq!(compare_timestamp_strings("9", "10"), Order::Less);
    assert_eq!(compare_timestamp_strings("00010", "10"), Order::Equal);
}

#[test]
fn structural_equality_ignores_object_key_order() {
    let left = doc(r#"{"id":"c","v":3}"#);
    let right = doc(r#"{"v":3.0,"id":"c"}"#);
    assert!(values_deep_equal(&left, &right));
}

#[test]
fn json_pointer_timestamp_selector_works() {
    let options = MergeOptions {
        resolve_by_timestamp: true,
        lww_keys: Some("#/_sync/updatedAt".to_owned()),
        ..MergeOptions::default()
    };
    let base = doc(r#"{"doc":{"_sync":{"updatedAt":20},"value":"base"}}"#);
    let incoming = doc(r#"{"doc":{"_sync":{"updatedAt":10},"value":"incoming"}}"#);
    assert_eq!(merge_values(base.clone(), &incoming, &options), base);
}

#[test]
fn json_pointer_decodes_slashes_tildes_and_array_indices() {
    let value = doc(r#"{"metadata":{"a/b":[{"~stamp":42}]}}"#);
    let object = members(&value);
    assert_eq!(
        resolve_selector_in(object, &chars("#/metadata/a~1b/0/~0stamp")),
        Some(&doc("42"))
    );
    assert_eq!(resolve_selector_in(object, &chars("#/metadata/a~2b")), None);
    assert_eq!(resolve_selector_in(object, &chars("#/metadata/a~1b/00")), None);
}

#[test]
fn timestamp_strings_fall_back_to_text_order() {
    assert_eq!(compare_timestamp_strings("b", "a"), Order::Greater);
    assert_eq!(compare_timestamp_strings("10", "9a"), Order::Less);
    assert_eq!(compare_timestamp_strings("000", "0"), Order::Equal);
    assert_eq!(compare_timestamp_strings("", "0"), Order::Less);
}

#[test]
fn timestamps_of_mixed_kinds_compare_by_decimal_text() {
    assert_eq!(compare_timestamps(&doc("10"), &doc(r#""9""#)), Some(Order::Greater));
    assert_eq!(compare_timestamps(&doc(r#""10""#), &doc("10")), Some(Order::Equal));
    assert_eq!(compare_timestamps(&doc("1.5"), &doc("2")), Some(Order::Less));
    assert_eq!(compare_timestamps(&doc("true"), &doc("2")), None);
    assert_eq!(compare_timestamps(&doc("1.5"), &doc(r#""2""#)), None);
    assert_eq!(
        compare_timestamps(&doc("-9223372036854775808"), &doc("18446744073709551615")),
        Some(Order::Less)
    );
}

#[test]
fn identities_match_across_numbers_and_strings() {
    assert!(identity_values_equal(&doc("42"), &doc(r#""42""#)));
    assert!(identity_values_equal(&doc(r#""42""#), &doc("42")));
    assert!(!identity_values_equal(&doc("42"), &doc(r#""042""#)));
    assert!(identity_values_equal(&doc("-7"), &doc("-7")));
    assert!(!identity_values_equal(&doc("1.5"), &doc("1.50000001")));
    assert!(identity_values_equal(&doc(r#"{"a":[1]}"#), &doc(r#"{"a":[1]}"#)));
    assert!(!identity_values_equal(&doc(r#"{"a":1,"b":2}"#), &doc(r#"{"b":2,"a":1}"#)));
}

#[test]
fn numbers_compare_by_value() {
    assert!(numbers_equal(&"1".to_owned(), &"1.0".to_owned()));
    assert!(numbers_equal(&"100".to_owned(), &"1e2".to_owned()));
    assert!(!numbers_equal(&"9007199254740993".to_owned(), &"9007199254740992".to_owned()));
    assert!(!numbers_equal(&"0.1".to_owned(), &"0.2".to_owned()));
}

#[test]
fn deep_equality_needs_equal_sizes_and_kinds() {
    assert!(!values_deep_equal(&doc(r#"{"a":1}"#), &doc(r#"{"a":1,"b":2}"#)));
    assert!(!values_deep_equal(&doc("[1,2]"), &doc("[2,1]")));
    assert!(values_deep_equal(&doc("[1,[2,{\"x\":null}]]"), &doc("[1.0,[2,{\"x\":null}]]")));
    assert!(!values_deep_equal(&doc("null"), &doc("false")));
    assert!(!values_deep_equal(&doc(r#""1""#), &doc("1")));
}

#[test]
fn pointer_selectors_reach_nested_array_members() {
    let value = doc(r#"{"a":{"list":[10,{"b":[7]}]},"plain":1}"#);
    let object = members(&value);
    assert_eq!(resolve_selector_in(object, &chars("#/a/list/1/b/0")), Some(&doc("7")));
    assert_eq!(resolve_selector_in(object, &chars("#/a/list/2")), None);
    assert_eq!(resolve_selector_in(object, &chars("#/plain/x")), None);
    assert_eq!(resolve_selector_in(object, &chars("plain")), Some(&doc("1")));
    assert_eq!(resolve_selector_in(object, &chars("#/a/list/+1/b/0")), Some(&doc("7")));
}

#[test]
fn one_sided_merges_normalize_the_present_side() {
    let options = MergeOptions::default();
    assert_eq!(
        merge_optional_json(Some(r#"{ "a" : 1e2 , "b":[ ] }"#), None, &options).unwrap(),
        Some(r#"{"a":100.0,"b":[]}"#.to_owned())
    );
    assert_eq!(
        merge_optional_json(None, Some(r#" "x\u0001" "#), &options).unwrap(),
        Some(r#""x\u0001""#.to_owned())
    );
    assert_eq!(merge_optional_json(None, None, &options).unwrap(), None);
    assert!(matches!(
        merge_optional_json(Some("{"), Some("oops"), &options),
        Err(MergeError::InvalidBase(_))
    ));
    assert!(matches!(
        merge_optional_json(None, Some("oops"), &options),
        Err(MergeError::InvalidIncoming(_))
    ));
}

#[test]
fn duplicate_keys_keep_the_last_value_in_the_first_place() {
    assert_eq!(
        merge_json(r#"{"a":1,"b":2,"a":3}"#, "{}", &MergeOptions::default()).unwrap(),
        r#"{"a":3,"b":2}"#
    );
}

#[test]
fn strings_keep_their_escapes_through_a_merge() {
    assert_eq!(
        merge_json(r#"{"s":"a\"b\\c\n\t\u0000é"}"#, r#"{"t":"\/"}"#, &MergeOptions::default())
            .unwrap(),
        "{\"s\":\"a\\\"b\\\\c\\n\\t\\u0000é\",\"t\":\"/\"}"
    );
}

#[test]
fn error_messages_name_the_failing_side() {
    let base_error = merge_json("{oops", "{}", &MergeOptions::default()).unwrap_err();
    assert!(base_error.message().starts_with("base is not valid JSON: "));
    let incoming_error = merge_json("{}", "[oops", &MergeOptions::default()).unwrap_err();
    assert!(incoming_error.message().starts_with("incoming is not valid JSON: "));
    assert_eq!(
        MergeError::InvalidArrayStrategy(7).message(),
        "array strategy 7 is outside the supported range 0..=4"
    );
    assert_eq!(
        MergeError::InvalidOptions("x".to_owned()).message(),
        "invalid merge options: x"
    );
}

#[test]
fn integer_text_covers_the_whole_range() {
    let text: String = syncer_rs::scalar::integer_text(i128::MIN).into_iter().collect();
    assert_eq!(text, i128::MIN.to_string());
    let text: String = syncer_rs::scalar::integer_text(i128::MAX).into_iter().collect();
    assert_eq!(text, i128::MAX.to_string());
    let text: String = syncer_rs::scalar::integer_text(-7).into_iter().collect();
    assert_eq!(text, "-7");
}
