use serde_json::Value;
use syncer_rs::{
    first_unknown_option, is_merge_option_key, merge_json_with_schema_options,
    parse_merge_options_json, ArrayMergeStrategy,
    CanonicalMergeOptions, MergeError, MergeOptions, MERGE_OPTION_KEYS,
};

#[test]
fn empty_and_complete_objects_follow_cross_language_defaults() {
    assert_eq!(
        parse_merge_options_json("{}").expect("empty options are valid"),
        MergeOptions::default()
    );

    let options = parse_merge_options_json(
        r#"{"arrayStrategy":4,"maxDepth":3,"resolveByTimestamp":true,"detectCircularRefs":true,
            "lwwKeys":"updatedAt","fwwKeys":"createdAt","arrayMatchKeys":"uuid,id"}"#,
    )
    .expect("complete canonical options are valid");
    assert_eq!(options.array_strategy, ArrayMergeStrategy::MergeByKey);
    assert_eq!(options.max_depth, 3);
    assert!(options.resolve_by_timestamp);
    assert!(options.detect_circular_refs);
    assert_eq!(options.lww_keys.as_deref(), Some("updatedAt"));
    assert_eq!(options.fww_keys.as_deref(), Some("createdAt"));
    assert_eq!(options.array_match_keys.as_deref(), Some("uuid,id"));

    let mathematical_integers =
        parse_merge_options_json(r#"{"arrayStrategy":4.0,"maxDepth":3e0}"#)
            .expect("JSON Schema integers may use a zero fractional or exponent form");
    assert_eq!(
        mathematical_integers.array_strategy,
        ArrayMergeStrategy::MergeByKey
    );
    assert_eq!(mathematical_integers.max_depth, 3);
}

#[test]
fn validator_rejects_unknown_keys_types_ranges_and_non_objects() {
    for invalid in [
        r#"{"array_strategy":1}"#,
        r#"{"arrayStrategyy":1}"#,
        r#"{"arrayStrategy":-1}"#,
        r#"{"arrayStrategy":5}"#,
        r#"{"arrayStrategy":"1"}"#,
        r#"{"arrayStrategy":1.5}"#,
        r#"{"maxDepth":4294967296}"#,
        r#"{"maxDepth":1.5}"#,
        r#"{"resolveByTimestamp":"yes"}"#,
        r#"{"detectCircularRefs":"yes"}"#,
        "null",
        "[]",
    ] {
        assert!(
            parse_merge_options_json(invalid).is_err(),
            "invalid options unexpectedly passed: {invalid}"
        );
    }
}

#[test]
fn schema_options_drive_the_normal_merge_core() {
    let merged = merge_json_with_schema_options(
        r#"{"items":[{"id":1,"left":true}]}"#,
        r#"{"items":[{"id":1,"right":true}]}"#,
        r#"{"arrayStrategy":4}"#,
    )
    .expect("schema-validated merge must succeed");
    assert_eq!(
        serde_json::from_str::<Value>(&merged).expect("merge output must be JSON"),
        serde_json::from_str::<Value>(r#"{"items":[{"id":1,"left":true,"right":true}]}"#).unwrap()
    );
}

#[test]
fn strategy_codes_outside_the_range_are_their_own_error() {
    assert!(matches!(
        parse_merge_options_json(r#"{"arrayStrategy":5}"#),
        Err(MergeError::InvalidArrayStrategy(5))
    ));
    assert!(matches!(
        parse_merge_options_json(r#"{"arrayStrategy":-1}"#),
        Err(MergeError::InvalidArrayStrategy(-1))
    ));
    assert!(matches!(
        parse_merge_options_json(r#"{"arrayStrategy":-0.0}"#),
        Ok(MergeOptions { array_strategy: ArrayMergeStrategy::Replace, .. })
    ));
    assert!(matches!(
        parse_merge_options_json(r#"{"maxDepth":4294967295}"#),
        Ok(MergeOptions { max_depth: 4294967295, .. })
    ));
    assert!(matches!(
        parse_merge_options_json(r#"{"arrayStrategy":2147483648}"#),
        Err(MergeError::InvalidOptions(_))
    ));
    assert!(matches!(
        parse_merge_options_json(r#"{"fwwKeys":null,"lwwKeys":"a"}"#),
        Ok(MergeOptions { fww_keys: None, .. })
    ));
    assert!(matches!(
        parse_merge_options_json(r#"{"lwwKeys":1}"#),
        Err(MergeError::InvalidOptions(_))
    ));
    assert!(matches!(
        parse_merge_options_json("{"),
        Err(MergeError::InvalidOptions(_))
    ));
}

#[test]
fn options_convert_to_and_from_the_boundary_form() {
    let options = MergeOptions {
        array_strategy: ArrayMergeStrategy::MergeByIndex,
        max_depth: 2,
        resolve_by_timestamp: true,
        detect_circular_refs: true,
        lww_keys: Some("updatedAt".to_owned()),
        fww_keys: None,
        array_match_keys: Some("id".to_owned()),
    };
    let wire = CanonicalMergeOptions::from(&options);
    assert_eq!(wire.array_strategy, 3);
    assert_eq!(wire.max_depth, 2);
    assert_eq!(wire.fww_keys, None);
    assert_eq!(MergeOptions::try_from(wire.clone()).unwrap(), options);
    let bad = CanonicalMergeOptions { array_strategy: 9, ..wire };
    assert!(matches!(MergeOptions::try_from(bad), Err(MergeError::InvalidArrayStrategy(9))));
    assert_eq!(MERGE_OPTION_KEYS.len(), 7);
    assert_eq!(MERGE_OPTION_KEYS[0], "arrayStrategy");
}

#[test]
fn strategy_codes_round_trip() {
    for code in 0..=4 {
        let strategy = ArrayMergeStrategy::try_from(code).unwrap();
        assert_eq!(strategy.code(), code);
    }
    assert!(matches!(
        ArrayMergeStrategy::try_from(-3),
        Err(MergeError::InvalidArrayStrategy(-3))
    ));
}

#[test]
fn unknown_option_keys_are_found_in_order() {
    let keys: Vec<String> = vec!["maxDepth".to_owned(), "lwwKeys".to_owned()];
    assert_eq!(first_unknown_option(&keys), None);
    let keys: Vec<String> = vec![
        "maxDepth".to_owned(),
        "max_depth".to_owned(),
        "bogus".to_owned(),
    ];
    assert_eq!(first_unknown_option(&keys), Some(1));
    assert_eq!(first_unknown_option(&Vec::new()), None);
    for key in MERGE_OPTION_KEYS {
        assert!(is_merge_option_key(&key.to_owned()));
    }
    assert!(!is_merge_option_key(&"array_strategy".to_owned()));
}

#[test]
fn options_nested_past_the_parser_limit_are_refused() {
    let deep = format!(
        "{{\"lwwKeys\":{}{}}}",
        "[".repeat(200),
        "]".repeat(200)
    );
    match parse_merge_options_json(&deep) {
        Err(MergeError::InvalidOptions(message)) => {
            assert!(message.contains("recursion limit exceeded"), "{message}");
        }
        other => panic!("expected invalid options, got {other:?}"),
    }
}
