use syncer_rs::{
    merge_json, observation_of, ArrayMergeStrategy, MergeErrorCode, MergeOperation, MergeOptions,
    MergeOutcome, MERGE_OBSERVATION_SCHEMA_VERSION,
};

#[test]
fn observations_follow_the_result_and_the_options() {
    let options = MergeOptions {
        array_strategy: ArrayMergeStrategy::MergeByKey,
        resolve_by_timestamp: true,
        detect_circular_refs: true,
        lww_keys: Some("privateUpdatedAt".to_owned()),
        ..MergeOptions::default()
    };
    let ok = merge_json(r#"{"secret":"base"}"#, r#"{"secret":"incoming"}"#, &options);
    let observation = observation_of(MergeOperation::MergeJson, true, true, &options, &ok);
    assert_eq!(observation.schema_version, MERGE_OBSERVATION_SCHEMA_VERSION);
    assert_eq!(observation.outcome, MergeOutcome::Succeeded);
    assert_eq!(observation.error_code, None);
    assert_eq!(observation.array_strategy, 4);
    assert!(observation.resolve_by_timestamp);
    assert!(observation.detect_circular_refs);
    assert!(observation.base_present && observation.incoming_present);

    let rejected = merge_json("{bad", "{}", &MergeOptions::default());
    let observation = observation_of(
        MergeOperation::MergeOptionalJson,
        true,
        false,
        &MergeOptions::default(),
        &rejected,
    );
    assert_eq!(observation.operation, MergeOperation::MergeOptionalJson);
    assert_eq!(observation.outcome, MergeOutcome::Rejected);
    assert_eq!(observation.error_code, Some(MergeErrorCode::InvalidBaseJson));
    assert!(!observation.incoming_present);
}
