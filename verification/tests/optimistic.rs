use syncer_rs::{
    CausalEnvelopeError, VersionVectorError,
    acknowledge_resolved, optimistic_code, receive_and_ack, record_delete, record_upsert, same_transaction_pair,
    CausalDisposition, JsonValue, OptimisticAck, OptimisticError, OptimisticWrite,
    VersionRelation, VersionVector, SYNCER_RS_OPT_ERR_CONFLICT, SYNCER_RS_OPT_ERR_INVALID,
    SYNCER_RS_OPT_ERR_MISSING_REPLICA, SYNCER_RS_OPT_ERR_STALE_VECTOR,
};

fn vector(entries: &[(&str, u64)]) -> VersionVector {
    VersionVector::from_entries(
        entries
            .iter()
            .map(|(replica, counter)| ((*replica).to_owned(), *counter))
            .collect(),
    )
    .unwrap_or_else(|error| panic!("test vector failed: {}", error.message()))
}

fn object(members: &[(&str, &str)]) -> JsonValue {
    JsonValue::Object(
        members
            .iter()
            .map(|(k, v)| ((*k).to_owned(), JsonValue::String((*v).to_owned())))
            .collect(),
    )
}

fn number_object(key: &str, n: &str) -> JsonValue {
    JsonValue::Object(vec![(key.to_owned(), JsonValue::Number(n.to_owned()))])
}

#[test]
fn record_increments_replica_and_snapshots_the_same_vector() {
    let local = vector(&[("phone", 2), ("desktop", 4)]);
    let write = record_upsert(
        "notes/42",
        "mutation-1",
        "desktop",
        &local,
        object(&[("title", "offline edit"), ("token", "s3cret-value")]),
    )
    .unwrap_or_else(|error| panic!("record failed: {}", error.message()));

    assert_eq!(write.snapshot().get("desktop"), 5);
    assert_eq!(write.snapshot().get("phone"), 2);
    assert_eq!(
        write.envelope().clock.relation(write.snapshot()),
        VersionRelation::Equal
    );
    assert_eq!(write.envelope().actor_counter(), 5);
    assert!(same_transaction_pair(&write));
    assert_eq!(local.get("desktop"), 4, "caller clock stays immutable");
}

#[test]
fn optimistic_write_plus_ack_converges_the_vector() {
    let local = vector(&[("phone", 2)]);
    let write = record_upsert(
        "notes/42",
        "mutation-3",
        "desktop",
        &local,
        object(&[("text", "draft")]),
    )
    .unwrap_or_else(|error| panic!("record failed: {}", error.message()));

    let checkpoint = vector(&[("phone", 2)]);
    let ack = receive_and_ack(write.envelope(), &checkpoint)
        .unwrap_or_else(|error| panic!("ack failed: {}", error.message()));
    assert!(matches!(ack, OptimisticAck::Applied { .. }));
    assert_eq!(
        write.snapshot().relation(ack.checkpoint()),
        VersionRelation::Equal
    );
    assert_eq!(ack.checkpoint().get("phone"), 2);
    assert_eq!(ack.checkpoint().get("desktop"), 1);
}

#[test]
fn persisted_pair_round_trips_only_when_snapshot_matches_envelope() {
    let write = record_upsert("doc", "m1", "phone", &VersionVector::new(), number_object("n", "1"))
        .unwrap_or_else(|error| panic!("record failed: {}", error.message()));
    let (envelope, snapshot) = write.into_persistable();
    let restored = OptimisticWrite::from_persisted(envelope.clone(), snapshot.clone())
        .unwrap_or_else(|error| panic!("restore failed: {}", error.message()));
    assert_eq!(restored.envelope(), &envelope);
    assert_eq!(restored.snapshot(), &snapshot);

    let drifted = vector(&[("phone", 9)]);
    assert_eq!(
        OptimisticWrite::from_persisted(envelope, drifted),
        Err(OptimisticError::StaleVector)
    );
}

#[test]
fn concurrent_receive_is_conflict_and_does_not_ack() {
    let local = vector(&[("phone", 2)]);
    let write = record_upsert("notes/1", "m-desk", "desktop", &local, number_object("v", "1"))
        .unwrap_or_else(|error| panic!("record failed: {}", error.message()));
    let checkpoint = vector(&[("phone", 3)]);
    assert_eq!(
        write.envelope().disposition_against(&checkpoint),
        CausalDisposition::ResolveConcurrent
    );
    assert_eq!(
        receive_and_ack(write.envelope(), &checkpoint),
        Err(OptimisticError::Conflict {
            document_id: "notes/1".to_owned(),
            mutation_id: "m-desk".to_owned(),
        })
    );
    assert_eq!(checkpoint.get("desktop"), 0);

    let resolved = acknowledge_resolved(write.envelope(), &checkpoint)
        .unwrap_or_else(|error| panic!("resolved ack failed: {}", error.message()));
    assert_eq!(resolved.get("phone"), 3);
    assert_eq!(resolved.get("desktop"), 1);
}

#[test]
fn stale_and_missing_replica_are_typed_errors() {
    let write = record_upsert("doc", "m-old", "phone", &VersionVector::new(), JsonValue::Object(vec![]))
        .unwrap_or_else(|error| panic!("record failed: {}", error.message()));
    let ahead = vector(&[("phone", 4)]);
    assert_eq!(
        receive_and_ack(write.envelope(), &ahead),
        Err(OptimisticError::StaleVector)
    );

    assert!(matches!(
        record_upsert("doc", "m2", "phone space", &VersionVector::new(), JsonValue::Object(vec![])),
        Err(OptimisticError::MissingReplica { .. })
    ));

    let mut envelope = write.envelope().clone();
    envelope.replica_id = "ghost".to_owned();
    assert!(matches!(
        receive_and_ack(&envelope, &VersionVector::new()),
        Err(OptimisticError::MissingReplica { replica_id }) if replica_id == "ghost"
    ));
}

#[test]
fn delete_tombstone_records_and_acks_like_an_upsert() {
    let write = record_delete::<JsonValue>("notes/42", "mutation-2", "phone", &vector(&[("phone", 1)]))
        .unwrap_or_else(|error| panic!("delete failed: {}", error.message()));
    assert!(write.envelope().is_delete());
    assert_eq!(write.snapshot().get("phone"), 2);
    let ack = receive_and_ack(write.envelope(), &vector(&[("phone", 1)]))
        .unwrap_or_else(|error| panic!("ack failed: {}", error.message()));
    assert_eq!(
        ack.checkpoint().relation(write.snapshot()),
        VersionRelation::Equal
    );
}

#[test]
fn duplicate_ack_is_idempotent() {
    let write = record_upsert("doc", "same", "phone", &VersionVector::new(), JsonValue::Object(vec![]))
        .unwrap_or_else(|error| panic!("record failed: {}", error.message()));
    let first = receive_and_ack(write.envelope(), &VersionVector::new())
        .unwrap_or_else(|error| panic!("first ack failed: {}", error.message()));
    let again = receive_and_ack(write.envelope(), first.checkpoint())
        .unwrap_or_else(|error| panic!("replay ack failed: {}", error.message()));
    assert!(matches!(again, OptimisticAck::Duplicate { .. }));
    assert_eq!(
        again.checkpoint().relation(first.checkpoint()),
        VersionRelation::Equal
    );
}

#[test]
fn display_never_includes_payload_secrets() {
    let secret = "s3cret-value";
    let write = record_upsert(
        "notes/42",
        "mutation-1",
        "desktop",
        &VersionVector::new(),
        object(&[("password", secret), ("token", "another-secret")]),
    )
    .unwrap_or_else(|error| panic!("record failed: {}", error.message()));
    let checkpoint = vector(&[("phone", 1)]);
    let error = receive_and_ack(write.envelope(), &checkpoint)
        .expect_err("concurrent write must conflict");
    let rendered = error.message();
    assert!(!rendered.contains(secret));
    assert!(!rendered.contains("password"));
    assert!(!rendered.contains("another-secret"));
    assert!(rendered.contains("notes/42"));
    assert!(rendered.contains("mutation-1"));
}

#[test]
fn acknowledge_resolved_rejects_non_concurrent_envelopes() {
    let write = record_upsert("doc", "m1", "phone", &VersionVector::new(), JsonValue::Object(vec![]))
        .unwrap_or_else(|error| panic!("record failed: {}", error.message()));
    assert_eq!(
        acknowledge_resolved(write.envelope(), &VersionVector::new()),
        Err(OptimisticError::Conflict {
            document_id: "doc".to_owned(),
            mutation_id: "m1".to_owned(),
        })
    );
}

#[test]
fn envelope_and_vector_faults_keep_their_kind() {
    assert_eq!(
        record_upsert("", "m", "phone", &VersionVector::new(), JsonValue::Null),
        Err(OptimisticError::Envelope(CausalEnvelopeError::InvalidDocumentId))
    );
    let saturated = vector(&[("phone", u64::MAX)]);
    assert_eq!(
        record_upsert("doc", "m", "phone", &saturated, JsonValue::Null),
        Err(OptimisticError::VersionVector(VersionVectorError::CounterOverflow(
            "phone".to_owned()
        )))
    );
    assert_eq!(
        OptimisticError::StaleVector.message(),
        "optimistic stale version vector"
    );
}

#[test]
fn each_optimistic_error_has_its_status_code() {
    let conflict = OptimisticError::Conflict {
        document_id: "doc".to_owned(),
        mutation_id: "m".to_owned(),
    };
    assert_eq!(optimistic_code(&conflict), SYNCER_RS_OPT_ERR_CONFLICT);
    assert_eq!(optimistic_code(&conflict), 1);
    let missing = OptimisticError::MissingReplica {
        replica_id: "phone".to_owned(),
    };
    assert_eq!(optimistic_code(&missing), SYNCER_RS_OPT_ERR_MISSING_REPLICA);
    assert_eq!(optimistic_code(&missing), 2);
    assert_eq!(optimistic_code(&OptimisticError::StaleVector), SYNCER_RS_OPT_ERR_STALE_VECTOR);
    assert_eq!(optimistic_code(&OptimisticError::StaleVector), 3);
    assert_eq!(
        optimistic_code(&OptimisticError::Envelope(CausalEnvelopeError::InvalidDocumentId)),
        SYNCER_RS_OPT_ERR_INVALID
    );
    assert_eq!(
        optimistic_code(&OptimisticError::VersionVector(VersionVectorError::CounterOverflow(
            "phone".to_owned()
        ))),
        4
    );
}
