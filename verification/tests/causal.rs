use syncer_rs::{
    CausalEnvelopeError,
    CausalDisposition, CausalEnvelope, CausalOperation, JsonValue, VersionRelation, VersionVector,
    VersionVectorError, CAUSAL_SCHEMA_VERSION,
};

fn vector(entries: &[(&str, u64)]) -> VersionVector {
    VersionVector::from_entries(
        entries
            .iter()
            .map(|(replica, counter)| ((*replica).to_owned(), *counter))
            .collect(),
    )
    .unwrap_or_else(|error| panic!("test vector failed: {}", error.message()))
}

fn payload() -> JsonValue {
    JsonValue::Object(vec![("title".to_owned(), JsonValue::String("offline".to_owned()))])
}

#[test]
fn vector_relations_cover_equal_before_after_and_concurrent() {
    let base = vector(&[("phone", 2), ("desktop", 1)]);
    assert_eq!(base.relation(&base), VersionRelation::Equal);
    assert_eq!(
        base.relation(&vector(&[("phone", 3), ("desktop", 1)])),
        VersionRelation::Before
    );
    assert_eq!(
        base.relation(&vector(&[("phone", 1), ("desktop", 1)])),
        VersionRelation::After
    );
    assert_eq!(
        base.relation(&vector(&[("phone", 1), ("desktop", 2)])),
        VersionRelation::Concurrent
    );
}

#[test]
fn merge_and_observe_are_monotonic_and_idempotent() {
    let mut local = vector(&[("phone", 2)]);
    let remote = vector(&[("phone", 1), ("desktop", 4)]);
    assert_eq!(local.merge(&remote), Ok(true));
    assert_eq!(local.get("phone"), 2);
    assert_eq!(local.get("desktop"), 4);
    assert_eq!(local.merge(&remote), Ok(false));
    assert!(local.dominates(&remote));
}

#[test]
fn disposition_distinguishes_replay_stale_advance_and_conflict() {
    let checkpoint = vector(&[("phone", 2), ("desktop", 1)]);
    let mut equal = CausalEnvelope {
        schema_version: CAUSAL_SCHEMA_VERSION.to_owned(),
        document_id: "doc".to_owned(),
        mutation_id: "same".to_owned(),
        replica_id: "phone".to_owned(),
        clock: checkpoint.clone(),
        operation: CausalOperation::Upsert(JsonValue::Object(vec![])),
    };
    assert_eq!(
        equal.disposition_against(&checkpoint),
        CausalDisposition::Duplicate
    );

    equal.clock = vector(&[("phone", 1), ("desktop", 1)]);
    assert_eq!(
        equal.disposition_against(&checkpoint),
        CausalDisposition::Stale
    );

    equal.clock = vector(&[("phone", 3), ("desktop", 1)]);
    assert_eq!(
        equal.disposition_against(&checkpoint),
        CausalDisposition::Apply
    );

    equal.clock = vector(&[("phone", 1), ("desktop", 2)]);
    assert_eq!(
        equal.disposition_against(&checkpoint),
        CausalDisposition::ResolveConcurrent
    );
}

#[test]
fn acknowledgement_merges_only_after_acceptance() {
    let mut producer_clock = vector(&[("phone", 4)]);
    let envelope = CausalEnvelope::upsert(
        "doc",
        "mutation-5",
        "desktop",
        &mut producer_clock,
        JsonValue::Object(vec![("value".to_owned(), JsonValue::Number("5".to_owned()))]),
    )
    .unwrap_or_else(|error| panic!("envelope failed: {}", error.message()));
    let mut checkpoint = vector(&[("phone", 2)]);
    assert_eq!(
        envelope.disposition_against(&checkpoint),
        CausalDisposition::Apply
    );
    assert_eq!(envelope.acknowledge_into(&mut checkpoint), Ok(true));
    assert_eq!(checkpoint.get("phone"), 4);
    assert_eq!(checkpoint.get("desktop"), 1);
}

#[test]
fn envelopes_advance_the_clock_and_tombstones_validate() {
    let mut clock = VersionVector::new();
    let upsert = CausalEnvelope::upsert("notes/42", "mutation-1", "phone", &mut clock, payload())
        .unwrap_or_else(|error| panic!("upsert failed: {}", error.message()));
    assert_eq!(upsert.actor_counter(), 1);
    assert_eq!(clock.get("phone"), 1);
    assert_eq!(upsert.validate(), Ok(()));

    let delete = CausalEnvelope::<JsonValue>::delete("notes/42", "mutation-2", "phone", &mut clock)
        .unwrap_or_else(|error| panic!("delete failed: {}", error.message()));
    assert!(delete.is_delete());
    assert_eq!(delete.actor_counter(), 2);
    assert_eq!(delete.validate(), Ok(()));
}

#[test]
fn vectors_refuse_zero_counters_and_invalid_replica_ids() {
    assert_eq!(
        VersionVector::from_entries(vec![("phone".to_owned(), 0)]),
        Err(VersionVectorError::ZeroCounter("phone".to_owned()))
    );
    assert_eq!(
        VersionVector::from_entries(vec![("phone space".to_owned(), 1)]),
        Err(VersionVectorError::InvalidReplicaId("phone space".to_owned()))
    );
    let mut v = VersionVector::new();
    assert_eq!(
        v.increment("bad id"),
        Err(VersionVectorError::InvalidReplicaId("bad id".to_owned()))
    );
    assert_eq!(v.observe("phone", u64::MAX), Ok(true));
    assert_eq!(
        v.increment("phone"),
        Err(VersionVectorError::CounterOverflow("phone".to_owned()))
    );
    assert_eq!(v.get("phone"), u64::MAX);
}

#[test]
fn join_is_commutative_on_examples() {
    let a = vector(&[("phone", 3), ("desktop", 1)]);
    let b = vector(&[("desktop", 5), ("watch", 2)]);
    let (ab, changed_ab) = a.joined(&b).unwrap();
    let (ba, changed_ba) = b.joined(&a).unwrap();
    assert!(changed_ab && changed_ba);
    assert_eq!(ab.relation(&ba), VersionRelation::Equal);
    assert_eq!(ab.get("phone"), 3);
    assert_eq!(ab.get("desktop"), 5);
    assert_eq!(ab.get("watch"), 2);
    let (again, changed) = ab.joined(&ab).unwrap();
    assert!(!changed);
    assert_eq!(again, ab);
}

#[test]
fn iteration_is_sorted_by_replica_id() {
    let v = vector(&[("zeta", 1), ("alpha", 2), ("mid", 3)]);
    let entries = v.iter();
    let names: Vec<&str> = entries.iter().map(|(name, _)| name.as_str()).collect();
    assert_eq!(names, vec!["alpha", "mid", "zeta"]);
    assert_eq!(v.len(), 3);
    assert!(!v.is_empty());
    assert!(VersionVector::new().is_empty());
}

#[test]
fn error_messages_quote_the_replica() {
    assert_eq!(
        VersionVectorError::ZeroCounter("phone".to_owned()).message(),
        "replica \"phone\" has a zero counter"
    );
    assert_eq!(
        VersionVectorError::TooManyReplicas { maximum: 1024 }.message(),
        "version vector exceeds 1024 replicas"
    );
}

#[test]
fn relations_are_dual_and_joins_associate_on_examples() {
    let a = vector(&[("phone", 2), ("desktop", 1)]);
    let b = vector(&[("phone", 1), ("desktop", 3)]);
    let c = vector(&[("watch", 7)]);
    assert_eq!(a.relation(&b), VersionRelation::Concurrent);
    assert_eq!(b.relation(&a), VersionRelation::Concurrent);
    let before = vector(&[("phone", 2), ("desktop", 2)]);
    assert_eq!(a.relation(&before), VersionRelation::Before);
    assert_eq!(before.relation(&a), VersionRelation::After);

    let (ab, _) = a.joined(&b).unwrap();
    let (ab_c, _) = ab.joined(&c).unwrap();
    let (bc, _) = b.joined(&c).unwrap();
    let (a_bc, _) = a.joined(&bc).unwrap();
    assert_eq!(ab_c, a_bc);
    assert!(ab_c.dominates(&a) && ab_c.dominates(&b) && ab_c.dominates(&c));

    let mut observed = vector(&[("phone", 2)]);
    assert_eq!(observed.observe("phone", 5), Ok(true));
    assert_eq!(observed.observe("phone", 5), Ok(false));
    assert_eq!(observed.observe("phone", 3), Ok(false));
    assert_eq!(observed.get("phone"), 5);
}

#[test]
fn too_many_replicas_are_refused() {
    let entries: Vec<(String, u64)> = (0..1025).map(|i| (format!("r{i}"), 1)).collect();
    assert_eq!(
        VersionVector::from_entries(entries),
        Err(VersionVectorError::TooManyReplicas { maximum: 1024 })
    );
    let full: Vec<(String, u64)> = (0..1024).map(|i| (format!("r{i}"), 1)).collect();
    let mut v = VersionVector::from_entries(full).unwrap();
    assert_eq!(
        v.increment("another"),
        Err(VersionVectorError::TooManyReplicas { maximum: 1024 })
    );
    assert_eq!(v.increment("r7"), Ok(2));
}

#[test]
fn envelope_validation_names_each_fault() {
    let mut clock = VersionVector::new();
    assert_eq!(
        CausalEnvelope::upsert("", "m", "phone", &mut clock, payload()),
        Err(CausalEnvelopeError::InvalidDocumentId)
    );
    assert_eq!(
        CausalEnvelope::upsert("doc", " ", "phone", &mut clock, payload()),
        Err(CausalEnvelopeError::InvalidMutationId)
    );
    assert_eq!(
        CausalEnvelope::upsert("doc", "m", "bad id", &mut clock, payload()),
        Err(CausalEnvelopeError::VersionVector(VersionVectorError::InvalidReplicaId(
            "bad id".to_owned()
        )))
    );
    assert!(clock.is_empty());

    let mut envelope = CausalEnvelope::upsert("doc", "m", "phone", &mut clock, payload()).unwrap();
    envelope.schema_version = "other".to_owned();
    assert_eq!(
        envelope.validate(),
        Err(CausalEnvelopeError::UnsupportedSchema("other".to_owned()))
    );
    envelope.schema_version = CAUSAL_SCHEMA_VERSION.to_owned();
    envelope.replica_id = "desktop".to_owned();
    assert_eq!(
        envelope.validate(),
        Err(CausalEnvelopeError::MissingActorCounter("desktop".to_owned()))
    );
    assert_eq!(
        CausalEnvelopeError::InvalidDocumentId.message(),
        "document id must be 1..=512 bytes without control characters"
    );
}

/// A tombstone's wire form, as the host boundary writes it.
fn tombstone_json(envelope: &CausalEnvelope<JsonValue>) -> String {
    assert!(envelope.is_delete());
    let clock: serde_json::Map<String, serde_json::Value> = envelope
        .clock
        .iter()
        .into_iter()
        .map(|(replica, counter)| (replica, serde_json::Value::from(counter)))
        .collect();
    let mut operation = serde_json::Map::new();
    operation.insert("kind".to_owned(), serde_json::Value::from("delete"));
    let mut m = serde_json::Map::new();
    m.insert("schemaVersion".to_owned(), serde_json::Value::from(envelope.schema_version.clone()));
    m.insert("documentId".to_owned(), serde_json::Value::from(envelope.document_id.clone()));
    m.insert("mutationId".to_owned(), serde_json::Value::from(envelope.mutation_id.clone()));
    m.insert("replicaId".to_owned(), serde_json::Value::from(envelope.replica_id.clone()));
    m.insert("clock".to_owned(), serde_json::Value::Object(clock));
    m.insert("operation".to_owned(), serde_json::Value::Object(operation));
    serde_json::to_string(&serde_json::Value::Object(m))
        .unwrap_or_else(|error| panic!("serialization failed: {error}"))
}

/// Reads a tombstone back from its wire form; its clock goes through the
/// vector constructor.
fn tombstone_from_json(text: &str) -> CausalEnvelope<JsonValue> {
    let value: serde_json::Value = serde_json::from_str(text)
        .unwrap_or_else(|error| panic!("deserialization failed: {error}"));
    let field = |name: &str| value[name].as_str().expect("string field").to_owned();
    assert_eq!(value["operation"]["kind"], "delete");
    let entries: Vec<(String, u64)> = value["clock"]
        .as_object()
        .expect("clock object")
        .iter()
        .map(|(replica, counter)| (replica.clone(), counter.as_u64().expect("counter")))
        .collect();
    CausalEnvelope {
        schema_version: field("schemaVersion"),
        document_id: field("documentId"),
        mutation_id: field("mutationId"),
        replica_id: field("replicaId"),
        clock: VersionVector::from_entries(entries)
            .unwrap_or_else(|error| panic!("deserialization failed: {}", error.message())),
        operation: CausalOperation::Delete,
    }
}

#[test]
fn envelope_creation_advances_clock_and_tombstones_round_trip() {
    let mut clock = VersionVector::new();
    let upsert = CausalEnvelope::upsert("notes/42", "mutation-1", "phone", &mut clock, payload())
        .unwrap_or_else(|error| panic!("upsert failed: {}", error.message()));
    assert_eq!(upsert.actor_counter(), 1);
    assert_eq!(clock.get("phone"), 1);
    assert_eq!(upsert.validate(), Ok(()));

    let delete = CausalEnvelope::<JsonValue>::delete("notes/42", "mutation-2", "phone", &mut clock)
        .unwrap_or_else(|error| panic!("delete failed: {}", error.message()));
    assert!(delete.is_delete());
    assert_eq!(delete.actor_counter(), 2);

    let encoded = tombstone_json(&delete);
    let decoded = tombstone_from_json(&encoded);
    assert_eq!(decoded, delete);
    assert_eq!(decoded.validate(), Ok(()));
}
