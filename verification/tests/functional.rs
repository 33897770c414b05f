use syncer_rs::functional::{
    acknowledged_checkpoint, causal_delete, causal_upsert, incremented_clock, merged_clock,
};
use syncer_rs::{JsonValue, VersionVector};

fn vector(entries: &[(&str, u64)]) -> VersionVector {
    VersionVector::from_entries(
        entries
            .iter()
            .map(|(replica, counter)| ((*replica).to_owned(), *counter))
            .collect(),
    )
    .expect("valid test vector")
}

#[test]
fn increment_returns_fresh_clock_and_preserves_input() {
    let source_clock = vector(&[("desktop", 2)]);
    let (next, counter) = incremented_clock(&source_clock, "desktop").expect("increment");

    assert_eq!(counter, 3);
    assert_eq!(source_clock.get("desktop"), 2);
    assert_eq!(next.get("desktop"), 3);
}

#[test]
fn merge_returns_fresh_clock_and_preserves_both_inputs() {
    let local = vector(&[("desktop", 2)]);
    let remote = vector(&[("phone", 4)]);
    let transition = merged_clock(&local, &remote).expect("merge");

    assert!(transition.changed);
    assert_eq!(local.get("phone"), 0);
    assert_eq!(remote.get("desktop"), 0);
    assert_eq!(transition.next.get("desktop"), 2);
    assert_eq!(transition.next.get("phone"), 4);
}

#[test]
fn causal_write_returns_new_clock_without_touching_source() {
    let source_clock = vector(&[("desktop", 2)]);
    let write = causal_upsert(
        "notes/42",
        "mutation-1",
        "desktop",
        &source_clock,
        JsonValue::Object(vec![("title".to_owned(), JsonValue::String("offline".to_owned()))]),
    )
    .expect("causal write");

    assert_eq!(source_clock.get("desktop"), 2);
    assert_eq!(write.next_clock.get("desktop"), 3);
    assert_eq!(write.envelope.actor_counter(), 3);
    assert_eq!(write.envelope.clock, write.next_clock);
}

#[test]
fn acknowledging_returns_new_checkpoint_without_touching_source() {
    let checkpoint = vector(&[("desktop", 1)]);
    let source = vector(&[("desktop", 1)]);
    let write = causal_delete::<JsonValue>("notes/42", "mutation-2", "desktop", &source)
        .expect("delete");

    let transition = acknowledged_checkpoint(&write.envelope, &checkpoint).expect("acknowledge");
    assert!(transition.changed);
    assert_eq!(checkpoint.get("desktop"), 1);
    assert_eq!(transition.next.get("desktop"), 2);
}
