//! Value-oriented causal helpers for hosts that prefer immutable state flow.
//!
//! Every helper reads its inputs and returns a vector in independent storage,
//! so callers can express `next = transform(current)`.
use vstd::prelude::*;

use crate::causal::{
    envelope_built, envelope_error_is, error_is, from_fold, increment_fault, join_map,
    lemma_from_fold_of_entries, new_envelope_fault, observe_fault, observe_map, counter_of,
    CausalEnvelope, CausalEnvelopeError, CausalOperation, VectorFault, VersionVector,
    VersionVectorError, MAX_CAUSAL_REPLICAS,
};

verus! {

/// Result of advancing or joining a vector without mutating the input vector.
#[derive(Debug, Clone, PartialEq, Eq)]
pub struct VectorTransition {
    /// Fully independent next vector.
    pub next: VersionVector,
    /// Whether the transformation changed the logical vector.
    pub changed: bool,
}

/// Result of constructing a causal mutation from an immutable local clock.
#[derive(Debug, Clone, PartialEq, Eq)]
pub struct CausalWrite<T> {
    /// Wire envelope containing its own immutable causal snapshot.
    pub envelope: CausalEnvelope<T>,
    /// Independent next local clock to persist for subsequent writes.
    pub next_clock: VersionVector,
}

/// Returns a completely independent copy of `clock`, rebuilt from its
/// ordered entries.
pub fn independent_clock(clock: &VersionVector) -> (r: Result<VersionVector, VersionVectorError>)
    ensures
        r matches Ok(v) && v@ == clock@,
{
    clock.check_ok();
    let entries = clock.iter();
    proof {
        lemma_from_fold_of_entries(entries@);
    }
    VersionVector::from_entries(entries)
}

/// Advances one replica and returns a fresh vector plus the assigned counter.
pub fn incremented_clock(clock: &VersionVector, replica_id: &str) -> (r: Result<
    (VersionVector, u64),
    VersionVectorError,
>)
    ensures
        increment_fault(clock@, replica_id@) matches Some(f) ==> (r matches Err(e) && error_is(
            e,
            f,
            replica_id@,
        )),
        increment_fault(clock@, replica_id@) is None ==> (r matches Ok((v, c)) && c == (counter_of(
            clock@,
            replica_id@,
        ) + 1) as u64 && v@ == clock@.insert(replica_id@, c)),
{
    clock.incremented(replica_id)
}

/// Observes a counter and returns the next independent vector.
pub fn observed_clock(clock: &VersionVector, replica_id: &str, counter: u64) -> (r: Result<
    VectorTransition,
    VersionVectorError,
>)
    ensures
        observe_fault(clock@, replica_id@, counter) matches Some(f) ==> (r matches Err(e)
            && error_is(e, f, replica_id@)),
        observe_fault(clock@, replica_id@, counter) is None ==> (r matches Ok(t) && t.changed == (
        counter > counter_of(clock@, replica_id@)) && t.next@ == observe_map(
            clock@,
            replica_id@,
            counter,
        )),
{
    let (next, changed) = clock.observed(replica_id, counter)?;
    Ok(VectorTransition { next, changed })
}

/// Joins two clocks and returns a fresh vector instead of mutating either input.
pub fn merged_clock(clock: &VersionVector, other: &VersionVector) -> (r: Result<
    VectorTransition,
    VersionVectorError,
>)
    ensures
        join_map(clock@, other@).len() > MAX_CAUSAL_REPLICAS ==> (r matches Err(e) && error_is(
            e,
            VectorFault::TooManyReplicas,
            Seq::empty(),
        )),
        join_map(clock@, other@).len() <= MAX_CAUSAL_REPLICAS ==> (r matches Ok(t) && t.next@
            == join_map(clock@, other@) && t.changed == (join_map(clock@, other@) != clock@)),
{
    let (next, changed) = clock.joined(other)?;
    Ok(VectorTransition { next, changed })
}

/// Constructs an upsert envelope and next local clock without mutating `clock`.
pub fn causal_upsert<T>(
    document_id: &str,
    mutation_id: &str,
    replica_id: &str,
    clock: &VersionVector,
    payload: T,
) -> (r: Result<CausalWrite<T>, CausalEnvelopeError>)
    ensures
        new_envelope_fault(document_id@, mutation_id@, replica_id@, clock@) matches Some(f) ==> (r matches Err(
            e,
        ) && envelope_error_is(e, f, replica_id@)),
        new_envelope_fault(document_id@, mutation_id@, replica_id@, clock@) is None ==> (r matches Ok(
            w,
        ) && envelope_built(
            w.envelope,
            document_id@,
            mutation_id@,
            replica_id@,
            clock@,
            CausalOperation::Upsert(payload),
        ) && w.next_clock@ == w.envelope.clock@),
{
    causal_write(document_id, mutation_id, replica_id, clock, CausalOperation::Upsert(payload))
}

/// Constructs a delete envelope and next local clock without mutating `clock`.
pub fn causal_delete<T>(
    document_id: &str,
    mutation_id: &str,
    replica_id: &str,
    clock: &VersionVector,
) -> (r: Result<CausalWrite<T>, CausalEnvelopeError>)
    ensures
        new_envelope_fault(document_id@, mutation_id@, replica_id@, clock@) matches Some(f) ==> (r matches Err(
            e,
        ) && envelope_error_is(e, f, replica_id@)),
        new_envelope_fault(document_id@, mutation_id@, replica_id@, clock@) is None ==> (r matches Ok(
            w,
        ) && envelope_built(
            w.envelope,
            document_id@,
            mutation_id@,
            replica_id@,
            clock@,
            CausalOperation::Delete,
        ) && w.next_clock@ == w.envelope.clock@),
{
    causal_write(document_id, mutation_id, replica_id, clock, CausalOperation::Delete)
}

/// The envelope owns the advanced clock; the persisted next clock is an
/// independent copy of it, so neither aliases `clock`.
fn causal_write<T>(
    document_id: &str,
    mutation_id: &str,
    replica_id: &str,
    clock: &VersionVector,
    operation: CausalOperation<T>,
) -> (r: Result<CausalWrite<T>, CausalEnvelopeError>)
    ensures
        new_envelope_fault(document_id@, mutation_id@, replica_id@, clock@) matches Some(f) ==> (r matches Err(
            e,
        ) && envelope_error_is(e, f, replica_id@)),
        new_envelope_fault(document_id@, mutation_id@, replica_id@, clock@) is None ==> (r matches Ok(
            w,
        ) && envelope_built(w.envelope, document_id@, mutation_id@, replica_id@, clock@, operation)
            && w.next_clock@ == w.envelope.clock@),
{
    let envelope = CausalEnvelope::new(document_id, mutation_id, replica_id, clock, operation)?;
    let next_clock = envelope.clock.clone();
    Ok(CausalWrite { envelope, next_clock })
}

/// Returns a fresh acknowledged checkpoint instead of mutating `checkpoint`.
pub fn acknowledged_checkpoint<T>(envelope: &CausalEnvelope<T>, checkpoint: &VersionVector) -> (r:
    Result<VectorTransition, VersionVectorError>)
    ensures
        join_map(checkpoint@, envelope.clock@).len() > MAX_CAUSAL_REPLICAS ==> (r matches Err(e)
            && error_is(e, VectorFault::TooManyReplicas, Seq::empty())),
        join_map(checkpoint@, envelope.clock@).len() <= MAX_CAUSAL_REPLICAS ==> (r matches Ok(t)
            && t.next@ == join_map(checkpoint@, envelope.clock@) && t.changed == (join_map(
            checkpoint@,
            envelope.clock@,
        ) != checkpoint@)),
{
    let (next, changed) = envelope.acknowledged(checkpoint)?;
    Ok(VectorTransition { next, changed })
}

} // verus!
