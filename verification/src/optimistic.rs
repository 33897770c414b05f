//! Optimistic local writes for desktop and mobile hosts.
//!
//! This module is pure: it never opens databases, files, sockets, or a
//! logger. A host persists [`OptimisticWrite::into_persistable`] — the
//! envelope and the version-vector snapshot — in one local transaction.
use vstd::prelude::*;
use vstd::string::StringExecFns;

use crate::text::join;
use crate::causal::{
    disposition_from_relation, disposition_of, envelope_built, envelope_error_is, join_map,
    law_equal_relation_is_equality, lemma_join_dominated, new_envelope_fault, relation_of,
    validation_fault, vector_ok, CausalDisposition, CausalEnvelope, CausalEnvelopeError,
    CausalOperation, EnvelopeFault, VectorFault, VersionRelation, VersionVector,
    VersionVectorError, MAX_CAUSAL_REPLICAS,
};

verus! {

/// Typed failures for optimistic record and receive paths.
#[derive(Debug, Clone, PartialEq, Eq)]
pub enum OptimisticError {
    /// Incoming clock is concurrent; do not acknowledge until the product
    /// persists a resolved value.
    Conflict {
        /// Logical document key of the conflicting mutation.
        document_id: String,
        /// Client-generated idempotency key of the conflicting mutation.
        mutation_id: String,
    },
    /// Replica identifier is invalid, or the envelope clock has no actor
    /// counter for the declared replica.
    MissingReplica {
        /// Replica that was missing or rejected.
        replica_id: String,
    },
    /// Incoming clock is strictly behind the durable checkpoint, or a stored
    /// snapshot no longer matches its envelope.
    StaleVector,
    /// Envelope identity or schema validation failed.
    Envelope(CausalEnvelopeError),
    /// Version-vector bounds or arithmetic failed.
    VersionVector(VersionVectorError),
}

/// Status code: the optimistic call succeeded.
pub const SYNCER_RS_OPT_OK: i32 = 0;
/// Status code: concurrent clocks; the host must resolve before acknowledging.
pub const SYNCER_RS_OPT_ERR_CONFLICT: i32 = 1;
/// Status code: the replica id is invalid or the envelope clock has no actor counter.
pub const SYNCER_RS_OPT_ERR_MISSING_REPLICA: i32 = 2;
/// Status code: the incoming clock is behind the checkpoint, or a stored pair drifted.
pub const SYNCER_RS_OPT_ERR_STALE_VECTOR: i32 = 3;
/// Status code: JSON, UTF-8, a null pointer or other input validation failed.
pub const SYNCER_RS_OPT_ERR_INVALID: i32 = 4;
/// Status code: the call panicked; treat it as failed.
pub const SYNCER_RS_OPT_ERR_PANIC: i32 = 5;

/// The status code that an optimistic error is reported under.
pub open spec fn code_of(error: OptimisticError) -> i32 {
    match error {
        OptimisticError::Conflict { .. } => SYNCER_RS_OPT_ERR_CONFLICT,
        OptimisticError::MissingReplica { .. } => SYNCER_RS_OPT_ERR_MISSING_REPLICA,
        OptimisticError::StaleVector => SYNCER_RS_OPT_ERR_STALE_VECTOR,
        OptimisticError::Envelope(_) => SYNCER_RS_OPT_ERR_INVALID,
        OptimisticError::VersionVector(_) => SYNCER_RS_OPT_ERR_INVALID,
    }
}

/// Maps an optimistic error to its status code: a conflict, a missing
/// replica and a stale vector each have their own, every envelope or
/// version-vector failure is an invalid input.
pub fn optimistic_code(error: &OptimisticError) -> (r: i32)
    ensures
        r == code_of(*error),
        r != SYNCER_RS_OPT_OK,
        r != SYNCER_RS_OPT_ERR_PANIC,
{
    match error {
        OptimisticError::Conflict { .. } => SYNCER_RS_OPT_ERR_CONFLICT,
        OptimisticError::MissingReplica { .. } => SYNCER_RS_OPT_ERR_MISSING_REPLICA,
        OptimisticError::StaleVector => SYNCER_RS_OPT_ERR_STALE_VECTOR,
        OptimisticError::Envelope(_) => SYNCER_RS_OPT_ERR_INVALID,
        OptimisticError::VersionVector(_) => SYNCER_RS_OPT_ERR_INVALID,
    }
}

/// The optimistic error that a version-vector error becomes.
pub open spec fn optimistic_of_vector(e: VersionVectorError) -> OptimisticError {
    match e {
        VersionVectorError::InvalidReplicaId(replica_id) => OptimisticError::MissingReplica {
            replica_id,
        },
        other => OptimisticError::VersionVector(other),
    }
}

/// The optimistic error that an envelope error becomes.
pub open spec fn optimistic_of_envelope(e: CausalEnvelopeError) -> OptimisticError {
    match e {
        CausalEnvelopeError::MissingActorCounter(replica_id) => OptimisticError::MissingReplica {
            replica_id,
        },
        CausalEnvelopeError::VersionVector(inner) => optimistic_of_vector(inner),
        other => OptimisticError::Envelope(other),
    }
}

/// Maps a version-vector error: a rejected replica identifier is a
/// missing replica.
pub fn map_vector_error(error: VersionVectorError) -> (r: OptimisticError)
    ensures
        r == optimistic_of_vector(error),
{
    match error {
        VersionVectorError::InvalidReplicaId(replica_id) => OptimisticError::MissingReplica {
            replica_id,
        },
        other => OptimisticError::VersionVector(other),
    }
}

/// Maps an envelope error.
pub fn map_envelope_error(error: CausalEnvelopeError) -> (r: OptimisticError)
    ensures
        r == optimistic_of_envelope(error),
{
    match error {
        CausalEnvelopeError::MissingActorCounter(replica_id) => OptimisticError::MissingReplica {
            replica_id,
        },
        CausalEnvelopeError::VersionVector(inner) => map_vector_error(inner),
        other => OptimisticError::Envelope(other),
    }
}

impl From<CausalEnvelopeError> for OptimisticError {
    fn from(error: CausalEnvelopeError) -> (r: Self) {
        map_envelope_error(error)
    }
}

impl vstd::std_specs::convert::FromSpecImpl<CausalEnvelopeError> for OptimisticError {
    open spec fn obeys_from_spec() -> bool {
        true
    }

    open spec fn from_spec(error: CausalEnvelopeError) -> Self {
        optimistic_of_envelope(error)
    }
}

impl From<VersionVectorError> for OptimisticError {
    fn from(error: VersionVectorError) -> (r: Self) {
        map_vector_error(error)
    }
}

impl vstd::std_specs::convert::FromSpecImpl<VersionVectorError> for OptimisticError {
    open spec fn obeys_from_spec() -> bool {
        true
    }

    open spec fn from_spec(error: VersionVectorError) -> Self {
        optimistic_of_vector(error)
    }
}

/// Durable unit of one optimistic local mutation: a valid envelope and the
/// local snapshot, which always holds exactly the envelope clock.
#[derive(Debug, PartialEq, Eq)]
pub struct OptimisticWrite<T> {
    envelope: CausalEnvelope<T>,
    snapshot: VersionVector,
}

impl<T> OptimisticWrite<T> {
    #[verifier::type_invariant]
    spec fn pair_matches(self) -> bool {
        &&& self.snapshot@ == self.envelope.clock@
        &&& validation_fault(self.envelope) is None
    }

    /// The envelope of the write.
    pub closed spec fn envelope_of(self) -> CausalEnvelope<T> {
        self.envelope
    }

    /// The snapshot of the write.
    pub closed spec fn snapshot_of(self) -> VersionVector {
        self.snapshot
    }

    /// Both halves of a write always agree, and its envelope is valid.
    pub fn check_pair(&self)
        ensures
            self.snapshot_of()@ == self.envelope_of().clock@,
            validation_fault(self.envelope_of()) is None,
    {
        proof {
            use_type_invariant(self);
        }
    }

    /// Envelope that travels on the wire and through the mutation queue.
    pub fn envelope(&self) -> (r: &CausalEnvelope<T>)
        ensures
            *r == self.envelope_of(),
    {
        &self.envelope
    }

    /// Local version-vector snapshot taken after the replica increment.
    pub fn snapshot(&self) -> (r: &VersionVector)
        ensures
            *r == self.snapshot_of(),
    {
        &self.snapshot
    }

    /// Splits the write into the two values the host stores together.
    pub fn into_persistable(self) -> (r: (CausalEnvelope<T>, VersionVector))
        ensures
            r.0 == self.envelope_of(),
            r.1 == self.snapshot_of(),
            r.1@ == r.0.clock@,
    {
        proof {
            use_type_invariant(&self);
        }
        (self.envelope, self.snapshot)
    }

    /// Rebuilds a write from storage after both halves were loaded. A
    /// snapshot that is not exactly the envelope clock means the pair was not
    /// persisted atomically.
    pub fn from_persisted(envelope: CausalEnvelope<T>, snapshot: VersionVector) -> (r: Result<
        Self,
        OptimisticError,
    >)
        ensures
            validation_fault(envelope) matches Some(e) ==> r == Err::<Self, OptimisticError>(
                optimistic_of_envelope(e),
            ),
            validation_fault(envelope) is None && snapshot@ != envelope.clock@ ==> r == Err::<
                Self,
                OptimisticError,
            >(OptimisticError::StaleVector),
            validation_fault(envelope) is None && snapshot@ == envelope.clock@ ==> (r matches Ok(w)
                && w.envelope_of() == envelope && w.snapshot_of() == snapshot),
    {
        match envelope.validate() {
            Ok(()) => {},
            Err(e) => {
                return Err(map_envelope_error(e));
            },
        }
        snapshot.check_ok();
        envelope.clock.check_ok();
        proof {
            law_equal_relation_is_equality(snapshot@, envelope.clock@);
        }
        if snapshot.relation(&envelope.clock) != VersionRelation::Equal {
            return Err(OptimisticError::StaleVector);
        }
        Ok(OptimisticWrite { envelope, snapshot })
    }
}

impl<T: Clone> Clone for OptimisticWrite<T> {
    /// A copy whose envelope and snapshot hold the same identifiers and clock.
    fn clone(&self) -> (r: Self)
        ensures
            r.envelope_of().document_id@ == self.envelope_of().document_id@,
            r.envelope_of().mutation_id@ == self.envelope_of().mutation_id@,
            r.envelope_of().replica_id@ == self.envelope_of().replica_id@,
            r.envelope_of().clock@ == self.envelope_of().clock@,
            r.snapshot_of()@ == self.snapshot_of()@,
    {
        proof {
            use_type_invariant(self);
        }
        OptimisticWrite { envelope: self.envelope.clone(), snapshot: self.snapshot.clone() }
    }
}

/// Receiver outcome after a write that may be acknowledged.
#[derive(Debug, Clone, PartialEq, Eq)]
pub enum OptimisticAck {
    /// The receiver already holds this exact frontier; acknowledgement is
    /// idempotent and does not re-apply the payload.
    Duplicate {
        /// Unchanged durable checkpoint.
        checkpoint: VersionVector,
    },
    /// The mutation advanced the checkpoint without a causal conflict.
    Applied {
        /// Checkpoint after merging the envelope clock.
        checkpoint: VersionVector,
    },
}

impl OptimisticAck {
    /// Durable checkpoint to persist after this outcome.
    pub fn checkpoint(&self) -> (r: &VersionVector)
        ensures
            *r == match *self {
                OptimisticAck::Duplicate { checkpoint } => checkpoint,
                OptimisticAck::Applied { checkpoint } => checkpoint,
            },
    {
        match self {
            OptimisticAck::Duplicate { checkpoint } => checkpoint,
            OptimisticAck::Applied { checkpoint } => checkpoint,
        }
    }
}

/// `e` is the record error that a failure of kind `f` about `replica_id` becomes.
pub open spec fn record_error_is(e: OptimisticError, f: EnvelopeFault, replica_id: Seq<char>) -> bool {
    match f {
        EnvelopeFault::InvalidDocumentId => e == OptimisticError::Envelope(
            CausalEnvelopeError::InvalidDocumentId,
        ),
        EnvelopeFault::InvalidMutationId => e == OptimisticError::Envelope(
            CausalEnvelopeError::InvalidMutationId,
        ),
        EnvelopeFault::Vector(VectorFault::InvalidReplicaId) => e matches OptimisticError::MissingReplica {
            replica_id: r,
        } && r@ == replica_id,
        EnvelopeFault::Vector(VectorFault::ZeroCounter) => e matches OptimisticError::VersionVector(
            VersionVectorError::ZeroCounter(r),
        ) && r@ == replica_id,
        EnvelopeFault::Vector(VectorFault::CounterOverflow) => e matches OptimisticError::VersionVector(
            VersionVectorError::CounterOverflow(r),
        ) && r@ == replica_id,
        EnvelopeFault::Vector(VectorFault::TooManyReplicas) => e == OptimisticError::VersionVector(
            VersionVectorError::TooManyReplicas { maximum: MAX_CAUSAL_REPLICAS },
        ),
    }
}

/// Records an optimistic upsert against an immutable local clock: the
/// replica is advanced on a copy of `local_clock`, and the envelope and the
/// snapshot both hold the advanced clock.
pub fn record_upsert<T>(
    document_id: &str,
    mutation_id: &str,
    replica_id: &str,
    local_clock: &VersionVector,
    payload: T,
) -> (r: Result<OptimisticWrite<T>, OptimisticError>)
    ensures
        new_envelope_fault(document_id@, mutation_id@, replica_id@, local_clock@) matches Some(f)
            ==> (r matches Err(e) && record_error_is(e, f, replica_id@)),
        new_envelope_fault(document_id@, mutation_id@, replica_id@, local_clock@) is None ==> (r matches Ok(
            w,
        ) && envelope_built(
            w.envelope_of(),
            document_id@,
            mutation_id@,
            replica_id@,
            local_clock@,
            CausalOperation::Upsert(payload),
        )),
{
    record_with(document_id, mutation_id, replica_id, local_clock, CausalOperation::Upsert(payload))
}

/// Records an optimistic delete tombstone against an immutable local clock.
pub fn record_delete<T>(
    document_id: &str,
    mutation_id: &str,
    replica_id: &str,
    local_clock: &VersionVector,
) -> (r: Result<OptimisticWrite<T>, OptimisticError>)
    ensures
        new_envelope_fault(document_id@, mutation_id@, replica_id@, local_clock@) matches Some(f)
            ==> (r matches Err(e) && record_error_is(e, f, replica_id@)),
        new_envelope_fault(document_id@, mutation_id@, replica_id@, local_clock@) is None ==> (r matches Ok(
            w,
        ) && envelope_built(
            w.envelope_of(),
            document_id@,
            mutation_id@,
            replica_id@,
            local_clock@,
            CausalOperation::Delete,
        )),
{
    record_with(document_id, mutation_id, replica_id, local_clock, CausalOperation::Delete)
}

fn record_with<T>(
    document_id: &str,
    mutation_id: &str,
    replica_id: &str,
    local_clock: &VersionVector,
    operation: CausalOperation<T>,
) -> (r: Result<OptimisticWrite<T>, OptimisticError>)
    ensures
        new_envelope_fault(document_id@, mutation_id@, replica_id@, local_clock@) matches Some(f)
            ==> (r matches Err(e) && record_error_is(e, f, replica_id@)),
        new_envelope_fault(document_id@, mutation_id@, replica_id@, local_clock@) is None ==> (r matches Ok(
            w,
        ) && envelope_built(
            w.envelope_of(),
            document_id@,
            mutation_id@,
            replica_id@,
            local_clock@,
            operation,
        )),
{
    let prior = local_clock.get(replica_id);
    let mut clock = local_clock.clone();
    let built = match operation {
        CausalOperation::Upsert(payload) => CausalEnvelope::upsert(
            document_id,
            mutation_id,
            replica_id,
            &mut clock,
            payload,
        ),
        CausalOperation::Delete => CausalEnvelope::delete(
            document_id,
            mutation_id,
            replica_id,
            &mut clock,
        ),
    };
    let envelope = match built {
        Ok(envelope) => envelope,
        Err(e) => {
            return Err(map_envelope_error(e));
        },
    };
    envelope.clock.check_ok();
    clock.check_ok();
    proof {
        law_equal_relation_is_equality(envelope.clock@, clock@);
    }
    if envelope.clock.relation(&clock) != VersionRelation::Equal {
        return Err(OptimisticError::StaleVector);
    }
    match prior.checked_add(1) {
        Some(expected) => {
            if clock.get(envelope.replica_id.as_str()) != expected {
                return Err(OptimisticError::StaleVector);
            }
        },
        None => {},
    }
    proof {
        assert(envelope.replica_id@ == replica_id@);
        assert(envelope.schema_version@ == crate::causal::CAUSAL_SCHEMA_VERSION@);
    }
    Ok(OptimisticWrite { snapshot: clock, envelope })
}

/// Reports whether a write's envelope clock and snapshot still match; a
/// write built by this module always does.
pub fn same_transaction_pair<T>(write: &OptimisticWrite<T>) -> (r: bool)
    ensures
        r == (relation_of(write.snapshot_of()@, write.envelope_of().clock@)
            == VersionRelation::Equal),
        r,
{
    write.check_pair();
    write.snapshot.relation(&write.envelope.clock) == VersionRelation::Equal
}

fn join_checkpoint<T>(envelope: &CausalEnvelope<T>, checkpoint: &VersionVector) -> (r: Result<
    VersionVector,
    OptimisticError,
>)
    ensures
        join_map(checkpoint@, envelope.clock@).len() > MAX_CAUSAL_REPLICAS ==> r == Err::<
            VersionVector,
            OptimisticError,
        >(
            OptimisticError::VersionVector(
                VersionVectorError::TooManyReplicas { maximum: MAX_CAUSAL_REPLICAS },
            ),
        ),
        join_map(checkpoint@, envelope.clock@).len() <= MAX_CAUSAL_REPLICAS ==> (r matches Ok(v)
            && v@ == join_map(checkpoint@, envelope.clock@)),
{
    let mut next = checkpoint.clone();
    match envelope.acknowledge_into(&mut next) {
        Ok(_) => Ok(next),
        Err(e) => Err(map_vector_error(e)),
    }
}

/// Validates an incoming envelope and acknowledges it only when safe.
/// Concurrent envelopes are conflicts and never merge into the checkpoint;
/// stale envelopes are rejected; duplicates acknowledge idempotently; an
/// acknowledged checkpoint is exactly the envelope clock.
pub fn receive_and_ack<T>(envelope: &CausalEnvelope<T>, checkpoint: &VersionVector) -> (r: Result<
    OptimisticAck,
    OptimisticError,
>)
    ensures
        validation_fault(*envelope) matches Some(e) ==> r == Err::<OptimisticAck, OptimisticError>(
            optimistic_of_envelope(e),
        ),
        validation_fault(*envelope) is None ==> match disposition_of(
            relation_of(envelope.clock@, checkpoint@),
        ) {
            CausalDisposition::Duplicate => r matches Ok(OptimisticAck::Duplicate { checkpoint: v })
                && v@ == join_map(checkpoint@, envelope.clock@) && v@ == envelope.clock@ && v@
                == checkpoint@,
            CausalDisposition::Apply => r matches Ok(OptimisticAck::Applied { checkpoint: v })
                && v@ == join_map(checkpoint@, envelope.clock@) && v@ == envelope.clock@,
            CausalDisposition::Stale => r == Err::<OptimisticAck, OptimisticError>(
                OptimisticError::StaleVector,
            ),
            CausalDisposition::ResolveConcurrent => r matches Err(
                OptimisticError::Conflict { document_id, mutation_id },
            ) && document_id == envelope.document_id && mutation_id == envelope.mutation_id,
        },
{
    match envelope.validate() {
        Ok(()) => {},
        Err(e) => {
            return Err(map_envelope_error(e));
        },
    }
    envelope.clock.check_ok();
    checkpoint.check_ok();
    proof {
        law_equal_relation_is_equality(envelope.clock@, checkpoint@);
        if !crate::causal::has_lower(envelope.clock@, checkpoint@) {
            lemma_join_dominated(checkpoint@, envelope.clock@);
        }
    }
    match envelope.disposition_against(checkpoint) {
        CausalDisposition::Duplicate => Ok(
            OptimisticAck::Duplicate { checkpoint: join_checkpoint(envelope, checkpoint)? },
        ),
        CausalDisposition::Stale => Err(OptimisticError::StaleVector),
        CausalDisposition::Apply => Ok(
            OptimisticAck::Applied { checkpoint: join_checkpoint(envelope, checkpoint)? },
        ),
        CausalDisposition::ResolveConcurrent => Err(
            OptimisticError::Conflict {
                document_id: envelope.document_id.clone(),
                mutation_id: envelope.mutation_id.clone(),
            },
        ),
    }
}

/// Acknowledges a concurrent envelope after the host persisted a resolution.
/// An envelope that is not concurrent is answered with a conflict: the
/// caller used the wrong path.
pub fn acknowledge_resolved<T>(envelope: &CausalEnvelope<T>, checkpoint: &VersionVector) -> (r:
    Result<VersionVector, OptimisticError>)
    ensures
        validation_fault(*envelope) matches Some(e) ==> r == Err::<VersionVector, OptimisticError>(
            optimistic_of_envelope(e),
        ),
        validation_fault(*envelope) is None && relation_of(envelope.clock@, checkpoint@)
            != VersionRelation::Concurrent ==> (r matches Err(
            OptimisticError::Conflict { document_id, mutation_id },
        ) && document_id == envelope.document_id && mutation_id == envelope.mutation_id),
        validation_fault(*envelope) is None && relation_of(envelope.clock@, checkpoint@)
            == VersionRelation::Concurrent ==> (if join_map(checkpoint@, envelope.clock@).len()
            <= MAX_CAUSAL_REPLICAS {
            r matches Ok(v) && v@ == join_map(checkpoint@, envelope.clock@)
        } else {
            r == Err::<VersionVector, OptimisticError>(
                OptimisticError::VersionVector(
                    VersionVectorError::TooManyReplicas { maximum: MAX_CAUSAL_REPLICAS },
                ),
            )
        }),
{
    match envelope.validate() {
        Ok(()) => {},
        Err(e) => {
            return Err(map_envelope_error(e));
        },
    }
    match envelope.disposition_against(checkpoint) {
        CausalDisposition::ResolveConcurrent => join_checkpoint(envelope, checkpoint),
        CausalDisposition::Duplicate | CausalDisposition::Stale | CausalDisposition::Apply => {
            Err(
                OptimisticError::Conflict {
                    document_id: envelope.document_id.clone(),
                    mutation_id: envelope.mutation_id.clone(),
                },
            )
        },
    }
}

impl OptimisticError {
    /// The error's message; it names identifiers and error kinds only,
    /// never a payload.
    pub fn message(&self) -> (r: String)
        ensures
            self matches OptimisticError::Conflict { document_id, mutation_id } ==> r@
                == "optimistic conflict document="@ + document_id@ + " mutation="@ + mutation_id@,
            self matches OptimisticError::MissingReplica { replica_id } ==> r@
                == "optimistic missing replica "@ + replica_id@,
            self matches OptimisticError::StaleVector ==> r@ == "optimistic stale version vector"@,
    {
        match self {
            OptimisticError::Conflict { document_id, mutation_id } => {
                let a = join("optimistic conflict document=", document_id.as_str());
                let b = join(a.as_str(), " mutation=");
                join(b.as_str(), mutation_id.as_str())
            },
            OptimisticError::MissingReplica { replica_id } => join(
                "optimistic missing replica ",
                replica_id.as_str(),
            ),
            OptimisticError::StaleVector => String::from_str("optimistic stale version vector"),
            OptimisticError::Envelope(error) => error.message(),
            OptimisticError::VersionVector(error) => error.message(),
        }
    }
}

} // verus!
