//! Structured, payload-free observations of reconciliation attempts.
//!
//! An observation records which entry point ran, whether it succeeded, the
//! error class of a rejection and the options that shaped the merge; never a
//! document, a selector value or an identity.
use vstd::prelude::*;

use crate::merge::MergeOptions;
use crate::reconcile::MergeError;

verus! {

/// Wire discriminator of merge observations.
pub const MERGE_OBSERVATION_SCHEMA_VERSION: &'static str = "opto-sync.merge-observation.v1";

/// Stable identifier of the observation schema.
pub const MERGE_OBSERVATION_SCHEMA_ID: &'static str =
    "https://opto-sync.dev/schema/merge-observation.schema.json";

/// The entry point that produced an observation.
#[derive(Debug, Clone, Copy, PartialEq, Eq, Structural)]
pub enum MergeOperation {
    /// `merge_json`, with two required documents.
    MergeJson,
    /// `merge_optional_json`, with zero, one or two documents.
    MergeOptionalJson,
}

/// Result class of a reconciliation attempt.
#[derive(Debug, Clone, Copy, PartialEq, Eq, Structural)]
pub enum MergeOutcome {
    /// The engine returned a result.
    Succeeded,
    /// The engine refused an input or the options.
    Rejected,
}

/// Stable, language-neutral error class for logs and metrics.
#[derive(Debug, Clone, Copy, PartialEq, Eq, Structural)]
pub enum MergeErrorCode {
    InvalidBaseJson,
    InvalidIncomingJson,
    SerializationFailed,
    InvalidArrayStrategy,
    InvalidOptions,
}

/// The error class of an error.
pub open spec fn error_code_of(error: MergeError) -> MergeErrorCode {
    match error {
        MergeError::InvalidBase(_) => MergeErrorCode::InvalidBaseJson,
        MergeError::InvalidIncoming(_) => MergeErrorCode::InvalidIncomingJson,
        MergeError::Serialization(_) => MergeErrorCode::SerializationFailed,
        MergeError::InvalidArrayStrategy(_) => MergeErrorCode::InvalidArrayStrategy,
        MergeError::InvalidOptions(_) => MergeErrorCode::InvalidOptions,
    }
}

impl<'a> From<&'a MergeError> for MergeErrorCode {
    /// The error class of an error.
    fn from(error: &'a MergeError) -> (r: Self) {
        match error {
            MergeError::InvalidBase(_) => MergeErrorCode::InvalidBaseJson,
            MergeError::InvalidIncoming(_) => MergeErrorCode::InvalidIncomingJson,
            MergeError::Serialization(_) => MergeErrorCode::SerializationFailed,
            MergeError::InvalidArrayStrategy(_) => MergeErrorCode::InvalidArrayStrategy,
            MergeError::InvalidOptions(_) => MergeErrorCode::InvalidOptions,
        }
    }
}

impl<'a> vstd::std_specs::convert::FromSpecImpl<&'a MergeError> for MergeErrorCode {
    open spec fn obeys_from_spec() -> bool {
        true
    }

    open spec fn from_spec(error: &'a MergeError) -> Self {
        error_code_of(*error)
    }
}

/// A payload-free event describing one reconciliation attempt.
#[derive(Debug, Clone, PartialEq, Eq)]
pub struct MergeObservation {
    pub schema_version: &'static str,
    pub operation: MergeOperation,
    pub outcome: MergeOutcome,
    pub error_code: Option<MergeErrorCode>,
    pub array_strategy: i32,
    pub max_depth: u32,
    pub resolve_by_timestamp: bool,
    pub detect_circular_refs: bool,
    pub base_present: bool,
    pub incoming_present: bool,
}

/// The observation of an attempt with the given entry point, sides present,
/// options and result: the outcome and error class follow the result, the
/// rest is copied from the options.
pub fn observation_of<T>(
    operation: MergeOperation,
    base_present: bool,
    incoming_present: bool,
    options: &MergeOptions,
    result: &Result<T, MergeError>,
) -> (r: MergeObservation)
    ensures
        r.schema_version@ == MERGE_OBSERVATION_SCHEMA_VERSION@,
        r.operation == operation,
        match result {
            Ok(_) => r.outcome == MergeOutcome::Succeeded && r.error_code is None,
            Err(e) => r.outcome == MergeOutcome::Rejected && r.error_code == Some(
                error_code_of(*e),
            ),
        },
        r.array_strategy == options.array_strategy.spec_code(),
        r.max_depth == options.max_depth,
        r.resolve_by_timestamp == options.resolve_by_timestamp,
        r.detect_circular_refs == options.detect_circular_refs,
        r.base_present == base_present,
        r.incoming_present == incoming_present,
{
    let (outcome, error_code) = match result {
        Ok(_) => (MergeOutcome::Succeeded, None),
        Err(error) => (MergeOutcome::Rejected, Some(MergeErrorCode::from(error))),
    };
    MergeObservation {
        schema_version: MERGE_OBSERVATION_SCHEMA_VERSION,
        operation,
        outcome,
        error_code,
        array_strategy: options.array_strategy.code(),
        max_depth: options.max_depth,
        resolve_by_timestamp: options.resolve_by_timestamp,
        detect_circular_refs: options.detect_circular_refs,
        base_present,
        incoming_present,
    }
}

} // verus!
