//! Verified JSON reconciliation and causal ordering for offline sync.
//!
//! The merge is a pure function: a base document is reconciled with an
//! incoming document according to [`MergeOptions`]. Causal metadata
//! (version vectors and envelopes) orders writes between replicas.
pub mod causal;
pub mod compact;
pub mod functional;
pub mod json;
pub mod merge;
pub mod numtext;
pub mod observability;
pub mod optimistic;
pub mod reader;
pub mod reconcile;
pub mod scalar;
pub mod schema;
pub mod serde_support;
pub mod text;
pub mod values;

pub use crate::causal::{
    CausalDisposition, CausalEnvelope, CausalEnvelopeError, CausalOperation, VersionRelation,
    VersionVector, VersionVectorError, CAUSAL_ENVELOPE_SCHEMA_ID, CAUSAL_SCHEMA_VERSION,
    MAX_CAUSAL_REPLICAS,
};
pub use crate::json::JsonValue;
pub use crate::merge::{merge_values, ArrayMergeStrategy, MergeOptions};
pub use crate::observability::{
    observation_of, MergeErrorCode, MergeObservation, MergeOperation, MergeOutcome,
    MERGE_OBSERVATION_SCHEMA_ID, MERGE_OBSERVATION_SCHEMA_VERSION,
};
pub use crate::optimistic::{
    acknowledge_resolved, optimistic_code, receive_and_ack, record_delete, record_upsert,
    same_transaction_pair, OptimisticAck, OptimisticError, OptimisticWrite, SYNCER_RS_OPT_ERR_CONFLICT,
    SYNCER_RS_OPT_ERR_INVALID, SYNCER_RS_OPT_ERR_MISSING_REPLICA, SYNCER_RS_OPT_ERR_PANIC,
    SYNCER_RS_OPT_ERR_STALE_VECTOR, SYNCER_RS_OPT_OK,
};
pub use crate::reconcile::{merge_json, merge_optional_json, MergeError, VERSION};
pub use crate::schema::{
    first_unknown_option, is_merge_option_key, merge_json_with_schema_options,
    parse_merge_options_json, CanonicalMergeOptions,
    MERGE_OPTIONS_SCHEMA_ID, MERGE_OPTION_KEYS,
};
