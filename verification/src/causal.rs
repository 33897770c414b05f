//! Causal metadata shared by offline clients and sync services.
//!
//! JSON reconciliation decides how two values combine. This module answers the
//! separate ordering question: whether one mutation happened before, after, or
//! concurrently with another mutation. Everything here is deterministic,
//! bounded and clock-free.
use vstd::prelude::*;
use vstd::string::StringExecFns;

use crate::scalar::{int_text, integer_text};
use crate::text::{
    char_is_control, char_is_space, chars_of, compare_chars, debug_quoted, debug_text,
    is_control, is_space, join, lemma_text_lt_order, string_from_chars, text_lt, utf8_len,
    utf8_len_at_most, Order,
};

verus! {

/// Wire schema emitted by [`CausalEnvelope`].
pub const CAUSAL_SCHEMA_VERSION: &'static str = "opto-sync.causal.v1";

/// Stable identifier of the canonical causal-envelope JSON Schema.
pub const CAUSAL_ENVELOPE_SCHEMA_ID: &'static str = "https://opto-sync.dev/schema/causal-envelope.schema.json";

/// Maximum replica entries accepted in one vector clock.
pub const MAX_CAUSAL_REPLICAS: usize = 1024;

/// Maximum byte length of a replica identifier.
pub const MAX_REPLICA_ID_BYTES: usize = 128;

/// Maximum byte length of a document identifier.
pub const MAX_DOCUMENT_ID_BYTES: usize = 512;

/// Maximum byte length of a mutation identifier.
pub const MAX_MUTATION_ID_BYTES: usize = 256;

// ---------------------------------------------------------------------------
// Replica identifiers
// ---------------------------------------------------------------------------

/// Characters allowed in a replica identifier.
pub open spec fn replica_char(c: char) -> bool {
    ('a' <= c && c <= 'z') || ('A' <= c && c <= 'Z') || ('0' <= c && c <= '9') || c == '.' || c
        == '_' || c == ':' || c == '-'
}

/// A replica identifier is 1..=128 ASCII letters, digits, `.`, `_`, `:` or `-`.
pub open spec fn valid_replica_id(id: Seq<char>) -> bool {
    &&& 1 <= id.len() <= MAX_REPLICA_ID_BYTES
    &&& forall|i: int| 0 <= i < id.len() ==> replica_char(#[trigger] id[i])
}

fn is_replica_char(c: char) -> (r: bool)
    ensures
        r == replica_char(c),
{
    ('a' <= c && c <= 'z') || ('A' <= c && c <= 'Z') || ('0' <= c && c <= '9') || c == '.' || c
        == '_' || c == ':' || c == '-'
}

/// Checks the replica-identifier rule on a character sequence.
pub fn is_valid_replica_chars(id: &Vec<char>) -> (r: bool)
    ensures
        r == valid_replica_id(id@),
{
    if id.len() == 0 || id.len() > MAX_REPLICA_ID_BYTES {
        return false;
    }
    let mut i: usize = 0;
    while i < id.len()
        invariant
            i <= id.len(),
            forall|j: int| 0 <= j < i ==> replica_char(#[trigger] id@[j]),
        decreases id.len() - i,
    {
        if !is_replica_char(id[i]) {
            return false;
        }
        i = i + 1;
    }
    true
}

// ---------------------------------------------------------------------------
// Sorted counter lists
// ---------------------------------------------------------------------------

/// Counter observed for `id` in `m`, zero when absent.
pub open spec fn counter_of(m: Map<Seq<char>, u64>, id: Seq<char>) -> u64 {
    if m.contains_key(id) {
        m[id]
    } else {
        0
    }
}

/// The larger of two counters.
pub open spec fn max_counter(a: u64, b: u64) -> u64 {
    if a >= b {
        a
    } else {
        b
    }
}

/// Least upper bound of two counter maps: every replica of either, at its larger counter.
pub open spec fn join_map(a: Map<Seq<char>, u64>, b: Map<Seq<char>, u64>) -> Map<Seq<char>, u64> {
    Map::new(
        |k: Seq<char>| a.contains_key(k) || b.contains_key(k),
        |k: Seq<char>| max_counter(counter_of(a, k), counter_of(b, k)),
    )
}

/// Entries are strictly increasing by replica identifier.
pub open spec fn sorted_entries(s: Seq<(String, u64)>) -> bool {
    forall|i: int, j: int| 0 <= i < j < s.len() ==> text_lt(#[trigger] s[i].0@, #[trigger] s[j].0@)
}

/// Some entry carries identifier `k`.
pub open spec fn has_id(s: Seq<(String, u64)>, k: Seq<char>) -> bool {
    exists|i: int| 0 <= i < s.len() && #[trigger] s[i].0@ == k
}

/// Index of an entry carrying `k`.
pub open spec fn id_index(s: Seq<(String, u64)>, k: Seq<char>) -> int {
    choose|i: int| 0 <= i < s.len() && #[trigger] s[i].0@ == k
}

/// The counters that a list of entries stands for.
pub open spec fn pairs_map(s: Seq<(String, u64)>) -> Map<Seq<char>, u64> {
    Map::new(|k: Seq<char>| has_id(s, k), |k: Seq<char>| s[id_index(s, k)].1)
}

/// Well-formed entries of a version vector.
pub open spec fn entries_ok(s: Seq<(String, u64)>) -> bool {
    &&& sorted_entries(s)
    &&& forall|i: int| 0 <= i < s.len() ==> valid_replica_id(#[trigger] s[i].0@) && s[i].1 > 0
}

proof fn lemma_sorted_distinct(s: Seq<(String, u64)>, i: int, j: int)
    requires
        sorted_entries(s),
        0 <= i < s.len(),
        0 <= j < s.len(),
        s[i].0@ == s[j].0@,
    ensures
        i == j,
{
    if i != j {
        lemma_text_lt_order(s[i].0@, s[i].0@, s[i].0@);
        if j < i {
            assert(text_lt(s[j].0@, s[i].0@));
        } else {
            assert(text_lt(s[i].0@, s[j].0@));
        }
    }
}

proof fn lemma_sorted_lookup(s: Seq<(String, u64)>, i: int)
    requires
        sorted_entries(s),
        0 <= i < s.len(),
    ensures
        pairs_map(s).contains_key(s[i].0@),
        pairs_map(s)[s[i].0@] == s[i].1,
{
    let k = s[i].0@;
    assert(has_id(s, k));
    let j = id_index(s, k);
    lemma_sorted_distinct(s, i, j);
}

proof fn lemma_ids_seq(s: Seq<(String, u64)>) -> (ids: Seq<Seq<char>>)
    requires
        sorted_entries(s),
    ensures
        ids.len() == s.len(),
        forall|i: int| 0 <= i < s.len() ==> ids[i] == s[i].0@,
        ids.no_duplicates(),
        ids.to_set() == pairs_map(s).dom(),
        pairs_map(s).dom().finite(),
        pairs_map(s).len() == s.len(),
{
    let ids = Seq::new(s.len(), |i: int| s[i].0@);
    assert forall|i: int, j: int| 0 <= i < ids.len() && 0 <= j < ids.len() && i != j implies ids[i]
        != ids[j] by {
        lemma_text_lt_order(ids[i], ids[i], ids[i]);
        if i < j {
            assert(text_lt(s[i].0@, s[j].0@));
        } else {
            assert(text_lt(s[j].0@, s[i].0@));
        }
    }
    assert(ids.to_set() =~= pairs_map(s).dom()) by {
        assert forall|k: Seq<char>| ids.to_set().contains(k) implies pairs_map(s).dom().contains(k) by {
            let i = choose|i: int| 0 <= i < ids.len() && ids[i] == k;
            assert(s[i].0@ == k);
        }
        assert forall|k: Seq<char>| pairs_map(s).dom().contains(k) implies ids.to_set().contains(k) by {
            let i = choose|i: int| 0 <= i < s.len() && #[trigger] s[i].0@ == k;
            assert(ids[i] == k);
        }
    }
    ids.unique_seq_to_set();
    broadcast use vstd::seq_lib::seq_to_set_is_finite;
    ids
}

/// Position of `id` among sorted entries: the first entry not below it, and
/// whether that entry carries `id`.
fn find_slot(entries: &Vec<(String, u64)>, id: &Vec<char>) -> (r: (usize, bool))
    requires
        sorted_entries(entries@),
    ensures
        r.0 <= entries.len(),
        forall|j: int| 0 <= j < r.0 ==> text_lt(#[trigger] entries@[j].0@, id@),
        r.1 ==> r.0 < entries.len() && entries@[r.0 as int].0@ == id@,
        !r.1 ==> r.0 == entries.len() || text_lt(id@, entries@[r.0 as int].0@),
        r.1 == has_id(entries@, id@),
{
    let mut p: usize = 0;
    while p < entries.len()
        invariant
            p <= entries.len(),
            sorted_entries(entries@),
            forall|j: int| 0 <= j < p ==> text_lt(#[trigger] entries@[j].0@, id@),
        decreases entries.len() - p,
    {
        let here = chars_of(entries[p].0.as_str());
        match compare_chars(&here, id) {
            Order::Less => {
                p = p + 1;
            },
            Order::Equal => {
                return (p, true);
            },
            Order::Greater => {
                proof {
                    assert forall|j: int| p <= j < entries.len() implies entries@[j].0@ != id@ by {
                        lemma_text_lt_order(id@, entries@[p as int].0@, entries@[j].0@);
                        lemma_text_lt_order(id@, id@, id@);
                        if j > p {
                            assert(text_lt(entries@[p as int].0@, entries@[j].0@));
                        }
                    }
                    assert forall|j: int| 0 <= j < p implies entries@[j].0@ != id@ by {
                        lemma_text_lt_order(id@, id@, id@);
                    }
                }
                return (p, false);
            },
        }
    }
    proof {
        assert forall|j: int| 0 <= j < p implies entries@[j].0@ != id@ by {
            lemma_text_lt_order(id@, id@, id@);
        }
    }
    (p, false)
}

/// Sets the counter of `id`, inserting the entry in order when it is new.
fn set_entry(entries: &mut Vec<(String, u64)>, id: String, counter: u64)
    requires
        sorted_entries(old(entries)@),
    ensures
        sorted_entries(final(entries)@),
        pairs_map(final(entries)@) == pairs_map(old(entries)@).insert(id@, counter),
        final(entries)@.len() == old(entries)@.len() + if has_id(old(entries)@, id@) {
            0int
        } else {
            1int
        },
        forall|i: int|
            0 <= i < final(entries)@.len() ==> (#[trigger] final(entries)@[i].0@ == id@
                && final(entries)@[i].1 == counter) || exists|j: int|
                0 <= j < old(entries)@.len() && old(entries)@[j].0@ == final(entries)@[i].0@
                    && old(entries)@[j].1 == final(entries)@[i].1,
{
    let ghost before = entries@;
    let chars = chars_of(id.as_str());
    let (p, found) = find_slot(entries, &chars);
    if found {
        entries.set(p, (id, counter));
        proof {
            let after = entries@;
            assert(sorted_entries(after)) by {
                assert forall|i: int, j: int| 0 <= i < j < after.len() implies text_lt(
                    #[trigger] after[i].0@,
                    #[trigger] after[j].0@,
                ) by {
                    assert(text_lt(before[i].0@, before[j].0@));
                }
            }
            assert(pairs_map(after) =~= pairs_map(before).insert(id@, counter)) by {
                assert forall|k: Seq<char>| #[trigger] has_id(after, k) == (has_id(before, k) || k
                    == id@) by {
                    if has_id(before, k) {
                        let i = choose|i: int| 0 <= i < before.len() && #[trigger] before[i].0@ == k;
                        assert(after[i].0@ == k);
                    }
                    if has_id(after, k) {
                        let i = choose|i: int| 0 <= i < after.len() && #[trigger] after[i].0@ == k;
                        assert(i != p ==> before[i].0@ == k);
                    }
                    assert(after[p as int].0@ == id@);
                }
                assert forall|k: Seq<char>| #[trigger] pairs_map(after).contains_key(k) implies pairs_map(
                    after,
                )[k] == pairs_map(before).insert(id@, counter)[k] by {
                    let i = choose|i: int| 0 <= i < after.len() && #[trigger] after[i].0@ == k;
                    lemma_sorted_lookup(after, i);
                    if i != p {
                        lemma_sorted_lookup(before, i);
                        if k == id@ {
                            lemma_sorted_distinct(before, i, p as int);
                        }
                    }
                }
            }
            assert forall|i: int| 0 <= i < after.len() implies (#[trigger] after[i].0@ == id@
                && after[i].1 == counter) || exists|j: int|
                0 <= j < before.len() && before[j].0@ == after[i].0@ && before[j].1 == after[i].1 by {
                if i != p {
                    assert(before[i].0@ == after[i].0@ && before[i].1 == after[i].1);
                }
            }
        }
    } else {
        entries.insert(p, (id, counter));
        proof {
            let after = entries@;
            assert(forall|i: int| 0 <= i < p ==> #[trigger] after[i] == before[i]);
            assert(forall|i: int| p < i < after.len() ==> #[trigger] after[i] == before[i - 1]);
            assert(after[p as int].0@ == id@);
            assert(sorted_entries(after)) by {
                assert forall|i: int, j: int| 0 <= i < j < after.len() implies text_lt(
                    #[trigger] after[i].0@,
                    #[trigger] after[j].0@,
                ) by {
                    if j < p {
                        assert(text_lt(before[i].0@, before[j].0@));
                    } else if j == p {
                        assert(text_lt(before[i].0@, id@));
                    } else if i > p {
                        assert(text_lt(before[i - 1].0@, before[j - 1].0@));
                    } else if i == p {
                        if j - 1 > p {
                            assert(text_lt(before[p as int].0@, before[j - 1].0@));
                            lemma_text_lt_order(id@, before[p as int].0@, before[j - 1].0@);
                        }
                    } else {
                        assert(text_lt(before[i].0@, id@));
                        if j - 1 > p {
                            assert(text_lt(before[p as int].0@, before[j - 1].0@));
                            lemma_text_lt_order(id@, before[p as int].0@, before[j - 1].0@);
                        }
                        lemma_text_lt_order(before[i].0@, id@, before[j - 1].0@);
                    }
                }
            }
            assert(pairs_map(after) =~= pairs_map(before).insert(id@, counter)) by {
                assert forall|k: Seq<char>| #[trigger] has_id(after, k) == (has_id(before, k) || k
                    == id@) by {
                    if has_id(before, k) {
                        let i = choose|i: int| 0 <= i < before.len() && #[trigger] before[i].0@ == k;
                        if i < p {
                            assert(after[i].0@ == k);
                        } else {
                            assert(after[i + 1].0@ == k);
                        }
                    }
                    if has_id(after, k) {
                        let i = choose|i: int| 0 <= i < after.len() && #[trigger] after[i].0@ == k;
                        if i < p {
                            assert(before[i].0@ == k);
                        } else if i > p {
                            assert(before[i - 1].0@ == k);
                        }
                    }
                }
                assert forall|k: Seq<char>| #[trigger] pairs_map(after).contains_key(k) implies pairs_map(
                    after,
                )[k] == pairs_map(before).insert(id@, counter)[k] by {
                    let i = choose|i: int| 0 <= i < after.len() && #[trigger] after[i].0@ == k;
                    lemma_sorted_lookup(after, i);
                    if i < p {
                        lemma_sorted_lookup(before, i);
                    } else if i > p {
                        lemma_sorted_lookup(before, i - 1);
                    }
                }
            }
            assert forall|i: int| 0 <= i < after.len() implies (#[trigger] after[i].0@ == id@
                && after[i].1 == counter) || exists|j: int|
                0 <= j < before.len() && before[j].0@ == after[i].0@ && before[j].1 == after[i].1 by {
                if i < p {
                    assert(before[i].0@ == after[i].0@ && before[i].1 == after[i].1);
                } else if i > p {
                    assert(before[i - 1].0@ == after[i].0@ && before[i - 1].1 == after[i].1);
                }
            }
        }
    }
}

/// An exact copy of a list of entries.
fn copy_entries(entries: &Vec<(String, u64)>) -> (r: Vec<(String, u64)>)
    ensures
        r@ == entries@,
{
    let mut out: Vec<(String, u64)> = Vec::new();
    let mut i: usize = 0;
    while i < entries.len()
        invariant
            i <= entries.len(),
            out@ == entries@.subrange(0, i as int),
        decreases entries.len() - i,
    {
        let name = entries[i].0.clone();
        out.push((name, entries[i].1));
        proof {
            assert(out@ =~= entries@.subrange(0, i + 1));
        }
        i = i + 1;
    }
    proof {
        assert(out@ =~= entries@);
    }
    out
}

// ---------------------------------------------------------------------------
// Relations
// ---------------------------------------------------------------------------

/// Relative causal ordering of two version vectors.
#[derive(Debug, Clone, Copy, PartialEq, Eq, Structural)]
pub enum VersionRelation {
    /// Both vectors contain the same counters.
    Equal,
    /// Every local counter is at most the remote one and at least one is lower.
    Before,
    /// Every local counter is at least the remote one and at least one is higher.
    After,
    /// Each vector holds a counter that the other does not dominate.
    Concurrent,
}

/// How an incoming envelope relates to the receiver's durable checkpoint.
#[derive(Debug, Clone, Copy, PartialEq, Eq, Structural)]
pub enum CausalDisposition {
    /// The receiver has already observed exactly this causal frontier.
    Duplicate,
    /// The incoming mutation is behind the receiver and can be ignored.
    Stale,
    /// The mutation advances the receiver without a causal conflict.
    Apply,
    /// The mutation is concurrent and requires the configured conflict policy.
    ResolveConcurrent,
}

/// Some replica has a lower counter in `a` than in `b`.
pub open spec fn has_lower(a: Map<Seq<char>, u64>, b: Map<Seq<char>, u64>) -> bool {
    exists|k: Seq<char>| #[trigger] counter_of(a, k) < counter_of(b, k)
}

/// The relation named by the two order flags.
pub open spec fn relation_from_flags(less: bool, greater: bool) -> VersionRelation {
    if !less && !greater {
        VersionRelation::Equal
    } else if less && !greater {
        VersionRelation::Before
    } else if !less && greater {
        VersionRelation::After
    } else {
        VersionRelation::Concurrent
    }
}

/// The standard partial order of vector clocks.
pub open spec fn relation_of(a: Map<Seq<char>, u64>, b: Map<Seq<char>, u64>) -> VersionRelation {
    relation_from_flags(has_lower(a, b), has_lower(b, a))
}

/// The relation seen from the other side.
pub open spec fn reversed(r: VersionRelation) -> VersionRelation {
    match r {
        VersionRelation::Equal => VersionRelation::Equal,
        VersionRelation::Before => VersionRelation::After,
        VersionRelation::After => VersionRelation::Before,
        VersionRelation::Concurrent => VersionRelation::Concurrent,
    }
}

/// The disposition that a relation calls for.
pub open spec fn disposition_of(r: VersionRelation) -> CausalDisposition {
    match r {
        VersionRelation::Equal => CausalDisposition::Duplicate,
        VersionRelation::Before => CausalDisposition::Stale,
        VersionRelation::After => CausalDisposition::Apply,
        VersionRelation::Concurrent => CausalDisposition::ResolveConcurrent,
    }
}

/// Maps a relation to the disposition it calls for.
pub fn disposition_from_relation(relation: VersionRelation) -> (r: CausalDisposition)
    ensures
        r == disposition_of(relation),
{
    match relation {
        VersionRelation::Equal => CausalDisposition::Duplicate,
        VersionRelation::Before => CausalDisposition::Stale,
        VersionRelation::After => CausalDisposition::Apply,
        VersionRelation::Concurrent => CausalDisposition::ResolveConcurrent,
    }
}

/// Names the relation given by the two order flags.
pub fn relation_from_order_flags(less: bool, greater: bool) -> (r: VersionRelation)
    ensures
        r == relation_from_flags(less, greater),
{
    match (less, greater) {
        (false, false) => VersionRelation::Equal,
        (true, false) => VersionRelation::Before,
        (false, true) => VersionRelation::After,
        (true, true) => VersionRelation::Concurrent,
    }
}

/// The larger of two counters.
pub fn join_counter(local: u64, incoming: u64) -> (r: u64)
    ensures
        r == max_counter(local, incoming),
{
    if local >= incoming {
        local
    } else {
        incoming
    }
}

// ---------------------------------------------------------------------------
// Errors
// ---------------------------------------------------------------------------

/// Version-vector validation or arithmetic error.
#[derive(Debug, Clone, PartialEq, Eq)]
pub enum VersionVectorError {
    /// Replica identifiers are bounded ASCII tokens suitable for every client.
    InvalidReplicaId(String),
    /// Serialized vectors must omit zero-valued entries.
    ZeroCounter(String),
    /// A local replica counter reached `u64::MAX`.
    CounterOverflow(String),
    /// The vector exceeded its cross-client memory bound.
    TooManyReplicas {
        /// Maximum supported unique replica identifiers.
        maximum: usize,
    },
}

/// The kinds of version-vector error.
#[derive(Debug, Clone, Copy, PartialEq, Eq, Structural)]
pub enum VectorFault {
    InvalidReplicaId,
    ZeroCounter,
    CounterOverflow,
    TooManyReplicas,
}

/// `e` is the error of kind `f` about replica `id`.
pub open spec fn error_is(e: VersionVectorError, f: VectorFault, id: Seq<char>) -> bool {
    match f {
        VectorFault::InvalidReplicaId => e matches VersionVectorError::InvalidReplicaId(s) && s@
            == id,
        VectorFault::ZeroCounter => e matches VersionVectorError::ZeroCounter(s) && s@ == id,
        VectorFault::CounterOverflow => e matches VersionVectorError::CounterOverflow(s) && s@
            == id,
        VectorFault::TooManyReplicas => e == VersionVectorError::TooManyReplicas {
            maximum: MAX_CAUSAL_REPLICAS,
        },
    }
}

/// `m` can hold `id` without exceeding the replica bound.
pub open spec fn admits(m: Map<Seq<char>, u64>, id: Seq<char>) -> bool {
    m.contains_key(id) || m.len() < MAX_CAUSAL_REPLICAS
}

/// Why advancing `id` in `m` fails, if it does.
pub open spec fn increment_fault(m: Map<Seq<char>, u64>, id: Seq<char>) -> Option<VectorFault> {
    if !valid_replica_id(id) {
        Some(VectorFault::InvalidReplicaId)
    } else if !admits(m, id) {
        Some(VectorFault::TooManyReplicas)
    } else if counter_of(m, id) == u64::MAX {
        Some(VectorFault::CounterOverflow)
    } else {
        None
    }
}

/// Why observing `counter` for `id` in `m` fails, if it does.
pub open spec fn observe_fault(m: Map<Seq<char>, u64>, id: Seq<char>, counter: u64) -> Option<
    VectorFault,
> {
    if !valid_replica_id(id) {
        Some(VectorFault::InvalidReplicaId)
    } else if counter == 0 {
        Some(VectorFault::ZeroCounter)
    } else if !admits(m, id) {
        Some(VectorFault::TooManyReplicas)
    } else {
        None
    }
}

/// `m` after observing `counter` for `id`: the larger counter is kept.
pub open spec fn observe_map(m: Map<Seq<char>, u64>, id: Seq<char>, counter: u64) -> Map<
    Seq<char>,
    u64,
> {
    if counter > counter_of(m, id) {
        m.insert(id, counter)
    } else {
        m
    }
}

/// A map that a version vector can hold.
pub open spec fn vector_ok(m: Map<Seq<char>, u64>) -> bool {
    &&& m.dom().finite()
    &&& m.len() <= MAX_CAUSAL_REPLICAS
    &&& forall|k: Seq<char>| #[trigger] m.contains_key(k) ==> valid_replica_id(k) && m[k] > 0
}

// ---------------------------------------------------------------------------
// Version vectors
// ---------------------------------------------------------------------------

/// A bounded vector clock indexed by stable replica identifier.
#[derive(Debug, PartialEq, Eq)]
pub struct VersionVector {
    entries: Vec<(String, u64)>,
}

impl View for VersionVector {
    type V = Map<Seq<char>, u64>;

    closed spec fn view(&self) -> Map<Seq<char>, u64> {
        pairs_map(self.entries@)
    }
}

impl VersionVector {
    #[verifier::type_invariant]
    spec fn well_formed(self) -> bool {
        &&& entries_ok(self.entries@)
        &&& self.entries@.len() <= MAX_CAUSAL_REPLICAS
    }

    /// The entries in increasing replica-id order.
    pub closed spec fn ordered(self) -> Seq<(Seq<char>, u64)> {
        self.entries@.map_values(|e: (String, u64)| (e.0@, e.1))
    }

    proof fn lemma_view(&self)
        requires
            self.well_formed(),
        ensures
            vector_ok(self@),
            self@.len() == self.entries@.len(),
            forall|i: int|
                0 <= i < self.entries@.len() ==> #[trigger] self@.contains_key(self.entries@[i].0@)
                    && self@[self.entries@[i].0@] == self.entries@[i].1,
    {
        lemma_ids_seq(self.entries@);
        assert forall|i: int| 0 <= i < self.entries@.len() implies #[trigger] self@.contains_key(
            self.entries@[i].0@,
        ) && self@[self.entries@[i].0@] == self.entries@[i].1 by {
            lemma_sorted_lookup(self.entries@, i);
        }
        assert forall|k: Seq<char>| #[trigger] self@.contains_key(k) implies valid_replica_id(k)
            && self@[k] > 0 by {
            let i = id_index(self.entries@, k);
            lemma_sorted_lookup(self.entries@, i);
        }
    }

    /// The map held by a vector is always one that a vector can hold, and
    /// `ordered()` lists exactly its entries by strictly increasing replica id.
    pub fn check_ok(&self)
        ensures
            vector_ok(self@),
            self.ordered().len() == self@.len(),
            forall|i: int|
                0 <= i < self.ordered().len() ==> #[trigger] self@.contains_key(self.ordered()[i].0)
                    && self@[self.ordered()[i].0] == self.ordered()[i].1,
            forall|i: int, j: int|
                0 <= i < j < self.ordered().len() ==> text_lt(
                    #[trigger] self.ordered()[i].0,
                    #[trigger] self.ordered()[j].0,
                ),
    {
        proof {
            use_type_invariant(self);
            self.lemma_view();
        }
    }

    /// Creates an empty vector clock.
    pub fn new() -> (r: Self)
        ensures
            r@ == Map::<Seq<char>, u64>::empty(),
    {
        let r = VersionVector { entries: Vec::new() };
        assert(r@ =~= Map::<Seq<char>, u64>::empty());
        r
    }

    /// Returns the counter observed for one replica, or zero when absent.
    #[verifier::loop_isolation(false)]
    pub fn get(&self, replica_id: &str) -> (r: u64)
        ensures
            r == counter_of(self@, replica_id@),
    {
        proof {
            use_type_invariant(self);
            self.lemma_view();
        }
        let key = replica_id.to_owned();
        let mut i: usize = 0;
        while i < self.entries.len()
            invariant
                i <= self.entries.len(),
                key@ == replica_id@,
                forall|j: int| 0 <= j < i ==> #[trigger] self.entries@[j].0@ != key@,
            decreases self.entries.len() - i,
        {
            if self.entries[i].0 == key {
                return self.entries[i].1;
            }
            i = i + 1;
        }
        proof {
            assert(!self@.contains_key(replica_id@)) by {
                if self@.contains_key(replica_id@) {
                    let j = id_index(self.entries@, replica_id@);
                    assert(self.entries@[j].0@ == replica_id@);
                }
            }
        }
        0
    }

    /// Returns the number of replicas represented by the vector.
    pub fn len(&self) -> (r: usize)
        ensures
            r == self@.len(),
    {
        proof {
            use_type_invariant(self);
            self.lemma_view();
        }
        self.entries.len()
    }

    /// Reports whether the vector contains no observations.
    pub fn is_empty(&self) -> (r: bool)
        ensures
            r == (self@.len() == 0),
    {
        proof {
            use_type_invariant(self);
            self.lemma_view();
        }
        self.entries.len() == 0
    }

    /// The counters in increasing replica-id order.
    pub fn iter(&self) -> (r: Vec<(String, u64)>)
        ensures
            sorted_entries(r@),
            pairs_map(r@) == self@,
            r@.len() == self@.len(),
    {
        proof {
            use_type_invariant(self);
            self.lemma_view();
        }
        copy_entries(&self.entries)
    }
}

/// Pairs of identifiers and counters as plain values.
pub open spec fn plain_pairs(s: Seq<(String, u64)>) -> Seq<(Seq<char>, u64)> {
    s.map_values(|e: (String, u64)| (e.0@, e.1))
}

/// `m` after observing each pair of `s` in turn, whether any observation
/// changed it, and whether all of them succeeded; the first failure stops
/// the fold.
pub open spec fn merge_fold(m: Map<Seq<char>, u64>, s: Seq<(Seq<char>, u64)>) -> (
    Map<Seq<char>, u64>,
    bool,
    bool,
)
    decreases s.len(),
{
    if s.len() == 0 {
        (m, false, true)
    } else {
        let prev = merge_fold(m, s.drop_last());
        let k = s.last().0;
        let c = s.last().1;
        if !prev.2 {
            prev
        } else if observe_fault(prev.0, k, c) is Some {
            (prev.0, prev.1, false)
        } else {
            (observe_map(prev.0, k, c), prev.1 || c > counter_of(prev.0, k), true)
        }
    }
}

/// The vector built by observing each pair of `s` in turn from an empty
/// vector, or the first fault and the replica it concerns.
pub open spec fn from_fold(s: Seq<(Seq<char>, u64)>) -> Result<
    Map<Seq<char>, u64>,
    (VectorFault, Seq<char>),
>
    decreases s.len(),
{
    if s.len() == 0 {
        Ok(Map::empty())
    } else {
        match from_fold(s.drop_last()) {
            Err(e) => Err(e),
            Ok(m) => match observe_fault(m, s.last().0, s.last().1) {
                Some(f) => Err((f, s.last().0)),
                None => Ok(observe_map(m, s.last().0, s.last().1)),
            },
        }
    }
}

proof fn lemma_merge_fold_stuck(m: Map<Seq<char>, u64>, s: Seq<(Seq<char>, u64)>, j: int)
    requires
        0 <= j <= s.len(),
        !merge_fold(m, s.subrange(0, j)).2,
    ensures
        merge_fold(m, s) == merge_fold(m, s.subrange(0, j)),
    decreases s.len() - j,
{
    if j < s.len() {
        let t = s.subrange(0, j + 1);
        assert(t.drop_last() =~= s.subrange(0, j));
        lemma_merge_fold_stuck(m, s, j + 1);
    } else {
        assert(s.subrange(0, j) =~= s);
    }
}

/// Checks the replica-identifier rule.
pub fn validate_replica_id(replica_id: &str) -> (r: Result<(), VersionVectorError>)
    ensures
        r is Ok <==> valid_replica_id(replica_id@),
        r matches Err(e) ==> error_is(e, VectorFault::InvalidReplicaId, replica_id@),
{
    let chars = chars_of(replica_id);
    if is_valid_replica_chars(&chars) {
        Ok(())
    } else {
        Err(VersionVectorError::InvalidReplicaId(replica_id.to_owned()))
    }
}

impl VersionVector {
    /// Rejects a replica that would push the vector past its bound.
    fn admit_replica(&self, replica_id: &str) -> (r: Result<(), VersionVectorError>)
        ensures
            r is Ok <==> admits(self@, replica_id@),
            r matches Err(e) ==> error_is(e, VectorFault::TooManyReplicas, replica_id@),
    {
        proof {
            use_type_invariant(self);
            self.lemma_view();
        }
        if self.get(replica_id) == 0 && self.entries.len() >= MAX_CAUSAL_REPLICAS {
            Err(VersionVectorError::TooManyReplicas { maximum: MAX_CAUSAL_REPLICAS })
        } else {
            Ok(())
        }
    }

    /// A new vector equal to `self` with one counter set.
    fn with_counter(&self, replica_id: &str, counter: u64) -> (r: Self)
        requires
            valid_replica_id(replica_id@),
            counter > 0,
            admits(self@, replica_id@),
        ensures
            r@ == self@.insert(replica_id@, counter),
    {
        proof {
            use_type_invariant(self);
            self.lemma_view();
        }
        let mut entries = copy_entries(&self.entries);
        let ghost before = entries@;
        set_entry(&mut entries, replica_id.to_owned(), counter);
        proof {
            assert(has_id(before, replica_id@) == self@.contains_key(replica_id@));
            assert forall|i: int| 0 <= i < entries@.len() implies valid_replica_id(
                #[trigger] entries@[i].0@,
            ) && entries@[i].1 > 0 by {
                if !(entries@[i].0@ == replica_id@ && entries@[i].1 == counter) {
                    let j = choose|j: int|
                        0 <= j < before.len() && before[j].0@ == entries@[i].0@ && before[j].1
                            == entries@[i].1;
                    assert(valid_replica_id(before[j].0@));
                }
            }
        }
        VersionVector { entries }
    }

    /// The counter `replica_id` would receive from an increment.
    fn next_counter(&self, replica_id: &str) -> (r: Result<u64, VersionVectorError>)
        ensures
            increment_fault(self@, replica_id@) matches Some(f) ==> r matches Err(e) && error_is(
                e,
                f,
                replica_id@,
            ),
            increment_fault(self@, replica_id@) is None ==> r == Ok::<u64, VersionVectorError>(
                (counter_of(self@, replica_id@) + 1) as u64,
            ),
    {
        validate_replica_id(replica_id)?;
        self.admit_replica(replica_id)?;
        let current = self.get(replica_id);
        if current == u64::MAX {
            return Err(VersionVectorError::CounterOverflow(replica_id.to_owned()));
        }
        Ok(current + 1)
    }

    /// The counter `replica_id` would hold after observing `counter`, or
    /// `None` when the observation changes nothing.
    fn joined_counter(&self, replica_id: &str, counter: u64) -> (r: Result<
        Option<u64>,
        VersionVectorError,
    >)
        ensures
            observe_fault(self@, replica_id@, counter) matches Some(f) ==> r matches Err(e)
                && error_is(e, f, replica_id@),
            observe_fault(self@, replica_id@, counter) is None ==> r == Ok::<
                Option<u64>,
                VersionVectorError,
            >(
                if counter > counter_of(self@, replica_id@) {
                    Some(counter)
                } else {
                    None
                },
            ),
    {
        validate_replica_id(replica_id)?;
        if counter == 0 {
            return Err(VersionVectorError::ZeroCounter(replica_id.to_owned()));
        }
        self.admit_replica(replica_id)?;
        let current = self.get(replica_id);
        let joined = join_counter(current, counter);
        if joined != current {
            Ok(Some(joined))
        } else {
            Ok(None)
        }
    }

    /// Advances one local replica counter and returns the new value.
    pub fn increment(&mut self, replica_id: &str) -> (r: Result<u64, VersionVectorError>)
        ensures
            increment_fault(old(self)@, replica_id@) matches Some(f) ==> r matches Err(e)
                && error_is(e, f, replica_id@) && final(self)@ == old(self)@,
            increment_fault(old(self)@, replica_id@) is None ==> r == Ok::<u64, VersionVectorError>(
                (counter_of(old(self)@, replica_id@) + 1) as u64,
            ) && final(self)@ == old(self)@.insert(
                replica_id@,
                (counter_of(old(self)@, replica_id@) + 1) as u64,
            ),
    {
        let next = self.next_counter(replica_id)?;
        let updated = self.with_counter(replica_id, next);
        *self = updated;
        Ok(next)
    }

    /// Returns a new vector with `replica_id` advanced, plus the assigned
    /// counter. `self` is never modified.
    pub fn incremented(&self, replica_id: &str) -> (r: Result<(Self, u64), VersionVectorError>)
        ensures
            increment_fault(self@, replica_id@) matches Some(f) ==> r matches Err(e) && error_is(
                e,
                f,
                replica_id@,
            ),
            increment_fault(self@, replica_id@) is None ==> (r matches Ok((v, c)) && c == (
            counter_of(self@, replica_id@) + 1) as u64 && v@ == self@.insert(replica_id@, c)),
    {
        let next = self.next_counter(replica_id)?;
        Ok((self.with_counter(replica_id, next), next))
    }

    /// Observes an explicit positive counter, retaining the larger value.
    /// Replaying an older observation is therefore idempotent.
    pub fn observe(&mut self, replica_id: &str, counter: u64) -> (r: Result<
        bool,
        VersionVectorError,
    >)
        ensures
            observe_fault(old(self)@, replica_id@, counter) matches Some(f) ==> r matches Err(e)
                && error_is(e, f, replica_id@) && final(self)@ == old(self)@,
            observe_fault(old(self)@, replica_id@, counter) is None ==> r == Ok::<
                bool,
                VersionVectorError,
            >(counter > counter_of(old(self)@, replica_id@)) && final(self)@ == observe_map(
                old(self)@,
                replica_id@,
                counter,
            ),
    {
        match self.joined_counter(replica_id, counter)? {
            Some(joined) => {
                let updated = self.with_counter(replica_id, joined);
                *self = updated;
                Ok(true)
            },
            None => Ok(false),
        }
    }

    /// Returns a new vector that has observed `counter`, plus whether it
    /// differs from `self`. `self` is never modified.
    pub fn observed(&self, replica_id: &str, counter: u64) -> (r: Result<
        (Self, bool),
        VersionVectorError,
    >)
        ensures
            observe_fault(self@, replica_id@, counter) matches Some(f) ==> r matches Err(e)
                && error_is(e, f, replica_id@),
            observe_fault(self@, replica_id@, counter) is None ==> (r matches Ok((v, changed))
                && changed == (counter > counter_of(self@, replica_id@)) && v@ == observe_map(
                self@,
                replica_id@,
                counter,
            )),
    {
        match self.joined_counter(replica_id, counter)? {
            Some(joined) => Ok((self.with_counter(replica_id, joined), true)),
            None => Ok((self.clone(), false)),
        }
    }

    /// Merges another vector by taking the maximum counter for every
    /// replica, in increasing replica-id order. It succeeds exactly when the
    /// join of the two vectors fits the replica bound (so always when every
    /// replica of `other` is already known here), and then holds that join
    /// and returns whether some counter of `other` was ahead. When the bound
    /// is reached the replicas merged so far remain merged.
    pub fn merge(&mut self, other: &Self) -> (r: Result<bool, VersionVectorError>)
        ensures
            final(self)@ == merge_fold(old(self)@, other.ordered()).0,
            merge_fold(old(self)@, other.ordered()).2 ==> r == Ok::<bool, VersionVectorError>(
                merge_fold(old(self)@, other.ordered()).1,
            ),
            !merge_fold(old(self)@, other.ordered()).2 ==> (r matches Err(e) && error_is(
                e,
                VectorFault::TooManyReplicas,
                Seq::empty(),
            )),
            r is Ok ==> final(self)@ == join_map(old(self)@, other@),
            r is Ok <==> join_map(old(self)@, other@).len() <= MAX_CAUSAL_REPLICAS,
            old(self)@.len() + other@.len() <= MAX_CAUSAL_REPLICAS ==> r is Ok,
            (forall|k: Seq<char>| #[trigger] other@.contains_key(k) ==> old(self)@.contains_key(k))
                ==> r is Ok,
            r matches Ok(changed) ==> changed == exists|k: Seq<char>|
                #[trigger] other@.contains_key(k) && other@[k] > counter_of(old(self)@, k),
    {
        proof {
            use_type_invariant(&*other);
            other.lemma_view();
            use_type_invariant(&*self);
            self.lemma_view();
            lemma_join_len_bound(self@, other@);
        }
        let ghost start = self@;
        let ghost seq = other.ordered();
        let mut changed = false;
        let mut i: usize = 0;
        while i < other.entries.len()
            invariant
                i <= other.entries.len(),
                seq == other.ordered(),
                start == old(self)@,
                seq.len() == other.entries@.len(),
                entries_ok(other.entries@),
                merge_fold(start, seq.subrange(0, i as int)) == (self@, changed, true),
                start.dom().finite(),
                start.len() <= MAX_CAUSAL_REPLICAS,
                other@.dom().finite(),
                other@ == pairs_map(other.entries@),
                changed <==> exists|j: int|
                    0 <= j < i && #[trigger] other.entries@[j].1 > counter_of(
                        start,
                        other.entries@[j].0@,
                    ),
                self@ == join_map(start, pairs_map(other.entries@.subrange(0, i as int))),
                forall|j: int|
                    0 <= j < other.entries@.len() ==> #[trigger] other@.contains_key(
                        other.entries@[j].0@,
                    ) && other@[other.entries@[j].0@] == other.entries@[j].1,
            decreases other.entries.len() - i,
        {
            let ghost prefix = seq.subrange(0, i + 1);
            let ghost before = self@;
            proof {
                assert(prefix.drop_last() =~= seq.subrange(0, i as int));
                assert(prefix.last() == (other.entries@[i as int].0@, other.entries@[i as int].1));
                lemma_pairs_map_prefix(other.entries@, i as int);
            }
            match self.observe(other.entries[i].0.as_str(), other.entries[i].1) {
                Ok(step) => {
                    let ghost was = changed;
                    changed = changed || step;
                    proof {
                        let k = other.entries@[i as int].0@;
                        let c = other.entries@[i as int].1;
                        assert(counter_of(before, k) == counter_of(start, k));
                        assert(self@ =~= join_map(start, pairs_map(other.entries@.subrange(0, i + 1))));
                        if step {
                            assert(other.entries@[i as int].1 > counter_of(start, other.entries@[i as int].0@));
                        } else if !was {
                            assert forall|j: int| 0 <= j < i + 1 implies !(#[trigger] other.entries@[j].1
                                > counter_of(start, other.entries@[j].0@)) by {
                                if j < i {
                                } else {
                                    assert(j == i);
                                }
                            }
                        }
                    }
                },
                Err(e) => {
                    proof {
                        lemma_merge_fold_stuck(start, seq, i + 1);
                        let part = pairs_map(other.entries@.subrange(0, i as int));
                        let k = other.entries@[i as int].0@;
                        assert forall|x: Seq<char>| #[trigger] part.contains_key(x) implies other@.contains_key(x) by {
                            let sub = other.entries@.subrange(0, i as int);
                            let j = id_index(sub, x);
                            assert(sub[j] == other.entries@[j]);
                        }
                        assert(other@.contains_key(k));
                        lemma_join_exceeds(start, part, other@, k);
                        lemma_join_len_bound(start, other@);
                        if forall|x: Seq<char>| #[trigger] other@.contains_key(x) ==> start.contains_key(x) {
                            assert(join_map(start, other@).dom() =~= start.dom());
                        }
                    }
                    return Err(e);
                },
            }
            i = i + 1;
        }
        proof {
            assert(seq.subrange(0, i as int) =~= seq);
            assert(other.entries@.subrange(0, i as int) =~= other.entries@);
            use_type_invariant(&*self);
            self.lemma_view();
            if changed {
                let j = choose|j: int| 0 <= j < i && #[trigger] other.entries@[j].1 > counter_of(
                    start,
                    other.entries@[j].0@,
                );
                assert(other@.contains_key(other.entries@[j].0@));
            } else {
                assert forall|k: Seq<char>| #[trigger] other@.contains_key(k) implies !(other@[k]
                    > counter_of(start, k)) by {
                    let j = id_index(other.entries@, k);
                    assert(other.entries@[j].1 > counter_of(start, other.entries@[j].0@) ==> changed);
                }
            }
        }
        Ok(changed)
    }

    /// Creates a validated vector from explicit counters, observed in the
    /// given order.
    pub fn from_entries(entries: Vec<(String, u64)>) -> (r: Result<Self, VersionVectorError>)
        ensures
            from_fold(plain_pairs(entries@)) matches Ok(m) ==> r matches Ok(v) && v@ == m,
            from_fold(plain_pairs(entries@)) matches Err((f, id)) ==> r matches Err(e) && error_is(
                e,
                f,
                id,
            ),
    {
        let ghost seq = plain_pairs(entries@);
        let mut vector = VersionVector::new();
        let mut i: usize = 0;
        while i < entries.len()
            invariant
                i <= entries.len(),
                seq == plain_pairs(entries@),
                from_fold(seq.subrange(0, i as int)) == Ok::<
                    Map<Seq<char>, u64>,
                    (VectorFault, Seq<char>),
                >(vector@),
            decreases entries.len() - i,
        {
            let ghost prefix = seq.subrange(0, i + 1);
            proof {
                assert(prefix.drop_last() =~= seq.subrange(0, i as int));
                assert(prefix.last() == (entries@[i as int].0@, entries@[i as int].1));
            }
            match vector.observe(entries[i].0.as_str(), entries[i].1) {
                Ok(_) => {},
                Err(e) => {
                    proof {
                        lemma_from_fold_stuck(seq, i + 1);
                    }
                    return Err(e);
                },
            }
            i = i + 1;
        }
        proof {
            assert(seq.subrange(0, i as int) =~= seq);
        }
        Ok(vector)
    }
}

proof fn lemma_join_len_bound(a: Map<Seq<char>, u64>, b: Map<Seq<char>, u64>)
    requires
        a.dom().finite(),
        b.dom().finite(),
    ensures
        join_map(a, b).dom().finite(),
        join_map(a, b).len() <= a.len() + b.len(),
{
    assert(join_map(a, b).dom() =~= a.dom().union(b.dom()));
    vstd::set_lib::lemma_len_union(a.dom(), b.dom());
}

/// A join that must take one more replica than a full partial join holds
/// exceeds the replica bound.
proof fn lemma_join_exceeds(
    start: Map<Seq<char>, u64>,
    part: Map<Seq<char>, u64>,
    whole: Map<Seq<char>, u64>,
    k: Seq<char>,
)
    requires
        start.dom().finite(),
        whole.dom().finite(),
        forall|x: Seq<char>| #[trigger] part.contains_key(x) ==> whole.contains_key(x),
        whole.contains_key(k),
        !join_map(start, part).contains_key(k),
        join_map(start, part).len() >= MAX_CAUSAL_REPLICAS,
    ensures
        join_map(start, whole).len() > MAX_CAUSAL_REPLICAS,
{
    let big = join_map(start, whole).dom();
    assert(big =~= start.dom().union(whole.dom()));
    let mid = join_map(start, part).dom();
    assert(mid.subset_of(big));
    vstd::set_lib::lemma_len_subset(mid, big);
    let small = mid.insert(k);
    assert(small.subset_of(big));
    vstd::set_lib::lemma_len_subset(small, big);
}

proof fn lemma_pairs_map_prefix(s: Seq<(String, u64)>, i: int)
    requires
        sorted_entries(s),
        0 <= i < s.len(),
    ensures
        sorted_entries(s.subrange(0, i)),
        !pairs_map(s.subrange(0, i)).contains_key(s[i].0@),
        pairs_map(s.subrange(0, i + 1)) == pairs_map(s.subrange(0, i)).insert(s[i].0@, s[i].1),
{
    let a = s.subrange(0, i);
    let b = s.subrange(0, i + 1);
    assert(sorted_entries(a));
    assert(sorted_entries(b));
    assert(!has_id(a, s[i].0@)) by {
        if has_id(a, s[i].0@) {
            let j = id_index(a, s[i].0@);
            lemma_sorted_distinct(s, j, i);
        }
    }
    assert(pairs_map(b) =~= pairs_map(a).insert(s[i].0@, s[i].1)) by {
        assert forall|k: Seq<char>| #[trigger] has_id(b, k) == (has_id(a, k) || k == s[i].0@) by {
            if has_id(a, k) {
                let j = id_index(a, k);
                assert(b[j].0@ == k);
            }
            if has_id(b, k) {
                let j = id_index(b, k);
                if j < i {
                    assert(a[j].0@ == k);
                }
            }
            assert(b[i].0@ == s[i].0@);
        }
        assert forall|k: Seq<char>| #[trigger] pairs_map(b).contains_key(k) implies pairs_map(b)[k]
            == pairs_map(a).insert(s[i].0@, s[i].1)[k] by {
            let j = id_index(b, k);
            lemma_sorted_lookup(b, j);
            if j < i {
                lemma_sorted_lookup(a, j);
            }
        }
    }
}

impl VersionVector {
    /// Returns the least upper bound of `self` and `other` as a new vector,
    /// plus whether it differs from `self`. Neither input is modified, and
    /// nothing is applied when the union exceeds the replica bound.
    pub fn joined(&self, other: &Self) -> (r: Result<(Self, bool), VersionVectorError>)
        ensures
            join_map(self@, other@).dom().finite(),
            join_map(self@, other@).len() > MAX_CAUSAL_REPLICAS ==> (r matches Err(e) && error_is(
                e,
                VectorFault::TooManyReplicas,
                Seq::empty(),
            )),
            join_map(self@, other@).len() <= MAX_CAUSAL_REPLICAS ==> (r matches Ok((v, changed))
                && v@ == join_map(self@, other@) && changed == (join_map(self@, other@) != self@)),
    {
        proof {
            use_type_invariant(self);
            use_type_invariant(other);
            self.lemma_view();
            other.lemma_view();
        }
        let ghost mine = self@;
        let ghost theirs = other.entries@;
        let mut entries = copy_entries(&self.entries);
        let mut changed = false;
        let mut i: usize = 0;
        proof {
            assert(pairs_map(theirs.subrange(0, 0)) =~= Map::<Seq<char>, u64>::empty());
            assert(pairs_map(entries@) =~= join_map(mine, pairs_map(theirs.subrange(0, 0))));
        }
        while i < other.entries.len()
            invariant
                i <= other.entries.len(),
                theirs == other.entries@,
                mine == self@,
                vector_ok(mine),
                entries_ok(theirs),
                entries_ok(entries@),
                pairs_map(entries@) == join_map(mine, pairs_map(theirs.subrange(0, i as int))),
                changed == (pairs_map(entries@) != mine),
            decreases other.entries.len() - i,
        {
            let ghost prev = pairs_map(entries@);
            let ghost k = theirs[i as int].0@;
            let ghost c = theirs[i as int].1;
            proof {
                lemma_pairs_map_prefix(theirs, i as int);
            }
            let chars = chars_of(other.entries[i].0.as_str());
            let (p, found) = find_slot(&entries, &chars);
            let current = if found {
                entries[p].1
            } else {
                0
            };
            proof {
                if found {
                    lemma_sorted_lookup(entries@, p as int);
                }
                assert(current == counter_of(prev, k));
                assert(counter_of(prev, k) == counter_of(mine, k));
            }
            if other.entries[i].1 > current {
                let ghost before = entries@;
                set_entry(&mut entries, other.entries[i].0.clone(), other.entries[i].1);
                changed = true;
                proof {
                    assert forall|j: int| 0 <= j < entries@.len() implies valid_replica_id(
                        #[trigger] entries@[j].0@,
                    ) && entries@[j].1 > 0 by {
                        if !(entries@[j].0@ == k && entries@[j].1 == c) {
                            let m = choose|m: int|
                                0 <= m < before.len() && before[m].0@ == entries@[j].0@
                                    && before[m].1 == entries@[j].1;
                            assert(valid_replica_id(before[m].0@));
                        }
                    }
                    assert(pairs_map(entries@) =~= join_map(
                        mine,
                        pairs_map(theirs.subrange(0, i + 1)),
                    ));
                    assert(counter_of(pairs_map(entries@), k) != counter_of(mine, k));
                }
            } else {
                proof {
                    assert(prev.contains_key(k));
                    assert(pairs_map(entries@) =~= join_map(
                        mine,
                        pairs_map(theirs.subrange(0, i + 1)),
                    ));
                }
            }
            i = i + 1;
        }
        proof {
            assert(theirs.subrange(0, i as int) =~= theirs);
            lemma_ids_seq(entries@);
        }
        if entries.len() > MAX_CAUSAL_REPLICAS {
            Err(VersionVectorError::TooManyReplicas { maximum: MAX_CAUSAL_REPLICAS })
        } else {
            Ok((VersionVector { entries }, changed))
        }
    }

    /// Compares two vector clocks using the standard partial order.
    pub fn relation(&self, other: &Self) -> (r: VersionRelation)
        ensures
            r == relation_of(self@, other@),
    {
        proof {
            use_type_invariant(self);
            use_type_invariant(other);
            self.lemma_view();
            other.lemma_view();
        }
        let mut less = false;
        let mut i: usize = 0;
        while i < other.entries.len()
            invariant
                i <= other.entries.len(),
                less == exists|j: int|
                    0 <= j < i && #[trigger] counter_of(self@, other.entries@[j].0@)
                        < other.entries@[j].1,
            decreases other.entries.len() - i,
        {
            if self.get(other.entries[i].0.as_str()) < other.entries[i].1 {
                less = true;
            }
            i = i + 1;
        }
        let mut greater = false;
        let mut i: usize = 0;
        while i < self.entries.len()
            invariant
                i <= self.entries.len(),
                greater == exists|j: int|
                    0 <= j < i && #[trigger] counter_of(other@, self.entries@[j].0@)
                        < self.entries@[j].1,
            decreases self.entries.len() - i,
        {
            if other.get(self.entries[i].0.as_str()) < self.entries[i].1 {
                greater = true;
            }
            i = i + 1;
        }
        proof {
            assert(less == has_lower(self@, other@)) by {
                if less {
                    let j = choose|j: int|
                        0 <= j < other.entries@.len() && #[trigger] counter_of(
                            self@,
                            other.entries@[j].0@,
                        ) < other.entries@[j].1;
                    assert(counter_of(self@, other.entries@[j].0@) < counter_of(
                        other@,
                        other.entries@[j].0@,
                    ));
                }
                if has_lower(self@, other@) {
                    let k = choose|k: Seq<char>| #[trigger] counter_of(self@, k) < counter_of(
                        other@,
                        k,
                    );
                    let j = id_index(other.entries@, k);
                    assert(counter_of(self@, other.entries@[j].0@) < other.entries@[j].1);
                }
            }
            assert(greater == has_lower(other@, self@)) by {
                if greater {
                    let j = choose|j: int|
                        0 <= j < self.entries@.len() && #[trigger] counter_of(
                            other@,
                            self.entries@[j].0@,
                        ) < self.entries@[j].1;
                    assert(counter_of(other@, self.entries@[j].0@) < counter_of(
                        self@,
                        self.entries@[j].0@,
                    ));
                }
                if has_lower(other@, self@) {
                    let k = choose|k: Seq<char>| #[trigger] counter_of(other@, k) < counter_of(
                        self@,
                        k,
                    );
                    let j = id_index(self.entries@, k);
                    assert(counter_of(other@, self.entries@[j].0@) < self.entries@[j].1);
                }
            }
        }
        relation_from_order_flags(less, greater)
    }

    /// Reports whether this vector is equal to or causally after `other`.
    pub fn dominates(&self, other: &Self) -> (r: bool)
        ensures
            r == (relation_of(self@, other@) == VersionRelation::Equal || relation_of(self@, other@)
                == VersionRelation::After),
    {
        match self.relation(other) {
            VersionRelation::Equal | VersionRelation::After => true,
            VersionRelation::Before | VersionRelation::Concurrent => false,
        }
    }
}

proof fn lemma_from_fold_stuck(s: Seq<(Seq<char>, u64)>, j: int)
    requires
        0 <= j <= s.len(),
        from_fold(s.subrange(0, j)) is Err,
    ensures
        from_fold(s) == from_fold(s.subrange(0, j)),
    decreases s.len() - j,
{
    if j < s.len() {
        let t = s.subrange(0, j + 1);
        assert(t.drop_last() =~= s.subrange(0, j));
        lemma_from_fold_stuck(s, j + 1);
    } else {
        assert(s.subrange(0, j) =~= s);
    }
}

impl Clone for VersionVector {
    fn clone(&self) -> (r: Self)
        ensures
            r@ == self@,
    {
        proof {
            use_type_invariant(self);
        }
        VersionVector { entries: copy_entries(&self.entries) }
    }
}

// ---------------------------------------------------------------------------
// Envelopes
// ---------------------------------------------------------------------------

/// Payload carried by a causal mutation envelope.
#[derive(Debug, Clone, PartialEq, Eq)]
pub enum CausalOperation<T> {
    /// Create or replace/reconcile a document value.
    Upsert(T),
    /// Delete a document while retaining a causally ordered tombstone.
    Delete,
}

/// A transport-neutral mutation with an immutable causal snapshot.
#[derive(Debug, PartialEq, Eq)]
pub struct CausalEnvelope<T> {
    /// Wire schema discriminator.
    pub schema_version: String,
    /// Stable logical document key.
    pub document_id: String,
    /// Client-generated idempotency key.
    pub mutation_id: String,
    /// Replica that advanced the vector for this mutation.
    pub replica_id: String,
    /// Vector clock after the local mutation was recorded.
    pub clock: VersionVector,
    /// Upsert payload or delete tombstone.
    pub operation: CausalOperation<T>,
}

impl<T: Clone> Clone for CausalEnvelope<T> {
    /// A copy with equal identifiers and clock, and a cloned payload.
    fn clone(&self) -> (r: Self)
        ensures
            r.schema_version@ == self.schema_version@,
            r.document_id@ == self.document_id@,
            r.mutation_id@ == self.mutation_id@,
            r.replica_id@ == self.replica_id@,
            r.clock@ == self.clock@,
            self.operation is Delete <==> r.operation is Delete,
            self.operation matches CausalOperation::Upsert(p) ==> (r.operation matches CausalOperation::Upsert(q)
                && cloned(p, q)),
    {
        CausalEnvelope {
            schema_version: self.schema_version.clone(),
            document_id: self.document_id.clone(),
            mutation_id: self.mutation_id.clone(),
            replica_id: self.replica_id.clone(),
            clock: self.clock.clone(),
            operation: match &self.operation {
                CausalOperation::Upsert(payload) => CausalOperation::Upsert(payload.clone()),
                CausalOperation::Delete => CausalOperation::Delete,
            },
        }
    }
}

/// Causal-envelope validation error.
#[derive(Debug, Clone, PartialEq, Eq)]
pub enum CausalEnvelopeError {
    /// The wire schema is not supported by this client.
    UnsupportedSchema(String),
    /// A logical document key is empty, overlong, or contains control characters.
    InvalidDocumentId,
    /// An idempotency key is empty, overlong, or contains control characters.
    InvalidMutationId,
    /// The vector does not contain a positive counter for its declared actor.
    MissingActorCounter(String),
    /// Vector-clock validation or arithmetic failed.
    VersionVector(VersionVectorError),
}

impl From<VersionVectorError> for CausalEnvelopeError {
    fn from(error: VersionVectorError) -> (r: Self) {
        CausalEnvelopeError::VersionVector(error)
    }
}

impl vstd::std_specs::convert::FromSpecImpl<VersionVectorError> for CausalEnvelopeError {
    open spec fn obeys_from_spec() -> bool {
        true
    }

    open spec fn from_spec(error: VersionVectorError) -> Self {
        CausalEnvelopeError::VersionVector(error)
    }
}

/// An external identifier holds a character that is not white space, takes
/// at most `max` bytes, and holds no control character.
pub open spec fn valid_external_id(s: Seq<char>, max: nat) -> bool {
    &&& exists|i: int| 0 <= i < s.len() && !is_space(#[trigger] s[i])
    &&& utf8_len(s) <= max
    &&& forall|i: int| 0 <= i < s.len() ==> !is_control(#[trigger] s[i])
}

/// Checks [`valid_external_id`].
pub fn is_valid_external_id(value: &str, maximum_bytes: usize) -> (r: bool)
    ensures
        r == valid_external_id(value@, maximum_bytes as nat),
{
    let chars = chars_of(value);
    let mut visible = false;
    let mut i: usize = 0;
    while i < chars.len()
        invariant
            i <= chars.len(),
            chars@ == value@,
            visible == exists|j: int| 0 <= j < i && !is_space(#[trigger] chars@[j]),
            forall|j: int| 0 <= j < i ==> !is_control(#[trigger] chars@[j]),
        decreases chars.len() - i,
    {
        if char_is_control(chars[i]) {
            return false;
        }
        if !char_is_space(chars[i]) {
            visible = true;
        }
        i = i + 1;
    }
    visible && utf8_len_at_most(&chars, maximum_bytes)
}

/// The kinds of envelope error.
#[derive(Debug, Clone, Copy, PartialEq, Eq, Structural)]
pub enum EnvelopeFault {
    InvalidDocumentId,
    InvalidMutationId,
    Vector(VectorFault),
}

/// `e` is the envelope error of kind `f` about replica `id`.
pub open spec fn envelope_error_is(e: CausalEnvelopeError, f: EnvelopeFault, id: Seq<char>) -> bool {
    match f {
        EnvelopeFault::InvalidDocumentId => e == CausalEnvelopeError::InvalidDocumentId,
        EnvelopeFault::InvalidMutationId => e == CausalEnvelopeError::InvalidMutationId,
        EnvelopeFault::Vector(v) => e matches CausalEnvelopeError::VersionVector(inner) && error_is(
            inner,
            v,
            id,
        ),
    }
}

/// Why building an envelope from these parts fails, if it does.
pub open spec fn new_envelope_fault(
    document_id: Seq<char>,
    mutation_id: Seq<char>,
    replica_id: Seq<char>,
    clock: Map<Seq<char>, u64>,
) -> Option<EnvelopeFault> {
    if !valid_external_id(document_id, MAX_DOCUMENT_ID_BYTES as nat) {
        Some(EnvelopeFault::InvalidDocumentId)
    } else if !valid_external_id(mutation_id, MAX_MUTATION_ID_BYTES as nat) {
        Some(EnvelopeFault::InvalidMutationId)
    } else {
        match increment_fault(clock, replica_id) {
            Some(f) => Some(EnvelopeFault::Vector(f)),
            None => None,
        }
    }
}

/// `m` with `id` advanced by one.
pub open spec fn advanced(m: Map<Seq<char>, u64>, id: Seq<char>) -> Map<Seq<char>, u64> {
    m.insert(id, (counter_of(m, id) + 1) as u64)
}

/// `e` is the envelope built from these parts: the current schema, the
/// given identifiers and operation, and the clock advanced for the replica.
pub open spec fn envelope_built<T>(
    e: CausalEnvelope<T>,
    document_id: Seq<char>,
    mutation_id: Seq<char>,
    replica_id: Seq<char>,
    clock: Map<Seq<char>, u64>,
    operation: CausalOperation<T>,
) -> bool {
    &&& e.schema_version@ == CAUSAL_SCHEMA_VERSION@
    &&& e.document_id@ == document_id
    &&& e.mutation_id@ == mutation_id
    &&& e.replica_id@ == replica_id
    &&& e.clock@ == advanced(clock, replica_id)
    &&& e.operation == operation
}

/// Why an envelope fails validation, if it does.
pub open spec fn validation_fault<T>(e: CausalEnvelope<T>) -> Option<CausalEnvelopeError> {
    if e.schema_version@ != CAUSAL_SCHEMA_VERSION@ {
        Some(CausalEnvelopeError::UnsupportedSchema(e.schema_version))
    } else if !valid_external_id(e.document_id@, MAX_DOCUMENT_ID_BYTES as nat) {
        Some(CausalEnvelopeError::InvalidDocumentId)
    } else if !valid_external_id(e.mutation_id@, MAX_MUTATION_ID_BYTES as nat) {
        Some(CausalEnvelopeError::InvalidMutationId)
    } else if !valid_replica_id(e.replica_id@) {
        Some(
            CausalEnvelopeError::VersionVector(VersionVectorError::InvalidReplicaId(e.replica_id)),
        )
    } else if counter_of(e.clock@, e.replica_id@) == 0 {
        Some(CausalEnvelopeError::MissingActorCounter(e.replica_id))
    } else {
        None
    }
}

/// Checks the document-identifier rule.
pub fn validate_document_id(document_id: &str) -> (r: Result<(), CausalEnvelopeError>)
    ensures
        r is Ok <==> valid_external_id(document_id@, MAX_DOCUMENT_ID_BYTES as nat),
        r is Err ==> r == Err::<(), CausalEnvelopeError>(CausalEnvelopeError::InvalidDocumentId),
{
    if is_valid_external_id(document_id, MAX_DOCUMENT_ID_BYTES) {
        Ok(())
    } else {
        Err(CausalEnvelopeError::InvalidDocumentId)
    }
}

/// Checks the mutation-identifier rule.
pub fn validate_mutation_id(mutation_id: &str) -> (r: Result<(), CausalEnvelopeError>)
    ensures
        r is Ok <==> valid_external_id(mutation_id@, MAX_MUTATION_ID_BYTES as nat),
        r is Err ==> r == Err::<(), CausalEnvelopeError>(CausalEnvelopeError::InvalidMutationId),
{
    if is_valid_external_id(mutation_id, MAX_MUTATION_ID_BYTES) {
        Ok(())
    } else {
        Err(CausalEnvelopeError::InvalidMutationId)
    }
}

impl<T> CausalEnvelope<T> {
    /// Builds an envelope whose clock is `clock` advanced for `replica_id`.
    /// `clock` is only read.
    pub fn new(
        document_id: &str,
        mutation_id: &str,
        replica_id: &str,
        clock: &VersionVector,
        operation: CausalOperation<T>,
    ) -> (r: Result<Self, CausalEnvelopeError>)
        ensures
            new_envelope_fault(document_id@, mutation_id@, replica_id@, clock@) matches Some(f)
                ==> (r matches Err(e) && envelope_error_is(e, f, replica_id@)),
            new_envelope_fault(document_id@, mutation_id@, replica_id@, clock@) is None ==> (r matches Ok(
                e,
            ) && envelope_built(e, document_id@, mutation_id@, replica_id@, clock@, operation)),
    {
        validate_document_id(document_id)?;
        validate_mutation_id(mutation_id)?;
        match validate_replica_id(replica_id) {
            Ok(()) => {},
            Err(e) => {
                return Err(CausalEnvelopeError::VersionVector(e));
            },
        }
        let (next, _counter) = match clock.incremented(replica_id) {
            Ok(pair) => pair,
            Err(e) => {
                return Err(CausalEnvelopeError::VersionVector(e));
            },
        };
        Ok(CausalEnvelope {
            schema_version: CAUSAL_SCHEMA_VERSION.to_owned(),
            document_id: document_id.to_owned(),
            mutation_id: mutation_id.to_owned(),
            replica_id: replica_id.to_owned(),
            clock: next,
            operation,
        })
    }

    /// Creates an upsert envelope and advances `clock` for `replica_id`.
    /// On failure `clock` is left as it was.
    pub fn upsert(
        document_id: &str,
        mutation_id: &str,
        replica_id: &str,
        clock: &mut VersionVector,
        payload: T,
    ) -> (r: Result<Self, CausalEnvelopeError>)
        ensures
            new_envelope_fault(document_id@, mutation_id@, replica_id@, old(clock)@) matches Some(
                f,
            ) ==> (r matches Err(e) && envelope_error_is(e, f, replica_id@) && final(clock)@ == old(
                clock,
            )@),
            new_envelope_fault(document_id@, mutation_id@, replica_id@, old(clock)@) is None ==> (r matches Ok(
                e,
            ) && envelope_built(
                e,
                document_id@,
                mutation_id@,
                replica_id@,
                old(clock)@,
                CausalOperation::Upsert(payload),
            ) && final(clock)@ == e.clock@),
    {
        let envelope = Self::new(
            document_id,
            mutation_id,
            replica_id,
            clock,
            CausalOperation::Upsert(payload),
        )?;
        *clock = envelope.clock.clone();
        Ok(envelope)
    }

    /// Creates a delete tombstone and advances `clock` for `replica_id`.
    /// On failure `clock` is left as it was.
    pub fn delete(
        document_id: &str,
        mutation_id: &str,
        replica_id: &str,
        clock: &mut VersionVector,
    ) -> (r: Result<Self, CausalEnvelopeError>)
        ensures
            new_envelope_fault(document_id@, mutation_id@, replica_id@, old(clock)@) matches Some(
                f,
            ) ==> (r matches Err(e) && envelope_error_is(e, f, replica_id@) && final(clock)@ == old(
                clock,
            )@),
            new_envelope_fault(document_id@, mutation_id@, replica_id@, old(clock)@) is None ==> (r matches Ok(
                e,
            ) && envelope_built(
                e,
                document_id@,
                mutation_id@,
                replica_id@,
                old(clock)@,
                CausalOperation::Delete,
            ) && final(clock)@ == e.clock@),
    {
        let envelope = Self::new(
            document_id,
            mutation_id,
            replica_id,
            clock,
            CausalOperation::Delete,
        )?;
        *clock = envelope.clock.clone();
        Ok(envelope)
    }

    /// Validates an envelope received across a trust boundary.
    pub fn validate(&self) -> (r: Result<(), CausalEnvelopeError>)
        ensures
            validation_fault(*self) matches Some(e) ==> r == Err::<(), CausalEnvelopeError>(e),
            validation_fault(*self) is None ==> r is Ok,
    {
        let expected = CAUSAL_SCHEMA_VERSION.to_owned();
        if self.schema_version != expected {
            return Err(CausalEnvelopeError::UnsupportedSchema(self.schema_version.clone()));
        }
        validate_document_id(self.document_id.as_str())?;
        validate_mutation_id(self.mutation_id.as_str())?;
        match validate_replica_id(self.replica_id.as_str()) {
            Ok(()) => {},
            Err(_) => {
                return Err(
                    CausalEnvelopeError::VersionVector(
                        VersionVectorError::InvalidReplicaId(self.replica_id.clone()),
                    ),
                );
            },
        }
        if self.clock.get(self.replica_id.as_str()) == 0 {
            return Err(CausalEnvelopeError::MissingActorCounter(self.replica_id.clone()));
        }
        Ok(())
    }

    /// Classifies this mutation against a receiver's durable causal checkpoint.
    pub fn disposition_against(&self, checkpoint: &VersionVector) -> (r: CausalDisposition)
        ensures
            r == disposition_of(relation_of(self.clock@, checkpoint@)),
    {
        disposition_from_relation(self.clock.relation(checkpoint))
    }

    /// Returns the receiver checkpoint joined with this envelope's clock as a
    /// new vector, plus whether it differs from `checkpoint`.
    pub fn acknowledged(&self, checkpoint: &VersionVector) -> (r: Result<
        (VersionVector, bool),
        VersionVectorError,
    >)
        ensures
            join_map(checkpoint@, self.clock@).len() > MAX_CAUSAL_REPLICAS ==> (r matches Err(e)
                && error_is(e, VectorFault::TooManyReplicas, Seq::empty())),
            join_map(checkpoint@, self.clock@).len() <= MAX_CAUSAL_REPLICAS ==> (r matches Ok(
                (v, changed),
            ) && v@ == join_map(checkpoint@, self.clock@) && changed == (join_map(
                checkpoint@,
                self.clock@,
            ) != checkpoint@)),
    {
        checkpoint.joined(&self.clock)
    }

    /// Merges this envelope's clock into a receiver checkpoint. The next
    /// checkpoint is computed as a value and assigned once, so a rejected
    /// join leaves `checkpoint` untouched.
    pub fn acknowledge_into(&self, checkpoint: &mut VersionVector) -> (r: Result<
        bool,
        VersionVectorError,
    >)
        ensures
            join_map(old(checkpoint)@, self.clock@).len() > MAX_CAUSAL_REPLICAS ==> (r matches Err(
                e,
            ) && error_is(e, VectorFault::TooManyReplicas, Seq::empty()) && final(checkpoint)@
                == old(checkpoint)@),
            join_map(old(checkpoint)@, self.clock@).len() <= MAX_CAUSAL_REPLICAS ==> (r == Ok::<
                bool,
                VersionVectorError,
            >(join_map(old(checkpoint)@, self.clock@) != old(checkpoint)@) && final(checkpoint)@
                == join_map(old(checkpoint)@, self.clock@)),
    {
        let (next, changed) = self.acknowledged(checkpoint)?;
        *checkpoint = next;
        Ok(changed)
    }

    /// Reports whether the envelope carries a delete tombstone.
    pub fn is_delete(&self) -> (r: bool)
        ensures
            r == (self.operation is Delete),
    {
        match self.operation {
            CausalOperation::Delete => true,
            CausalOperation::Upsert(_) => false,
        }
    }

    /// Returns the local counter assigned by the envelope's originating replica.
    pub fn actor_counter(&self) -> (r: u64)
        ensures
            r == counter_of(self.clock@, self.replica_id@),
    {
        self.clock.get(self.replica_id.as_str())
    }
}

/// Rebuilding a vector from its own ordered entries gives the same vector.
pub proof fn lemma_from_fold_of_entries(s: Seq<(String, u64)>)
    requires
        sorted_entries(s),
        vector_ok(pairs_map(s)),
    ensures
        from_fold(plain_pairs(s)) == Ok::<Map<Seq<char>, u64>, (VectorFault, Seq<char>)>(
            pairs_map(s),
        ),
{
    lemma_ids_seq(s);
    lemma_from_fold_prefix(s, s.len() as int);
    assert(s.subrange(0, s.len() as int) =~= s);
}

proof fn lemma_from_fold_prefix(s: Seq<(String, u64)>, i: int)
    requires
        sorted_entries(s),
        vector_ok(pairs_map(s)),
        pairs_map(s).len() == s.len(),
        0 <= i <= s.len(),
    ensures
        from_fold(plain_pairs(s.subrange(0, i))) == Ok::<
            Map<Seq<char>, u64>,
            (VectorFault, Seq<char>),
        >(pairs_map(s.subrange(0, i))),
    decreases i,
{
    if i == 0 {
        assert(plain_pairs(s.subrange(0, 0)) =~= Seq::<(Seq<char>, u64)>::empty());
        assert(pairs_map(s.subrange(0, 0)) =~= Map::<Seq<char>, u64>::empty());
    } else {
        lemma_from_fold_prefix(s, i - 1);
        lemma_pairs_map_prefix(s, i - 1);
        lemma_sorted_lookup(s, i - 1);
        let t = plain_pairs(s.subrange(0, i));
        assert(t.drop_last() =~= plain_pairs(s.subrange(0, i - 1)));
        assert(t.last() == (s[i - 1].0@, s[i - 1].1));
        let prefix = s.subrange(0, i - 1);
        assert(sorted_entries(prefix));
        lemma_ids_seq(prefix);
        assert(pairs_map(prefix).len() == i - 1);
    }
}

/// When `b` is equal to or after `a`, joining `b` into `a` gives `b`.
pub proof fn lemma_join_dominated(a: Map<Seq<char>, u64>, b: Map<Seq<char>, u64>)
    requires
        vector_ok(a),
        vector_ok(b),
        !has_lower(b, a),
    ensures
        join_map(a, b) == b,
{
    assert forall|k: Seq<char>| a.contains_key(k) implies b.contains_key(k) by {
        assert(!(counter_of(b, k) < counter_of(a, k)));
    }
    assert forall|k: Seq<char>| #[trigger] b.contains_key(k) implies join_map(a, b)[k] == b[k] by {
        assert(!(counter_of(b, k) < counter_of(a, k)));
    }
    assert(join_map(a, b) =~= b);
}

// ---------------------------------------------------------------------------
// Laws
// ---------------------------------------------------------------------------

/// Comparing in the other direction gives the reversed relation.
pub proof fn law_relation_is_dual(a: Map<Seq<char>, u64>, b: Map<Seq<char>, u64>)
    ensures
        relation_of(a, b) == reversed(relation_of(b, a)),
{
}

/// Two vectors are `Equal` exactly when they hold the same counters.
pub proof fn law_equal_relation_is_equality(a: Map<Seq<char>, u64>, b: Map<Seq<char>, u64>)
    requires
        vector_ok(a),
        vector_ok(b),
    ensures
        relation_of(a, b) == VersionRelation::Equal <==> a == b,
{
    if relation_of(a, b) == VersionRelation::Equal {
        assert forall|k: Seq<char>| #![auto] counter_of(a, k) == counter_of(b, k) by {
            if counter_of(a, k) < counter_of(b, k) {
                assert(has_lower(a, b));
            }
            if counter_of(b, k) < counter_of(a, k) {
                assert(has_lower(b, a));
            }
        }
        assert forall|k: Seq<char>| a.contains_key(k) == b.contains_key(k) by {
            assert(counter_of(a, k) == counter_of(b, k));
        }
        assert(a =~= b) by {
            assert forall|k: Seq<char>| #[trigger] a.contains_key(k) implies a[k] == b[k] by {
                assert(counter_of(a, k) == counter_of(b, k));
            }
        }
    }
}

/// The join does not depend on argument order.
pub proof fn law_join_commutative(a: Map<Seq<char>, u64>, b: Map<Seq<char>, u64>)
    ensures
        join_map(a, b) == join_map(b, a),
{
    assert(join_map(a, b) =~= join_map(b, a));
}

/// Joining a vector with itself changes nothing.
pub proof fn law_join_idempotent(a: Map<Seq<char>, u64>)
    ensures
        join_map(a, a) == a,
{
    assert(join_map(a, a) =~= a);
}

/// The join is associative.
pub proof fn law_join_associative(
    a: Map<Seq<char>, u64>,
    b: Map<Seq<char>, u64>,
    c: Map<Seq<char>, u64>,
)
    ensures
        join_map(join_map(a, b), c) == join_map(a, join_map(b, c)),
{
    assert(join_map(join_map(a, b), c) =~= join_map(a, join_map(b, c)));
}

/// The join is equal to or after both inputs, and any vector equal to or
/// after both inputs is equal to or after the join.
pub proof fn law_join_least_upper_bound(
    a: Map<Seq<char>, u64>,
    b: Map<Seq<char>, u64>,
    c: Map<Seq<char>, u64>,
)
    ensures
        !has_lower(join_map(a, b), a),
        !has_lower(join_map(a, b), b),
        !has_lower(c, a) && !has_lower(c, b) ==> !has_lower(c, join_map(a, b)),
{
    if !has_lower(c, a) && !has_lower(c, b) && has_lower(c, join_map(a, b)) {
        let k = choose|k: Seq<char>| #[trigger] counter_of(c, k) < counter_of(join_map(a, b), k);
        assert(!(counter_of(c, k) < counter_of(a, k)));
        assert(!(counter_of(c, k) < counter_of(b, k)));
    }
}

/// Observing a counter that is not above the current one changes nothing,
/// and replaying any observation is idempotent.
pub proof fn law_observe_idempotent(m: Map<Seq<char>, u64>, id: Seq<char>, counter: u64)
    ensures
        counter <= counter_of(m, id) ==> observe_map(m, id, counter) == m,
        observe_map(observe_map(m, id, counter), id, counter) == observe_map(m, id, counter),
{
}

/// An increment leaves the new vector strictly after the old one.
pub proof fn law_increment_advances(m: Map<Seq<char>, u64>, id: Seq<char>)
    requires
        counter_of(m, id) < u64::MAX,
    ensures
        relation_of(m.insert(id, (counter_of(m, id) + 1) as u64), m) == VersionRelation::After,
{
    let n = m.insert(id, (counter_of(m, id) + 1) as u64);
    assert(counter_of(m, id) < counter_of(n, id));
    assert(!has_lower(n, m)) by {
        if has_lower(n, m) {
            let k = choose|k: Seq<char>| #[trigger] counter_of(n, k) < counter_of(m, k);
            if k != id {
                assert(counter_of(n, k) == counter_of(m, k));
            }
        }
    }
}

/// Each relation calls for its own disposition.
pub proof fn law_disposition_is_injective(r: VersionRelation, s: VersionRelation)
    ensures
        disposition_of(r) == disposition_of(s) ==> r == s,
{
}

// ---------------------------------------------------------------------------
// Messages
// ---------------------------------------------------------------------------

impl VersionVectorError {
    /// The error's message.
    pub fn message(&self) -> (r: String)
        ensures
            self matches VersionVectorError::InvalidReplicaId(id) ==> r@ == "replica id "@
                + debug_text(id@)
                + " must be 1..=128 ASCII bytes using letters, digits, '.', '_', ':', or '-'"@,
            self matches VersionVectorError::ZeroCounter(id) ==> r@ == "replica "@ + debug_text(
                id@,
            ) + " has a zero counter"@,
            self matches VersionVectorError::CounterOverflow(id) ==> r@ == "replica "@ + debug_text(
                id@,
            ) + " counter overflowed"@,
            self matches VersionVectorError::TooManyReplicas { maximum } ==> r@
                == "version vector exceeds "@ + int_text(maximum as int) + " replicas"@,
    {
        match self {
            VersionVectorError::InvalidReplicaId(id) => {
                let head = join("replica id ", debug_quoted(id.as_str()).as_str());
                join(
                    head.as_str(),
                    " must be 1..=128 ASCII bytes using letters, digits, '.', '_', ':', or '-'",
                )
            },
            VersionVectorError::ZeroCounter(id) => {
                let head = join("replica ", debug_quoted(id.as_str()).as_str());
                join(head.as_str(), " has a zero counter")
            },
            VersionVectorError::CounterOverflow(id) => {
                let head = join("replica ", debug_quoted(id.as_str()).as_str());
                join(head.as_str(), " counter overflowed")
            },
            VersionVectorError::TooManyReplicas { maximum } => {
                let digits = integer_text(*maximum as i128);
                let number = string_from_chars(digits.as_slice());
                let head = join("version vector exceeds ", number.as_str());
                join(head.as_str(), " replicas")
            },
        }
    }
}

impl CausalEnvelopeError {
    /// The error's message; it names identifiers and error kinds only.
    pub fn message(&self) -> (r: String)
        ensures
            self matches CausalEnvelopeError::UnsupportedSchema(schema) ==> r@
                == "unsupported causal envelope schema "@ + debug_text(schema@),
            self matches CausalEnvelopeError::InvalidDocumentId ==> r@
                == "document id must be 1..=512 bytes without control characters"@,
            self matches CausalEnvelopeError::InvalidMutationId ==> r@
                == "mutation id must be 1..=256 bytes without control characters"@,
            self matches CausalEnvelopeError::MissingActorCounter(id) ==> r@
                == "causal envelope actor "@ + debug_text(id@) + " has no positive counter"@,
    {
        match self {
            CausalEnvelopeError::UnsupportedSchema(schema) => join(
                "unsupported causal envelope schema ",
                debug_quoted(schema.as_str()).as_str(),
            ),
            CausalEnvelopeError::InvalidDocumentId => String::from_str("document id must be 1..=512 bytes without control characters"),
            CausalEnvelopeError::InvalidMutationId => String::from_str("mutation id must be 1..=256 bytes without control characters"),
            CausalEnvelopeError::MissingActorCounter(id) => {
                let head = join("causal envelope actor ", debug_quoted(id.as_str()).as_str());
                join(head.as_str(), " has no positive counter")
            },
            CausalEnvelopeError::VersionVector(error) => error.message(),
        }
    }
}

} // verus!
