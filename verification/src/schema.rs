//! The language-neutral options contract: camelCase keys, integer strategy
//! codes, cross-language defaults and rejection of unknown keys.
use vstd::prelude::*;

use crate::json::{lemma_entries_view, member_views, Json, JsonValue};
use crate::compact::write_json;
use crate::merge::{
    law_merge_sees_only_behaviour, merged, option_text, same_behaviour, ArrayMergeStrategy,
    MergeOptions,
};
use crate::numtext::{integral_in, integral_value};
use crate::reconcile::{merge_json, parsed, strategy_of_code, MergeError};
use crate::reader::{document_of, read_document};
use crate::serde_support::{error_text, json_normalized_limited, normalize_json_limited};
use crate::text::chars_of;
use crate::values::chars_equal;

verus! {

/// Stable identifier of the merge-options schema.
pub const MERGE_OPTIONS_SCHEMA_ID: &'static str = "https://opto-sync.dev/schema/merge-options.schema.json";

/// The option keys shared by the JSON and WebAssembly boundaries.
pub const MERGE_OPTION_KEYS: [&'static str; 7] = [
    "arrayStrategy",
    "maxDepth",
    "resolveByTimestamp",
    "detectCircularRefs",
    "lwwKeys",
    "fwwKeys",
    "arrayMatchKeys",
];

/// The options as they cross a language boundary: the strategy is its
/// integer code (`0` replace, `1` append, `2` union, `3` merge by index,
/// `4` merge by key).
#[derive(Debug, Clone, PartialEq, Eq)]
pub struct CanonicalMergeOptions {
    pub array_strategy: i32,
    /// Maximum object nesting depth; zero means unlimited.
    pub max_depth: u32,
    /// Whether timestamp selectors may veto an incoming object.
    pub resolve_by_timestamp: bool,
    /// Kept for hosts whose documents can hold cycles.
    pub detect_circular_refs: bool,
    /// Comma-separated last-write-wins selectors.
    pub lww_keys: Option<String>,
    /// Comma-separated first-write-wins selectors.
    pub fww_keys: Option<String>,
    /// Comma-separated identity selectors for merge-by-key arrays.
    pub array_match_keys: Option<String>,
}

fn copy_text_option(s: &Option<String>) -> (r: Option<String>)
    ensures
        r == *s,
{
    match s {
        Some(t) => Some(t.clone()),
        None => None,
    }
}

impl Default for CanonicalMergeOptions {
    fn default() -> (r: Self)
        ensures
            r.array_strategy == 0,
            r.max_depth == 0,
            !r.resolve_by_timestamp,
            !r.detect_circular_refs,
            r.lww_keys is None,
            r.fww_keys is None,
            r.array_match_keys is None,
    {
        CanonicalMergeOptions {
            array_strategy: 0,
            max_depth: 0,
            resolve_by_timestamp: false,
            detect_circular_refs: false,
            lww_keys: None,
            fww_keys: None,
            array_match_keys: None,
        }
    }
}

/// The boundary form of merge options.
pub open spec fn canonical_of(options: MergeOptions) -> CanonicalMergeOptions {
    CanonicalMergeOptions {
        array_strategy: options.array_strategy.spec_code(),
        max_depth: options.max_depth,
        resolve_by_timestamp: options.resolve_by_timestamp,
        detect_circular_refs: options.detect_circular_refs,
        lww_keys: options.lww_keys,
        fww_keys: options.fww_keys,
        array_match_keys: options.array_match_keys,
    }
}

impl<'a> From<&'a MergeOptions> for CanonicalMergeOptions {
    /// The boundary form of the options.
    fn from(options: &'a MergeOptions) -> (r: Self) {
        CanonicalMergeOptions {
            array_strategy: options.array_strategy.code(),
            max_depth: options.max_depth,
            resolve_by_timestamp: options.resolve_by_timestamp,
            detect_circular_refs: options.detect_circular_refs,
            lww_keys: copy_text_option(&options.lww_keys),
            fww_keys: copy_text_option(&options.fww_keys),
            array_match_keys: copy_text_option(&options.array_match_keys),
        }
    }
}

impl<'a> vstd::std_specs::convert::FromSpecImpl<&'a MergeOptions> for CanonicalMergeOptions {
    open spec fn obeys_from_spec() -> bool {
        true
    }

    open spec fn from_spec(options: &'a MergeOptions) -> Self {
        canonical_of(*options)
    }
}

/// The merge options that boundary options stand for, when the strategy
/// code is in `0..=4`.
pub open spec fn options_of(c: CanonicalMergeOptions) -> Result<MergeOptions, MergeError> {
    if 0 <= c.array_strategy <= 4 {
        Ok(
            MergeOptions {
                array_strategy: strategy_of_code(c.array_strategy),
                max_depth: c.max_depth,
                resolve_by_timestamp: c.resolve_by_timestamp,
                detect_circular_refs: c.detect_circular_refs,
                lww_keys: c.lww_keys,
                fww_keys: c.fww_keys,
                array_match_keys: c.array_match_keys,
            },
        )
    } else {
        Err(MergeError::InvalidArrayStrategy(c.array_strategy))
    }
}

impl TryFrom<CanonicalMergeOptions> for MergeOptions {
    type Error = MergeError;

    /// The options that boundary options stand for; a strategy code outside
    /// `0..=4` is refused.
    fn try_from(options: CanonicalMergeOptions) -> (r: Result<Self, MergeError>) {
        let array_strategy = match ArrayMergeStrategy::try_from(options.array_strategy) {
            Ok(s) => s,
            Err(e) => {
                return Err(e);
            },
        };
        Ok(
            MergeOptions {
                array_strategy,
                max_depth: options.max_depth,
                resolve_by_timestamp: options.resolve_by_timestamp,
                detect_circular_refs: options.detect_circular_refs,
                lww_keys: options.lww_keys,
                fww_keys: options.fww_keys,
                array_match_keys: options.array_match_keys,
            },
        )
    }
}

impl vstd::std_specs::convert::TryFromSpecImpl<CanonicalMergeOptions> for MergeOptions {
    open spec fn obeys_try_from_spec() -> bool {
        true
    }

    open spec fn try_from_spec(options: CanonicalMergeOptions) -> Result<Self, MergeError> {
        options_of(options)
    }
}

// ---------------------------------------------------------------------------
// Reading options from a document
// ---------------------------------------------------------------------------

/// The fields of the options contract.
pub struct OptionFields {
    pub strategy: int,
    pub max_depth: int,
    pub resolve_by_timestamp: bool,
    pub detect_circular_refs: bool,
    pub lww_keys: Option<Seq<char>>,
    pub fww_keys: Option<Seq<char>>,
    pub array_match_keys: Option<Seq<char>>,
}

impl View for CanonicalMergeOptions {
    type V = OptionFields;

    /// The fields these options hold.
    open spec fn view(&self) -> OptionFields {
        OptionFields {
            strategy: self.array_strategy as int,
            max_depth: self.max_depth as int,
            resolve_by_timestamp: self.resolve_by_timestamp,
            detect_circular_refs: self.detect_circular_refs,
            lww_keys: option_text(self.lww_keys),
            fww_keys: option_text(self.fww_keys),
            array_match_keys: option_text(self.array_match_keys),
        }
    }
}

/// The fields when no key is given.
pub open spec fn default_fields() -> OptionFields {
    OptionFields {
        strategy: 0,
        max_depth: 0,
        resolve_by_timestamp: false,
        detect_circular_refs: false,
        lww_keys: None,
        fww_keys: None,
        array_match_keys: None,
    }
}

/// An optional string field: `null` or a string.
pub open spec fn optional_text(v: Json) -> Option<Option<Seq<char>>> {
    match v {
        Json::Null => Some(None),
        Json::String(s) => Some(Some(s)),
        _ => None,
    }
}

/// The fields after one member of the options object; `None` for an unknown
/// key or a value of the wrong type or range.
pub open spec fn apply_field(f: OptionFields, m: (Seq<char>, Json)) -> Option<OptionFields> {
    let (k, v) = m;
    if k == "arrayStrategy"@ {
        match v {
            Json::Number(n) => match integral_value(n) {
                Some(x) => if i32::MIN <= x <= i32::MAX {
                    Some(OptionFields { strategy: x, ..f })
                } else {
                    None
                },
                None => None,
            },
            _ => None,
        }
    } else if k == "maxDepth"@ {
        match v {
            Json::Number(n) => match integral_value(n) {
                Some(x) => if 0 <= x <= u32::MAX {
                    Some(OptionFields { max_depth: x, ..f })
                } else {
                    None
                },
                None => None,
            },
            _ => None,
        }
    } else if k == "resolveByTimestamp"@ {
        match v {
            Json::Bool(b) => Some(OptionFields { resolve_by_timestamp: b, ..f }),
            _ => None,
        }
    } else if k == "detectCircularRefs"@ {
        match v {
            Json::Bool(b) => Some(OptionFields { detect_circular_refs: b, ..f }),
            _ => None,
        }
    } else if k == "lwwKeys"@ {
        match optional_text(v) {
            Some(t) => Some(OptionFields { lww_keys: t, ..f }),
            None => None,
        }
    } else if k == "fwwKeys"@ {
        match optional_text(v) {
            Some(t) => Some(OptionFields { fww_keys: t, ..f }),
            None => None,
        }
    } else if k == "arrayMatchKeys"@ {
        match optional_text(v) {
            Some(t) => Some(OptionFields { array_match_keys: t, ..f }),
            None => None,
        }
    } else {
        None
    }
}

/// The fields read from the first `n` members, in order; `None` as soon as
/// one member is refused.
pub open spec fn read_fields(o: Seq<(Seq<char>, Json)>, n: int) -> Option<OptionFields>
    decreases n,
{
    if n <= 0 || n > o.len() {
        Some(default_fields())
    } else {
        match read_fields(o, n - 1) {
            Some(f) => apply_field(f, o[n - 1]),
            None => None,
        }
    }
}

/// The merge options hold the given fields.
pub open spec fn options_hold(o: MergeOptions, f: OptionFields) -> bool {
    &&& o.array_strategy.spec_code() == f.strategy
    &&& o.max_depth == f.max_depth
    &&& o.resolve_by_timestamp == f.resolve_by_timestamp
    &&& o.detect_circular_refs == f.detect_circular_refs
    &&& option_text(o.lww_keys) == f.lww_keys
    &&& option_text(o.fww_keys) == f.fww_keys
    &&& option_text(o.array_match_keys) == f.array_match_keys
}

fn optional_string(v: &JsonValue) -> (r: Option<Option<String>>)
    ensures
        r matches Some(t) ==> optional_text(v@) == Some(option_text(t)),
        r is None ==> optional_text(v@) is None,
{
    match v {
        JsonValue::Null => Some(None),
        JsonValue::String(s) => Some(Some(s.clone())),
        _ => None,
    }
}

fn key_is(key: &String, name: &str) -> (r: bool)
    ensures
        r == (key@ == name@),
{
    chars_equal(&chars_of(key.as_str()), &chars_of(name))
}

/// Applies one member to the boundary options (`apply_field`).
fn apply_member(c: &mut CanonicalMergeOptions, key: &String, v: &JsonValue) -> (ok: bool)
    ensures
        ok <==> apply_field(old(c)@, (key@, v@)) is Some,
        ok ==> apply_field(old(c)@, (key@, v@)) == Some(final(c)@),
{
    if key_is(key, "arrayStrategy") {
        match v {
            JsonValue::Number(n) => match integral_in(&chars_of(n.as_str()), -0x8000_0000, 0x7fff_ffff) {
                Some(x) => {
                    c.array_strategy = x as i32;
                    true
                },
                None => false,
            },
            _ => false,
        }
    } else if key_is(key, "maxDepth") {
        match v {
            JsonValue::Number(n) => match integral_in(&chars_of(n.as_str()), 0, 0xffff_ffff) {
                Some(x) => {
                    c.max_depth = x as u32;
                    true
                },
                None => false,
            },
            _ => false,
        }
    } else if key_is(key, "resolveByTimestamp") {
        match v {
            JsonValue::Bool(b) => {
                c.resolve_by_timestamp = *b;
                true
            },
            _ => false,
        }
    } else if key_is(key, "detectCircularRefs") {
        match v {
            JsonValue::Bool(b) => {
                c.detect_circular_refs = *b;
                true
            },
            _ => false,
        }
    } else if key_is(key, "lwwKeys") {
        match optional_string(v) {
            Some(t) => {
                c.lww_keys = t;
                true
            },
            None => false,
        }
    } else if key_is(key, "fwwKeys") {
        match optional_string(v) {
            Some(t) => {
                c.fww_keys = t;
                true
            },
            None => false,
        }
    } else if key_is(key, "arrayMatchKeys") {
        match optional_string(v) {
            Some(t) => {
                c.array_match_keys = t;
                true
            },
            None => false,
        }
    } else {
        false
    }
}

proof fn lemma_read_fields_stuck(o: Seq<(Seq<char>, Json)>, m: int, n: int)
    requires
        0 <= m <= n <= o.len(),
        read_fields(o, m) is None,
    ensures
        read_fields(o, n) is None,
    decreases n - m,
{
    if m < n {
        lemma_read_fields_stuck(o, m, n - 1);
    }
}

/// Reads the boundary options from the members of an options object
/// (`read_fields`); on failure, the position of the first refused member.
fn read_members(members: &Vec<(String, JsonValue)>) -> (r: Result<CanonicalMergeOptions, usize>)
    ensures
        r matches Ok(c) ==> read_fields(member_views(members@), members.len() as int) == Some(c@),
        r matches Err(k) ==> k < members.len() && read_fields(
            member_views(members@),
            members.len() as int,
        ) is None,
{
    let ghost o = member_views(members@);
    let mut c = CanonicalMergeOptions::default();
    proof {
        assert(c@ == default_fields());
    }
    let mut k: usize = 0;
    while k < members.len()
        invariant
            k <= members.len(),
            o == member_views(members@),
            read_fields(o, k as int) == Some(c@),
        decreases members.len() - k,
    {
        proof {
            assert(o[k as int] == (members@[k as int].0@, members@[k as int].1@));
        }
        if !apply_member(&mut c, &members[k].0, &members[k].1) {
            proof {
                lemma_read_fields_stuck(o, k + 1, o.len() as int);
            }
            return Err(k);
        }
        k = k + 1;
    }
    Ok(c)
}

/// The document that `serde_json` reads from an options text, with its
/// default nesting limit (`None` for a text that it refuses).
pub open spec fn options_parsed(text: Seq<char>) -> Option<Json> {
    match json_normalized_limited(text) {
        Some(s) => Some(document_of(s)),
        None => None,
    }
}

/// Reads an options text into a document.
fn parse_options_document(text: &str) -> (r: Result<JsonValue, serde_json::Error>)
    ensures
        r is Ok <==> options_parsed(text@) is Some,
        r matches Ok(v) ==> options_parsed(text@) == Some(v@),
{
    match normalize_json_limited(text) {
        Ok(normalized) => {
            let chars = chars_of(normalized.as_str());
            Ok(read_document(&chars))
        },
        Err(e) => Err(e),
    }
}

/// The fields of an options text: `None` when the text is not JSON (nested
/// deeper than `serde_json`'s default limit included), not an object, or has
/// a member that the contract refuses.
pub open spec fn schema_fields(text: Seq<char>) -> Option<OptionFields> {
    match options_parsed(text) {
        Some(Json::Object(o)) => read_fields(o, o.len() as int),
        _ => None,
    }
}

/// The message of a refused options text.
fn nonconforming(detail: &str) -> (r: String)
    ensures
        r@ == "value does not conform to "@ + MERGE_OPTIONS_SCHEMA_ID@ + ": "@ + detail@,
{
    let head = crate::text::join("value does not conform to ", MERGE_OPTIONS_SCHEMA_ID);
    let head = crate::text::join(head.as_str(), ": ");
    crate::text::join(head.as_str(), detail)
}

/// Parses and validates a JSON options object: keys in camelCase, the
/// strategy as an integer code, integers also in a zero-fraction or
/// exponent form, defaults for missing keys, unknown keys refused.
pub fn parse_merge_options_json(options_json: &str) -> (r: Result<MergeOptions, MergeError>)
    ensures
        match schema_fields(options_json@) {
            None => r matches Err(MergeError::InvalidOptions(_)),
            Some(f) => if 0 <= f.strategy <= 4 {
                r matches Ok(o) && options_hold(o, f)
            } else {
                r matches Err(MergeError::InvalidArrayStrategy(v)) && v == f.strategy
            },
        },
{
    let doc = match parse_options_document(options_json) {
        Ok(d) => d,
        Err(e) => {
            return Err(MergeError::InvalidOptions(nonconforming(error_text(&e).as_str())));
        },
    };
    match doc {
        JsonValue::Object(members) => {
            proof {
                lemma_entries_view(members);
            }
            match read_members(&members) {
                Ok(c) => MergeOptions::try_from(c),
                Err(k) => {
                    let head = crate::text::join("member `", members[k].0.as_str());
                    let detail = crate::text::join(
                        head.as_str(),
                        "` is not an option or holds a value of the wrong type",
                    );
                    Err(MergeError::InvalidOptions(nonconforming(detail.as_str())))
                },
            }
        },
        _ => Err(MergeError::InvalidOptions(nonconforming("expected an object"))),
    }
}

/// Reconciles two documents with options given as a JSON options object.
pub fn merge_json_with_schema_options(base: &str, incoming: &str, options_json: &str) -> (r: Result<
    String,
    MergeError,
>)
    ensures
        match schema_fields(options_json@) {
            None => r matches Err(MergeError::InvalidOptions(_)),
            Some(f) => if !(0 <= f.strategy <= 4) {
                r matches Err(MergeError::InvalidArrayStrategy(v)) && v == f.strategy
            } else {
                match (parsed(base@), parsed(incoming@)) {
                    (None, _) => r matches Err(MergeError::InvalidBase(_)),
                    (Some(_), None) => r matches Err(MergeError::InvalidIncoming(_)),
                    (Some(b), Some(i)) => (r matches Ok(s) && forall|o: MergeOptions|
                        options_hold(o, f) ==> s@ == write_json(merged(b, i, o, 0), true)),
                }
            },
        },
{
    let options = match parse_merge_options_json(options_json) {
        Ok(o) => o,
        Err(e) => {
            return Err(e);
        },
    };
    let r = merge_json(base, incoming, &options);
    proof {
        if let Some(f) = schema_fields(options_json@) {
            if let (Some(b), Some(i)) = (parsed(base@), parsed(incoming@)) {
                assert forall|o: MergeOptions| options_hold(o, f) implies merged(b, i, o, 0)
                    == merged(b, i, options, 0) by {
                    assert(same_behaviour(o, options));
                    law_merge_sees_only_behaviour(b, i, o, options);
                }
            }
        }
    }
    r
}

/// The names of the options contract.
pub open spec fn is_option_name(k: Seq<char>) -> bool {
    k == "arrayStrategy"@ || k == "maxDepth"@ || k == "resolveByTimestamp"@ || k
        == "detectCircularRefs"@ || k == "lwwKeys"@ || k == "fwwKeys"@ || k == "arrayMatchKeys"@
}

/// Whether `key` names a merge option.
pub fn is_merge_option_key(key: &String) -> (r: bool)
    ensures
        r == is_option_name(key@),
{
    key_is(key, "arrayStrategy") || key_is(key, "maxDepth") || key_is(key, "resolveByTimestamp")
        || key_is(key, "detectCircularRefs") || key_is(key, "lwwKeys") || key_is(key, "fwwKeys")
        || key_is(key, "arrayMatchKeys")
}

/// The position of the first key in `keys` that names no merge option, or
/// `None` when every key is an option.
pub fn first_unknown_option(keys: &Vec<String>) -> (r: Option<usize>)
    ensures
        r is None <==> forall|i: int| 0 <= i < keys.len() ==> is_option_name(#[trigger] keys@[i]@),
        r matches Some(k) ==> k < keys.len() && !is_option_name(keys@[k as int]@) && forall|i: int|
            0 <= i < k ==> is_option_name(#[trigger] keys@[i]@),
{
    let mut i: usize = 0;
    while i < keys.len()
        invariant
            i <= keys.len(),
            forall|j: int| 0 <= j < i ==> is_option_name(#[trigger] keys@[j]@),
        decreases keys.len() - i,
    {
        if !is_merge_option_key(&keys[i]) {
            return Some(i);
        }
        i = i + 1;
    }
    None
}

/// An options object with a member that is not an option is refused, never
/// silently ignored.
pub proof fn law_unknown_option_is_refused(o: Seq<(Seq<char>, Json)>, k: int)
    requires
        0 <= k < o.len(),
        !is_option_name(o[k].0),
    ensures
        read_fields(o, o.len() as int) is None,
{
    assert(read_fields(o, k + 1) is None);
    lemma_read_fields_stuck(o, k + 1, o.len() as int);
}

/// An empty options object gives the defaults.
pub proof fn law_empty_options_are_defaults()
    ensures
        read_fields(Seq::empty(), 0) == Some(default_fields()),
{
}


proof fn lemma_last_flag_counts(o: Seq<(Seq<char>, Json)>, n: int, p: int, flag: bool)
    requires
        0 <= p < n <= o.len(),
        o[p] == ("resolveByTimestamp"@, Json::Bool(flag)),
        forall|r: int| p < r < o.len() ==> #[trigger] o[r].0 != "resolveByTimestamp"@,
    ensures
        read_fields(o, n) matches Some(f) ==> f.resolve_by_timestamp == flag,
        read_fields(o, p) is Some ==> read_fields(o, p + 1) is Some,
    decreases n,
{
    reveal_strlit("resolveByTimestamp");
    reveal_strlit("arrayStrategy");
    reveal_strlit("maxDepth");
    assert("resolveByTimestamp"@.len() == 18);
    assert("arrayStrategy"@.len() == 13);
    assert("maxDepth"@.len() == 8);
    if n - 1 > p {
        lemma_last_flag_counts(o, n - 1, p, flag);
        assert(o[n - 1].0 != "resolveByTimestamp"@);
    }
}

/// The member `resolveByTimestamp` of an options object sets the timestamp
/// switch to its boolean (its last occurrence, when it occurs more than
/// once), and such a member is never the one refused.
pub proof fn law_options_copy_timestamp_switch(o: Seq<(Seq<char>, Json)>, p: int, flag: bool)
    requires
        0 <= p < o.len(),
        o[p] == ("resolveByTimestamp"@, Json::Bool(flag)),
        forall|r: int| p < r < o.len() ==> #[trigger] o[r].0 != "resolveByTimestamp"@,
    ensures
        read_fields(o, o.len() as int) matches Some(f) ==> f.resolve_by_timestamp == flag,
        read_fields(o, p) is Some ==> read_fields(o, p + 1) is Some,
{
    lemma_last_flag_counts(o, o.len() as int, p, flag);
}

/// An options object holding only `resolveByTimestamp` reads to the defaults
/// with the timestamp switch set to its boolean.
pub proof fn law_lone_timestamp_switch(flag: bool)
    ensures
        read_fields(seq![("resolveByTimestamp"@, Json::Bool(flag))], 1) == Some(
            OptionFields { resolve_by_timestamp: flag, ..default_fields() },
        ),
{
    reveal_strlit("resolveByTimestamp");
    reveal_strlit("arrayStrategy");
    reveal_strlit("maxDepth");
    assert("resolveByTimestamp"@.len() == 18);
    assert("arrayStrategy"@.len() == 13);
    assert("maxDepth"@.len() == 8);
    let o = seq![("resolveByTimestamp"@, Json::Bool(flag))];
    assert(read_fields(o, 0) == Some(default_fields()));
    assert(o[0] == ("resolveByTimestamp"@, Json::Bool(flag)));
    assert(apply_field(default_fields(), o[0]) == Some(
        OptionFields { resolve_by_timestamp: flag, ..default_fields() },
    ));
}

/// The options that an options text parses to carry the boolean of its
/// member `resolveByTimestamp` (the last one, when it occurs more than once).
pub proof fn law_parsed_options_copy_timestamp_switch(text: Seq<char>, p: int, flag: bool)
    requires
        options_parsed(text) matches Some(Json::Object(o)) && 0 <= p < o.len() && o[p] == (
            "resolveByTimestamp"@,
            Json::Bool(flag),
        ) && forall|r: int| p < r < o.len() ==> #[trigger] o[r].0 != "resolveByTimestamp"@,
    ensures
        schema_fields(text) matches Some(f) ==> f.resolve_by_timestamp == flag,
{
    let o = options_parsed(text)->Some_0->Object_0;
    law_options_copy_timestamp_switch(o, p, flag);
}


proof fn lemma_option_names_distinct()
    ensures
        "arrayStrategy"@.len() == 13 && "arrayStrategy"@[0] == 'a',
        "maxDepth"@.len() == 8,
        "resolveByTimestamp"@.len() == 18 && "resolveByTimestamp"@[0] == 'r',
        "detectCircularRefs"@.len() == 18 && "detectCircularRefs"@[0] == 'd',
        "lwwKeys"@.len() == 7 && "lwwKeys"@[0] == 'l',
        "fwwKeys"@.len() == 7 && "fwwKeys"@[0] == 'f',
        "arrayMatchKeys"@.len() == 14,
{
    reveal_strlit("arrayStrategy");
    reveal_strlit("maxDepth");
    reveal_strlit("resolveByTimestamp");
    reveal_strlit("detectCircularRefs");
    reveal_strlit("lwwKeys");
    reveal_strlit("fwwKeys");
    reveal_strlit("arrayMatchKeys");
}

/// The field that a member sets holds that member's value.
pub open spec fn member_sets_field(f: OptionFields, m: (Seq<char>, Json)) -> bool {
    &&& m.0 == "arrayStrategy"@ ==> (m.1 matches Json::Number(t) && integral_value(t) == Some(
        f.strategy,
    ))
    &&& m.0 == "maxDepth"@ ==> (m.1 matches Json::Number(t) && integral_value(t) == Some(f.max_depth))
    &&& m.0 == "resolveByTimestamp"@ ==> m.1 == Json::Bool(f.resolve_by_timestamp)
    &&& m.0 == "detectCircularRefs"@ ==> m.1 == Json::Bool(f.detect_circular_refs)
    &&& m.0 == "lwwKeys"@ ==> optional_text(m.1) == Some(f.lww_keys)
    &&& m.0 == "fwwKeys"@ ==> optional_text(m.1) == Some(f.fww_keys)
    &&& m.0 == "arrayMatchKeys"@ ==> optional_text(m.1) == Some(f.array_match_keys)
}

proof fn lemma_last_member_counts(o: Seq<(Seq<char>, Json)>, n: int, p: int)
    requires
        0 <= p < n <= o.len(),
        forall|r: int| p < r < o.len() ==> #[trigger] o[r].0 != o[p].0,
    ensures
        read_fields(o, n) matches Some(f) ==> member_sets_field(f, o[p]),
    decreases n,
{
    lemma_option_names_distinct();
    if n - 1 > p {
        lemma_last_member_counts(o, n - 1, p);
        assert(o[n - 1].0 != o[p].0);
    }
}

/// Reading an options object, each option takes the value of the last
/// member that names it: a boolean switch its boolean, a selector list its
/// text (or none for `null`), the strategy code and the depth limit the
/// integer that their number denotes.
pub proof fn law_last_member_sets_its_option(o: Seq<(Seq<char>, Json)>, p: int)
    requires
        0 <= p < o.len(),
        forall|r: int| p < r < o.len() ==> #[trigger] o[r].0 != o[p].0,
    ensures
        read_fields(o, o.len() as int) matches Some(f) ==> member_sets_field(f, o[p]),
{
    lemma_last_member_counts(o, o.len() as int, p);
}

/// An option that no member names keeps its default.
pub proof fn law_unnamed_options_keep_defaults(o: Seq<(Seq<char>, Json)>)
    ensures
        read_fields(o, o.len() as int) matches Some(f) ==> (
        (forall|r: int| 0 <= r < o.len() ==> #[trigger] o[r].0 != "arrayStrategy"@) ==> f.strategy == 0)
            && ((forall|r: int| 0 <= r < o.len() ==> #[trigger] o[r].0 != "maxDepth"@) ==> f.max_depth
            == 0) && ((forall|r: int| 0 <= r < o.len() ==> #[trigger] o[r].0 != "resolveByTimestamp"@)
            ==> !f.resolve_by_timestamp) && ((forall|r: int|
            0 <= r < o.len() ==> #[trigger] o[r].0 != "detectCircularRefs"@) ==> !f.detect_circular_refs)
            && ((forall|r: int| 0 <= r < o.len() ==> #[trigger] o[r].0 != "lwwKeys"@) ==> f.lww_keys is None)
            && ((forall|r: int| 0 <= r < o.len() ==> #[trigger] o[r].0 != "fwwKeys"@) ==> f.fww_keys is None)
            && ((forall|r: int| 0 <= r < o.len() ==> #[trigger] o[r].0 != "arrayMatchKeys"@)
            ==> f.array_match_keys is None),
{
    lemma_unnamed_defaults(o, o.len() as int);
}

proof fn lemma_unnamed_defaults(o: Seq<(Seq<char>, Json)>, n: int)
    requires
        0 <= n <= o.len(),
    ensures
        read_fields(o, n) matches Some(f) ==> (
        (forall|r: int| 0 <= r < n ==> #[trigger] o[r].0 != "arrayStrategy"@) ==> f.strategy == 0)
            && ((forall|r: int| 0 <= r < n ==> #[trigger] o[r].0 != "maxDepth"@) ==> f.max_depth == 0)
            && ((forall|r: int| 0 <= r < n ==> #[trigger] o[r].0 != "resolveByTimestamp"@)
            ==> !f.resolve_by_timestamp) && ((forall|r: int|
            0 <= r < n ==> #[trigger] o[r].0 != "detectCircularRefs"@) ==> !f.detect_circular_refs)
            && ((forall|r: int| 0 <= r < n ==> #[trigger] o[r].0 != "lwwKeys"@) ==> f.lww_keys is None)
            && ((forall|r: int| 0 <= r < n ==> #[trigger] o[r].0 != "fwwKeys"@) ==> f.fww_keys is None)
            && ((forall|r: int| 0 <= r < n ==> #[trigger] o[r].0 != "arrayMatchKeys"@)
            ==> f.array_match_keys is None),
    decreases n,
{
    if n > 0 {
        lemma_unnamed_defaults(o, n - 1);
        let m = o[n - 1];
        let prev = read_fields(o, n - 1);
        if let Some(f) = read_fields(o, n) {
            let g = prev->Some_0;
            assert(apply_field(g, m) == Some(f));
            lemma_option_names_distinct();
        }
    }
}

} // verus!
