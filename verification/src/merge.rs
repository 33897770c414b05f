//! The reconciliation of a base document with an incoming document.
//!
//! Objects are merged member by member: members only in the incoming object
//! are appended, members in both are merged recursively (or replaced at the
//! depth limit). Arrays follow the configured strategy. Every other pair is
//! resolved in favour of the incoming value. With timestamp resolution on,
//! a selector that shows the base object to be newer (last write wins) or
//! older (first write wins) vetoes the whole incoming object.
use vstd::prelude::*;

use crate::json::{
    entries_view, find_member, items_view, key_index, lemma_entries_view, lemma_items_view,
    lemma_key_index, lookup, member_views, views, Json, JsonValue,
};
use crate::scalar::{
    char_seqs, comma_separated, kept_pieces, split_at_char, split_selectors, trim, trim_end,
    trim_start,
};
use crate::text::is_space;
use crate::text::chars_of;
use crate::scalar::int_text;
use crate::values::{
    identity_values_equal, number_int, resolve_selector, same_identity, selector_rejects,
    selectors_reject, selectors_veto, structurally_equal, timestamp_order, values_deep_equal,
};

verus! {

/// How arrays are reconciled.
#[derive(Debug, Clone, Copy, PartialEq, Eq, Structural, Default)]
pub enum ArrayMergeStrategy {
    /// The incoming array replaces the base array.
    #[default]
    Replace,
    /// Incoming elements are concatenated after the base elements.
    Append,
    /// Incoming elements not structurally equal to a kept element are appended.
    Union,
    /// Elements at the same index are reconciled; the longer tail is kept.
    MergeByIndex,
    /// Object elements are matched by identity key and reconciled.
    MergeByKey,
}

/// Options of a merge.
#[derive(Debug, Clone, PartialEq, Eq)]
pub struct MergeOptions {
    pub array_strategy: ArrayMergeStrategy,
    /// Maximum object nesting depth to reconcile; `0` means unlimited.
    pub max_depth: u32,
    /// Enables the timestamp vetoes on object nodes.
    pub resolve_by_timestamp: bool,
    /// Kept for hosts whose documents can hold cycles; an owned tree has
    /// none, so the flag does not change the result.
    pub detect_circular_refs: bool,
    /// Comma-separated last-write-wins selectors; `None` means `updatedAt`.
    pub lww_keys: Option<String>,
    /// Comma-separated first-write-wins selectors; `None` disables them.
    pub fww_keys: Option<String>,
    /// Comma-separated identity keys for `MergeByKey`; `None` means `id`.
    pub array_match_keys: Option<String>,
}

/// The default options: replace arrays, no depth limit, no timestamp vetoes.
pub open spec fn default_options() -> MergeOptions {
    MergeOptions {
        array_strategy: ArrayMergeStrategy::Replace,
        max_depth: 0,
        resolve_by_timestamp: false,
        detect_circular_refs: false,
        lww_keys: None,
        fww_keys: None,
        array_match_keys: None,
    }
}

impl Default for MergeOptions {
    fn default() -> (r: Self)
        ensures
            r == default_options(),
    {
        MergeOptions {
            array_strategy: ArrayMergeStrategy::Replace,
            max_depth: 0,
            resolve_by_timestamp: false,
            detect_circular_refs: false,
            lww_keys: None,
            fww_keys: None,
            array_match_keys: None,
        }
    }
}

// ---------------------------------------------------------------------------
// The model of a merge
// ---------------------------------------------------------------------------

/// `d + 1`, saturating at `u32::MAX`.
pub open spec fn next_depth(d: u32) -> u32 {
    if d == u32::MAX {
        d
    } else {
        (d + 1) as u32
    }
}

/// The last-write-wins selector list of the options.
pub open spec fn lww_list(o: MergeOptions) -> Seq<char> {
    match o.lww_keys {
        Some(s) => s@,
        None => "updatedAt"@,
    }
}

/// The identity keys of the options.
pub open spec fn match_keys(o: MergeOptions) -> Seq<Seq<char>> {
    comma_separated(
        match o.array_match_keys {
            Some(s) => s@,
            None => "id"@,
        },
    )
}

/// The timestamp selectors veto merging `i` into `b`: a first-write-wins
/// selector shows `b` older, or a last-write-wins selector shows `b` newer.
pub open spec fn rejects_objects(
    b: Seq<(Seq<char>, Json)>,
    i: Seq<(Seq<char>, Json)>,
    o: MergeOptions,
) -> bool {
    (o.fww_keys matches Some(f) && selectors_reject(b, i, f@, true)) || selectors_reject(
        b,
        i,
        lww_list(o),
        false,
    )
}

/// The merge of `i` into `b` at nesting depth `depth`.
pub open spec fn merged(b: Json, i: Json, o: MergeOptions, depth: u32) -> Json
    decreases i, 3nat, 0int,
{
    match (b, i) {
        (Json::Object(bo), Json::Object(io)) => if o.resolve_by_timestamp && rejects_objects(
            bo,
            io,
            o,
        ) {
            b
        } else {
            Json::Object(merge_members(bo, io, io.len() as int, o, depth))
        },
        (Json::Array(ba), Json::Array(ia)) => Json::Array(merge_items(ba, ia, o, depth)),
        _ => i,
    }
}

/// The members of `b` after merging the first `n` members of `i` in order:
/// a new key is appended, a known key is merged one level deeper, or
/// replaced when that level reaches the depth limit.
pub open spec fn merge_members(
    b: Seq<(Seq<char>, Json)>,
    i: Seq<(Seq<char>, Json)>,
    n: int,
    o: MergeOptions,
    depth: u32,
) -> Seq<(Seq<char>, Json)>
    decreases i, 2nat, n,
{
    if n <= 0 || n > i.len() {
        b
    } else {
        let acc = merge_members(b, i, n - 1, o, depth);
        let m = i[n - 1];
        match key_index(acc, m.0) {
            None => acc.push(m),
            Some(j) => {
                let child = next_depth(depth);
                if o.max_depth != 0 && child >= o.max_depth {
                    acc.update(j, (acc[j].0, m.1))
                } else {
                    proof {
                        assert(decreases_to!(i => i[n - 1]));
                    }
                    acc.update(j, (acc[j].0, merged(acc[j].1, m.1, o, child)))
                }
            },
        }
    }
}

/// The elements of `a` followed by those of `i` that are not structurally
/// equal to an element kept before them.
pub open spec fn union_items(a: Seq<Json>, i: Seq<Json>, n: int) -> Seq<Json>
    decreases n,
{
    if n <= 0 || n > i.len() {
        a
    } else {
        let acc = union_items(a, i, n - 1);
        if contains_equal(acc, i[n - 1]) {
            acc
        } else {
            acc.push(i[n - 1])
        }
    }
}

/// Some element of `a` is structurally equal to `v`.
pub open spec fn contains_equal(a: Seq<Json>, v: Json) -> bool {
    exists|j: int| 0 <= j < a.len() && #[trigger] structurally_equal(a[j], v)
}

/// The array `b` after reconciling the first `n` elements of `i` index by
/// index: two objects are merged one level deeper (unless vetoed), any other
/// pair is replaced, and elements past the end of `b` are appended.
pub open spec fn index_items(
    b: Seq<Json>,
    i: Seq<Json>,
    n: int,
    o: MergeOptions,
    depth: u32,
) -> Seq<Json>
    decreases i, 1nat, n,
{
    if n <= 0 || n > i.len() {
        b
    } else {
        let acc = index_items(b, i, n - 1, o, depth);
        let k = n - 1;
        if k < acc.len() {
            match (acc[k], i[k]) {
                (Json::Object(bo), Json::Object(io)) => if o.resolve_by_timestamp
                    && rejects_objects(bo, io, o) {
                    acc
                } else {
                    proof {
                        assert(decreases_to!(i => i[k]));
                    }
                    acc.update(
                        k,
                        Json::Object(merge_members(bo, io, io.len() as int, o, next_depth(depth))),
                    )
                },
                _ => acc.update(k, i[k]),
            }
        } else {
            acc.push(i[k])
        }
    }
}

/// Among the first `n` keys, the first one that `o` has, with its value.
pub open spec fn first_present(o: Seq<(Seq<char>, Json)>, keys: Seq<Seq<char>>, n: int) -> Option<
    (Seq<char>, Json),
>
    decreases n,
{
    if n <= 0 || n > keys.len() {
        None
    } else {
        match first_present(o, keys, n - 1) {
            Some(found) => Some(found),
            None => match lookup(o, keys[n - 1]) {
                Some(v) => Some((keys[n - 1], v)),
                None => None,
            },
        }
    }
}

/// The identity of an element: the first identity key that it has, with its
/// value; `None` for an element that is not an object or has none of them.
pub open spec fn identity_of(v: Json, keys: Seq<Seq<char>>) -> Option<(Seq<char>, Json)> {
    match v {
        Json::Object(o) => first_present(o, keys, keys.len() as int),
        _ => None,
    }
}

/// `c` is an object whose member `key` is an identity matching `id`.
pub open spec fn candidate_matches(c: Json, key: Seq<char>, id: Json) -> bool {
    match c {
        Json::Object(co) => match lookup(co, key) {
            Some(x) => same_identity(x, id),
            None => false,
        },
        _ => false,
    }
}

/// The first of the first `n` elements that matches the identity.
pub open spec fn match_position(a: Seq<Json>, key: Seq<char>, id: Json, n: int) -> Option<int>
    decreases n,
{
    if n <= 0 || n > a.len() {
        None
    } else {
        match match_position(a, key, id, n - 1) {
            Some(p) => Some(p),
            None => if candidate_matches(a[n - 1], key, id) {
                Some(n - 1)
            } else {
                None
            },
        }
    }
}

/// The array `b` after reconciling the first `n` elements of `i` by
/// identity: an element without identity is added as in a union, one whose
/// identity matches no element is appended, and one that matches is merged
/// into the first match one level deeper (unless vetoed).
pub open spec fn key_items(
    b: Seq<Json>,
    i: Seq<Json>,
    n: int,
    keys: Seq<Seq<char>>,
    o: MergeOptions,
    depth: u32,
) -> Seq<Json>
    decreases i, 1nat, n,
{
    if n <= 0 || n > i.len() {
        b
    } else {
        let acc = key_items(b, i, n - 1, keys, o, depth);
        let v = i[n - 1];
        match identity_of(v, keys) {
            None => if contains_equal(acc, v) {
                acc
            } else {
                acc.push(v)
            },
            Some((key, id)) => match match_position(acc, key, id, acc.len() as int) {
                None => acc.push(v),
                Some(p) => match (acc[p], v) {
                    (Json::Object(bo), Json::Object(io)) => if o.resolve_by_timestamp
                        && rejects_objects(bo, io, o) {
                        acc
                    } else {
                        proof {
                            assert(decreases_to!(i => i[n - 1]));
                        }
                        acc.update(
                            p,
                            Json::Object(
                                merge_members(bo, io, io.len() as int, o, next_depth(depth)),
                            ),
                        )
                    },
                    _ => acc,
                },
            },
        }
    }
}

/// The merge of array `i` into array `b` under the configured strategy.
pub open spec fn merge_items(b: Seq<Json>, i: Seq<Json>, o: MergeOptions, depth: u32) -> Seq<Json>
    decreases i, 2nat, 0int,
{
    match o.array_strategy {
        ArrayMergeStrategy::Replace => i,
        ArrayMergeStrategy::Append => b + i,
        ArrayMergeStrategy::Union => union_items(b, i, i.len() as int),
        ArrayMergeStrategy::MergeByIndex => index_items(b, i, i.len() as int, o, depth),
        ArrayMergeStrategy::MergeByKey => key_items(b, i, i.len() as int, match_keys(o), o, depth),
    }
}

// ---------------------------------------------------------------------------
// Lemmas on the first match of a search
// ---------------------------------------------------------------------------

proof fn lemma_first_present_stable(o: Seq<(Seq<char>, Json)>, keys: Seq<Seq<char>>, m: int, n: int)
    requires
        0 <= m <= n <= keys.len(),
        first_present(o, keys, m) is Some,
    ensures
        first_present(o, keys, n) == first_present(o, keys, m),
    decreases n - m,
{
    if m < n {
        lemma_first_present_stable(o, keys, m, n - 1);
    }
}

proof fn lemma_match_position_bound(a: Seq<Json>, key: Seq<char>, id: Json, n: int)
    ensures
        match_position(a, key, id, n) matches Some(p) ==> 0 <= p < n && p < a.len()
            && candidate_matches(a[p], key, id),
    decreases n,
{
    if n > 0 && n <= a.len() {
        lemma_match_position_bound(a, key, id, n - 1);
    }
}

proof fn lemma_match_position_stable(a: Seq<Json>, key: Seq<char>, id: Json, m: int, n: int)
    requires
        0 <= m <= n <= a.len(),
        match_position(a, key, id, m) is Some,
    ensures
        match_position(a, key, id, n) == match_position(a, key, id, m),
    decreases n - m,
{
    if m < n {
        lemma_match_position_stable(a, key, id, m, n - 1);
    }
}

// ---------------------------------------------------------------------------
// Searches
// ---------------------------------------------------------------------------

/// Whether some element of `a` is structurally equal to `v`.
fn any_equal(a: &Vec<JsonValue>, v: &JsonValue) -> (r: bool)
    ensures
        r == contains_equal(views(a@), v@),
{
    let ghost av = views(a@);
    let mut j: usize = 0;
    while j < a.len()
        invariant
            j <= a.len(),
            av == views(a@),
            forall|q: int| 0 <= q < j ==> !#[trigger] structurally_equal(av[q], v@),
        decreases a.len() - j,
    {
        if values_deep_equal(&a[j], v) {
            proof {
                assert(structurally_equal(av[j as int], v@));
            }
            return true;
        }
        j = j + 1;
    }
    false
}

/// The identity of an element (`identity_of`): the position of the key in
/// `keys` and the identity value.
fn find_identity<'a>(v: &'a JsonValue, keys: &Vec<Vec<char>>) -> (r: Option<(usize, &'a JsonValue)>)
    ensures
        r matches Some((k, x)) ==> k < keys.len() && identity_of(v@, char_seqs(keys@)) == Some(
            (keys@[k as int]@, x@),
        ),
        r is None ==> identity_of(v@, char_seqs(keys@)) is None,
{
    let ghost ks = char_seqs(keys@);
    match v {
        JsonValue::Object(o) => {
            let ghost om = member_views(o@);
            proof {
                lemma_entries_view(*o);
            }
            let ghost target = identity_of(v@, ks);
            assert(target == first_present(om, ks, ks.len() as int));
            let mut k: usize = 0;
            while k < keys.len()
                invariant
                    k <= keys.len(),
                    target == first_present(om, ks, ks.len() as int),
                    target == identity_of(v@, ks),
                    ks == char_seqs(keys@),
                    om == member_views(o@),
                    first_present(om, ks, k as int) is None,
                decreases keys.len() - k,
            {
                proof {
                    assert(ks[k as int] == keys@[k as int]@);
                }
                match crate::values::member_named(o, &keys[k]) {
                    Some(x) => {
                        proof {
                            assert(first_present(om, ks, k + 1) == Some((ks[k as int], x@)));
                            lemma_first_present_stable(om, ks, k + 1, ks.len() as int);
                        }
                        return Some((k, x));
                    },
                    None => {},
                }
                k = k + 1;
            }
            None
        },
        _ => None,
    }
}

/// The first element that matches an identity (`match_position`).
fn matching_position(a: &Vec<JsonValue>, key: &Vec<char>, id: &JsonValue) -> (r: Option<usize>)
    ensures
        r matches Some(p) ==> match_position(views(a@), key@, id@, a.len() as int) == Some(
            p as int,
        ),
        r is None ==> match_position(views(a@), key@, id@, a.len() as int) is None,
{
    let ghost av = views(a@);
    let mut p: usize = 0;
    while p < a.len()
        invariant
            p <= a.len(),
            av == views(a@),
            match_position(av, key@, id@, p as int) is None,
        decreases a.len() - p,
    {
        let matches = match &a[p] {
            JsonValue::Object(co) => {
                proof {
                    lemma_entries_view(*co);
                }
                match crate::values::member_named(co, key) {
                    Some(x) => identity_values_equal(x, id),
                    None => false,
                }
            },
            _ => false,
        };
        if matches {
            proof {
                assert(candidate_matches(av[p as int], key@, id@));
                lemma_match_position_stable(av, key@, id@, p + 1, av.len() as int);
            }
            return Some(p);
        }
        p = p + 1;
    }
    None
}

// ---------------------------------------------------------------------------
// The merge
// ---------------------------------------------------------------------------

/// Whether the timestamp selectors veto merging `i` into `b`
/// (`rejects_objects`).
fn should_reject_objects(
    b: &Vec<(String, JsonValue)>,
    i: &Vec<(String, JsonValue)>,
    options: &MergeOptions,
) -> (r: bool)
    ensures
        r == rejects_objects(member_views(b@), member_views(i@), *options),
{
    match &options.fww_keys {
        Some(f) => {
            if selectors_veto(b, i, &chars_of(f.as_str()), true) {
                return true;
            }
        },
        None => {},
    }
    let lww = match &options.lww_keys {
        Some(s) => chars_of(s.as_str()),
        None => chars_of("updatedAt"),
    };
    selectors_veto(b, i, &lww, false)
}

/// Merges `incoming` into `base` (`merged`).
fn merge_value(base: JsonValue, incoming: &JsonValue, options: &MergeOptions, depth: u32) -> (r:
    JsonValue)
    ensures
        r@ == merged(base@, incoming@, *options, depth),
    decreases incoming, 2nat,
{
    match incoming {
        JsonValue::Object(io) => match base {
            JsonValue::Object(bo) => {
                proof {
                    lemma_entries_view(bo);
                    lemma_entries_view(*io);
                }
                if options.resolve_by_timestamp && should_reject_objects(&bo, io, options) {
                    JsonValue::Object(bo)
                } else {
                    let members = merge_objects(bo, io, options, depth);
                    proof {
                        lemma_entries_view(members);
                    }
                    JsonValue::Object(members)
                }
            },
            _ => incoming.clone(),
        },
        JsonValue::Array(ia) => match base {
            JsonValue::Array(ba) => {
                proof {
                    lemma_items_view(ba);
                    lemma_items_view(*ia);
                }
                let items = merge_arrays(ba, ia, options, depth);
                proof {
                    lemma_items_view(items);
                }
                JsonValue::Array(items)
            },
            _ => incoming.clone(),
        },
        _ => incoming.clone(),
    }
}

/// Merges the members of `incoming` into `base` in order (`merge_members`).
fn merge_objects(
    base: Vec<(String, JsonValue)>,
    incoming: &Vec<(String, JsonValue)>,
    options: &MergeOptions,
    depth: u32,
) -> (r: Vec<(String, JsonValue)>)
    ensures
        member_views(r@) == merge_members(
            member_views(base@),
            member_views(incoming@),
            incoming.len() as int,
            *options,
            depth,
        ),
    decreases incoming, 0nat,
{
    let ghost bm = member_views(base@);
    let ghost im = member_views(incoming@);
    let mut acc = base;
    let mut k: usize = 0;
    while k < incoming.len()
        invariant
            k <= incoming.len(),
            im == member_views(incoming@),
            member_views(acc@) == merge_members(bm, im, k as int, *options, depth),
        decreases incoming.len() - k,
    {
        proof {
            broadcast use vstd::std_specs::vec::axiom_vec_index_decreases;

            assert(decreases_to!(*incoming => incoming[k as int].1));
            assert(im[k as int] == (incoming@[k as int].0@, incoming@[k as int].1@));
        }
        let ghost before = member_views(acc@);
        match find_member(&acc, &incoming[k].0) {
            None => {
                acc.push((incoming[k].0.clone(), incoming[k].1.clone()));
                proof {
                    assert(member_views(acc@) =~= before.push(im[k as int]));
                }
            },
            Some(j) => {
                proof {
                    lemma_key_index(before, im[k as int].0);
                }
                let child_depth = depth.saturating_add(1);
                let (name, child) = acc.remove(j);
                proof {
                    assert(before[j as int] == (name@, child@));
                }
                let new_child = if options.max_depth != 0 && child_depth >= options.max_depth {
                    incoming[k].1.clone()
                } else {
                    merge_value(child, &incoming[k].1, options, child_depth)
                };
                acc.insert(j, (name, new_child));
                proof {
                    assert(member_views(acc@) =~= before.update(j as int, (before[j as int].0, new_child@)));
                }
            },
        }
        k = k + 1;
    }
    acc
}

/// Copies of the documents of `items`.
fn copy_items(items: &Vec<JsonValue>) -> (r: Vec<JsonValue>)
    ensures
        views(r@) == views(items@),
{
    let mut out: Vec<JsonValue> = Vec::new();
    let mut k: usize = 0;
    while k < items.len()
        invariant
            k <= items.len(),
            views(out@) == views(items@).subrange(0, k as int),
        decreases items.len() - k,
    {
        let ghost before = views(out@);
        let c = items[k].clone();
        out.push(c);
        proof {
            assert(views(out@) =~= before.push(views(items@)[k as int]));
            assert(before.push(views(items@)[k as int]) =~= views(items@).subrange(0, k + 1));
        }
        k = k + 1;
    }
    proof {
        assert(views(items@).subrange(0, k as int) =~= views(items@));
    }
    out
}

/// Appends copies of `incoming` to `base`.
fn append_items(base: Vec<JsonValue>, incoming: &Vec<JsonValue>) -> (r: Vec<JsonValue>)
    ensures
        views(r@) == views(base@) + views(incoming@),
{
    let ghost bv = views(base@);
    let mut acc = base;
    let mut k: usize = 0;
    while k < incoming.len()
        invariant
            k <= incoming.len(),
            views(acc@) == bv + views(incoming@).subrange(0, k as int),
        decreases incoming.len() - k,
    {
        let ghost before = views(acc@);
        let c = incoming[k].clone();
        acc.push(c);
        proof {
            assert(views(acc@) =~= before.push(views(incoming@)[k as int]));
            assert(before.push(views(incoming@)[k as int]) =~= bv + views(incoming@).subrange(0, k + 1));
        }
        k = k + 1;
    }
    proof {
        assert(views(incoming@).subrange(0, k as int) =~= views(incoming@));
    }
    acc
}

/// Appends the incoming elements that are new (`union_items`).
fn union_into(base: Vec<JsonValue>, incoming: &Vec<JsonValue>) -> (r: Vec<JsonValue>)
    ensures
        views(r@) == union_items(views(base@), views(incoming@), incoming.len() as int),
{
    let ghost bv = views(base@);
    let ghost iv = views(incoming@);
    let mut acc = base;
    let mut k: usize = 0;
    while k < incoming.len()
        invariant
            k <= incoming.len(),
            iv == views(incoming@),
            views(acc@) == union_items(bv, iv, k as int),
        decreases incoming.len() - k,
    {
        if !any_equal(&acc, &incoming[k]) {
            let ghost before = views(acc@);
            acc.push(incoming[k].clone());
            proof {
                assert(views(acc@) =~= before.push(iv[k as int]));
            }
        }
        k = k + 1;
    }
    acc
}

/// Reconciles arrays index by index (`index_items`).
fn merge_by_index(
    base: Vec<JsonValue>,
    incoming: &Vec<JsonValue>,
    options: &MergeOptions,
    depth: u32,
) -> (r: Vec<JsonValue>)
    ensures
        views(r@) == index_items(
            views(base@),
            views(incoming@),
            incoming.len() as int,
            *options,
            depth,
        ),
    decreases incoming, 0nat,
{
    let ghost bv = views(base@);
    let ghost iv = views(incoming@);
    let mut acc = base;
    let mut k: usize = 0;
    while k < incoming.len()
        invariant
            k <= incoming.len(),
            iv == views(incoming@),
            views(acc@) == index_items(bv, iv, k as int, *options, depth),
        decreases incoming.len() - k,
    {
        let ghost before = views(acc@);
        proof {
            broadcast use vstd::std_specs::vec::axiom_vec_index_decreases;

            assert(decreases_to!(*incoming => incoming[k as int]));
        }
        if k < acc.len() {
            let current = acc.remove(k);
            proof {
                assert(before[k as int] == current@);
            }
            let replacement = match &incoming[k] {
                JsonValue::Object(io) => match current {
                    JsonValue::Object(bo) => {
                        proof {
                            lemma_entries_view(bo);
                            lemma_entries_view(*io);
                            assert(decreases_to!(*incoming => *io));
                        }
                        if options.resolve_by_timestamp && should_reject_objects(&bo, io, options) {
                            JsonValue::Object(bo)
                        } else {
                            let members = merge_objects(bo, io, options, depth.saturating_add(1));
                            proof {
                                lemma_entries_view(members);
                            }
                            JsonValue::Object(members)
                        }
                    },
                    _ => incoming[k].clone(),
                },
                _ => incoming[k].clone(),
            };
            acc.insert(k, replacement);
            proof {
                if replacement@ == before[k as int] {
                    assert(views(acc@) =~= before);
                }
                assert(views(acc@) =~= before.update(k as int, replacement@));
            }
        } else {
            acc.push(incoming[k].clone());
            proof {
                assert(views(acc@) =~= before.push(iv[k as int]));
            }
        }
        k = k + 1;
    }
    acc
}

/// Reconciles arrays by identity (`key_items`).
fn merge_by_key(
    base: Vec<JsonValue>,
    incoming: &Vec<JsonValue>,
    options: &MergeOptions,
    depth: u32,
) -> (r: Vec<JsonValue>)
    ensures
        views(r@) == key_items(
            views(base@),
            views(incoming@),
            incoming.len() as int,
            match_keys(*options),
            *options,
            depth,
        ),
    decreases incoming, 0nat,
{
    let list = match &options.array_match_keys {
        Some(s) => chars_of(s.as_str()),
        None => chars_of("id"),
    };
    let keys = split_selectors(&list);
    let ghost ks = match_keys(*options);
    let ghost bv = views(base@);
    let ghost iv = views(incoming@);
    let mut acc = base;
    let mut k: usize = 0;
    while k < incoming.len()
        invariant
            k <= incoming.len(),
            iv == views(incoming@),
            ks == char_seqs(keys@),
            views(acc@) == key_items(bv, iv, k as int, ks, *options, depth),
        decreases incoming.len() - k,
    {
        let ghost before = views(acc@);
        proof {
            broadcast use vstd::std_specs::vec::axiom_vec_index_decreases;

            assert(decreases_to!(*incoming => incoming[k as int]));
        }
        let v = &incoming[k];
        match find_identity(v, &keys) {
            None => {
                if !any_equal(&acc, v) {
                    acc.push(v.clone());
                    proof {
                        assert(views(acc@) =~= before.push(iv[k as int]));
                    }
                }
            },
            Some((key_index_in_list, id)) => {
                match matching_position(&acc, &keys[key_index_in_list], id) {
                    None => {
                        acc.push(v.clone());
                        proof {
                            assert(views(acc@) =~= before.push(iv[k as int]));
                        }
                    },
                    Some(p) => {
                        proof {
                            lemma_match_position_bound(before, keys@[key_index_in_list as int]@, id@, before.len() as int);
                        }
                        let current = acc.remove(p);
                        proof {
                            assert(before[p as int] == current@);
                        }
                        let replacement = match v {
                            JsonValue::Object(io) => match current {
                                JsonValue::Object(bo) => {
                                    proof {
                                        lemma_entries_view(bo);
                                        lemma_entries_view(*io);
                                        assert(decreases_to!(*incoming => *io));
                                    }
                                    if options.resolve_by_timestamp && should_reject_objects(
                                        &bo,
                                        io,
                                        options,
                                    ) {
                                        JsonValue::Object(bo)
                                    } else {
                                        let members = merge_objects(
                                            bo,
                                            io,
                                            options,
                                            depth.saturating_add(1),
                                        );
                                        proof {
                                            lemma_entries_view(members);
                                        }
                                        JsonValue::Object(members)
                                    }
                                },
                                other => other,
                            },
                            _ => current,
                        };
                        acc.insert(p, replacement);
                        proof {
                            assert(views(acc@) =~= before.update(p as int, replacement@));
                            if replacement@ == before[p as int] {
                                assert(before.update(p as int, replacement@) =~= before);
                            }
                        }
                    },
                }
            },
        }
        k = k + 1;
    }
    acc
}

/// Merges array `incoming` into array `base` (`merge_items`).
fn merge_arrays(
    base: Vec<JsonValue>,
    incoming: &Vec<JsonValue>,
    options: &MergeOptions,
    depth: u32,
) -> (r: Vec<JsonValue>)
    ensures
        views(r@) == merge_items(views(base@), views(incoming@), *options, depth),
    decreases incoming, 1nat,
{
    match options.array_strategy {
        ArrayMergeStrategy::Replace => copy_items(incoming),
        ArrayMergeStrategy::Append => append_items(base, incoming),
        ArrayMergeStrategy::Union => union_into(base, incoming),
        ArrayMergeStrategy::MergeByIndex => merge_by_index(base, incoming, options, depth),
        ArrayMergeStrategy::MergeByKey => merge_by_key(base, incoming, options, depth),
    }
}

/// Reconciles two documents: the merge of `incoming` into `base` with the
/// given options, starting at depth zero.
pub fn merge_values(base: JsonValue, incoming: &JsonValue, options: &MergeOptions) -> (r: JsonValue)
    ensures
        r@ == merged(base@, incoming@, *options, 0),
{
    merge_value(base, incoming, options, 0)
}

// ---------------------------------------------------------------------------
// Laws
// ---------------------------------------------------------------------------

/// Some member of `m` is named `k`.
pub open spec fn has_name(m: Seq<(Seq<char>, Json)>, k: Seq<char>) -> bool {
    exists|j: int| 0 <= j < m.len() && #[trigger] m[j].0 == k
}

/// An incoming value replaces the base unless both are objects or both are
/// arrays: incoming scalars win, and so does an incoming value of another kind.
pub proof fn law_incoming_scalar_wins(b: Json, i: Json, o: MergeOptions, depth: u32)
    requires
        !(b is Object && i is Object),
        !(b is Array && i is Array),
    ensures
        merged(b, i, o, depth) == i,
{
}

/// A timestamp veto keeps the whole base object: no member of the incoming
/// object is taken.
pub proof fn law_vetoed_object_is_kept(
    b: Seq<(Seq<char>, Json)>,
    i: Seq<(Seq<char>, Json)>,
    o: MergeOptions,
    depth: u32,
)
    requires
        o.resolve_by_timestamp,
        rejects_objects(b, i, o),
    ensures
        merged(Json::Object(b), Json::Object(i), o, depth) == Json::Object(b),
{
}

proof fn lemma_members_names(
    b: Seq<(Seq<char>, Json)>,
    i: Seq<(Seq<char>, Json)>,
    n: int,
    o: MergeOptions,
    depth: u32,
)
    requires
        0 <= n <= i.len(),
    ensures
        merge_members(b, i, n, o, depth).len() >= b.len(),
        forall|j: int|
            0 <= j < b.len() ==> #[trigger] merge_members(b, i, n, o, depth)[j].0 == b[j].0,
        forall|k: Seq<char>|
            #[trigger] has_name(merge_members(b, i, n, o, depth), k) <==> has_name(b, k) || has_name(
                i.subrange(0, n),
                k,
            ),
    decreases n,
{
    if n > 0 {
        lemma_members_names(b, i, n - 1, o, depth);
        let acc = merge_members(b, i, n - 1, o, depth);
        let r = merge_members(b, i, n, o, depth);
        let m = i[n - 1];
        lemma_key_index(acc, m.0);
        assert forall|k: Seq<char>| #[trigger] has_name(r, k) <==> has_name(b, k) || has_name(
            i.subrange(0, n),
            k,
        ) by {
            assert(has_name(i.subrange(0, n), k) <==> has_name(i.subrange(0, n - 1), k) || m.0 == k)
                by {
                if has_name(i.subrange(0, n), k) {
                    let j = choose|j: int| 0 <= j < n && #[trigger] i.subrange(0, n)[j].0 == k;
                    if j < n - 1 {
                        assert(i.subrange(0, n - 1)[j].0 == k);
                    }
                }
                if has_name(i.subrange(0, n - 1), k) {
                    let j = choose|j: int| 0 <= j < n - 1 && #[trigger] i.subrange(0, n - 1)[j].0 == k;
                    assert(i.subrange(0, n)[j].0 == k);
                }
                if m.0 == k {
                    assert(i.subrange(0, n)[n - 1].0 == k);
                }
            }
            match key_index(acc, m.0) {
                None => {
                    assert(r == acc.push(m));
                    if has_name(r, k) {
                        let j = choose|j: int| 0 <= j < r.len() && #[trigger] r[j].0 == k;
                        if j < acc.len() {
                            assert(acc[j].0 == k);
                        }
                    }
                    if has_name(acc, k) {
                        let j = choose|j: int| 0 <= j < acc.len() && #[trigger] acc[j].0 == k;
                        assert(r[j].0 == k);
                    }
                    if m.0 == k {
                        assert(r[acc.len() as int].0 == k);
                    }
                },
                Some(p) => {
                    assert(r.len() == acc.len());
                    assert forall|j: int| 0 <= j < r.len() implies #[trigger] r[j].0 == acc[j].0 by {}
                    if has_name(r, k) {
                        let j = choose|j: int| 0 <= j < r.len() && #[trigger] r[j].0 == k;
                        assert(acc[j].0 == k);
                    }
                    if has_name(acc, k) {
                        let j = choose|j: int| 0 <= j < acc.len() && #[trigger] acc[j].0 == k;
                        assert(r[j].0 == k);
                    }
                    if m.0 == k {
                        assert(r[p].0 == k);
                    }
                },
            }
        }
        assert forall|j: int| 0 <= j < b.len() implies #[trigger] r[j].0 == b[j].0 by {
            assert(acc[j].0 == b[j].0);
        }
    } else {
        assert forall|k: Seq<char>| !has_name(i.subrange(0, n), k) by {}
    }
}

/// Merging two objects keeps the base members in their places, appends the
/// new ones, and gives exactly the names of both objects.
pub proof fn law_object_merge_keeps_names(
    b: Seq<(Seq<char>, Json)>,
    i: Seq<(Seq<char>, Json)>,
    o: MergeOptions,
    depth: u32,
    k: Seq<char>,
)
    requires
        !(o.resolve_by_timestamp && rejects_objects(b, i, o)),
    ensures
        merged(Json::Object(b), Json::Object(i), o, depth) matches Json::Object(r) && r.len()
            >= b.len() && (forall|j: int| 0 <= j < b.len() ==> #[trigger] r[j].0 == b[j].0) && (
        has_name(r, k) <==> has_name(b, k) || has_name(i, k)),
{
    lemma_members_names(b, i, i.len() as int, o, depth);
    assert(i.subrange(0, i.len() as int) =~= i);
}

proof fn lemma_index_items_len(b: Seq<Json>, i: Seq<Json>, n: int, o: MergeOptions, depth: u32)
    requires
        0 <= n <= i.len(),
    ensures
        index_items(b, i, n, o, depth).len() == if b.len() >= n {
            b.len() as int
        } else {
            n
        },
    decreases n,
{
    if n > 0 {
        lemma_index_items_len(b, i, n - 1, o, depth);
    }
}

/// Merging arrays index by index gives the length of the longer array.
pub proof fn law_merge_by_index_length(b: Seq<Json>, i: Seq<Json>, o: MergeOptions, depth: u32)
    requires
        o.array_strategy == ArrayMergeStrategy::MergeByIndex,
    ensures
        merged(Json::Array(b), Json::Array(i), o, depth) matches Json::Array(r) && r.len() == if b.len()
            >= i.len() {
            b.len()
        } else {
            i.len()
        },
{
    lemma_index_items_len(b, i, i.len() as int, o, depth);
}

proof fn lemma_union_items(b: Seq<Json>, i: Seq<Json>, n: int)
    requires
        0 <= n <= i.len(),
    ensures
        union_items(b, i, n).len() >= b.len(),
        union_items(b, i, n).subrange(0, b.len() as int) == b,
        forall|j: int|
            0 <= j < n ==> (exists|p: int|
                0 <= p < union_items(b, i, n).len() && union_items(b, i, n)[p] == i[j])
                || contains_equal(union_items(b, i, n), #[trigger] i[j]),
    decreases n,
{
    if n > 0 {
        lemma_union_items(b, i, n - 1);
        let acc = union_items(b, i, n - 1);
        let r = union_items(b, i, n);
        if !contains_equal(acc, i[n - 1]) {
            assert(r == acc.push(i[n - 1]));
            assert(r.subrange(0, b.len() as int) =~= acc.subrange(0, b.len() as int));
            assert forall|j: int| 0 <= j < n implies (exists|p: int|
                0 <= p < r.len() && r[p] == i[j]) || contains_equal(r, #[trigger] i[j]) by {
                if j == n - 1 {
                    assert(r[acc.len() as int] == i[j]);
                } else {
                    if exists|p: int| 0 <= p < acc.len() && acc[p] == i[j] {
                        let p = choose|p: int| 0 <= p < acc.len() && acc[p] == i[j];
                        assert(r[p] == i[j]);
                    } else {
                        let q = choose|q: int| 0 <= q < acc.len() && #[trigger] structurally_equal(
                            acc[q],
                            i[j],
                        );
                        assert(r[q] == acc[q]);
                    }
                }
            }
        }
    } else {
        assert(b.subrange(0, b.len() as int) =~= b);
    }
}

/// A union keeps the base array as it is and adds each incoming element
/// unless a structurally equal one is already there.
pub proof fn law_union_covers_incoming(b: Seq<Json>, i: Seq<Json>, o: MergeOptions, depth: u32)
    requires
        o.array_strategy == ArrayMergeStrategy::Union,
    ensures
        merged(Json::Array(b), Json::Array(i), o, depth) matches Json::Array(r) && r.len() >= b.len()
            && r.subrange(0, b.len() as int) == b && forall|j: int|
            0 <= j < i.len() ==> (exists|p: int| 0 <= p < r.len() && r[p] == i[j])
                || contains_equal(r, #[trigger] i[j]),
{
    lemma_union_items(b, i, i.len() as int);
}

/// The options with another value of the cycle-detection flag.
pub open spec fn with_cycle_flag(o: MergeOptions, flag: bool) -> MergeOptions {
    MergeOptions { detect_circular_refs: flag, ..o }
}

/// The model of an optional string.
pub open spec fn option_text(s: Option<String>) -> Option<Seq<char>> {
    match s {
        Some(t) => Some(t@),
        None => None,
    }
}

/// Two sets of options that a merge cannot tell apart: the same strategy,
/// depth limit and timestamp switch, and selector lists with the same text.
pub open spec fn same_behaviour(o1: MergeOptions, o2: MergeOptions) -> bool {
    &&& o1.array_strategy == o2.array_strategy
    &&& o1.max_depth == o2.max_depth
    &&& o1.resolve_by_timestamp == o2.resolve_by_timestamp
    &&& option_text(o1.lww_keys) == option_text(o2.lww_keys)
    &&& option_text(o1.fww_keys) == option_text(o2.fww_keys)
    &&& option_text(o1.array_match_keys) == option_text(o2.array_match_keys)
}

proof fn lemma_rejects_same(
    b: Seq<(Seq<char>, Json)>,
    i: Seq<(Seq<char>, Json)>,
    o1: MergeOptions,
    o2: MergeOptions,
)
    requires
        same_behaviour(o1, o2),
    ensures
        rejects_objects(b, i, o1) == rejects_objects(b, i, o2),
        match_keys(o1) == match_keys(o2),
{
    assert(lww_list(o1) == lww_list(o2));
    if let Some(f1) = o1.fww_keys {
        assert(option_text(o2.fww_keys) == Some(f1@));
    }
    match (o1.array_match_keys, o2.array_match_keys) {
        (Some(a), Some(b)) => {
            assert(a@ == b@);
        },
        _ => {},
    }
}

proof fn lemma_merged_same(b: Json, i: Json, o1: MergeOptions, o2: MergeOptions, depth: u32)
    requires
        same_behaviour(o1, o2),
    ensures
        merged(b, i, o1, depth) == merged(b, i, o2, depth),
    decreases i, 3nat, 0int,
{
    match (b, i) {
        (Json::Object(bo), Json::Object(io)) => {
            lemma_rejects_same(bo, io, o1, o2);
            lemma_members_same(bo, io, io.len() as int, o1, o2, depth);
        },
        (Json::Array(ba), Json::Array(ia)) => {
            lemma_items_same(ba, ia, o1, o2, depth);
        },
        _ => {},
    }
}

proof fn lemma_members_same(
    b: Seq<(Seq<char>, Json)>,
    i: Seq<(Seq<char>, Json)>,
    n: int,
    o1: MergeOptions,
    o2: MergeOptions,
    depth: u32,
)
    requires
        same_behaviour(o1, o2),
    ensures
        merge_members(b, i, n, o1, depth) == merge_members(b, i, n, o2, depth),
    decreases i, 2nat, n,
{
    if n > 0 && n <= i.len() {
        lemma_members_same(b, i, n - 1, o1, o2, depth);
        let acc = merge_members(b, i, n - 1, o1, depth);
        let m = i[n - 1];
        if let Some(j) = key_index(acc, m.0) {
            assert(decreases_to!(i => i[n - 1]));
            lemma_merged_same(acc[j].1, m.1, o1, o2, next_depth(depth));
        }
    }
}

proof fn lemma_index_same(
    b: Seq<Json>,
    i: Seq<Json>,
    n: int,
    o1: MergeOptions,
    o2: MergeOptions,
    depth: u32,
)
    requires
        same_behaviour(o1, o2),
    ensures
        index_items(b, i, n, o1, depth) == index_items(b, i, n, o2, depth),
    decreases i, 1nat, n,
{
    if n > 0 && n <= i.len() {
        lemma_index_same(b, i, n - 1, o1, o2, depth);
        let acc = index_items(b, i, n - 1, o1, depth);
        let k = n - 1;
        if k < acc.len() {
            if let (Json::Object(bo), Json::Object(io)) = (acc[k], i[k]) {
                assert(decreases_to!(i => i[k]));
                lemma_rejects_same(bo, io, o1, o2);
                lemma_members_same(bo, io, io.len() as int, o1, o2, next_depth(depth));
            }
        }
    }
}

proof fn lemma_key_same(
    b: Seq<Json>,
    i: Seq<Json>,
    n: int,
    keys: Seq<Seq<char>>,
    o1: MergeOptions,
    o2: MergeOptions,
    depth: u32,
)
    requires
        same_behaviour(o1, o2),
    ensures
        key_items(b, i, n, keys, o1, depth) == key_items(b, i, n, keys, o2, depth),
    decreases i, 1nat, n,
{
    if n > 0 && n <= i.len() {
        lemma_key_same(b, i, n - 1, keys, o1, o2, depth);
        let acc = key_items(b, i, n - 1, keys, o1, depth);
        let v = i[n - 1];
        if let Some((key, id)) = identity_of(v, keys) {
            if let Some(p) = match_position(acc, key, id, acc.len() as int) {
                if let (Json::Object(bo), Json::Object(io)) = (acc[p], v) {
                    assert(decreases_to!(i => i[n - 1]));
                    lemma_rejects_same(bo, io, o1, o2);
                    lemma_members_same(bo, io, io.len() as int, o1, o2, next_depth(depth));
                }
            }
        }
    }
}

proof fn lemma_items_same(b: Seq<Json>, i: Seq<Json>, o1: MergeOptions, o2: MergeOptions, depth: u32)
    requires
        same_behaviour(o1, o2),
    ensures
        merge_items(b, i, o1, depth) == merge_items(b, i, o2, depth),
    decreases i, 2nat, 0int,
{
    lemma_index_same(b, i, i.len() as int, o1, o2, depth);
    lemma_rejects_same(Seq::empty(), Seq::empty(), o1, o2);
    lemma_key_same(b, i, i.len() as int, match_keys(o1), o1, o2, depth);
}

/// A merge depends on the options only through the strategy, the depth
/// limit, the timestamp switch and the text of the selector lists.
pub proof fn law_merge_sees_only_behaviour(b: Json, i: Json, o1: MergeOptions, o2: MergeOptions)
    requires
        same_behaviour(o1, o2),
    ensures
        merged(b, i, o1, 0) == merged(b, i, o2, 0),
{
    lemma_merged_same(b, i, o1, o2, 0);
}

/// The cycle-detection flag never changes a merge: owned documents have no
/// cycles.
pub proof fn law_cycle_flag_is_inert(b: Json, i: Json, o: MergeOptions, flag: bool)
    ensures
        merged(b, i, o, 0) == merged(b, i, with_cycle_flag(o, flag), 0),
{
    lemma_merged_same(b, i, o, with_cycle_flag(o, flag), 0);
}

/// A first-write-wins selector that shows the incoming object to be newer
/// vetoes it: the base object is kept whole.
pub proof fn law_first_write_wins_veto(
    b: Seq<(Seq<char>, Json)>,
    i: Seq<(Seq<char>, Json)>,
    o: MergeOptions,
    depth: u32,
    k: int,
    x: Json,
    y: Json,
)
    requires
        o.resolve_by_timestamp,
        o.fww_keys matches Some(f) && 0 <= k < comma_separated(f@).len() && resolve_selector(
            b,
            comma_separated(f@)[k],
        ) == Some(x) && resolve_selector(i, comma_separated(f@)[k]) == Some(y),
        timestamp_order(x, y) == Some(crate::text::Order::Less),
    ensures
        merged(Json::Object(b), Json::Object(i), o, depth) == Json::Object(b),
{
    let f = o.fww_keys->Some_0;
    assert(selector_rejects(b, i, comma_separated(f@)[k], true));
}

/// A last-write-wins selector that shows the base object to be newer vetoes
/// the incoming object: the base object is kept whole.
pub proof fn law_last_write_wins_veto(
    b: Seq<(Seq<char>, Json)>,
    i: Seq<(Seq<char>, Json)>,
    o: MergeOptions,
    depth: u32,
    k: int,
    x: Json,
    y: Json,
)
    requires
        o.resolve_by_timestamp,
        0 <= k < comma_separated(lww_list(o)).len(),
        resolve_selector(b, comma_separated(lww_list(o))[k]) == Some(x),
        resolve_selector(i, comma_separated(lww_list(o))[k]) == Some(y),
        timestamp_order(x, y) == Some(crate::text::Order::Greater),
    ensures
        merged(Json::Object(b), Json::Object(i), o, depth) == Json::Object(b),
{
    assert(selector_rejects(b, i, comma_separated(lww_list(o))[k], false));
}

/// An integer and its decimal text identify the same record, both ways.
pub proof fn law_integer_and_its_text_identify_alike(n: Seq<char>, v: int)
    requires
        number_int(n) == Some(v),
    ensures
        same_identity(Json::Number(n), Json::String(int_text(v))),
        same_identity(Json::String(int_text(v)), Json::Number(n)),
{
}


// ---------------------------------------------------------------------------
// Laws on incoming records and members
// ---------------------------------------------------------------------------

proof fn lemma_key_items_prefix(
    b: Seq<Json>,
    i: Seq<Json>,
    i2: Seq<Json>,
    n: int,
    keys: Seq<Seq<char>>,
    o: MergeOptions,
    depth: u32,
)
    requires
        0 <= n <= i.len(),
        n <= i2.len(),
        forall|p: int| 0 <= p < n ==> #[trigger] i[p] == i2[p],
    ensures
        key_items(b, i, n, keys, o, depth) == key_items(b, i2, n, keys, o, depth),
    decreases n,
{
    if n > 0 {
        lemma_key_items_prefix(b, i, i2, n - 1, keys, o, depth);
        assert(i[n - 1] == i2[n - 1]);
    }
}

/// Merging by identity key, an incoming record whose identity matches no
/// record of the merged array is appended to it: merging one more such
/// record gives the previous merge with that record at its end.
pub proof fn law_new_identity_is_appended(
    b: Seq<Json>,
    i: Seq<Json>,
    v: Json,
    o: MergeOptions,
    depth: u32,
)
    requires
        o.array_strategy == ArrayMergeStrategy::MergeByKey,
        identity_of(v, match_keys(o)) matches Some((key, id)) && forall|p: int|
            0 <= p < merge_items(b, i, o, depth).len() ==> !candidate_matches(
                #[trigger] merge_items(b, i, o, depth)[p],
                key,
                id,
            ),
    ensures
        merged(Json::Array(b), Json::Array(i.push(v)), o, depth) == Json::Array(
            merge_items(b, i, o, depth).push(v),
        ),
{
    let keys = match_keys(o);
    let j = i.push(v);
    let n = i.len() as int;
    lemma_key_items_prefix(b, i, j, n, keys, o, depth);
    let acc = key_items(b, j, n, keys, o, depth);
    assert(acc == merge_items(b, i, o, depth));
    assert(j[n] == v);
    let (key, id) = identity_of(v, keys)->Some_0;
    lemma_match_position_bound(acc, key, id, acc.len() as int);
    assert(match_position(acc, key, id, acc.len() as int) is None);
    assert(j.len() == n + 1);
    assert(key_items(b, j, n + 1, keys, o, depth) == acc.push(v));
    assert(merge_items(b, j, o, depth) == key_items(b, j, n + 1, keys, o, depth));
}

proof fn lemma_index_items_keeps(
    b: Seq<Json>,
    i: Seq<Json>,
    n: int,
    o: MergeOptions,
    depth: u32,
    k: int,
)
    requires
        0 <= n <= i.len(),
        0 <= k < b.len(),
    ensures
        index_items(b, i, n, o, depth).len() >= b.len(),
        k >= n ==> index_items(b, i, n, o, depth)[k] == b[k],
        k < n && o.resolve_by_timestamp && (b[k] matches Json::Object(bo) && i[k] matches Json::Object(
            io,
        ) && rejects_objects(bo, io, o)) ==> index_items(b, i, n, o, depth)[k] == b[k],
        k < n && !(b[k] is Object && i[k] is Object) ==> index_items(b, i, n, o, depth)[k] == i[k],
    decreases n,
{
    if n > 0 {
        lemma_index_items_keeps(b, i, n - 1, o, depth, k);
        lemma_index_items_len(b, i, n, o, depth);
        lemma_index_items_len(b, i, n - 1, o, depth);
    }
}

proof fn lemma_index_items_tail(b: Seq<Json>, i: Seq<Json>, n: int, o: MergeOptions, depth: u32, k: int)
    requires
        0 <= n <= i.len(),
        b.len() <= k < n,
    ensures
        index_items(b, i, n, o, depth)[k] == i[k],
    decreases n,
{
    lemma_index_items_len(b, i, n - 1, o, depth);
    if k < n - 1 {
        lemma_index_items_tail(b, i, n - 1, o, depth, k);
    }
}

/// Merging by index, an incoming element replaces the base element at its
/// position unless both are objects, and is appended past the end of the
/// base array; base elements past the end of the incoming array stay.
pub proof fn law_index_elements_replace(b: Seq<Json>, i: Seq<Json>, o: MergeOptions, depth: u32, k: int)
    requires
        o.array_strategy == ArrayMergeStrategy::MergeByIndex,
        0 <= k,
    ensures
        merged(Json::Array(b), Json::Array(i), o, depth) matches Json::Array(r) && (k < i.len() && !(
        k < b.len() && b[k] is Object && i[k] is Object) ==> r[k] == i[k]) && (i.len() <= k < b.len()
            ==> r[k] == b[k]),
{
    if k < b.len() {
        lemma_index_items_keeps(b, i, i.len() as int, o, depth, k);
    } else if k < i.len() {
        lemma_index_items_tail(b, i, i.len() as int, o, depth, k);
    }
}

/// Merging by index with timestamp resolution, an element pair of two
/// objects that the selectors veto keeps the base element whole.
pub proof fn law_vetoed_element_is_kept(
    b: Seq<Json>,
    i: Seq<Json>,
    o: MergeOptions,
    depth: u32,
    k: int,
)
    requires
        o.array_strategy == ArrayMergeStrategy::MergeByIndex,
        o.resolve_by_timestamp,
        0 <= k < b.len(),
        k < i.len(),
        b[k] matches Json::Object(bo) && i[k] matches Json::Object(io) && rejects_objects(bo, io, o),
    ensures
        merged(Json::Array(b), Json::Array(i), o, depth) matches Json::Array(r) && k < r.len() && r[k]
            == b[k],
{
    lemma_index_items_keeps(b, i, i.len() as int, o, depth, k);
}

proof fn lemma_key_index_same_names(s: Seq<(Seq<char>, Json)>, t: Seq<(Seq<char>, Json)>, k: Seq<char>)
    requires
        s.len() == t.len(),
        forall|p: int| 0 <= p < s.len() ==> #[trigger] s[p].0 == t[p].0,
    ensures
        key_index(s, k) == key_index(t, k),
    decreases s.len(),
{
    if s.len() > 0 {
        assert forall|p: int| 0 <= p < s.drop_last().len() implies #[trigger] s.drop_last()[p].0
            == t.drop_last()[p].0 by {
            assert(s.drop_last()[p] == s[p]);
            assert(t.drop_last()[p] == t[p]);
        }
        lemma_key_index_same_names(s.drop_last(), t.drop_last(), k);
    }
}

proof fn lemma_scalar_member_wins(
    b: Seq<(Seq<char>, Json)>,
    i: Seq<(Seq<char>, Json)>,
    n: int,
    o: MergeOptions,
    depth: u32,
    q: int,
)
    requires
        0 <= q < n <= i.len(),
        !(i[q].1 is Object),
        !(i[q].1 is Array),
        forall|r: int| q < r < i.len() ==> #[trigger] i[r].0 != i[q].0,
    ensures
        lookup(merge_members(b, i, n, o, depth), i[q].0) == Some(i[q].1),
    decreases n,
{
    let k = i[q].0;
    let acc = merge_members(b, i, n - 1, o, depth);
    let res = merge_members(b, i, n, o, depth);
    let m = i[n - 1];
    lemma_key_index(acc, m.0);
    if n - 1 > q {
        lemma_scalar_member_wins(b, i, n - 1, o, depth, q);
        assert(m.0 != k);
        let jk = key_index(acc, k)->Some_0;
        lemma_key_index(acc, k);
        match key_index(acc, m.0) {
            None => {
                assert(res.drop_last() =~= acc);
            },
            Some(j) => {
                assert(res.len() == acc.len());
                assert forall|p: int| 0 <= p < acc.len() implies #[trigger] acc[p].0 == res[p].0 by {}
                lemma_key_index_same_names(acc, res, k);
                assert(j != jk);
                assert(res[jk] == acc[jk]);
            },
        }
    } else {
        assert(m == i[q]);
        match key_index(acc, k) {
            None => {
                assert(res == acc.push(m));
                assert(res.drop_last() =~= acc);
            },
            Some(j) => {
                assert(res.len() == acc.len());
                assert forall|p: int| 0 <= p < acc.len() implies #[trigger] acc[p].0 == res[p].0 by {}
                lemma_key_index_same_names(acc, res, k);
                let child = next_depth(depth);
                if !(o.max_depth != 0 && child >= o.max_depth) {
                    assert(merged(acc[j].1, m.1, o, child) == m.1);
                }
            },
        }
    }
}

/// Merging two objects that are not vetoed, an incoming member whose value
/// is a scalar (`null` included) wins: the merged object holds that value
/// under that name. When a name occurs more than once, its last member counts.
pub proof fn law_incoming_scalar_member_wins(
    b: Seq<(Seq<char>, Json)>,
    i: Seq<(Seq<char>, Json)>,
    o: MergeOptions,
    depth: u32,
    q: int,
)
    requires
        !(o.resolve_by_timestamp && rejects_objects(b, i, o)),
        0 <= q < i.len(),
        !(i[q].1 is Object),
        !(i[q].1 is Array),
        forall|r: int| q < r < i.len() ==> #[trigger] i[r].0 != i[q].0,
    ensures
        merged(Json::Object(b), Json::Object(i), o, depth) matches Json::Object(r) && lookup(
            r,
            i[q].0,
        ) == Some(i[q].1),
{
    lemma_scalar_member_wins(b, i, i.len() as int, o, depth, q);
}

proof fn lemma_no_comma_split(s: Seq<char>)
    requires
        forall|p: int| 0 <= p < s.len() ==> #[trigger] s[p] != ',',
    ensures
        split_at_char(s, ',') == seq![s],
    decreases s.len(),
{
    if s.len() > 0 {
        assert forall|p: int| 0 <= p < s.drop_last().len() implies #[trigger] s.drop_last()[p]
            != ',' by {
            assert(s.drop_last()[p] == s[p]);
        }
        lemma_no_comma_split(s.drop_last());
        assert(s.drop_last().push(s.last()) =~= s);
    } else {
        assert(s =~= Seq::<char>::empty());
    }
}

/// Without configured last-write-wins selectors the selector is the member
/// `updatedAt`: when both objects hold it and the base's timestamp is the
/// later one, timestamp resolution keeps the base object whole.
pub proof fn law_default_last_write_selector(
    b: Seq<(Seq<char>, Json)>,
    i: Seq<(Seq<char>, Json)>,
    o: MergeOptions,
    depth: u32,
    x: Json,
    y: Json,
)
    requires
        o.resolve_by_timestamp,
        o.lww_keys is None,
        lookup(b, "updatedAt"@) == Some(x),
        lookup(i, "updatedAt"@) == Some(y),
        timestamp_order(x, y) == Some(crate::text::Order::Greater),
    ensures
        merged(Json::Object(b), Json::Object(i), o, depth) == Json::Object(b),
{
    reveal_strlit("updatedAt");
    let s = "updatedAt"@;
    assert(lww_list(o) == s);
    lemma_no_comma_split(s);
    assert(!is_space(s[0]));
    assert(!is_space(s.last()));
    assert(trim_start(s) == s);
    assert(trim_end(s) == s);
    assert(trim(s) == s);
    assert(seq![s].drop_last() =~= Seq::<Seq<char>>::empty());
    assert(kept_pieces(Seq::<Seq<char>>::empty()) == Seq::<Seq<char>>::empty());
    assert(seq![s].last() == s);
    assert(s.len() > 0);
    assert(Seq::<Seq<char>>::empty().push(s) =~= seq![s]);
    assert(kept_pieces(seq![s]) == seq![s]);
    assert(comma_separated(lww_list(o)) == seq![s]);
    assert(resolve_selector(b, s) == Some(x));
    assert(resolve_selector(i, s) == Some(y));
    law_last_write_wins_veto(b, i, o, depth, 0, x, y);
}


/// Without configured identity keys the identity key is the member `id`.
pub proof fn law_default_identity_key(o: MergeOptions)
    requires
        o.array_match_keys is None,
    ensures
        match_keys(o) == seq!["id"@],
{
    reveal_strlit("id");
    let s = "id"@;
    lemma_no_comma_split(s);
    assert(!is_space(s[0]));
    assert(!is_space(s.last()));
    assert(trim_start(s) == s);
    assert(trim_end(s) == s);
    assert(seq![s].drop_last() =~= Seq::<Seq<char>>::empty());
    assert(kept_pieces(Seq::<Seq<char>>::empty()) == Seq::<Seq<char>>::empty());
    assert(seq![s].last() == s);
    assert(Seq::<Seq<char>>::empty().push(s) =~= seq![s]);
}

proof fn lemma_key_items_len(
    b: Seq<Json>,
    i: Seq<Json>,
    n: int,
    keys: Seq<Seq<char>>,
    o: MergeOptions,
    depth: u32,
)
    requires
        0 <= n <= i.len(),
    ensures
        b.len() <= key_items(b, i, n, keys, o, depth).len() <= b.len() + n,
    decreases n,
{
    if n > 0 {
        lemma_key_items_len(b, i, n - 1, keys, o, depth);
        let acc = key_items(b, i, n - 1, keys, o, depth);
        if let Some((key, id)) = identity_of(i[n - 1], keys) {
            lemma_match_position_bound(acc, key, id, acc.len() as int);
        }
    }
}

/// Merging by identity key never loses a record: the result is at least as
/// long as the base array and grows by at most one record per incoming one.
pub proof fn law_merge_by_key_length(b: Seq<Json>, i: Seq<Json>, o: MergeOptions, depth: u32)
    requires
        o.array_strategy == ArrayMergeStrategy::MergeByKey,
    ensures
        merged(Json::Array(b), Json::Array(i), o, depth) matches Json::Array(r) && b.len() <= r.len()
            <= b.len() + i.len(),
{
    lemma_key_items_len(b, i, i.len() as int, match_keys(o), o, depth);
}

proof fn lemma_match_position_found(a: Seq<Json>, key: Seq<char>, id: Json, n: int, p: int)
    requires
        0 <= p < n <= a.len(),
        candidate_matches(a[p], key, id),
    ensures
        match_position(a, key, id, n) is Some,
    decreases n,
{
    if p < n - 1 {
        lemma_match_position_found(a, key, id, n - 1, p);
    }
}

/// Merging by identity key, an incoming record whose identity some record
/// of the merged array already carries is merged into the first such record
/// (or dropped by a veto): no record is added and every other record stays.
pub proof fn law_known_identity_merges_in_place(
    b: Seq<Json>,
    i: Seq<Json>,
    v: Json,
    o: MergeOptions,
    depth: u32,
    key: Seq<char>,
    id: Json,
    p: int,
)
    requires
        o.array_strategy == ArrayMergeStrategy::MergeByKey,
        identity_of(v, match_keys(o)) == Some((key, id)),
        0 <= p < merge_items(b, i, o, depth).len(),
        candidate_matches(merge_items(b, i, o, depth)[p], key, id),
    ensures
        merged(Json::Array(b), Json::Array(i.push(v)), o, depth) matches Json::Array(r2) && r2.len()
            == merge_items(b, i, o, depth).len() && forall|q: int|
            0 <= q < r2.len() && !candidate_matches(merge_items(b, i, o, depth)[q], key, id)
                ==> #[trigger] r2[q] == merge_items(b, i, o, depth)[q],
{
    let keys = match_keys(o);
    let j = i.push(v);
    let n = i.len() as int;
    lemma_key_items_prefix(b, i, j, n, keys, o, depth);
    let acc = key_items(b, j, n, keys, o, depth);
    assert(acc == merge_items(b, i, o, depth));
    assert(j[n] == v);
    lemma_match_position_found(acc, key, id, acc.len() as int, p);
    lemma_match_position_bound(acc, key, id, acc.len() as int);
    assert(j.len() == n + 1);
    assert(merge_items(b, j, o, depth) == key_items(b, j, n + 1, keys, o, depth));
}

proof fn lemma_base_member_stays(
    b: Seq<(Seq<char>, Json)>,
    i: Seq<(Seq<char>, Json)>,
    n: int,
    o: MergeOptions,
    depth: u32,
    k: Seq<char>,
)
    requires
        0 <= n <= i.len(),
        forall|r: int| 0 <= r < i.len() ==> #[trigger] i[r].0 != k,
    ensures
        lookup(merge_members(b, i, n, o, depth), k) == lookup(b, k),
    decreases n,
{
    if n > 0 {
        lemma_base_member_stays(b, i, n - 1, o, depth, k);
        let acc = merge_members(b, i, n - 1, o, depth);
        let res = merge_members(b, i, n, o, depth);
        let m = i[n - 1];
        assert(m.0 != k);
        lemma_key_index(acc, m.0);
        lemma_key_index(acc, k);
        match key_index(acc, m.0) {
            None => {
                assert(res.drop_last() =~= acc);
                if key_index(acc, k) is None {
                    assert(res.last().0 != k);
                }
            },
            Some(j) => {
                assert forall|q: int| 0 <= q < acc.len() implies #[trigger] acc[q].0 == res[q].0 by {}
                lemma_key_index_same_names(acc, res, k);
            },
        }
    }
}

/// Merging two objects that are not vetoed, a base member whose name the
/// incoming object does not hold keeps its value.
pub proof fn law_base_only_member_stays(
    b: Seq<(Seq<char>, Json)>,
    i: Seq<(Seq<char>, Json)>,
    o: MergeOptions,
    depth: u32,
    k: Seq<char>,
)
    requires
        !(o.resolve_by_timestamp && rejects_objects(b, i, o)),
        forall|r: int| 0 <= r < i.len() ==> #[trigger] i[r].0 != k,
    ensures
        merged(Json::Object(b), Json::Object(i), o, depth) matches Json::Object(r) && lookup(r, k)
            == lookup(b, k),
{
    lemma_base_member_stays(b, i, i.len() as int, o, depth, k);
}

} // verus!
