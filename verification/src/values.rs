//! Comparisons between document values: numeric and structural equality,
//! identity matching, timestamp order and JSON-pointer selectors.
use vstd::prelude::*;

use crate::compact::{compact_string, write_json};
use crate::json::{
    entries_view, find_member, items_view, key_index, lemma_entries_view, lemma_items_view, lookup,
    member_views, views, Json, JsonValue,
};
use crate::numtext::{is_float_exec, is_float_text};
use crate::scalar::{
    char_seqs, comma_separated, decode_pointer_segment, decode_segment, index_value, int_text,
    int_order, integer_of, integer_text, integer_value, lemma_split_nonempty, parse_index, split_at_char,
    split_chars, split_selectors, timestamp_text_order, compare_timestamp_chars,
};
use crate::serde_support::{compare_as_doubles, double_order, swapped};
use crate::text::{chars_of, compare_chars, string_from_chars, Order};

verus! {

// ---------------------------------------------------------------------------
// Numbers
// ---------------------------------------------------------------------------

/// The integer a number text stands for when it is written as an integer
/// (no fraction, no exponent) in the range of `i64` or `u64`.
pub open spec fn number_int(n: Seq<char>) -> Option<int> {
    if is_float_text(n) {
        None
    } else {
        integer_value(n)
    }
}

/// Two numbers are equal: as integers when both are integers, else as the
/// doubles they denote.
pub open spec fn same_number(a: Seq<char>, b: Seq<char>) -> bool {
    match (number_int(a), number_int(b)) {
        (Some(x), Some(y)) => x == y,
        _ => double_order(a, b) == Some(Order::Equal),
    }
}

/// The integer value of a number, as `number_int` describes it.
pub fn number_integer(n: &String) -> (r: Option<i128>)
    ensures
        r matches Some(v) ==> number_int(n@) == Some(v as int),
        r is None ==> number_int(n@) is None,
{
    let chars = chars_of(n.as_str());
    if is_float_exec(&chars) {
        None
    } else {
        integer_of(&chars)
    }
}

/// Whether two numbers are equal (`same_number`). The comparison is
/// symmetric, and a number equals itself whenever it is an integer or its
/// double comparison is defined.
pub fn numbers_equal(a: &String, b: &String) -> (r: bool)
    ensures
        r == same_number(a@, b@),
        r == same_number(b@, a@),
        a@ == b@ && (number_int(a@) is Some || double_order(a@, a@) is Some) ==> r,
{
    match (number_integer(a), number_integer(b)) {
        (Some(x), Some(y)) => x == y,
        _ => match compare_as_doubles(a.as_str(), b.as_str()) {
            Some(Order::Equal) => true,
            _ => false,
        },
    }
}

// ---------------------------------------------------------------------------
// Structural equality
// ---------------------------------------------------------------------------

/// Structural equality: objects are equal when they have as many members and
/// every member of the right one is found in the left one with an equal value
/// (key order is irrelevant), arrays element by element, numbers by value,
/// everything else by identity.
pub open spec fn structurally_equal(l: Json, r: Json) -> bool
    decreases r, 1nat, 0int,
{
    match (l, r) {
        (Json::Object(a), Json::Object(b)) => a.len() == b.len() && members_match(
            a,
            b,
            b.len() as int,
        ),
        (Json::Array(a), Json::Array(b)) => a.len() == b.len() && items_match(
            a,
            b,
            b.len() as int,
        ),
        (Json::Number(x), Json::Number(y)) => same_number(x, y),
        _ => l == r,
    }
}

/// The first `n` members of `b` are found in `a` with structurally equal values.
pub open spec fn members_match(a: Seq<(Seq<char>, Json)>, b: Seq<(Seq<char>, Json)>, n: int) -> bool
    decreases b, 0nat, n,
{
    if n <= 0 || n > b.len() {
        true
    } else {
        members_match(a, b, n - 1) && match key_index(a, b[n - 1].0) {
            Some(j) => {
                proof {
                    assert(decreases_to!(b => b[n - 1]));
                }
                structurally_equal(a[j].1, b[n - 1].1)
            },
            None => false,
        }
    }
}

/// The first `n` elements of `a` and `b` are structurally equal in pairs.
pub open spec fn items_match(a: Seq<Json>, b: Seq<Json>, n: int) -> bool
    decreases b, 0nat, n,
{
    if n <= 0 || n > b.len() {
        true
    } else {
        items_match(a, b, n - 1) && structurally_equal(a[n - 1], b[n - 1])
    }
}

proof fn lemma_members_match_prefix(a: Seq<(Seq<char>, Json)>, b: Seq<(Seq<char>, Json)>, m: int, n: int)
    requires
        0 <= m <= n <= b.len(),
        members_match(a, b, n),
    ensures
        members_match(a, b, m),
    decreases n - m,
{
    if m < n {
        lemma_members_match_prefix(a, b, m, n - 1);
    }
}

proof fn lemma_items_match_prefix(a: Seq<Json>, b: Seq<Json>, m: int, n: int)
    requires
        0 <= m <= n <= b.len(),
        items_match(a, b, n),
    ensures
        items_match(a, b, m),
    decreases n - m,
{
    if m < n {
        lemma_items_match_prefix(a, b, m, n - 1);
    }
}

/// Structural equality of two documents (`structurally_equal`).
#[verifier::loop_isolation(false)]
pub fn values_deep_equal(l: &JsonValue, r: &JsonValue) -> (res: bool)
    ensures
        res == structurally_equal(l@, r@),
    decreases r,
{
    match (l, r) {
        (JsonValue::Object(a), JsonValue::Object(b)) => {
            let ghost am = entries_view(*a);
            let ghost bm = entries_view(*b);
            proof {
                lemma_entries_view(*a);
                lemma_entries_view(*b);
            }
            if a.len() != b.len() {
                return false;
            }
            let mut k: usize = 0;
            while k < b.len()
                invariant
                    k <= b.len(),
                    am == member_views(a@),
                    bm == member_views(b@),
                    members_match(am, bm, k as int),
                decreases b.len() - k,
            {
                proof {
                    broadcast use vstd::std_specs::vec::axiom_vec_index_decreases;

                    assert(decreases_to!(*r => b[k as int].1));
                    assert(bm[k as int] == (b@[k as int].0@, b@[k as int].1@));
                }
                match find_member(a, &b[k].0) {
                    Some(j) => {
                        proof {
                            crate::json::lemma_key_index(am, bm[k as int].0);
                            assert(am[j as int] == (a@[j as int].0@, a@[j as int].1@));
                        }
                        if !values_deep_equal(&a[j].1, &b[k].1) {
                            proof {
                                if members_match(am, bm, bm.len() as int) {
                                    lemma_members_match_prefix(am, bm, k + 1, bm.len() as int);
                                }
                            }
                            return false;
                        }
                    },
                    None => {
                        proof {
                            if members_match(am, bm, bm.len() as int) {
                                lemma_members_match_prefix(am, bm, k + 1, bm.len() as int);
                            }
                        }
                        return false;
                    },
                }
                k = k + 1;
            }
            true
        },
        (JsonValue::Array(a), JsonValue::Array(b)) => {
            let ghost av = items_view(*a);
            let ghost bv = items_view(*b);
            proof {
                lemma_items_view(*a);
                lemma_items_view(*b);
            }
            if a.len() != b.len() {
                return false;
            }
            let mut k: usize = 0;
            while k < b.len()
                invariant
                    k <= b.len(),
                    a.len() == b.len(),
                    av == views(a@),
                    bv == views(b@),
                    items_match(av, bv, k as int),
                decreases b.len() - k,
            {
                proof {
                    broadcast use vstd::std_specs::vec::axiom_vec_index_decreases;

                    assert(decreases_to!(*r => b[k as int]));
                }
                if !values_deep_equal(&a[k], &b[k]) {
                    proof {
                        if items_match(av, bv, bv.len() as int) {
                            lemma_items_match_prefix(av, bv, k + 1, bv.len() as int);
                        }
                    }
                    return false;
                }
                k = k + 1;
            }
            true
        },
        (JsonValue::Number(x), JsonValue::Number(y)) => numbers_equal(x, y),
        (JsonValue::Null, JsonValue::Null) => true,
        (JsonValue::Bool(x), JsonValue::Bool(y)) => *x == *y,
        (JsonValue::String(x), JsonValue::String(y)) => *x == *y,
        _ => false,
    }
}

// ---------------------------------------------------------------------------
// Identity values
// ---------------------------------------------------------------------------

/// Two identity values match: integers by value, strings by text, an integer
/// and a string when the string is the integer's decimal text, anything else
/// when the compact texts are equal.
pub open spec fn same_identity(l: Json, r: Json) -> bool {
    let texts_equal = write_json(l, false) == write_json(r, false);
    match (l, r) {
        (Json::Number(x), Json::Number(y)) => match (number_int(x), number_int(y)) {
            (Some(a), Some(b)) => a == b,
            _ => texts_equal,
        },
        (Json::String(x), Json::String(y)) => x == y,
        (Json::String(x), Json::Number(y)) => match number_int(y) {
            Some(b) => x == int_text(b),
            None => texts_equal,
        },
        (Json::Number(x), Json::String(y)) => match number_int(x) {
            Some(a) => int_text(a) == y,
            None => texts_equal,
        },
        _ => texts_equal,
    }
}

pub(crate) fn chars_equal(a: &Vec<char>, b: &Vec<char>) -> (r: bool)
    ensures
        r == (a@ == b@),
{
    match compare_chars(a, b) {
        Order::Equal => true,
        _ => false,
    }
}

/// Whether two identity values match (`same_identity`).
pub fn identity_values_equal(l: &JsonValue, r: &JsonValue) -> (res: bool)
    ensures
        res == same_identity(l@, r@),
{
    match (l, r) {
        (JsonValue::Number(x), JsonValue::Number(y)) => {
            match (number_integer(x), number_integer(y)) {
                (Some(a), Some(b)) => return a == b,
                _ => {},
            }
        },
        (JsonValue::String(x), JsonValue::String(y)) => {
            return *x == *y;
        },
        (JsonValue::String(x), JsonValue::Number(y)) => {
            match number_integer(y) {
                Some(b) => {
                    let t = integer_text(b);
                    return chars_equal(&chars_of(x.as_str()), &t);
                },
                None => {},
            }
        },
        (JsonValue::Number(x), JsonValue::String(y)) => {
            match number_integer(x) {
                Some(a) => {
                    let t = integer_text(a);
                    return chars_equal(&t, &chars_of(y.as_str()));
                },
                None => {},
            }
        },
        _ => {},
    }
    chars_equal(&compact_string(l), &compact_string(r))
}

// ---------------------------------------------------------------------------
// Timestamps
// ---------------------------------------------------------------------------

/// Order of two timestamp values: integers by value, other numbers as
/// doubles, strings as timestamp texts, an integer against a string through
/// the integer's decimal text; `None` for anything else.
pub open spec fn timestamp_order(b: Json, i: Json) -> Option<Order> {
    match (b, i) {
        (Json::Number(x), Json::Number(y)) => match (number_int(x), number_int(y)) {
            (Some(p), Some(q)) => Some(int_order(p, q)),
            _ => double_order(x, y),
        },
        (Json::String(x), Json::String(y)) => Some(timestamp_text_order(x, y)),
        (Json::Number(x), Json::String(y)) => match number_int(x) {
            Some(p) => Some(timestamp_text_order(int_text(p), y)),
            None => None,
        },
        (Json::String(x), Json::Number(y)) => match number_int(y) {
            Some(q) => Some(timestamp_text_order(x, int_text(q))),
            None => None,
        },
        _ => None,
    }
}

/// Compares two timestamp values (`timestamp_order`).
pub fn compare_timestamps(b: &JsonValue, i: &JsonValue) -> (r: Option<Order>)
    ensures
        r == timestamp_order(b@, i@),
{
    match (b, i) {
        (JsonValue::Number(x), JsonValue::Number(y)) => {
            match (number_integer(x), number_integer(y)) {
                (Some(p), Some(q)) => Some(
                    if p < q {
                        Order::Less
                    } else if p == q {
                        Order::Equal
                    } else {
                        Order::Greater
                    },
                ),
                _ => compare_as_doubles(x.as_str(), y.as_str()),
            }
        },
        (JsonValue::String(x), JsonValue::String(y)) => Some(
            compare_timestamp_chars(&chars_of(x.as_str()), &chars_of(y.as_str())),
        ),
        (JsonValue::Number(x), JsonValue::String(y)) => match number_integer(x) {
            Some(p) => Some(compare_timestamp_chars(&integer_text(p), &chars_of(y.as_str()))),
            None => None,
        },
        (JsonValue::String(x), JsonValue::Number(y)) => match number_integer(y) {
            Some(q) => Some(compare_timestamp_chars(&chars_of(x.as_str()), &integer_text(q))),
            None => None,
        },
        _ => None,
    }
}

// ---------------------------------------------------------------------------
// Selectors
// ---------------------------------------------------------------------------

/// Whether a selector is a JSON pointer (`#/` followed by the pointer).
pub open spec fn is_pointer(sel: Seq<char>) -> bool {
    sel.len() >= 2 && sel[0] == '#' && sel[1] == '/'
}

/// Follows the pointer segments from index `i` on, starting at `cur`:
/// object members by decoded name, array elements by decimal index without
/// leading zeros.
pub open spec fn walk_pointer(cur: Json, segs: Seq<Seq<char>>, i: int) -> Option<Json>
    decreases segs.len() - i,
{
    if i < 0 || i >= segs.len() {
        Some(cur)
    } else {
        match decode_segment(segs[i]) {
            None => None,
            Some(seg) => match cur {
                Json::Object(o) => match lookup(o, seg) {
                    Some(next) => walk_pointer(next, segs, i + 1),
                    None => None,
                },
                Json::Array(a) => if seg.len() > 1 && seg[0] == '0' {
                    None
                } else {
                    match index_value(seg) {
                        Some(k) => if k < a.len() {
                            walk_pointer(a[k as int], segs, i + 1)
                        } else {
                            None
                        },
                        None => None,
                    }
                },
                _ => None,
            },
        }
    }
}

/// The value a selector names in an object: a JSON pointer (`#/a/0/b`)
/// walked from the object, or else the member of that name.
pub open spec fn resolve_selector(obj: Seq<(Seq<char>, Json)>, sel: Seq<char>) -> Option<Json> {
    if is_pointer(sel) {
        let segs = split_at_char(sel.skip(2), '/');
        match decode_segment(segs[0]) {
            None => None,
            Some(first) => match lookup(obj, first) {
                Some(cur) => walk_pointer(cur, segs, 1),
                None => None,
            },
        }
    } else {
        lookup(obj, sel)
    }
}

pub(crate) fn member_named<'a>(object: &'a Vec<(String, JsonValue)>, name: &Vec<char>) -> (r: Option<&'a JsonValue>)
    ensures
        r matches Some(v) ==> lookup(member_views(object@), name@) == Some(v@),
        r is None ==> lookup(member_views(object@), name@) is None,
{
    let key = string_from_chars(name.as_slice());
    match find_member(object, &key) {
        Some(j) => {
            proof {
                crate::json::lemma_key_index(member_views(object@), key@);
                assert(member_views(object@)[j as int] == (object@[j as int].0@, object@[j as int].1@));
            }
            Some(&object[j].1)
        },
        None => None,
    }
}

/// Resolves a selector in an object (`resolve_selector`).
pub fn resolve_selector_in<'a>(object: &'a Vec<(String, JsonValue)>, selector: &Vec<char>) -> (r:
    Option<&'a JsonValue>)
    ensures
        r matches Some(v) ==> resolve_selector(member_views(object@), selector@) == Some(v@),
        r is None ==> resolve_selector(member_views(object@), selector@) is None,
{
    if !(selector.len() >= 2 && selector[0] == '#' && selector[1] == '/') {
        return member_named(object, selector);
    }
    let mut pointer: Vec<char> = Vec::new();
    let mut p: usize = 2;
    while p < selector.len()
        invariant
            2 <= p <= selector.len(),
            pointer@ == selector@.subrange(2, p as int),
        decreases selector.len() - p,
    {
        pointer.push(selector[p]);
        p = p + 1;
    }
    proof {
        assert(pointer@ =~= selector@.skip(2));
    }
    let segments = split_chars(&pointer, '/');
    let ghost segs = char_seqs(segments@);
    proof {
        lemma_split_nonempty(pointer@, '/');
        assert(segs[0] == segments@[0]@);
    }
    let first = match decode_pointer_segment(&segments[0]) {
        Some(f) => f,
        None => {
            return None;
        },
    };
    let mut current: &JsonValue = match member_named(object, &first) {
        Some(v) => v,
        None => {
            return None;
        },
    };
    let mut i: usize = 1;
    while i < segments.len()
        invariant
            1 <= i <= segments.len(),
            segs == char_seqs(segments@),
            resolve_selector(member_views(object@), selector@) == walk_pointer(current@, segs, i as int),
        decreases segments.len() - i,
    {
        proof {
            assert(segs[i as int] == segments@[i as int]@);
        }
        let seg = match decode_pointer_segment(&segments[i]) {
            Some(d) => d,
            None => {
                return None;
            },
        };
        match current {
            JsonValue::Object(o) => {
                proof {
                    lemma_entries_view(*o);
                }
                match member_named(o, &seg) {
                    Some(next) => {
                        current = next;
                    },
                    None => {
                        return None;
                    },
                }
            },
            JsonValue::Array(a) => {
                proof {
                    lemma_items_view(*a);
                }
                if seg.len() > 1 && seg[0] == '0' {
                    return None;
                }
                match parse_index(&seg) {
                    Some(k) => {
                        if k < a.len() {
                            current = &a[k];
                        } else {
                            return None;
                        }
                    },
                    None => {
                        return None;
                    },
                }
            },
            _ => {
                return None;
            },
        }
        i = i + 1;
    }
    Some(current)
}

/// One selector vetoes: both objects resolve it, their values are ordered,
/// and the base is newer (last write wins) or older (first write wins).
pub open spec fn selector_rejects(
    b: Seq<(Seq<char>, Json)>,
    i: Seq<(Seq<char>, Json)>,
    sel: Seq<char>,
    first_write_wins: bool,
) -> bool {
    match (resolve_selector(b, sel), resolve_selector(i, sel)) {
        (Some(x), Some(y)) => match timestamp_order(x, y) {
            Some(o) => if first_write_wins {
                o == Order::Less
            } else {
                o == Order::Greater
            },
            None => false,
        },
        _ => false,
    }
}

/// Some selector of the comma-separated list vetoes.
pub open spec fn selectors_reject(
    b: Seq<(Seq<char>, Json)>,
    i: Seq<(Seq<char>, Json)>,
    list: Seq<char>,
    first_write_wins: bool,
) -> bool {
    exists|k: int|
        0 <= k < comma_separated(list).len() && #[trigger] selector_rejects(
            b,
            i,
            comma_separated(list)[k],
            first_write_wins,
        )
}

/// Whether some selector of the list vetoes (`selectors_reject`).
pub fn selectors_veto(
    b: &Vec<(String, JsonValue)>,
    i: &Vec<(String, JsonValue)>,
    list: &Vec<char>,
    first_write_wins: bool,
) -> (r: bool)
    ensures
        r == selectors_reject(member_views(b@), member_views(i@), list@, first_write_wins),
{
    let selectors = split_selectors(list);
    let ghost sels = comma_separated(list@);
    let mut k: usize = 0;
    while k < selectors.len()
        invariant
            k <= selectors.len(),
            sels == comma_separated(list@),
            char_seqs(selectors@) == sels,
            forall|j: int|
                0 <= j < k ==> !#[trigger] selector_rejects(
                    member_views(b@),
                    member_views(i@),
                    sels[j],
                    first_write_wins,
                ),
        decreases selectors.len() - k,
    {
        proof {
            assert(sels[k as int] == selectors@[k as int]@);
        }
        let veto = match (resolve_selector_in(b, &selectors[k]), resolve_selector_in(i, &selectors[k])) {
            (Some(x), Some(y)) => match compare_timestamps(x, y) {
                Some(Order::Less) => first_write_wins,
                Some(Order::Greater) => !first_write_wins,
                _ => false,
            },
            _ => false,
        };
        if veto {
            proof {
                assert(selector_rejects(member_views(b@), member_views(i@), sels[k as int], first_write_wins));
            }
            return true;
        }
        k = k + 1;
    }
    false
}

} // verus!
