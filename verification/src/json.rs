//! The JSON document tree that reconciliation works on, and its model.
use vstd::prelude::*;

verus! {

/// A JSON document. Numbers keep the text of their shortest rendering;
/// objects keep their members in order.
#[derive(Debug, PartialEq, Eq)]
pub enum JsonValue {
    Null,
    Bool(bool),
    Number(String),
    String(String),
    Array(Vec<JsonValue>),
    Object(Vec<(String, JsonValue)>),
}

/// The mathematical model of a JSON document.
pub enum Json {
    Null,
    Bool(bool),
    Number(Seq<char>),
    String(Seq<char>),
    Array(Seq<Json>),
    Object(Seq<(Seq<char>, Json)>),
}

/// The model of a document.
pub open spec fn json_view(v: JsonValue) -> Json
    decreases v, 1nat,
{
    match v {
        JsonValue::Null => Json::Null,
        JsonValue::Bool(b) => Json::Bool(b),
        JsonValue::Number(n) => Json::Number(n@),
        JsonValue::String(s) => Json::String(s@),
        JsonValue::Array(items) => Json::Array(items_view(items)),
        JsonValue::Object(entries) => Json::Object(entries_view(entries)),
    }
}

/// The models of a list of documents.
pub open spec fn items_view(items: Vec<JsonValue>) -> Seq<Json>
    decreases items, 0nat,
{
    Seq::new(
        items.len() as nat,
        |i: int|
            if 0 <= i < items.len() {
                proof {
                    broadcast use vstd::std_specs::vec::axiom_vec_index_decreases;

                }
                json_view(items[i])
            } else {
                Json::Null
            },
    )
}

/// The models of a list of object members.
pub open spec fn entries_view(entries: Vec<(String, JsonValue)>) -> Seq<(Seq<char>, Json)>
    decreases entries, 0nat,
{
    Seq::new(
        entries.len() as nat,
        |i: int|
            if 0 <= i < entries.len() {
                proof {
                    broadcast use vstd::std_specs::vec::axiom_vec_index_decreases;

                }
                (entries[i].0@, json_view(entries[i].1))
            } else {
                (Seq::empty(), Json::Null)
            },
    )
}

impl View for JsonValue {
    type V = Json;

    open spec fn view(&self) -> Json {
        json_view(*self)
    }
}

/// Models of a sequence of documents.
pub open spec fn views(s: Seq<JsonValue>) -> Seq<Json> {
    Seq::new(s.len(), |i: int| s[i]@)
}

/// Models of a sequence of object members.
pub open spec fn member_views(s: Seq<(String, JsonValue)>) -> Seq<(Seq<char>, Json)> {
    Seq::new(s.len(), |i: int| (s[i].0@, s[i].1@))
}

pub proof fn lemma_items_view(items: Vec<JsonValue>)
    ensures
        items_view(items) == views(items@),
{
    assert(items_view(items) =~= views(items@));
}

pub proof fn lemma_entries_view(entries: Vec<(String, JsonValue)>)
    ensures
        entries_view(entries) == member_views(entries@),
{
    assert(entries_view(entries) =~= member_views(entries@));
}

/// An exact copy of a document.
#[verifier::loop_isolation(false)]
pub fn copy_json(v: &JsonValue) -> (r: JsonValue)
    ensures
        r@ == v@,
    decreases v,
{
    match v {
        JsonValue::Null => JsonValue::Null,
        JsonValue::Bool(b) => JsonValue::Bool(*b),
        JsonValue::Number(n) => JsonValue::Number(n.clone()),
        JsonValue::String(s) => JsonValue::String(s.clone()),
        JsonValue::Array(items) => {
            let mut out: Vec<JsonValue> = Vec::new();
            let mut i: usize = 0;
            while i < items.len()
                invariant
                    i <= items.len(),
                    views(out@) == views(items@).subrange(0, i as int),
                decreases items.len() - i,
            {
                proof {
                    broadcast use vstd::std_specs::vec::axiom_vec_index_decreases;

                    assert(decreases_to!(*v => items[i as int]));
                }
                let c = copy_json(&items[i]);
                out.push(c);
                proof {
                    assert(views(out@) =~= views(items@).subrange(0, i + 1));
                }
                i = i + 1;
            }
            proof {
                lemma_items_view(out);
                lemma_items_view(*items);
                assert(views(items@).subrange(0, i as int) =~= views(items@));
            }
            JsonValue::Array(out)
        },
        JsonValue::Object(entries) => {
            let mut out: Vec<(String, JsonValue)> = Vec::new();
            let mut i: usize = 0;
            while i < entries.len()
                invariant
                    i <= entries.len(),
                    member_views(out@) == member_views(entries@).subrange(0, i as int),
                decreases entries.len() - i,
            {
                proof {
                    broadcast use vstd::std_specs::vec::axiom_vec_index_decreases;

                    assert(decreases_to!(*v => entries[i as int].1));
                }
                let c = copy_json(&entries[i].1);
                let k = entries[i].0.clone();
                out.push((k, c));
                proof {
                    assert(member_views(out@) =~= member_views(entries@).subrange(0, i + 1));
                }
                i = i + 1;
            }
            proof {
                lemma_entries_view(out);
                lemma_entries_view(*entries);
                assert(member_views(entries@).subrange(0, i as int) =~= member_views(entries@));
            }
            JsonValue::Object(out)
        },
    }
}

impl Clone for JsonValue {
    fn clone(&self) -> (r: Self)
        ensures
            r@ == self@,
    {
        copy_json(self)
    }
}

/// Position of the first member named `k`.
pub open spec fn key_index(e: Seq<(Seq<char>, Json)>, k: Seq<char>) -> Option<int>
    decreases e.len(),
{
    if e.len() == 0 {
        None
    } else {
        match key_index(e.drop_last(), k) {
            Some(i) => Some(i),
            None => if e.last().0 == k {
                Some(e.len() - 1)
            } else {
                None
            },
        }
    }
}

pub proof fn lemma_key_index(e: Seq<(Seq<char>, Json)>, k: Seq<char>)
    ensures
        key_index(e, k) matches Some(i) ==> 0 <= i < e.len() && e[i].0 == k && forall|j: int|
            0 <= j < i ==> #[trigger] e[j].0 != k,
        key_index(e, k) is None ==> forall|j: int| 0 <= j < e.len() ==> #[trigger] e[j].0 != k,
    decreases e.len(),
{
    if e.len() > 0 {
        lemma_key_index(e.drop_last(), k);
        assert forall|j: int| 0 <= j < e.len() - 1 implies #[trigger] e[j] == e.drop_last()[j] by {}
    }
}

/// Value of the first member named `k`.
pub open spec fn lookup(e: Seq<(Seq<char>, Json)>, k: Seq<char>) -> Option<Json> {
    match key_index(e, k) {
        Some(i) => Some(e[i].1),
        None => None,
    }
}

/// Finds the first member named `key`.
pub fn find_member(entries: &Vec<(String, JsonValue)>, key: &String) -> (r: Option<usize>)
    ensures
        r matches Some(i) ==> key_index(member_views(entries@), key@) == Some(i as int),
        r is None ==> key_index(member_views(entries@), key@) is None,
{
    let ghost m = member_views(entries@);
    let mut i: usize = 0;
    while i < entries.len()
        invariant
            i <= entries.len(),
            m == member_views(entries@),
            forall|j: int| 0 <= j < i ==> #[trigger] m[j].0 != key@,
        decreases entries.len() - i,
    {
        if entries[i].0 == *key {
            proof {
                assert(m[i as int].0 == key@);
                lemma_key_index(m, key@);
            }
            return Some(i);
        }
        i = i + 1;
    }
    proof {
        lemma_key_index(m, key@);
        if let Some(x) = key_index(m, key@) {
            assert(m[x].0 == key@);
        }
    }
    None
}

} // verus!
