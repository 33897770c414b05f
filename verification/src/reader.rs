//! Reading compact JSON text back into a document.
//!
//! The reader accepts what the compact writer produces: it is proved to give
//! back the very document whose text it reads.
use vstd::prelude::*;

use crate::compact::{
    escape_char, escaped, hex_digit, items_text, member_text, members_text, numbers_ok,
    string_text, write_json,
};
use crate::json::{lemma_entries_view, lemma_items_view, member_views, views, Json, JsonValue};
use crate::numtext::{
    exponent_digits, find_char, lemma_find_char, number_ok, unsigned_part,
};
use crate::scalar::{all_digits, is_digit};
use crate::text::string_from_chars;

verus! {

// ---------------------------------------------------------------------------
// Positions in a text
// ---------------------------------------------------------------------------

/// `t` stands in `s` at position `pos`.
pub open spec fn text_at(s: Seq<char>, pos: int, t: Seq<char>) -> bool {
    0 <= pos && pos + t.len() <= s.len() && s.subrange(pos, pos + t.len()) == t
}

/// Position `e` ends a value: the end of the text, or a separator or a
/// closing bracket follows.
pub open spec fn closes_value(s: Seq<char>, e: int) -> bool {
    e == s.len() || (0 <= e < s.len() && (s[e] == ',' || s[e] == ']' || s[e] == '}'))
}

/// The compact text of `v` stands in `s` at `pos`, and ends a value there.
pub open spec fn value_at(s: Seq<char>, pos: int, v: Json) -> bool {
    numbers_ok(v) && text_at(s, pos, write_json(v, false)) && closes_value(
        s,
        pos + write_json(v, false).len(),
    )
}

/// A character that can occur in a number text.
pub open spec fn is_number_char(c: char) -> bool {
    is_digit(c) || c == '-' || c == '+' || c == '.' || c == 'e' || c == 'E'
}

proof fn lemma_text_at_concat(s: Seq<char>, pos: int, a: Seq<char>, b: Seq<char>)
    requires
        text_at(s, pos, a + b),
    ensures
        text_at(s, pos, a),
        text_at(s, pos + a.len(), b),
{
    let whole = s.subrange(pos, pos + a.len() + b.len());
    assert(whole == a + b);
    assert(s.subrange(pos, pos + a.len()) =~= whole.subrange(0, a.len() as int));
    assert(whole.subrange(0, a.len() as int) =~= a);
    assert(s.subrange(pos + a.len(), pos + a.len() + b.len()) =~= whole.subrange(
        a.len() as int,
        whole.len() as int,
    ));
    assert(whole.subrange(a.len() as int, whole.len() as int) =~= b);
}

proof fn lemma_text_at_char(s: Seq<char>, pos: int, t: Seq<char>, i: int)
    requires
        text_at(s, pos, t),
        0 <= i < t.len(),
    ensures
        s[pos + i] == t[i],
{
    assert(s.subrange(pos, pos + t.len())[i] == s[pos + i]);
}

proof fn lemma_text_at_prefix(s: Seq<char>, pos: int, t: Seq<char>, n: int)
    requires
        text_at(s, pos, t),
        0 <= n <= t.len(),
    ensures
        text_at(s, pos, t.subrange(0, n)),
{
    assert(s.subrange(pos, pos + n) =~= t.subrange(0, n));
}

// ---------------------------------------------------------------------------
// Facts about the writer
// ---------------------------------------------------------------------------

proof fn lemma_number_chars(n: Seq<char>)
    requires
        number_ok(n),
    ensures
        n.len() > 0,
        n[0] == '-' || is_digit(n[0]),
        forall|j: int| 0 <= j < n.len() ==> is_number_char(#[trigger] n[j]),
{
    let body = unsigned_part(n);
    let e = find_char(body, 'e', 'E');
    lemma_find_char(body, 'e', 'E');
    let mant = body.subrange(0, e);
    let dot = find_char(mant, '.', '.');
    lemma_find_char(mant, '.', '.');
    let ip = mant.subrange(0, dot);
    let off: int = if n.len() > 0 && n[0] == '-' {
        1
    } else {
        0
    };
    assert(body =~= n.subrange(off, n.len() as int));
    assert(ip[0] == n[off]);
    assert forall|j: int| 0 <= j < n.len() implies is_number_char(#[trigger] n[j]) by {
        if j >= off {
            let b = j - off;
            assert(body[b] == n[j]);
            if b < dot {
                assert(ip[b] == body[b]);
            } else if b == dot && dot < mant.len() {
                assert(mant[b] == body[b]);
            } else if b < e {
                assert(mant.skip(dot + 1)[b - dot - 1] == body[b]);
            } else if b == e {
            } else {
                let es = body.skip(e + 1);
                assert(es[b - e - 1] == body[b]);
                if es.len() > 0 && (es[0] == '+' || es[0] == '-') {
                    if b - e - 1 > 0 {
                        assert(exponent_digits(es)[b - e - 2] == es[b - e - 1]);
                    }
                } else {
                    assert(exponent_digits(es)[b - e - 1] == es[b - e - 1]);
                }
            }
        }
    }
}

/// The first character of a compact text tells the kind of document.
proof fn lemma_first_char(v: Json)
    requires
        numbers_ok(v),
    ensures
        write_json(v, false).len() > 0,
        write_json(v, false)[0] == 'n' <==> v is Null,
        write_json(v, false)[0] == 't' <==> v == Json::Bool(true),
        write_json(v, false)[0] == 'f' <==> v == Json::Bool(false),
        write_json(v, false)[0] == '"' <==> v is String,
        write_json(v, false)[0] == '[' <==> v is Array,
        write_json(v, false)[0] == '{' <==> v is Object,
        v is Number <==> (write_json(v, false)[0] == '-' || is_digit(write_json(v, false)[0])),
{
    match v {
        Json::Number(n) => {
            lemma_number_chars(n);
        },
        _ => {},
    }
}

proof fn lemma_items_prefix(a: Seq<Json>, m: int, n: int)
    requires
        0 <= m <= n <= a.len(),
    ensures
        items_text(a, m, false).len() <= items_text(a, n, false).len(),
        items_text(a, n, false).subrange(0, items_text(a, m, false).len() as int) == items_text(
            a,
            m,
            false,
        ),
    decreases n - m,
{
    if m < n {
        lemma_items_prefix(a, m, n - 1);
        let p = items_text(a, n - 1, false);
        let q = items_text(a, n, false);
        let r = items_text(a, m, false);
        if n - 1 == 0 {
            assert(r.len() == 0);
            assert(q.subrange(0, 0) =~= r);
        } else {
            assert(q == p + seq![','] + write_json(a[n - 1], false));
            assert(q.subrange(0, r.len() as int) =~= p.subrange(0, r.len() as int));
        }
    } else {
        assert(items_text(a, n, false).subrange(0, items_text(a, n, false).len() as int)
            =~= items_text(a, n, false));
    }
}

proof fn lemma_members_prefix(o: Seq<(Seq<char>, Json)>, m: int, n: int)
    requires
        0 <= m <= n <= o.len(),
    ensures
        members_text(o, m, false).len() <= members_text(o, n, false).len(),
        members_text(o, n, false).subrange(0, members_text(o, m, false).len() as int)
            == members_text(o, m, false),
    decreases n - m,
{
    if m < n {
        lemma_members_prefix(o, m, n - 1);
        let p = members_text(o, n - 1, false);
        let q = members_text(o, n, false);
        let r = members_text(o, m, false);
        if n - 1 == 0 {
            assert(r.len() == 0);
            assert(q.subrange(0, 0) =~= r);
        } else {
            assert(q == p + seq![','] + member_text(o[n - 1], false));
            assert(q.subrange(0, r.len() as int) =~= p.subrange(0, r.len() as int));
        }
    } else {
        assert(members_text(o, n, false).subrange(0, members_text(o, n, false).len() as int)
            =~= members_text(o, n, false));
    }
}

proof fn lemma_escaped_prefix(t: Seq<char>, m: int)
    requires
        0 <= m <= t.len(),
    ensures
        escaped(t.subrange(0, m)).len() <= escaped(t).len(),
        escaped(t).subrange(0, escaped(t.subrange(0, m)).len() as int) == escaped(t.subrange(0, m)),
    decreases t.len() - m,
{
    if m < t.len() {
        lemma_escaped_prefix(t.drop_last(), m);
        assert(t.drop_last().subrange(0, m) =~= t.subrange(0, m));
        let p = escaped(t.drop_last());
        let r = escaped(t.subrange(0, m));
        assert(escaped(t) == p + escape_char(t.last()));
        assert(escaped(t).subrange(0, r.len() as int) =~= p.subrange(0, r.len() as int));
    } else {
        assert(t.subrange(0, m) =~= t);
        assert(escaped(t).subrange(0, escaped(t).len() as int) =~= escaped(t));
    }
}

proof fn lemma_numbers_ok_item(a: Seq<Json>, k: int)
    requires
        numbers_ok(Json::Array(a)),
        0 <= k < a.len(),
    ensures
        numbers_ok(a[k]),
{
    reveal_with_fuel(numbers_ok, 2);
    let v = Json::Array(a);
    assert(v matches Json::Array(b) && b == a);
    assert(numbers_ok(v) == (forall|i: int| 0 <= i < a.len() ==> numbers_ok(#[trigger] a[i])));
}

proof fn lemma_numbers_ok_member(o: Seq<(Seq<char>, Json)>, k: int)
    requires
        numbers_ok(Json::Object(o)),
        0 <= k < o.len(),
    ensures
        numbers_ok(o[k].1),
{
    reveal_with_fuel(numbers_ok, 2);
    let v = Json::Object(o);
    assert(v matches Json::Object(b) && b == o);
    assert(numbers_ok(v) == (forall|i: int| 0 <= i < o.len() ==> numbers_ok(#[trigger] o[i].1)));
}

proof fn lemma_member_text_shape(m: (Seq<char>, Json))
    ensures
        member_text(m, false) == string_text(m.0) + seq![':'] + write_json(m.1, false),
        member_text(m, false)[0] == '"',
{
}

// ---------------------------------------------------------------------------
// The reader
// ---------------------------------------------------------------------------

fn hex_value(c: char) -> (r: u32)
    ensures
        forall|d: nat| d < 16 && hex_digit(d) == c ==> r == d,
{
    if '0' <= c && c <= '9' {
        (c as u32) - ('0' as u32)
    } else if 'a' <= c && c <= 'f' {
        (c as u32) - ('a' as u32) + 10
    } else {
        0
    }
}

fn control_char(v: u32) -> (c: char)
    requires
        v < 0x20,
    ensures
        c as u32 == v,
{
    (v as u8) as char
}

/// Reads the escape of one character at `q`.
fn read_unit(s: &Vec<char>, q: usize, Ghost(c): Ghost<char>) -> (r: (char, usize))
    requires
        text_at(s@, q as int, escape_char(c)),
    ensures
        r.0 == c,
        r.1 == q + escape_char(c).len(),
{
    let len = s.len();
    let ghost e = escape_char(c);
    assert(e.len() >= 1);
    proof {
        lemma_text_at_char(s@, q as int, e, 0);
    }
    if s[q] != '\\' {
        return (s[q], q + 1);
    }
    proof {
        lemma_text_at_char(s@, q as int, e, 1);
    }
    let k = s[q + 1];
    if k == 'u' {
        proof {
            lemma_text_at_char(s@, q as int, e, 4);
            lemma_text_at_char(s@, q as int, e, 5);
        }
        let hi = hex_value(s[q + 4]);
        let lo = hex_value(s[q + 5]);
        proof {
            assert(hi == (c as u32) / 16);
            assert(lo == (c as u32) % 16);
        }
        (control_char(hi * 16 + lo), q + 6)
    } else if k == 'b' {
        ('\u{8}', q + 2)
    } else if k == 't' {
        ('\t', q + 2)
    } else if k == 'n' {
        ('\n', q + 2)
    } else if k == 'f' {
        ('\u{c}', q + 2)
    } else if k == 'r' {
        ('\r', q + 2)
    } else {
        (k, q + 2)
    }
}

/// Reads the string whose quoted text stands at `pos`.
fn read_string(s: &Vec<char>, pos: usize, Ghost(t): Ghost<Seq<char>>) -> (r: (String, usize))
    requires
        text_at(s@, pos as int, string_text(t)),
    ensures
        r.0@ == t,
        r.1 == pos + string_text(t).len(),
{
    let len = s.len();
    let ghost body = escaped(t);
    proof {
        lemma_text_at_concat(s@, pos as int, seq!['"'] + body, seq!['"']);
        lemma_text_at_concat(s@, pos as int, seq!['"'], body);
        lemma_text_at_char(s@, pos + 1 + body.len(), seq!['"'], 0);
    }
    let mut out: Vec<char> = Vec::new();
    let mut q: usize = pos + 1;
    let ghost mut k: int = 0;
    proof {
        assert(t.subrange(0, 0) =~= Seq::<char>::empty());
    }
    while s[q] != '"'
        invariant
            0 <= k <= t.len(),
            body == escaped(t),
            text_at(s@, pos + 1, body),
            s@[pos + 1 + body.len()] == '"',
            pos + 1 + body.len() < s.len(),
            len == s.len(),
            q <= pos + 1 + body.len(),
            q == pos + 1 + escaped(t.subrange(0, k)).len(),
            out@ == t.subrange(0, k),
        decreases s.len() - q,
    {
        proof {
            lemma_escaped_prefix(t, k);
            if k == t.len() {
                assert(t.subrange(0, k) =~= t);
            }
            assert(k < t.len());
            lemma_escaped_prefix(t, k + 1);
            let p = escaped(t.subrange(0, k));
            assert(t.subrange(0, k + 1).drop_last() =~= t.subrange(0, k));
            let p1 = escaped(t.subrange(0, k + 1));
            assert(p1 == p + escape_char(t[k]));
            lemma_text_at_prefix(s@, pos + 1, body, p1.len() as int);
            lemma_text_at_concat(s@, pos + 1, p, escape_char(t[k]));
        }
        let (c, next) = read_unit(s, q, Ghost(t[k]));
        out.push(c);
        q = next;
        proof {
            assert(out@ =~= t.subrange(0, k + 1));
            k = k + 1;
        }
    }
    proof {
        lemma_escaped_prefix(t, k);
        if k < t.len() {
            lemma_escaped_prefix(t, k + 1);
            let p = escaped(t.subrange(0, k));
            assert(t.subrange(0, k + 1).drop_last() =~= t.subrange(0, k));
            let p1 = escaped(t.subrange(0, k + 1));
            lemma_text_at_prefix(s@, pos + 1, body, p1.len() as int);
            lemma_text_at_concat(s@, pos + 1, p, escape_char(t[k]));
            lemma_text_at_char(s@, q as int, escape_char(t[k]), 0);
        }
        assert(t.subrange(0, k) =~= t);
    }
    let text = string_from_chars(out.as_slice());
    (text, q + 1)
}

/// Reads the document whose compact text stands at `pos`.
fn read_value(s: &Vec<char>, pos: usize, Ghost(v): Ghost<Json>) -> (r: (JsonValue, usize))
    requires
        value_at(s@, pos as int, v),
    ensures
        r.0@ == v,
        r.1 == pos + write_json(v, false).len(),
    decreases s.len() - pos, 1nat,
{
    let ghost w = write_json(v, false);
    proof {
        lemma_first_char(v);
        lemma_text_at_char(s@, pos as int, w, 0);
    }
    let c = s[pos];
    if c == 'n' {
        (JsonValue::Null, pos + 4)
    } else if c == 't' {
        (JsonValue::Bool(true), pos + 4)
    } else if c == 'f' {
        (JsonValue::Bool(false), pos + 5)
    } else if c == '"' {
        let (text, end) = read_string(s, pos, Ghost(v->String_0));
        (JsonValue::String(text), end)
    } else if c == '[' {
        let (items, end) = read_array(s, pos, Ghost(v->Array_0));
        proof {
            lemma_items_view(items);
        }
        (JsonValue::Array(items), end)
    } else if c == '{' {
        let (members, end) = read_object(s, pos, Ghost(v->Object_0));
        proof {
            lemma_entries_view(members);
        }
        (JsonValue::Object(members), end)
    } else {
        let ghost n = v->Number_0;
        proof {
            lemma_number_chars(n);
        }
        let mut out: Vec<char> = Vec::new();
        let mut q: usize = pos;
        while q < s.len() && (('0' <= s[q] && s[q] <= '9') || s[q] == '-' || s[q] == '+' || s[q]
            == '.' || s[q] == 'e' || s[q] == 'E')
            invariant
                pos <= q <= pos + n.len(),
                text_at(s@, pos as int, n),
                closes_value(s@, pos + n.len()),
                forall|j: int| 0 <= j < n.len() ==> is_number_char(#[trigger] n[j]),
                out@ == n.subrange(0, q - pos),
            decreases s.len() - q,
        {
            proof {
                if q == pos + n.len() {
                    assert(s@[q as int] == ',' || s@[q as int] == ']' || s@[q as int] == '}');
                }
                lemma_text_at_char(s@, pos as int, n, q - pos);
            }
            out.push(s[q]);
            q = q + 1;
            proof {
                assert(out@ =~= n.subrange(0, q - pos));
            }
        }
        proof {
            if q < pos + n.len() {
                lemma_text_at_char(s@, pos as int, n, q - pos);
                assert(is_number_char(n[q - pos]));
            }
            assert(n.subrange(0, n.len() as int) =~= n);
        }
        (JsonValue::Number(string_from_chars(out.as_slice())), q)
    }
}

/// Reads the array whose compact text stands at `pos`.
fn read_array(s: &Vec<char>, pos: usize, Ghost(a): Ghost<Seq<Json>>) -> (r: (Vec<JsonValue>, usize))
    requires
        value_at(s@, pos as int, Json::Array(a)),
    ensures
        views(r.0@) == a,
        r.1 == pos + write_json(Json::Array(a), false).len(),
    decreases s.len() - pos, 0nat,
{
    let ghost body = items_text(a, a.len() as int, false);
    proof {
        lemma_text_at_concat(s@, pos as int, seq!['['] + body, seq![']']);
        lemma_text_at_concat(s@, pos as int, seq!['['], body);
        lemma_text_at_char(s@, pos + 1 + body.len(), seq![']'], 0);
    }
    let mut items: Vec<JsonValue> = Vec::new();
    if s[pos + 1] == ']' {
        proof {
            if a.len() > 0 {
                lemma_items_prefix(a, 1, a.len() as int);
                lemma_first_char(a[0]);
                lemma_text_at_prefix(s@, pos + 1, body, items_text(a, 1, false).len() as int);
                lemma_text_at_char(s@, pos + 1, items_text(a, 1, false), 0);
            }
            assert(views(items@) =~= a);
        }
        return (items, pos + 2);
    }
    proof {
        if a.len() == 0 {
            lemma_text_at_char(s@, pos as int, write_json(Json::Array(a), false), 1);
        }
    }
    let mut q: usize = pos + 1;
    let ghost mut k: int = 0;
    loop
        invariant
            0 <= k < a.len(),
            body == items_text(a, a.len() as int, false),
            text_at(s@, pos + 1, body),
            s@[pos + 1 + body.len()] == ']',
            pos + 1 + body.len() < s.len(),
            numbers_ok(Json::Array(a)),
            q == pos + 1 + items_text(a, k, false).len() + if k > 0 {
                1int
            } else {
                0int
            },
            views(items@) == a.subrange(0, k),
        decreases s.len() - q,
    {
        let ghost here = q;
        proof {
            lemma_items_prefix(a, k + 1, a.len() as int);
            let p = items_text(a, k, false);
            let p1 = items_text(a, k + 1, false);
            let sep = if k > 0 {
                seq![',']
            } else {
                Seq::<char>::empty()
            };
            assert(p1 == p + sep + write_json(a[k], false));
            lemma_text_at_prefix(s@, pos + 1, body, p1.len() as int);
            lemma_text_at_concat(s@, pos + 1, p + sep, write_json(a[k], false));
            lemma_numbers_ok_item(a, k);
            if k + 1 < a.len() {
                lemma_items_prefix(a, k + 2, a.len() as int);
                let p2 = items_text(a, k + 2, false);
                assert(p2 == p1 + seq![','] + write_json(a[k + 1], false));
                lemma_text_at_prefix(s@, pos + 1, body, p2.len() as int);
                lemma_text_at_char(s@, pos + 1, p2, p1.len() as int);
            } else {
                assert(p1 == body);
            }
        }
        let (x, e) = read_value(s, q, Ghost(a[k]));
        let ghost before = views(items@);
        items.push(x);
        proof {
            assert(views(items@) =~= before.push(x@));
            assert(views(items@) =~= a.subrange(0, k + 1));
        }
        if s[e] == ',' {
            q = e + 1;
            proof {
                k = k + 1;
            }
        } else {
            proof {
                assert(k + 1 == a.len());
                assert(a.subrange(0, k + 1) =~= a);
            }
            return (items, e + 1);
        }
    }
}

/// Reads the object whose compact text stands at `pos`.
fn read_object(s: &Vec<char>, pos: usize, Ghost(o): Ghost<Seq<(Seq<char>, Json)>>) -> (r: (
    Vec<(String, JsonValue)>,
    usize,
))
    requires
        value_at(s@, pos as int, Json::Object(o)),
    ensures
        member_views(r.0@) == o,
        r.1 == pos + write_json(Json::Object(o), false).len(),
    decreases s.len() - pos, 0nat,
{
    let ghost body = members_text(o, o.len() as int, false);
    proof {
        lemma_text_at_concat(s@, pos as int, seq!['{'] + body, seq!['}']);
        lemma_text_at_concat(s@, pos as int, seq!['{'], body);
        lemma_text_at_char(s@, pos + 1 + body.len(), seq!['}'], 0);
    }
    let mut members: Vec<(String, JsonValue)> = Vec::new();
    if s[pos + 1] == '}' {
        proof {
            if o.len() > 0 {
                lemma_members_prefix(o, 1, o.len() as int);
                let first = members_text(o, 1, false);
                lemma_member_text_shape(o[0]);
                assert(first == member_text(o[0], false));
                assert(first[0] == '"');
                lemma_text_at_prefix(s@, pos + 1, body, first.len() as int);
                lemma_text_at_char(s@, pos + 1, first, 0);
            }
            assert(member_views(members@) =~= o);
        }
        return (members, pos + 2);
    }
    proof {
        if o.len() == 0 {
            lemma_text_at_char(s@, pos as int, write_json(Json::Object(o), false), 1);
        }
    }
    let mut q: usize = pos + 1;
    let ghost mut k: int = 0;
    loop
        invariant
            0 <= k < o.len(),
            body == members_text(o, o.len() as int, false),
            text_at(s@, pos + 1, body),
            s@[pos + 1 + body.len()] == '}',
            pos + 1 + body.len() < s.len(),
            numbers_ok(Json::Object(o)),
            q == pos + 1 + members_text(o, k, false).len() + if k > 0 {
                1int
            } else {
                0int
            },
            member_views(members@) == o.subrange(0, k),
        decreases s.len() - q,
    {
        proof {
            lemma_members_prefix(o, k + 1, o.len() as int);
            let p = members_text(o, k, false);
            let p1 = members_text(o, k + 1, false);
            let sep = if k > 0 {
                seq![',']
            } else {
                Seq::<char>::empty()
            };
            let key = string_text(o[k].0);
            let val = write_json(o[k].1, false);
            assert(p1 == p + sep + member_text(o[k], false));
            assert(member_text(o[k], false) == key + seq![':'] + val);
            assert(p1 =~= (p + sep) + key + seq![':'] + val);
            lemma_text_at_prefix(s@, pos + 1, body, p1.len() as int);
            lemma_text_at_concat(s@, pos + 1, (p + sep) + key + seq![':'], val);
            lemma_text_at_concat(s@, pos + 1, (p + sep) + key, seq![':']);
            lemma_text_at_concat(s@, pos + 1, p + sep, key);
            lemma_text_at_char(s@, pos + 1 + (p + sep).len() + key.len(), seq![':'], 0);
            lemma_numbers_ok_member(o, k);
            if k + 1 < o.len() {
                lemma_members_prefix(o, k + 2, o.len() as int);
                let p2 = members_text(o, k + 2, false);
                assert(p2 == p1 + seq![','] + member_text(o[k + 1], false));
                lemma_text_at_prefix(s@, pos + 1, body, p2.len() as int);
                lemma_text_at_char(s@, pos + 1, p2, p1.len() as int);
            } else {
                assert(p1 == body);
            }
        }
        let (name, after_name) = read_string(s, q, Ghost(o[k].0));
        let (x, e) = read_value(s, after_name + 1, Ghost(o[k].1));
        let ghost before = member_views(members@);
        members.push((name, x));
        proof {
            assert(member_views(members@) =~= before.push((name@, x@)));
            assert(member_views(members@) =~= o.subrange(0, k + 1));
        }
        if s[e] == ',' {
            q = e + 1;
            proof {
                k = k + 1;
            }
        } else {
            proof {
                assert(k + 1 == o.len());
                assert(o.subrange(0, k + 1) =~= o);
            }
            return (members, e + 1);
        }
    }
}

/// The document of a compact text: the document whose compact rendering it
/// is (there is only one: `law_compact_text_is_unambiguous`).
pub open spec fn document_of(text: Seq<char>) -> Json {
    choose|v: Json| numbers_ok(v) && write_json(v, false) == text
}

/// Reads the document of a compact text.
pub fn read_document(text: &Vec<char>) -> (r: JsonValue)
    requires
        exists|v: Json| numbers_ok(v) && #[trigger] write_json(v, false) == text@,
    ensures
        r@ == document_of(text@),
        write_json(r@, false) == text@,
        forall|v: Json| numbers_ok(v) && #[trigger] write_json(v, false) == text@ ==> r@ == v,
{
    let ghost v = document_of(text@);
    proof {
        assert(text@.subrange(0, text@.len() as int) =~= text@);
    }
    let (x, _) = read_value(text, 0, Ghost(v));
    proof {
        assert forall|u: Json| numbers_ok(u) && #[trigger] write_json(u, false) == text@ implies x@
            == u by {
            law_compact_text_is_unambiguous(u, v);
        }
    }
    x
}

// ---------------------------------------------------------------------------
// The compact text of a document determines it
// ---------------------------------------------------------------------------

proof fn lemma_hex_digit_injective(d1: nat, d2: nat)
    requires
        d1 < 16,
        d2 < 16,
        hex_digit(d1) == hex_digit(d2),
    ensures
        d1 == d2,
{
    assert(hex_digit(d1) as int == if d1 < 10 {
        d1 + 48
    } else {
        d1 + 87
    });
    assert(hex_digit(d2) as int == if d2 < 10 {
        d2 + 48
    } else {
        d2 + 87
    });
}

proof fn lemma_escape_unique(s: Seq<char>, q: int, c1: char, c2: char)
    requires
        text_at(s, q, escape_char(c1)),
        text_at(s, q, escape_char(c2)),
    ensures
        c1 == c2,
{
    let e1 = escape_char(c1);
    let e2 = escape_char(c2);
    assert(e1.len() >= 1 && e2.len() >= 1);
    lemma_text_at_char(s, q, e1, 0);
    lemma_text_at_char(s, q, e2, 0);
    if s[q] == '\\' {
        assert(e1.len() >= 2 && e2.len() >= 2);
        lemma_text_at_char(s, q, e1, 1);
        lemma_text_at_char(s, q, e2, 1);
        if s[q + 1] == 'u' {
            assert(e1.len() == 6 && e2.len() == 6);
            lemma_text_at_char(s, q, e1, 4);
            lemma_text_at_char(s, q, e2, 4);
            lemma_text_at_char(s, q, e1, 5);
            lemma_text_at_char(s, q, e2, 5);
            let (x, y) = (c1 as u32, c2 as u32);
            lemma_hex_digit_injective((x / 16) as nat, (y / 16) as nat);
            lemma_hex_digit_injective((x % 16) as nat, (y % 16) as nat);
            assert(x == 16 * (x / 16) + x % 16);
            assert(y == 16 * (y / 16) + y % 16);
        }
    }
}

proof fn lemma_string_text_parts(s: Seq<char>, pos: int, t: Seq<char>)
    requires
        text_at(s, pos, string_text(t)),
    ensures
        text_at(s, pos + 1, escaped(t)),
        pos + 1 + escaped(t).len() < s.len(),
        s[pos + 1 + escaped(t).len()] == '"',
{
    lemma_text_at_concat(s, pos, seq!['"'] + escaped(t), seq!['"']);
    lemma_text_at_concat(s, pos, seq!['"'], escaped(t));
    lemma_text_at_char(s, pos + 1 + escaped(t).len(), seq!['"'], 0);
}

/// The escaped text of `t` up to `k` characters stands at `pos + 1`, and
/// the next character is the closing quote (when `k` is the length) or the
/// first one of the next escape.
proof fn lemma_string_unit(s: Seq<char>, pos: int, t: Seq<char>, k: int)
    requires
        text_at(s, pos, string_text(t)),
        0 <= k <= t.len(),
    ensures
        pos + 1 + escaped(t.subrange(0, k)).len() < s.len(),
        k == t.len() ==> s[pos + 1 + escaped(t.subrange(0, k)).len()] == '"',
        k < t.len() ==> text_at(s, pos + 1 + escaped(t.subrange(0, k)).len(), escape_char(t[k])),
        k < t.len() ==> s[pos + 1 + escaped(t.subrange(0, k)).len()] != '"',
{
    lemma_string_text_parts(s, pos, t);
    lemma_escaped_prefix(t, k);
    if k == t.len() {
        assert(t.subrange(0, k) =~= t);
    } else {
        lemma_escaped_prefix(t, k + 1);
        let p = escaped(t.subrange(0, k));
        assert(t.subrange(0, k + 1).drop_last() =~= t.subrange(0, k));
        let p1 = escaped(t.subrange(0, k + 1));
        assert(p1 == p + escape_char(t[k]));
        lemma_text_at_prefix(s, pos + 1, escaped(t), p1.len() as int);
        lemma_text_at_concat(s, pos + 1, p, escape_char(t[k]));
        lemma_text_at_char(s, pos + 1 + p.len(), escape_char(t[k]), 0);
    }
}

proof fn lemma_string_unique_from(s: Seq<char>, pos: int, t1: Seq<char>, t2: Seq<char>, k: int)
    requires
        text_at(s, pos, string_text(t1)),
        text_at(s, pos, string_text(t2)),
        0 <= k <= t1.len(),
        k <= t2.len(),
        t1.subrange(0, k) == t2.subrange(0, k),
    ensures
        t1 == t2,
    decreases t1.len() - k,
{
    lemma_string_unit(s, pos, t1, k);
    lemma_string_unit(s, pos, t2, k);
    if k == t1.len() && k == t2.len() {
        assert(t1 =~= t1.subrange(0, k));
        assert(t2 =~= t2.subrange(0, k));
    } else if k < t1.len() && k < t2.len() {
        lemma_escape_unique(s, pos + 1 + escaped(t1.subrange(0, k)).len(), t1[k], t2[k]);
        assert(t1.subrange(0, k + 1) =~= t1.subrange(0, k).push(t1[k]));
        assert(t2.subrange(0, k + 1) =~= t2.subrange(0, k).push(t2[k]));
        lemma_string_unique_from(s, pos, t1, t2, k + 1);
    }
}

/// Two strings whose quoted texts stand at the same place are equal.
proof fn lemma_string_unique(s: Seq<char>, pos: int, t1: Seq<char>, t2: Seq<char>)
    requires
        text_at(s, pos, string_text(t1)),
        text_at(s, pos, string_text(t2)),
    ensures
        t1 == t2,
{
    assert(t1.subrange(0, 0) =~= t2.subrange(0, 0));
    lemma_string_unique_from(s, pos, t1, t2, 0);
}

proof fn lemma_items_text_same_prefix(a1: Seq<Json>, a2: Seq<Json>, k: int)
    requires
        0 <= k <= a1.len(),
        k <= a2.len(),
        a1.subrange(0, k) == a2.subrange(0, k),
    ensures
        items_text(a1, k, false) == items_text(a2, k, false),
    decreases k,
{
    if k > 0 {
        assert(a1.subrange(0, k - 1) =~= a1.subrange(0, k).subrange(0, k - 1));
        assert(a2.subrange(0, k - 1) =~= a2.subrange(0, k).subrange(0, k - 1));
        lemma_items_text_same_prefix(a1, a2, k - 1);
        assert(a1[k - 1] == a1.subrange(0, k)[k - 1]);
        assert(a2[k - 1] == a2.subrange(0, k)[k - 1]);
    }
}

proof fn lemma_members_text_same_prefix(o1: Seq<(Seq<char>, Json)>, o2: Seq<(Seq<char>, Json)>, k: int)
    requires
        0 <= k <= o1.len(),
        k <= o2.len(),
        o1.subrange(0, k) == o2.subrange(0, k),
    ensures
        members_text(o1, k, false) == members_text(o2, k, false),
    decreases k,
{
    if k > 0 {
        assert(o1.subrange(0, k - 1) =~= o1.subrange(0, k).subrange(0, k - 1));
        assert(o2.subrange(0, k - 1) =~= o2.subrange(0, k).subrange(0, k - 1));
        lemma_members_text_same_prefix(o1, o2, k - 1);
        assert(o1[k - 1] == o1.subrange(0, k)[k - 1]);
        assert(o2[k - 1] == o2.subrange(0, k)[k - 1]);
    }
}

/// Where element `k` of an array text stands, and what follows it.
proof fn lemma_item_at(s: Seq<char>, pos: int, a: Seq<Json>, k: int)
    requires
        value_at(s, pos, Json::Array(a)),
        0 <= k <= a.len(),
    ensures
        pos + 1 + items_text(a, k, false).len() < s.len(),
        k == a.len() ==> s[pos + 1 + items_text(a, k, false).len()] == ']',
        k < a.len() && k > 0 ==> s[pos + 1 + items_text(a, k, false).len()] == ',',
        k < a.len() ==> s[pos + 1 + items_text(a, k, false).len()] != ']',
        k < a.len() ==> value_at(
            s,
            pos + 1 + items_text(a, k, false).len() + if k > 0 {
                1int
            } else {
                0int
            },
            a[k],
        ),
{
    let body = items_text(a, a.len() as int, false);
    lemma_text_at_concat(s, pos, seq!['['] + body, seq![']']);
    lemma_text_at_concat(s, pos, seq!['['], body);
    lemma_text_at_char(s, pos + 1 + body.len(), seq![']'], 0);
    lemma_items_prefix(a, k, a.len() as int);
    if k < a.len() {
        lemma_items_prefix(a, k + 1, a.len() as int);
        let p = items_text(a, k, false);
        let p1 = items_text(a, k + 1, false);
        let sep = if k > 0 {
            seq![',']
        } else {
            Seq::<char>::empty()
        };
        assert(p1 == p + sep + write_json(a[k], false));
        lemma_text_at_prefix(s, pos + 1, body, p1.len() as int);
        lemma_text_at_concat(s, pos + 1, p + sep, write_json(a[k], false));
        assert(p1 =~= p + (sep + write_json(a[k], false)));
        lemma_text_at_concat(s, pos + 1, p, sep + write_json(a[k], false));
        lemma_numbers_ok_item(a, k);
        lemma_first_char(a[k]);
        lemma_text_at_char(s, pos + 1 + p.len(), sep + write_json(a[k], false), 0);
        if k + 1 < a.len() {
            lemma_items_prefix(a, k + 2, a.len() as int);
            let p2 = items_text(a, k + 2, false);
            assert(p2 == p1 + seq![','] + write_json(a[k + 1], false));
            lemma_text_at_prefix(s, pos + 1, body, p2.len() as int);
            lemma_text_at_char(s, pos + 1, p2, p1.len() as int);
        } else {
            assert(p1 == body);
        }
    } else {
        assert(items_text(a, k, false) == body);
    }
}

/// Where member `k` of an object text stands, and what follows it.
proof fn lemma_member_at(s: Seq<char>, pos: int, o: Seq<(Seq<char>, Json)>, k: int)
    requires
        value_at(s, pos, Json::Object(o)),
        0 <= k <= o.len(),
    ensures
        pos + 1 + members_text(o, k, false).len() < s.len(),
        k == o.len() ==> s[pos + 1 + members_text(o, k, false).len()] == '}',
        k < o.len() ==> s[pos + 1 + members_text(o, k, false).len()] != '}',
        k < o.len() ==> ({
            let q = pos + 1 + members_text(o, k, false).len() + if k > 0 {
                1int
            } else {
                0int
            };
            &&& text_at(s, q, string_text(o[k].0))
            &&& value_at(s, q + string_text(o[k].0).len() + 1, o[k].1)
        }),
{
    let body = members_text(o, o.len() as int, false);
    lemma_text_at_concat(s, pos, seq!['{'] + body, seq!['}']);
    lemma_text_at_concat(s, pos, seq!['{'], body);
    lemma_text_at_char(s, pos + 1 + body.len(), seq!['}'], 0);
    lemma_members_prefix(o, k, o.len() as int);
    if k < o.len() {
        lemma_members_prefix(o, k + 1, o.len() as int);
        let p = members_text(o, k, false);
        let p1 = members_text(o, k + 1, false);
        let sep = if k > 0 {
            seq![',']
        } else {
            Seq::<char>::empty()
        };
        let key = string_text(o[k].0);
        let val = write_json(o[k].1, false);
        lemma_member_text_shape(o[k]);
        assert(p1 == p + sep + member_text(o[k], false));
        assert(p1 =~= (p + sep) + key + seq![':'] + val);
        lemma_text_at_prefix(s, pos + 1, body, p1.len() as int);
        lemma_text_at_concat(s, pos + 1, (p + sep) + key + seq![':'], val);
        lemma_text_at_concat(s, pos + 1, (p + sep) + key, seq![':']);
        lemma_text_at_concat(s, pos + 1, p + sep, key);
        lemma_text_at_prefix(s, pos + 1, p1, (p + sep + key).len() as int);
        assert(p1.subrange(0, (p + sep + key).len() as int) =~= p + (sep + key));
        lemma_text_at_concat(s, pos + 1, p, sep + key);
        assert(key[0] == '"');
        lemma_text_at_char(s, pos + 1 + p.len(), sep + key, 0);
        lemma_numbers_ok_member(o, k);
        if k + 1 < o.len() {
            lemma_members_prefix(o, k + 2, o.len() as int);
            let p2 = members_text(o, k + 2, false);
            assert(p2 == p1 + seq![','] + member_text(o[k + 1], false));
            lemma_text_at_prefix(s, pos + 1, body, p2.len() as int);
            lemma_text_at_char(s, pos + 1, p2, p1.len() as int);
        } else {
            assert(p1 == body);
        }
    } else {
        assert(members_text(o, k, false) == body);
    }
}

proof fn lemma_items_unique(s: Seq<char>, pos: int, a1: Seq<Json>, a2: Seq<Json>, k: int)
    requires
        value_at(s, pos, Json::Array(a1)),
        value_at(s, pos, Json::Array(a2)),
        0 <= k <= a1.len(),
        k <= a2.len(),
        a1.subrange(0, k) == a2.subrange(0, k),
    ensures
        a1 == a2,
    decreases a1, 0nat, a1.len() - k,
{
    lemma_items_text_same_prefix(a1, a2, k);
    lemma_item_at(s, pos, a1, k);
    lemma_item_at(s, pos, a2, k);
    if k == a1.len() && k == a2.len() {
        assert(a1 =~= a1.subrange(0, k));
        assert(a2 =~= a2.subrange(0, k));
    } else if k < a1.len() && k < a2.len() {
        assert(decreases_to!(a1 => a1[k]));
        lemma_value_unique(
            s,
            pos + 1 + items_text(a1, k, false).len() + if k > 0 {
                1int
            } else {
                0int
            },
            a1[k],
            a2[k],
        );
        assert(a1.subrange(0, k + 1) =~= a1.subrange(0, k).push(a1[k]));
        assert(a2.subrange(0, k + 1) =~= a2.subrange(0, k).push(a2[k]));
        lemma_items_unique(s, pos, a1, a2, k + 1);
    }
}

proof fn lemma_members_unique(
    s: Seq<char>,
    pos: int,
    o1: Seq<(Seq<char>, Json)>,
    o2: Seq<(Seq<char>, Json)>,
    k: int,
)
    requires
        value_at(s, pos, Json::Object(o1)),
        value_at(s, pos, Json::Object(o2)),
        0 <= k <= o1.len(),
        k <= o2.len(),
        o1.subrange(0, k) == o2.subrange(0, k),
    ensures
        o1 == o2,
    decreases o1, 0nat, o1.len() - k,
{
    lemma_members_text_same_prefix(o1, o2, k);
    lemma_member_at(s, pos, o1, k);
    lemma_member_at(s, pos, o2, k);
    if k == o1.len() && k == o2.len() {
        assert(o1 =~= o1.subrange(0, k));
        assert(o2 =~= o2.subrange(0, k));
    } else if k < o1.len() && k < o2.len() {
        let q = pos + 1 + members_text(o1, k, false).len() + if k > 0 {
            1int
        } else {
            0int
        };
        lemma_string_unique(s, q, o1[k].0, o2[k].0);
        assert(decreases_to!(o1 => o1[k]));
        lemma_value_unique(s, q + string_text(o1[k].0).len() + 1, o1[k].1, o2[k].1);
        assert(o1.subrange(0, k + 1) =~= o1.subrange(0, k).push(o1[k]));
        assert(o2.subrange(0, k + 1) =~= o2.subrange(0, k).push(o2[k]));
        lemma_members_unique(s, pos, o1, o2, k + 1);
    }
}

proof fn lemma_value_unique(s: Seq<char>, pos: int, v1: Json, v2: Json)
    requires
        value_at(s, pos, v1),
        value_at(s, pos, v2),
    ensures
        v1 == v2,
    decreases v1, 1nat, 0int,
{
    lemma_first_char(v1);
    lemma_first_char(v2);
    lemma_text_at_char(s, pos, write_json(v1, false), 0);
    lemma_text_at_char(s, pos, write_json(v2, false), 0);
    match v1 {
        Json::Number(n1) => {
            let n2 = v2->Number_0;
            lemma_number_chars(n1);
            lemma_number_chars(n2);
            if n1.len() < n2.len() {
                lemma_text_at_char(s, pos, n2, n1.len() as int);
                assert(is_number_char(n2[n1.len() as int]));
            } else if n2.len() < n1.len() {
                lemma_text_at_char(s, pos, n1, n2.len() as int);
                assert(is_number_char(n1[n2.len() as int]));
            }
        },
        Json::String(t1) => {
            lemma_string_unique(s, pos, t1, v2->String_0);
        },
        Json::Array(a1) => {
            assert(a1.subrange(0, 0) =~= v2->Array_0.subrange(0, 0));
            lemma_items_unique(s, pos, a1, v2->Array_0, 0);
        },
        Json::Object(o1) => {
            assert(o1.subrange(0, 0) =~= v2->Object_0.subrange(0, 0));
            lemma_members_unique(s, pos, o1, v2->Object_0, 0);
        },
        _ => {},
    }
}

/// The compact text of a document determines the document: two documents
/// with well-formed numbers and the same compact text are equal.
pub proof fn law_compact_text_is_unambiguous(v1: Json, v2: Json)
    requires
        numbers_ok(v1),
        numbers_ok(v2),
        write_json(v1, false) == write_json(v2, false),
    ensures
        v1 == v2,
{
    let s = write_json(v1, false);
    assert(s.subrange(0, s.len() as int) =~= s);
    lemma_value_unique(s, 0, v1, v2);
}

} // verus!
