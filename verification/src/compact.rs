//! Compact JSON text: the writer used for merge output and identity
//! comparison, and the reader for the normalized text of the JSON parser.
use vstd::prelude::*;

use crate::json::{
    entries_view, items_view, json_view, lemma_entries_view, lemma_items_view, member_views,
    views, Json, JsonValue,
};
use crate::numtext::{canonical_number, canonical_number_text, is_number_text, number_ok};

verus! {

/// Lower-case hexadecimal digit.
pub open spec fn hex_digit(d: nat) -> char {
    if d < 10 {
        (d + '0' as nat) as char
    } else {
        (d - 10 + 'a' as nat) as char
    }
}

/// The escape of one character inside a JSON string: quote, backslash and
/// control characters are escaped, everything else is written as it is.
pub open spec fn escape_char(c: char) -> Seq<char> {
    if c == '"' {
        seq!['\\', '"']
    } else if c == '\\' {
        seq!['\\', '\\']
    } else if c == '\u{8}' {
        seq!['\\', 'b']
    } else if c == '\t' {
        seq!['\\', 't']
    } else if c == '\n' {
        seq!['\\', 'n']
    } else if c == '\u{c}' {
        seq!['\\', 'f']
    } else if c == '\r' {
        seq!['\\', 'r']
    } else if (c as u32) < 0x20 {
        seq!['\\', 'u', '0', '0', hex_digit((c as u32 / 16) as nat), hex_digit((c as u32 % 16) as nat)]
    } else {
        seq![c]
    }
}

/// The escaped contents of a JSON string.
pub open spec fn escaped(s: Seq<char>) -> Seq<char>
    decreases s.len(),
{
    if s.len() == 0 {
        Seq::empty()
    } else {
        escaped(s.drop_last()) + escape_char(s.last())
    }
}

/// A quoted JSON string.
pub open spec fn string_text(s: Seq<char>) -> Seq<char> {
    seq!['"'] + escaped(s) + seq!['"']
}

/// How a number is written: as it is, or in canonical form when it is a
/// well-formed number text.
pub open spec fn number_out(n: Seq<char>, canonical: bool) -> Seq<char> {
    if canonical && number_ok(n) {
        canonical_number_text(n)
    } else {
        n
    }
}

/// Compact JSON text of a document.
pub open spec fn write_json(v: Json, canonical: bool) -> Seq<char>
    decreases v, 1nat, 0nat,
{
    match v {
        Json::Null => seq!['n', 'u', 'l', 'l'],
        Json::Bool(b) => if b {
            seq!['t', 'r', 'u', 'e']
        } else {
            seq!['f', 'a', 'l', 's', 'e']
        },
        Json::Number(n) => number_out(n, canonical),
        Json::String(s) => string_text(s),
        Json::Array(a) => seq!['['] + items_text(a, a.len() as int, canonical) + seq![']'],
        Json::Object(o) => seq!['{'] + members_text(o, o.len() as int, canonical) + seq!['}'],
    }
}

/// The first `n` items of an array, separated by commas.
pub open spec fn items_text(a: Seq<Json>, n: int, canonical: bool) -> Seq<char>
    decreases a, 0nat, n,
{
    if n <= 0 || n > a.len() {
        Seq::empty()
    } else if n == 1 {
        write_json(a[0], canonical)
    } else {
        items_text(a, n - 1, canonical) + seq![','] + write_json(a[n - 1], canonical)
    }
}

/// One object member: its key, a colon and its value.
pub open spec fn member_text(m: (Seq<char>, Json), canonical: bool) -> Seq<char>
    decreases m, 0nat, 0nat,
{
    string_text(m.0) + seq![':'] + write_json(m.1, canonical)
}

/// The first `n` members of an object, separated by commas.
pub open spec fn members_text(o: Seq<(Seq<char>, Json)>, n: int, canonical: bool) -> Seq<char>
    decreases o, 0nat, n,
{
    if n <= 0 || n > o.len() {
        Seq::empty()
    } else if n == 1 {
        member_text(o[0], canonical)
    } else {
        members_text(o, n - 1, canonical) + seq![','] + member_text(o[n - 1], canonical)
    }
}

/// Every number in the document is one the canonical writer accepts.
pub open spec fn numbers_ok(v: Json) -> bool
    decreases v,
{
    match v {
        Json::Number(n) => number_ok(n),
        Json::Array(a) => forall|i: int| 0 <= i < a.len() ==> numbers_ok(#[trigger] a[i]),
        Json::Object(o) => forall|i: int| 0 <= i < o.len() ==> numbers_ok(#[trigger] o[i].1),
        _ => true,
    }
}

fn hex_char(d: u32) -> (c: char)
    requires
        d < 16,
    ensures
        c == hex_digit(d as nat),
{
    if d < 10 {
        char_of_digit(d)
    } else if d == 10 {
        'a'
    } else if d == 11 {
        'b'
    } else if d == 12 {
        'c'
    } else if d == 13 {
        'd'
    } else if d == 14 {
        'e'
    } else {
        'f'
    }
}

fn char_of_digit(d: u32) -> (c: char)
    requires
        d < 10,
    ensures
        c == (d + '0' as nat) as char,
{
    if d == 0 { '0' } else if d == 1 { '1' } else if d == 2 { '2' } else if d == 3 { '3' } else if d
        == 4 { '4' } else if d == 5 { '5' } else if d == 6 { '6' } else if d == 7 { '7' } else if d
        == 8 { '8' } else { '9' }
}

fn push_escaped_char(c: char, out: &mut Vec<char>)
    ensures
        final(out)@ == old(out)@ + escape_char(c),
{
    let ghost start = out@;
    if c == '"' {
        out.push('\\');
        out.push('"');
    } else if c == '\\' {
        out.push('\\');
        out.push('\\');
    } else if c == '\u{8}' {
        out.push('\\');
        out.push('b');
    } else if c == '\t' {
        out.push('\\');
        out.push('t');
    } else if c == '\n' {
        out.push('\\');
        out.push('n');
    } else if c == '\u{c}' {
        out.push('\\');
        out.push('f');
    } else if c == '\r' {
        out.push('\\');
        out.push('r');
    } else if (c as u32) < 0x20 {
        let code = c as u32;
        out.push('\\');
        out.push('u');
        out.push('0');
        out.push('0');
        out.push(hex_char(code / 16));
        out.push(hex_char(code % 16));
    } else {
        out.push(c);
    }
    proof {
        assert(out@ =~= start + escape_char(c));
    }
}

fn push_string(s: &String, out: &mut Vec<char>)
    ensures
        final(out)@ == old(out)@ + string_text(s@),
{
    let ghost start = out@;
    let chars = crate::text::chars_of(s.as_str());
    out.push('"');
    let mut i: usize = 0;
    while i < chars.len()
        invariant
            i <= chars.len(),
            chars@ == s@,
            out@ == start + seq!['"'] + escaped(chars@.subrange(0, i as int)),
        decreases chars.len() - i,
    {
        proof {
            assert(chars@.subrange(0, i + 1).drop_last() =~= chars@.subrange(0, i as int));
        }
        push_escaped_char(chars[i], out);
        proof {
            assert(out@ =~= start + seq!['"'] + escaped(chars@.subrange(0, i + 1)));
        }
        i = i + 1;
    }
    out.push('"');
    proof {
        assert(chars@.subrange(0, i as int) =~= chars@);
        assert(out@ =~= start + string_text(s@));
    }
}

fn push_number(n: &String, canonical: bool, out: &mut Vec<char>)
    ensures
        final(out)@ == old(out)@ + number_out(n@, canonical),
{
    let chars = crate::text::chars_of(n.as_str());
    let ghost start = out@;
    let text = if canonical && is_number_text(&chars) {
        canonical_number(&chars)
    } else {
        chars
    };
    let mut i: usize = 0;
    while i < text.len()
        invariant
            i <= text.len(),
            text@ == number_out(n@, canonical),
            out@ == start + text@.subrange(0, i as int),
        decreases text.len() - i,
    {
        out.push(text[i]);
        proof {
            assert(out@ =~= start + text@.subrange(0, i + 1));
        }
        i = i + 1;
    }
    proof {
        assert(text@.subrange(0, i as int) =~= text@);
    }
}

/// Appends the compact text of `v`.
#[verifier::loop_isolation(false)]
#[verifier::spinoff_prover]
#[verifier::rlimit(60)]
pub fn write_value(v: &JsonValue, canonical: bool, out: &mut Vec<char>)
    ensures
        final(out)@ == old(out)@ + write_json(v@, canonical),
    decreases v,
{
    let ghost start = out@;
    match v {
        JsonValue::Null => {
            out.push('n');
            out.push('u');
            out.push('l');
            out.push('l');
            proof {
                assert(out@ =~= start + seq!['n', 'u', 'l', 'l']);
            }
        },
        JsonValue::Bool(b) => {
            if *b {
                out.push('t');
                out.push('r');
                out.push('u');
                out.push('e');
                proof {
                    assert(out@ =~= start + seq!['t', 'r', 'u', 'e']);
                }
            } else {
                out.push('f');
                out.push('a');
                out.push('l');
                out.push('s');
                out.push('e');
                proof {
                    assert(out@ =~= start + seq!['f', 'a', 'l', 's', 'e']);
                }
            }
        },
        JsonValue::Number(n) => {
            push_number(n, canonical, out);
        },
        JsonValue::String(s) => {
            push_string(s, out);
        },
        JsonValue::Array(items) => {
            let ghost a = items_view(*items);
            proof {
                lemma_items_view(*items);
            }
            out.push('[');
            let mut i: usize = 0;
            while i < items.len()
                invariant
                    i <= items.len(),
                    a == views(items@),
                    a.len() == items.len(),
                    out@ == start + seq!['['] + items_text(a, i as int, canonical),
                decreases items.len() - i,
            {
                proof {
                    broadcast use vstd::std_specs::vec::axiom_vec_index_decreases;

                    assert(decreases_to!(*v => items[i as int]));
                    assert(a[i as int] == items@[i as int]@);
                }
                if i > 0 {
                    out.push(',');
                }
                write_value(&items[i], canonical, out);
                proof {
                    assert(out@ =~= start + seq!['['] + items_text(a, i + 1, canonical));
                }
                i = i + 1;
            }
            out.push(']');
            proof {
                assert(out@ =~= start + write_json(v@, canonical));
            }
        },
        JsonValue::Object(entries) => {
            let ghost o = entries_view(*entries);
            proof {
                lemma_entries_view(*entries);
            }
            out.push('{');
            let mut i: usize = 0;
            while i < entries.len()
                invariant
                    i <= entries.len(),
                    o == member_views(entries@),
                    o.len() == entries.len(),
                    out@ == start + seq!['{'] + members_text(o, i as int, canonical),
                decreases entries.len() - i,
            {
                proof {
                    broadcast use vstd::std_specs::vec::axiom_vec_index_decreases;

                    assert(decreases_to!(*v => entries[i as int].1));
                    assert(o[i as int] == (entries@[i as int].0@, entries@[i as int].1@));
                }
                let ghost before = out@;
                if i > 0 {
                    out.push(',');
                }
                let ghost sep = out@;
                push_string(&entries[i].0, out);
                out.push(':');
                write_value(&entries[i].1, canonical, out);
                proof {
                    let m = member_text(o[i as int], canonical);
                    assert(out@ =~= sep + m);
                    if i > 0 {
                        assert(sep =~= before + seq![',']);
                        assert(members_text(o, i + 1, canonical) == members_text(o, i as int, canonical) + seq![','] + m);
                    } else {
                        assert(sep =~= before);
                        assert(members_text(o, i + 1, canonical) == m);
                    }
                    assert(out@ =~= start + seq!['{'] + members_text(o, i + 1, canonical));
                }
                i = i + 1;
            }
            out.push('}');
            proof {
                assert(out@ =~= start + write_json(v@, canonical));
            }
        },
    }
}

/// The compact text of `v`, numbers as they are.
pub fn compact_string(v: &JsonValue) -> (r: Vec<char>)
    ensures
        r@ == write_json(v@, false),
{
    let mut out: Vec<char> = Vec::new();
    write_value(v, false, &mut out);
    proof {
        assert(out@ =~= write_json(v@, false));
    }
    out
}

} // verus!
