//! Character-level helpers shared by the causal and JSON modules.
use vstd::prelude::*;
use vstd::string::StringExecFns;

verus! {

/// Three-way result of comparing two values.
#[derive(Debug, Clone, Copy, PartialEq, Eq, Structural)]
pub enum Order {
    Less,
    Equal,
    Greater,
}

/// Lexicographic order on character sequences, starting at position `i`.
pub open spec fn lt_from(a: Seq<char>, b: Seq<char>, i: int) -> bool
    decreases a.len() - i,
{
    if i < 0 || i >= b.len() {
        false
    } else if i >= a.len() {
        true
    } else if a[i] != b[i] {
        (a[i] as int) < (b[i] as int)
    } else {
        lt_from(a, b, i + 1)
    }
}

/// Strict lexicographic order on character sequences (the order of `str`).
pub open spec fn text_lt(a: Seq<char>, b: Seq<char>) -> bool {
    lt_from(a, b, 0)
}

pub proof fn lemma_lt_from_irreflexive(a: Seq<char>, i: int)
    requires
        0 <= i,
    ensures
        !lt_from(a, a, i),
    decreases a.len() - i,
{
    if i < a.len() {
        lemma_lt_from_irreflexive(a, i + 1);
    }
}

pub proof fn lemma_lt_from_transitive(a: Seq<char>, b: Seq<char>, c: Seq<char>, i: int)
    requires
        0 <= i,
        lt_from(a, b, i),
        lt_from(b, c, i),
    ensures
        lt_from(a, c, i),
    decreases a.len() - i,
{
    if i < a.len() && a[i] == b[i] && b[i] == c[i] {
        lemma_lt_from_transitive(a, b, c, i + 1);
    }
}

pub proof fn lemma_lt_from_total(a: Seq<char>, b: Seq<char>, i: int)
    requires
        0 <= i <= a.len(),
        i <= b.len(),
        a.subrange(0, i) == b.subrange(0, i),
    ensures
        a == b || lt_from(a, b, i) || lt_from(b, a, i),
    decreases a.len() - i,
{
    if i == a.len() && i == b.len() {
        assert(a =~= a.subrange(0, i));
        assert(b =~= b.subrange(0, i));
    } else if i < a.len() && i < b.len() && a[i] == b[i] {
        assert(a.subrange(0, i + 1) =~= a.subrange(0, i).push(a[i]));
        assert(b.subrange(0, i + 1) =~= b.subrange(0, i).push(b[i]));
        lemma_lt_from_total(a, b, i + 1);
    } else if i < a.len() && i < b.len() {
    }
}

pub proof fn lemma_lt_from_asymmetric(a: Seq<char>, b: Seq<char>, i: int)
    requires
        0 <= i,
        lt_from(a, b, i),
    ensures
        !lt_from(b, a, i),
    decreases a.len() - i,
{
    if i < a.len() && i < b.len() && a[i] == b[i] {
        lemma_lt_from_asymmetric(a, b, i + 1);
    }
}

/// `text_lt` is a strict total order.
pub proof fn lemma_text_lt_order(a: Seq<char>, b: Seq<char>, c: Seq<char>)
    ensures
        !text_lt(a, a),
        text_lt(a, b) ==> !text_lt(b, a),
        text_lt(a, b) && text_lt(b, c) ==> text_lt(a, c),
        a == b || text_lt(a, b) || text_lt(b, a),
{
    lemma_lt_from_irreflexive(a, 0);
    if text_lt(a, b) {
        lemma_lt_from_asymmetric(a, b, 0);
        if text_lt(b, c) {
            lemma_lt_from_transitive(a, b, c, 0);
        }
    }
    assert(a.subrange(0, 0) =~= b.subrange(0, 0));
    lemma_lt_from_total(a, b, 0);
}

/// Compares two character sequences lexicographically.
pub fn compare_chars(a: &Vec<char>, b: &Vec<char>) -> (r: Order)
    ensures
        r == Order::Less <==> text_lt(a@, b@),
        r == Order::Equal <==> a@ == b@,
        r == Order::Greater <==> text_lt(b@, a@),
{
    let mut i: usize = 0;
    while i < a.len() && i < b.len() && a[i] == b[i]
        invariant
            i <= a.len(),
            i <= b.len(),
            a@.subrange(0, i as int) == b@.subrange(0, i as int),
            lt_from(a@, b@, 0) == lt_from(a@, b@, i as int),
            lt_from(b@, a@, 0) == lt_from(b@, a@, i as int),
        decreases a.len() - i,
    {
        assert(a@.subrange(0, i + 1) =~= a@.subrange(0, i as int).push(a@[i as int]));
        assert(b@.subrange(0, i + 1) =~= b@.subrange(0, i as int).push(b@[i as int]));
        i = i + 1;
    }
    proof {
        lemma_text_lt_order(a@, b@, a@);
    }
    if i == a.len() && i == b.len() {
        assert(a@ =~= a@.subrange(0, i as int));
        assert(b@ =~= b@.subrange(0, i as int));
        Order::Equal
    } else if i == a.len() {
        Order::Less
    } else if i == b.len() {
        Order::Greater
    } else if a[i] < b[i] {
        Order::Less
    } else {
        Order::Greater
    }
}

/// The characters of a string, in order.
pub(crate) fn chars_of(s: &str) -> (r: Vec<char>)
    ensures
        r@ == s@,
{
    broadcast use vstd::string::axiom_spec_iter;

    let mut out: Vec<char> = Vec::new();
    for c in it: s.chars()
        invariant
            it.seq() == s@,
            out@ == it.seq().take(it.index()),
    {
        proof {
            assert(it.seq().take(it.index() + 1) =~= it.seq().take(it.index()).push(c));
        }
        out.push(c);
    }
    proof {
        assert(s@.take(s@.len() as int) =~= s@);
    }
    out
}

/// Appends one character (`String::push`).
///
/// Trusted: the string grows by exactly that character.
#[verifier::external_body]
fn push_char(s: &mut String, c: char)
    ensures
        final(s)@ == old(s)@.push(c),
{
    s.push(c);
}

/// A string made of the given characters.
pub(crate) fn string_from_chars(chars: &[char]) -> (r: String)
    ensures
        r@ == chars@,
{
    let mut out = String::new();
    let mut i: usize = 0;
    while i < chars.len()
        invariant
            i <= chars.len(),
            out@ == chars@.subrange(0, i as int),
        decreases chars.len() - i,
    {
        push_char(&mut out, chars[i]);
        proof {
            assert(out@ =~= chars@.subrange(0, i + 1));
        }
        i = i + 1;
    }
    proof {
        assert(chars@.subrange(0, i as int) =~= chars@);
    }
    out
}

/// Unicode `White_Space`, the set that `char::is_whitespace` and `str::trim` use.
pub open spec fn is_space(c: char) -> bool {
    ('\t' <= c && c <= '\r') || c == ' ' || c == '\u{85}' || c == '\u{a0}' || c == '\u{1680}' || (
    '\u{2000}' <= c && c <= '\u{200a}') || c == '\u{2028}' || c == '\u{2029}' || c == '\u{202f}'
        || c == '\u{205f}' || c == '\u{3000}'
}

/// Unicode general category `Cc`, the set that `char::is_control` uses.
pub open spec fn is_control(c: char) -> bool {
    c <= '\u{1f}' || ('\u{7f}' <= c && c <= '\u{9f}')
}

/// Checks [`is_space`].
pub fn char_is_space(c: char) -> (r: bool)
    ensures
        r == is_space(c),
{
    ('\t' <= c && c <= '\r') || c == ' ' || c == '\u{85}' || c == '\u{a0}' || c == '\u{1680}' || (
    '\u{2000}' <= c && c <= '\u{200a}') || c == '\u{2028}' || c == '\u{2029}' || c == '\u{202f}'
        || c == '\u{205f}' || c == '\u{3000}'
}

/// Checks [`is_control`].
pub fn char_is_control(c: char) -> (r: bool)
    ensures
        r == is_control(c),
{
    c <= '\u{1f}' || ('\u{7f}' <= c && c <= '\u{9f}')
}

/// Number of bytes in the UTF-8 encoding of one character.
pub open spec fn char_utf8_len(c: char) -> nat {
    if (c as u32) < 0x80 {
        1
    } else if (c as u32) < 0x800 {
        2
    } else if (c as u32) < 0x10000 {
        3
    } else {
        4
    }
}

/// Number of bytes in the UTF-8 encoding of `s`.
pub open spec fn utf8_len(s: Seq<char>) -> nat
    decreases s.len(),
{
    if s.len() == 0 {
        0
    } else {
        utf8_len(s.drop_last()) + char_utf8_len(s.last())
    }
}

proof fn lemma_utf8_len_prefix(s: Seq<char>, i: int, j: int)
    requires
        0 <= i <= j <= s.len(),
    ensures
        utf8_len(s.subrange(0, i)) <= utf8_len(s.subrange(0, j)),
    decreases j - i,
{
    if i < j {
        assert(s.subrange(0, j).drop_last() =~= s.subrange(0, j - 1));
        lemma_utf8_len_prefix(s, i, j - 1);
    }
}

/// Whether the UTF-8 encoding of `chars` takes at most `max` bytes.
pub fn utf8_len_at_most(chars: &Vec<char>, max: usize) -> (r: bool)
    ensures
        r == (utf8_len(chars@) <= max),
{
    let mut total: usize = 0;
    let mut i: usize = 0;
    while i < chars.len()
        invariant
            i <= chars.len(),
            total == utf8_len(chars@.subrange(0, i as int)),
            total <= max,
        decreases chars.len() - i,
    {
        let c = chars[i];
        let width: usize = if (c as u32) < 0x80 {
            1
        } else if (c as u32) < 0x800 {
            2
        } else if (c as u32) < 0x10000 {
            3
        } else {
            4
        };
        proof {
            assert(chars@.subrange(0, i + 1).drop_last() =~= chars@.subrange(0, i as int));
        }
        if width > max - total {
            proof {
                lemma_utf8_len_prefix(chars@, i + 1, chars@.len() as int);
                assert(chars@.subrange(0, chars@.len() as int) =~= chars@);
            }
            return false;
        }
        total = total + width;
        i = i + 1;
    }
    proof {
        assert(chars@.subrange(0, i as int) =~= chars@);
    }
    true
}

/// How `{:?}` renders a string: quoted, with escapes.
pub uninterp spec fn debug_text(s: Seq<char>) -> Seq<char>;

/// The `Debug` rendering of a string (`format!("{s:?}")`).
///
/// Trusted: the result is the named `debug_text(s)`.
#[verifier::external_body]
pub(crate) fn debug_quoted(s: &str) -> (r: String)
    ensures
        r@ == debug_text(s@),
{
    format!("{s:?}")
}

/// `a` followed by `b`.
pub(crate) fn join(a: &str, b: &str) -> (r: String)
    ensures
        r@ == a@ + b@,
{
    let mut s = String::new();
    s.append(a);
    s.append(b);
    proof {
        assert(s@ =~= a@ + b@);
    }
    s
}

} // verus!
