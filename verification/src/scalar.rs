//! Scalars read from documents and options: integer numbers, timestamp
//! strings, selector lists and JSON-pointer segments.
use vstd::prelude::*;

use crate::text::{char_is_space, compare_chars, is_space, lt_from, text_lt, Order};

verus! {

/// `c` is an ASCII decimal digit.
pub open spec fn is_digit(c: char) -> bool {
    '0' <= c && c <= '9'
}

/// Every character of `s` is a digit.
pub open spec fn all_digits(s: Seq<char>) -> bool {
    forall|i: int| 0 <= i < s.len() ==> is_digit(#[trigger] s[i])
}

/// The value of one digit.
pub open spec fn digit_value(c: char) -> nat {
    (c as int - '0' as int) as nat
}

/// The value of a string of digits.
pub open spec fn digits_value(s: Seq<char>) -> nat
    decreases s.len(),
{
    if s.len() == 0 {
        0
    } else {
        digits_value(s.drop_last()) * 10 + digit_value(s.last())
    }
}

pub proof fn lemma_digits_value_prefix(s: Seq<char>, i: int)
    requires
        0 <= i <= s.len(),
    ensures
        digits_value(s.subrange(0, i)) <= digits_value(s),
    decreases s.len() - i,
{
    if i < s.len() {
        lemma_digits_value_prefix(s, i + 1);
        let t = s.subrange(0, i + 1);
        assert(t.drop_last() =~= s.subrange(0, i));
    } else {
        assert(s.subrange(0, i) =~= s);
    }
}

/// The integer that a number's text stands for when it is an integer in the
/// range of `i64` or `u64`: an optional minus sign and digits.
pub open spec fn integer_value(n: Seq<char>) -> Option<int> {
    if n.len() > 0 && n[0] == '-' {
        let d = n.skip(1);
        if d.len() > 0 && all_digits(d) && digits_value(d) <= 0x8000_0000_0000_0000 {
            Some(-(digits_value(d) as int))
        } else {
            None
        }
    } else if n.len() > 0 && all_digits(n) && digits_value(n) <= u64::MAX {
        Some(digits_value(n) as int)
    } else {
        None
    }
}

/// Reads the digits of `s` from position `start`: `None` when a character
/// is not a digit or the value exceeds `limit`.
pub(crate) fn digits_at_most(s: &Vec<char>, start: usize, limit: u128) -> (r: Option<u128>)
    requires
        start <= s.len(),
        limit <= u64::MAX,
    ensures
        (all_digits(s@.skip(start as int)) && digits_value(s@.skip(start as int)) <= limit)
            ==> r == Some(digits_value(s@.skip(start as int)) as u128),
        !(all_digits(s@.skip(start as int)) && digits_value(s@.skip(start as int)) <= limit)
            ==> r is None,
{
    let ghost d = s@.skip(start as int);
    let mut value: u128 = 0;
    let mut i: usize = start;
    while i < s.len()
        invariant
            start <= i <= s.len(),
            d == s@.skip(start as int),
            all_digits(d.subrange(0, i - start)),
            value == digits_value(d.subrange(0, i - start)),
            value <= limit,
            limit <= u64::MAX,
        decreases s.len() - i,
    {
        let c = s[i];
        let ghost k = i - start;
        proof {
            assert(d[k] == c);
            assert(d.subrange(0, k + 1).drop_last() =~= d.subrange(0, k));
        }
        if !('0' <= c && c <= '9') {
            return None;
        }
        let digit = (c as u32 - '0' as u32) as u128;
        proof {
            assert(digit == digit_value(c));
            assert(value * 10 <= 0xffff_ffff_ffff_ffffu128 * 10) by (nonlinear_arith)
                requires
                    value <= 0xffff_ffff_ffff_ffffu128,
            ;
        }
        value = value * 10 + digit;
        proof {
            assert(all_digits(d.subrange(0, k + 1)));
        }
        if value > limit {
            proof {
                lemma_digits_value_prefix(d, k + 1);
            }
            return None;
        }
        i = i + 1;
    }
    proof {
        assert(d.subrange(0, i - start) =~= d);
    }
    Some(value)
}

/// The integer value of a number's text, as `integer_value` describes it.
pub fn integer_of(n: &Vec<char>) -> (r: Option<i128>)
    ensures
        r matches Some(v) ==> integer_value(n@) == Some(v as int),
        r is None ==> integer_value(n@) is None,
{
    proof {
        assert(n@.skip(0) =~= n@);
    }
    if n.len() > 0 && n[0] == '-' {
        if n.len() == 1 {
            return None;
        }
        match digits_at_most(n, 1, 0x8000_0000_0000_0000) {
            Some(v) => Some(-(v as i128)),
            None => None,
        }
    } else if n.len() > 0 {
        match digits_at_most(n, 0, 0xffff_ffff_ffff_ffff) {
            Some(v) => Some(v as i128),
            None => None,
        }
    } else {
        None
    }
}

/// The character of a digit value.
pub open spec fn digit_char(d: nat) -> char {
    (d + '0' as nat) as char
}

/// Decimal rendering of a natural number.
pub open spec fn nat_text(v: nat) -> Seq<char>
    decreases v,
{
    if v < 10 {
        seq![digit_char(v)]
    } else {
        nat_text(v / 10).push(digit_char(v % 10))
    }
}

/// Decimal rendering of an integer, with a leading minus when negative.
pub open spec fn int_text(v: int) -> Seq<char> {
    if v < 0 {
        seq!['-'] + nat_text((-v) as nat)
    } else {
        nat_text(v as nat)
    }
}

fn push_nat_text(v: u128, out: &mut Vec<char>)
    ensures
        final(out)@ == old(out)@ + nat_text(v as nat),
    decreases v,
{
    if v >= 10 {
        push_nat_text(v / 10, out);
    }
    let d = (v % 10) as u32;
    let c = char_from_digit(d);
    out.push(c);
    proof {
        if v >= 10 {
            assert(nat_text(v as nat) == nat_text((v / 10) as nat).push(digit_char((v % 10) as nat)));
        }
    }
}

fn char_from_digit(d: u32) -> (c: char)
    requires
        d < 10,
    ensures
        c == digit_char(d as nat),
{
    if d == 0 { '0' } else if d == 1 { '1' } else if d == 2 { '2' } else if d == 3 { '3' } else if d
        == 4 { '4' } else if d == 5 { '5' } else if d == 6 { '6' } else if d == 7 { '7' } else if d
        == 8 { '8' } else { '9' }
}

/// Decimal text of an integer.
pub fn integer_text(v: i128) -> (r: Vec<char>)
    ensures
        r@ == int_text(v as int),
{
    let mut out: Vec<char> = Vec::new();
    if v < 0 {
        out.push('-');
        let magnitude: u128 = (-(v + 1)) as u128 + 1;
        push_nat_text(magnitude, &mut out);
    } else {
        push_nat_text(v as u128, &mut out);
    }
    out
}

// ---------------------------------------------------------------------------
// Timestamp strings
// ---------------------------------------------------------------------------

/// The three-way lexicographic comparison of two strings.
pub open spec fn text_order(a: Seq<char>, b: Seq<char>) -> Order {
    if text_lt(a, b) {
        Order::Less
    } else if a == b {
        Order::Equal
    } else {
        Order::Greater
    }
}

/// A non-empty string of digits.
pub open spec fn is_digit_text(s: Seq<char>) -> bool {
    s.len() > 0 && all_digits(s)
}

/// Number of leading `'0'` characters.
pub open spec fn leading_zeros(s: Seq<char>) -> nat
    decreases s.len(),
{
    if s.len() > 0 && s[0] == '0' {
        1 + leading_zeros(s.drop_first())
    } else {
        0
    }
}

/// A digit string without its leading zeros, `"0"` when nothing is left.
pub open spec fn strip_zeros(s: Seq<char>) -> Seq<char> {
    let t = s.skip(leading_zeros(s) as int);
    if t.len() == 0 {
        seq!['0']
    } else {
        t
    }
}

/// Order of two timestamp strings: numerically when both are digit
/// strings, lexicographically otherwise.
pub open spec fn timestamp_text_order(l: Seq<char>, r: Seq<char>) -> Order {
    if is_digit_text(l) && is_digit_text(r) {
        let a = strip_zeros(l);
        let b = strip_zeros(r);
        if a.len() < b.len() {
            Order::Less
        } else if a.len() > b.len() {
            Order::Greater
        } else {
            text_order(a, b)
        }
    } else {
        text_order(l, r)
    }
}

/// Compares two strings lexicographically.
pub fn order_chars(a: &Vec<char>, b: &Vec<char>) -> (r: Order)
    ensures
        r == text_order(a@, b@),
{
    let r = compare_chars(a, b);
    proof {
        crate::text::lemma_text_lt_order(a@, b@, a@);
    }
    r
}

/// Whether `s` is a non-empty string of digits.
pub fn is_ascii_digits(s: &Vec<char>) -> (r: bool)
    ensures
        r == is_digit_text(s@),
{
    if s.len() == 0 {
        return false;
    }
    let mut i: usize = 0;
    while i < s.len()
        invariant
            i <= s.len(),
            forall|j: int| 0 <= j < i ==> is_digit(#[trigger] s@[j]),
        decreases s.len() - i,
    {
        if !('0' <= s[i] && s[i] <= '9') {
            return false;
        }
        i = i + 1;
    }
    true
}

proof fn lemma_leading_zeros(s: Seq<char>, i: int)
    requires
        0 <= i <= s.len(),
        forall|j: int| 0 <= j < i ==> #[trigger] s[j] == '0',
    ensures
        leading_zeros(s) == i + leading_zeros(s.skip(i)),
    decreases i,
{
    if i > 0 {
        assert(s.drop_first().skip(i - 1) =~= s.skip(i));
        lemma_leading_zeros(s.drop_first(), i - 1);
    } else {
        assert(s.skip(0) =~= s);
    }
}

fn strip_leading_zeros(s: &Vec<char>) -> (r: Vec<char>)
    ensures
        r@ == strip_zeros(s@),
{
    let mut i: usize = 0;
    while i < s.len() && s[i] == '0'
        invariant
            i <= s.len(),
            forall|j: int| 0 <= j < i ==> #[trigger] s@[j] == '0',
        decreases s.len() - i,
    {
        i = i + 1;
    }
    proof {
        lemma_leading_zeros(s@, i as int);
        if i < s.len() {
            assert(s@.skip(i as int)[0] == s@[i as int]);
        }
        assert(leading_zeros(s@.skip(i as int)) == 0);
    }
    let mut out: Vec<char> = Vec::new();
    if i == s.len() {
        out.push('0');
        proof {
            assert(out@ =~= seq!['0']);
        }
        return out;
    }
    let mut j: usize = i;
    while j < s.len()
        invariant
            i <= j <= s.len(),
            out@ == s@.subrange(i as int, j as int),
        decreases s.len() - j,
    {
        out.push(s[j]);
        proof {
            assert(out@ =~= s@.subrange(i as int, j + 1));
        }
        j = j + 1;
    }
    proof {
        assert(out@ =~= s@.skip(i as int));
    }
    out
}

/// Compares two timestamp texts (`timestamp_text_order`).
pub fn compare_timestamp_chars(left: &Vec<char>, right: &Vec<char>) -> (r: Order)
    ensures
        r == timestamp_text_order(left@, right@),
{
    if is_ascii_digits(left) && is_ascii_digits(right) {
        let a = strip_leading_zeros(left);
        let b = strip_leading_zeros(right);
        if a.len() < b.len() {
            Order::Less
        } else if a.len() > b.len() {
            Order::Greater
        } else {
            order_chars(&a, &b)
        }
    } else {
        order_chars(left, right)
    }
}

/// Compares two timestamp strings: numerically when both are digit
/// strings (leading zeros ignored), lexicographically otherwise.
pub fn compare_timestamp_strings(left: &str, right: &str) -> (r: Order)
    ensures
        r == timestamp_text_order(left@, right@),
{
    compare_timestamp_chars(&crate::text::chars_of(left), &crate::text::chars_of(right))
}

/// `10^e`.
pub open spec fn pow10(e: nat) -> nat
    decreases e,
{
    if e == 0 {
        1
    } else {
        10 * pow10((e - 1) as nat)
    }
}

pub proof fn lemma_pow10_grows(a: nat, b: nat)
    requires
        a <= b,
    ensures
        1 <= pow10(a) <= pow10(b),
    decreases b,
{
    if a < b {
        lemma_pow10_grows(a, (b - 1) as nat);
    } else if a > 0 {
        lemma_pow10_grows((a - 1) as nat, (a - 1) as nat);
    }
}

/// Three-way order of two integers.
pub open spec fn int_order(a: int, b: int) -> Order {
    if a < b {
        Order::Less
    } else if a == b {
        Order::Equal
    } else {
        Order::Greater
    }
}

proof fn lemma_value_concat(p: Seq<char>, q: Seq<char>)
    ensures
        digits_value(p + q) == digits_value(p) * pow10(q.len()) + digits_value(q),
    decreases q.len(),
{
    if q.len() == 0 {
        assert(p + q =~= p);
        assert(pow10(0) == 1);
        assert(digits_value(q) == 0);
        assert(digits_value(p) * 1 == digits_value(p));
    } else {
        lemma_value_concat(p, q.drop_last());
        assert((p + q).drop_last() =~= p + q.drop_last());
        assert((p + q).last() == q.last());
        let a = digits_value(p);
        let b = pow10(q.drop_last().len());
        let c = digits_value(q.drop_last());
        assert(pow10(q.len()) == 10 * b);
        assert((a * b + c) * 10 + digit_value(q.last()) == a * (10 * b) + (c * 10 + digit_value(
            q.last(),
        ))) by (nonlinear_arith);
    }
}

proof fn lemma_value_below(s: Seq<char>)
    requires
        all_digits(s),
    ensures
        digits_value(s) < pow10(s.len()),
    decreases s.len(),
{
    if s.len() > 0 {
        let t = s.drop_last();
        assert(all_digits(t)) by {
            assert forall|i: int| 0 <= i < t.len() implies is_digit(#[trigger] t[i]) by {
                assert(t[i] == s[i]);
            }
        }
        lemma_value_below(t);
        assert(is_digit(s[s.len() - 1]));
        let v = digits_value(t);
        let p = pow10(t.len());
        assert(v * 10 + digit_value(s.last()) < p * 10) by (nonlinear_arith)
            requires
                v < p,
                digit_value(s.last()) < 10,
        ;
    }
}

proof fn lemma_value_zeros(s: Seq<char>)
    requires
        forall|i: int| 0 <= i < s.len() ==> #[trigger] s[i] == '0',
    ensures
        digits_value(s) == 0,
    decreases s.len(),
{
    if s.len() > 0 {
        lemma_value_zeros(s.drop_last());
    }
}

proof fn lemma_value_split_first(s: Seq<char>)
    requires
        s.len() > 0,
        all_digits(s),
    ensures
        digits_value(s) == digit_value(s[0]) * pow10((s.len() - 1) as nat) + digits_value(
            s.drop_first(),
        ),
        digits_value(s.drop_first()) < pow10((s.len() - 1) as nat),
{
    assert(s =~= seq![s[0]] + s.drop_first());
    lemma_value_concat(seq![s[0]], s.drop_first());
    assert(seq![s[0]].drop_last() =~= Seq::<char>::empty());
    assert(digits_value(Seq::<char>::empty()) == 0);
    assert(seq![s[0]].last() == s[0]);
    assert(digits_value(seq![s[0]]) == digit_value(s[0]));
    assert(all_digits(s.drop_first())) by {
        assert forall|i: int| 0 <= i < s.drop_first().len() implies is_digit(
            #[trigger] s.drop_first()[i],
        ) by {
            assert(s.drop_first()[i] == s[i + 1]);
        }
    }
    lemma_value_below(s.drop_first());
}

proof fn lemma_lt_from_shift(a: Seq<char>, b: Seq<char>, i: int)
    requires
        0 <= i,
        a.len() > 0,
        b.len() > 0,
    ensures
        lt_from(a, b, i + 1) == lt_from(a.drop_first(), b.drop_first(), i),
    decreases a.len() - i,
{
    if i + 1 < b.len() && i + 1 < a.len() && a[i + 1] == b[i + 1] {
        lemma_lt_from_shift(a, b, i + 1);
    }
}

proof fn lemma_same_length_order(a: Seq<char>, b: Seq<char>)
    requires
        a.len() == b.len(),
        all_digits(a),
        all_digits(b),
    ensures
        text_lt(a, b) <==> digits_value(a) < digits_value(b),
        a == b <==> digits_value(a) == digits_value(b),
    decreases a.len(),
{
    if a.len() > 0 {
        lemma_value_split_first(a);
        lemma_value_split_first(b);
        let n = (a.len() - 1) as nat;
        let p = pow10(n);
        let (x, y) = (digit_value(a[0]), digit_value(b[0]));
        let (u, w) = (digits_value(a.drop_first()), digits_value(b.drop_first()));
        assert(is_digit(a[0]) && is_digit(b[0]));
        if a[0] == b[0] {
            assert(all_digits(a.drop_first())) by {
                assert forall|i: int| 0 <= i < a.drop_first().len() implies is_digit(
                    #[trigger] a.drop_first()[i],
                ) by {
                    assert(a.drop_first()[i] == a[i + 1]);
                }
            }
            assert(all_digits(b.drop_first())) by {
                assert forall|i: int| 0 <= i < b.drop_first().len() implies is_digit(
                    #[trigger] b.drop_first()[i],
                ) by {
                    assert(b.drop_first()[i] == b[i + 1]);
                }
            }
            lemma_same_length_order(a.drop_first(), b.drop_first());
            lemma_lt_from_shift(a, b, 0);
            if a.drop_first() == b.drop_first() {
                assert forall|i: int| 0 <= i < a.len() implies a[i] == b[i] by {
                    if i > 0 {
                        assert(a[i] == a.drop_first()[i - 1]);
                        assert(b[i] == b.drop_first()[i - 1]);
                    }
                }
                assert(a =~= b);
            }
            if a == b {
                assert(a.drop_first() =~= b.drop_first());
            }
        } else {
            assert(a != b);
            if (a[0] as int) < (b[0] as int) {
                assert(x < y);
                assert(x * p + u < y * p + w) by (nonlinear_arith)
                    requires
                        x < y,
                        u < p,
                        0 <= w,
                ;
            } else {
                assert(y < x);
                assert(y * p + w < x * p + u) by (nonlinear_arith)
                    requires
                        y < x,
                        w < p,
                        0 <= u,
                ;
            }
        }
    } else {
        assert(a =~= b);
    }
}

proof fn lemma_strip_zeros(s: Seq<char>)
    requires
        is_digit_text(s),
    ensures
        is_digit_text(strip_zeros(s)),
        digits_value(strip_zeros(s)) == digits_value(s),
        strip_zeros(s).len() > 1 ==> strip_zeros(s)[0] != '0',
{
    let k = leading_zeros(s) as int;
    lemma_leading_zeros_count(s);
    let t = s.skip(k);
    assert(s =~= s.subrange(0, k) + t);
    lemma_value_concat(s.subrange(0, k), t);
    assert forall|i: int| 0 <= i < k implies #[trigger] s.subrange(0, k)[i] == '0' by {
        assert(s.subrange(0, k)[i] == s[i]);
    }
    lemma_value_zeros(s.subrange(0, k));
    assert(all_digits(t)) by {
        assert forall|i: int| 0 <= i < t.len() implies is_digit(#[trigger] t[i]) by {
            assert(t[i] == s[k + i]);
        }
    }
    if t.len() == 0 {
        assert(seq!['0'].drop_last() =~= Seq::<char>::empty());
        assert(digits_value(Seq::<char>::empty()) == 0);
        assert(seq!['0'].last() == '0');
        assert(digits_value(seq!['0']) == 0);
        assert(digits_value(t) == 0);
        assert(pow10(0) == 1);
        assert(digits_value(s) == 0);
    } else {
        assert(t[0] == s[k]);
    }
}

proof fn lemma_leading_zeros_count(s: Seq<char>)
    ensures
        leading_zeros(s) <= s.len(),
        forall|j: int| 0 <= j < leading_zeros(s) ==> #[trigger] s[j] == '0',
        leading_zeros(s) < s.len() ==> s[leading_zeros(s) as int] != '0',
    decreases s.len(),
{
    if s.len() > 0 && s[0] == '0' {
        lemma_leading_zeros_count(s.drop_first());
        assert forall|j: int| 0 <= j < leading_zeros(s) implies #[trigger] s[j] == '0' by {
            if j > 0 {
                assert(s[j] == s.drop_first()[j - 1]);
            }
        }
        if leading_zeros(s) < s.len() {
            assert(s[leading_zeros(s) as int] == s.drop_first()[leading_zeros(s) - 1]);
        }
    }
}

/// Digit strings are timestamps that compare as the numbers they denote,
/// whatever their leading zeros.
pub proof fn law_digit_timestamps_compare_numerically(l: Seq<char>, r: Seq<char>)
    requires
        is_digit_text(l),
        is_digit_text(r),
    ensures
        timestamp_text_order(l, r) == int_order(digits_value(l) as int, digits_value(r) as int),
{
    lemma_strip_zeros(l);
    lemma_strip_zeros(r);
    let a = strip_zeros(l);
    let b = strip_zeros(r);
    if a.len() < b.len() {
        lemma_value_below(a);
        lemma_value_split_first(b);
        lemma_pow10_grows(a.len(), (b.len() - 1) as nat);
        assert(digit_value(b[0]) >= 1);
        assert(digit_value(b[0]) * pow10((b.len() - 1) as nat) >= pow10((b.len() - 1) as nat))
            by (nonlinear_arith)
            requires
                digit_value(b[0]) >= 1,
        ;
    } else if a.len() > b.len() {
        lemma_value_below(b);
        lemma_value_split_first(a);
        lemma_pow10_grows(b.len(), (a.len() - 1) as nat);
        assert(digit_value(a[0]) >= 1);
        assert(digit_value(a[0]) * pow10((a.len() - 1) as nat) >= pow10((a.len() - 1) as nat))
            by (nonlinear_arith)
            requires
                digit_value(a[0]) >= 1,
        ;
    } else {
        lemma_same_length_order(a, b);
    }
}

// ---------------------------------------------------------------------------
// Selector lists
// ---------------------------------------------------------------------------

/// The pieces of `s` between occurrences of `sep`.
pub open spec fn split_at_char(s: Seq<char>, sep: char) -> Seq<Seq<char>>
    decreases s.len(),
{
    if s.len() == 0 {
        seq![Seq::empty()]
    } else {
        let prev = split_at_char(s.drop_last(), sep);
        if s.last() == sep {
            prev.push(Seq::empty())
        } else {
            prev.update(prev.len() - 1, prev.last().push(s.last()))
        }
    }
}

pub proof fn lemma_split_nonempty(s: Seq<char>, sep: char)
    ensures
        split_at_char(s, sep).len() >= 1,
    decreases s.len(),
{
    if s.len() > 0 {
        lemma_split_nonempty(s.drop_last(), sep);
    }
}

/// `s` without leading white space.
pub open spec fn trim_start(s: Seq<char>) -> Seq<char>
    decreases s.len(),
{
    if s.len() > 0 && is_space(s[0]) {
        trim_start(s.drop_first())
    } else {
        s
    }
}

/// `s` without trailing white space.
pub open spec fn trim_end(s: Seq<char>) -> Seq<char>
    decreases s.len(),
{
    if s.len() > 0 && is_space(s.last()) {
        trim_end(s.drop_last())
    } else {
        s
    }
}

/// `s` without surrounding white space.
pub open spec fn trim(s: Seq<char>) -> Seq<char> {
    trim_end(trim_start(s))
}

/// The trimmed pieces that are not empty, in order.
pub open spec fn kept_pieces(pieces: Seq<Seq<char>>) -> Seq<Seq<char>>
    decreases pieces.len(),
{
    if pieces.len() == 0 {
        Seq::empty()
    } else {
        let prev = kept_pieces(pieces.drop_last());
        let t = trim(pieces.last());
        if t.len() > 0 {
            prev.push(t)
        } else {
            prev
        }
    }
}

/// The selectors of a comma-separated list: trimmed, empty ones dropped.
pub open spec fn comma_separated(s: Seq<char>) -> Seq<Seq<char>> {
    kept_pieces(split_at_char(s, ','))
}

/// The models of a list of character vectors.
pub open spec fn char_seqs(v: Seq<Vec<char>>) -> Seq<Seq<char>> {
    Seq::new(v.len(), |i: int| v[i]@)
}

pub(crate) fn split_chars(s: &Vec<char>, sep: char) -> (r: Vec<Vec<char>>)
    ensures
        char_seqs(r@) == split_at_char(s@, sep),
{
    let mut pieces: Vec<Vec<char>> = Vec::new();
    let mut current: Vec<char> = Vec::new();
    let mut i: usize = 0;
    while i < s.len()
        invariant
            i <= s.len(),
            char_seqs(pieces@).push(current@) == split_at_char(s@.subrange(0, i as int), sep),
        decreases s.len() - i,
    {
        let ghost before = char_seqs(pieces@).push(current@);
        proof {
            let t = s@.subrange(0, i + 1);
            assert(t.drop_last() =~= s@.subrange(0, i as int));
            assert(t.last() == s@[i as int]);
        }
        if s[i] == sep {
            let done = current;
            pieces.push(done);
            current = Vec::new();
            proof {
                assert(char_seqs(pieces@).push(current@) =~= before.push(Seq::empty()));
            }
        } else {
            current.push(s[i]);
            proof {
                assert(char_seqs(pieces@).push(current@) =~= before.update(
                    before.len() - 1,
                    before.last().push(s@[i as int]),
                ));
            }
        }
        i = i + 1;
    }
    pieces.push(current);
    proof {
        assert(s@.subrange(0, i as int) =~= s@);
        assert(char_seqs(pieces@) =~= split_at_char(s@, sep));
    }
    pieces
}

proof fn lemma_trim_start_step(s: Seq<char>, i: int)
    requires
        0 <= i < s.len(),
        is_space(s[i]),
    ensures
        trim_start(s.skip(i)) == trim_start(s.skip(i + 1)),
{
    assert(s.skip(i).drop_first() =~= s.skip(i + 1));
}

proof fn lemma_trim_end_step(s: Seq<char>, j: int)
    requires
        0 < j <= s.len(),
        is_space(s[j - 1]),
    ensures
        trim_end(s.subrange(0, j)) == trim_end(s.subrange(0, j - 1)),
{
    assert(s.subrange(0, j).drop_last() =~= s.subrange(0, j - 1));
}

/// `s` without surrounding white space.
pub fn trim_chars(s: &Vec<char>) -> (r: Vec<char>)
    ensures
        r@ == trim(s@),
{
    let mut i: usize = 0;
    proof {
        assert(s@.skip(0) =~= s@);
    }
    while i < s.len() && char_is_space(s[i])
        invariant
            i <= s.len(),
            trim_start(s@) == trim_start(s@.skip(i as int)),
        decreases s.len() - i,
    {
        proof {
            lemma_trim_start_step(s@, i as int);
        }
        i = i + 1;
    }
    let ghost start = s@.skip(i as int);
    proof {
        assert(s@.skip(0) =~= s@);
        if i < s.len() {
            assert(start[0] == s@[i as int]);
        }
        assert(trim_start(start) == start);
    }
    let mut j: usize = s.len();
    proof {
        assert(start.subrange(0, j - i) =~= start);
    }
    while j > i && char_is_space(s[j - 1])
        invariant
            i <= j <= s.len(),
            start == s@.skip(i as int),
            trim_end(start) == trim_end(start.subrange(0, j - i)),
        decreases j,
    {
        proof {
            lemma_trim_end_step(start, (j - i) as int);
        }
        j = j - 1;
    }
    proof {
        assert(start.subrange(0, (s.len() - i) as int) =~= start);
        let t = start.subrange(0, j - i);
        if j > i {
            assert(t.last() == s@[j - 1]);
        }
        assert(trim_end(t) == t);
    }
    let mut out: Vec<char> = Vec::new();
    let mut k: usize = i;
    while k < j
        invariant
            i <= k <= j,
            j <= s.len(),
            out@ == s@.subrange(i as int, k as int),
        decreases j - k,
    {
        out.push(s[k]);
        proof {
            assert(out@ =~= s@.subrange(i as int, k + 1));
        }
        k = k + 1;
    }
    proof {
        assert(out@ =~= start.subrange(0, j - i));
    }
    out
}

/// Splits a comma-separated list into trimmed, non-empty selectors.
pub fn split_selectors(value: &Vec<char>) -> (r: Vec<Vec<char>>)
    ensures
        char_seqs(r@) == comma_separated(value@),
{
    let pieces = split_chars(value, ',');
    let mut out: Vec<Vec<char>> = Vec::new();
    let mut i: usize = 0;
    while i < pieces.len()
        invariant
            i <= pieces.len(),
            char_seqs(out@) == kept_pieces(char_seqs(pieces@).subrange(0, i as int)),
        decreases pieces.len() - i,
    {
        proof {
            let t = char_seqs(pieces@).subrange(0, i + 1);
            assert(t.drop_last() =~= char_seqs(pieces@).subrange(0, i as int));
            assert(t.last() == pieces@[i as int]@);
        }
        let trimmed = trim_chars(&pieces[i]);
        if trimmed.len() > 0 {
            let ghost before = char_seqs(out@);
            out.push(trimmed);
            proof {
                assert(char_seqs(out@) =~= before.push(trimmed@));
            }
        }
        i = i + 1;
    }
    proof {
        assert(char_seqs(pieces@).subrange(0, i as int) =~= char_seqs(pieces@));
    }
    out
}

// ---------------------------------------------------------------------------
// JSON-pointer segments
// ---------------------------------------------------------------------------

/// A pointer segment with `~0` read as `~` and `~1` as `/`; any other use of
/// `~` makes the segment invalid.
pub open spec fn decode_segment(s: Seq<char>) -> Option<Seq<char>>
    decreases s.len(),
{
    if s.len() == 0 {
        Some(Seq::empty())
    } else if s[0] != '~' {
        match decode_segment(s.drop_first()) {
            Some(rest) => Some(seq![s[0]] + rest),
            None => None,
        }
    } else if s.len() >= 2 && (s[1] == '0' || s[1] == '1') {
        match decode_segment(s.skip(2)) {
            Some(rest) => Some(seq![if s[1] == '0' { '~' } else { '/' }] + rest),
            None => None,
        }
    } else {
        None
    }
}

/// Decodes one pointer segment.
pub fn decode_pointer_segment(s: &Vec<char>) -> (r: Option<Vec<char>>)
    ensures
        r matches Some(v) ==> decode_segment(s@) == Some(v@),
        r is None ==> decode_segment(s@) is None,
{
    let mut out: Vec<char> = Vec::new();
    let mut i: usize = 0;
    proof {
        assert(s@.skip(0) =~= s@);
        if let Some(rest) = decode_segment(s@) {
            assert(out@ + rest =~= rest);
        }
    }
    while i < s.len()
        invariant
            i <= s.len(),
            decode_segment(s@) == match decode_segment(s@.skip(i as int)) {
                Some(rest) => Some(out@ + rest),
                None => None::<Seq<char>>,
            },
        decreases s.len() - i,
    {
        let ghost t = s@.skip(i as int);
        proof {
            assert(t[0] == s@[i as int]);
        }
        if s[i] != '~' {
            proof {
                assert(t.drop_first() =~= s@.skip(i + 1));
                if let Some(rest) = decode_segment(s@.skip(i + 1)) {
                    assert(out@ + (seq![s@[i as int]] + rest) =~= out@.push(s@[i as int]) + rest);
                }
            }
            out.push(s[i]);
            i = i + 1;
        } else if i + 1 < s.len() && (s[i + 1] == '0' || s[i + 1] == '1') {
            let c = if s[i + 1] == '0' {
                '~'
            } else {
                '/'
            };
            proof {
                assert(t[1] == s@[i + 1]);
                assert(t.skip(2) =~= s@.skip(i + 2));
                if let Some(rest) = decode_segment(s@.skip(i + 2)) {
                    assert(out@ + (seq![c] + rest) =~= out@.push(c) + rest);
                }
            }
            out.push(c);
            i = i + 2;
        } else {
            return None;
        }
    }
    proof {
        assert(s@.skip(i as int) =~= Seq::<char>::empty());
        assert(out@ + Seq::<char>::empty() =~= out@);
    }
    Some(out)
}

/// The array index that a pointer segment names: digits with an optional
/// leading `+`, as `usize::from_str` reads them.
pub open spec fn index_value(seg: Seq<char>) -> Option<nat> {
    let d = if seg.len() > 0 && seg[0] == '+' {
        seg.skip(1)
    } else {
        seg
    };
    if d.len() > 0 && all_digits(d) && digits_value(d) <= usize::MAX {
        Some(digits_value(d))
    } else {
        None
    }
}

/// Reads an array index from a pointer segment.
pub fn parse_index(seg: &Vec<char>) -> (r: Option<usize>)
    ensures
        r matches Some(v) ==> index_value(seg@) == Some(v as nat),
        r is None ==> index_value(seg@) is None,
{
    let start: usize = if seg.len() > 0 && seg[0] == '+' {
        1
    } else {
        0
    };
    proof {
        if start == 0 {
            assert(seg@.skip(0) =~= seg@);
        }
    }
    if start == seg.len() {
        return None;
    }
    match digits_at_most(seg, start, usize::MAX as u128) {
        Some(v) => Some(v as usize),
        None => None,
    }
}

} // verus!
