//! Canonical rendering of number texts.
//!
//! A number keeps the text of its shortest round-trip rendering. The
//! canonical form writes an integer as it is and a non-integer with its
//! shortest digits `d[0].d[1..] × 10^n` as follows: when `n + 1` lies in
//! `[-5, 21]`, fixed notation with at least one fractional digit (`1230.0`,
//! `0.000001`); otherwise scientific `d.ddde<n>` with no `+`, no zero padding
//! and no `.0` for a single digit (`2e34`); zero is `0.0` or `-0.0`.
use vstd::prelude::*;

use crate::scalar::{
    all_digits, digits_value, int_text, integer_of, integer_text, integer_value, is_digit,
    leading_zeros, lemma_digits_value_prefix, lemma_pow10_grows, pow10,
};

verus! {

/// Index of the first `a` or `b` in `s`, or its length when there is none.
pub open spec fn find_char(s: Seq<char>, a: char, b: char) -> int
    decreases s.len(),
{
    if s.len() == 0 {
        0
    } else {
        let r = find_char(s.drop_last(), a, b);
        if r < s.len() - 1 {
            r
        } else if s.last() == a || s.last() == b {
            s.len() - 1
        } else {
            s.len() as int
        }
    }
}

pub proof fn lemma_find_char(s: Seq<char>, a: char, b: char)
    ensures
        0 <= find_char(s, a, b) <= s.len(),
        forall|j: int| 0 <= j < find_char(s, a, b) ==> #[trigger] s[j] != a && s[j] != b,
        find_char(s, a, b) < s.len() ==> s[find_char(s, a, b)] == a || s[find_char(s, a, b)]
            == b,
    decreases s.len(),
{
    if s.len() > 0 {
        lemma_find_char(s.drop_last(), a, b);
        assert forall|j: int| 0 <= j < s.len() - 1 implies #[trigger] s[j] == s.drop_last()[j] by {}
    }
}

fn find_char_exec(s: &Vec<char>, start: usize, end: usize, a: char, b: char) -> (r: usize)
    requires
        start <= end <= s.len(),
    ensures
        r - start == find_char(s@.subrange(start as int, end as int), a, b),
        start <= r <= end,
{
    let ghost t = s@.subrange(start as int, end as int);
    proof {
        lemma_find_char(t, a, b);
    }
    let mut i: usize = start;
    while i < end
        invariant
            start <= i <= end,
            end <= s.len(),
            t == s@.subrange(start as int, end as int),
            0 <= find_char(t, a, b) <= t.len(),
            forall|j: int| 0 <= j < find_char(t, a, b) ==> #[trigger] t[j] != a && t[j] != b,
            find_char(t, a, b) < t.len() ==> t[find_char(t, a, b)] == a || t[find_char(t, a, b)]
                == b,
            forall|j: int| 0 <= j < i - start ==> #[trigger] t[j] != a && t[j] != b,
        decreases end - i,
    {
        if s[i] == a || s[i] == b {
            proof {
                assert(t[i - start] == s@[i as int]);
            }
            return i;
        }
        proof {
            assert(t[i - start] == s@[i as int]);
        }
        i = i + 1;
    }
    i
}

/// `n` zero characters.
pub open spec fn zeros(n: int) -> Seq<char> {
    Seq::new(if n > 0 {
        n as nat
    } else {
        0
    }, |i: int| '0')
}

/// Number of trailing `'0'` characters.
pub open spec fn trailing_zeros(s: Seq<char>) -> nat
    decreases s.len(),
{
    if s.len() > 0 && s.last() == '0' {
        1 + trailing_zeros(s.drop_last())
    } else {
        0
    }
}

/// The text carries a fraction or an exponent: it renders a non-integer.
pub open spec fn is_float_text(n: Seq<char>) -> bool {
    exists|i: int| 0 <= i < n.len() && (n[i] == '.' || n[i] == 'e' || n[i] == 'E')
}

/// The number without its leading minus sign.
pub open spec fn unsigned_part(n: Seq<char>) -> Seq<char> {
    if n.len() > 0 && n[0] == '-' {
        n.skip(1)
    } else {
        n
    }
}

/// The digits of an exponent, without its sign.
pub open spec fn exponent_digits(s: Seq<char>) -> Seq<char> {
    if s.len() > 0 && (s[0] == '+' || s[0] == '-') {
        s.skip(1)
    } else {
        s
    }
}

/// The value of an exponent text.
pub open spec fn exponent_value(s: Seq<char>) -> int {
    if s.len() > 0 && s[0] == '-' {
        -(digits_value(exponent_digits(s)) as int)
    } else {
        digits_value(exponent_digits(s)) as int
    }
}

/// Largest exponent magnitude the canonical writer accepts.
pub const MAX_EXPONENT_DIGITS_VALUE: u64 = 1_000_000;

/// A JSON number: optional minus, integer part without leading zeros,
/// optional fraction, optional exponent of bounded magnitude.
pub open spec fn number_ok(n: Seq<char>) -> bool {
    let body = unsigned_part(n);
    let e = find_char(body, 'e', 'E');
    let mant = body.subrange(0, e);
    let dot = find_char(mant, '.', '.');
    let ip = mant.subrange(0, dot);
    &&& ip.len() > 0
    &&& all_digits(ip)
    &&& (ip.len() == 1 || ip[0] != '0')
    &&& dot < mant.len() ==> (mant.len() > dot + 1 && all_digits(mant.skip(dot + 1)))
    &&& e < body.len() ==> {
        let d = exponent_digits(body.skip(e + 1));
        d.len() > 0 && all_digits(d) && digits_value(d) <= MAX_EXPONENT_DIGITS_VALUE
    }
}

/// The significant digits of a non-zero number, without leading or
/// trailing zeros, and the power of ten of their last digit. `None` for zero.
pub open spec fn decimal_parts(n: Seq<char>) -> Option<(Seq<char>, int)> {
    let body = unsigned_part(n);
    let e = find_char(body, 'e', 'E');
    let mant = body.subrange(0, e);
    let expo = if e < body.len() {
        exponent_value(body.skip(e + 1))
    } else {
        0
    };
    let dot = find_char(mant, '.', '.');
    let ip = mant.subrange(0, dot);
    let fp = if dot < mant.len() {
        mant.skip(dot + 1)
    } else {
        Seq::empty()
    };
    let all = ip + fp;
    let d1 = all.skip(leading_zeros(all) as int);
    if d1.len() == 0 {
        None
    } else {
        let tz = trailing_zeros(d1);
        Some((d1.subrange(0, d1.len() - tz), expo - fp.len() + tz))
    }
}

/// Text of the significant digits `d` with the power of ten `e2` of their
/// last digit: fixed notation when the decimal point falls in `[-5, 21]`,
/// scientific notation otherwise.
pub open spec fn parts_text(d: Seq<char>, e2: int) -> Seq<char> {
    let dot_offset = e2 + d.len();
    if -5 <= dot_offset <= 21 {
        if dot_offset <= 0 {
            seq!['0', '.'] + zeros(-dot_offset) + d
        } else if dot_offset >= d.len() {
            d + zeros(dot_offset - d.len()) + seq!['.', '0']
        } else {
            d.subrange(0, dot_offset) + seq!['.'] + d.skip(dot_offset)
        }
    } else {
        let head = d.subrange(0, 1);
        let tail = if d.len() > 1 {
            seq!['.'] + d.skip(1)
        } else {
            Seq::<char>::empty()
        };
        head + tail + seq!['e'] + int_text(dot_offset - 1)
    }
}

/// Canonical text of a non-integer number.
pub open spec fn float_text(n: Seq<char>) -> Seq<char> {
    let sign = if n.len() > 0 && n[0] == '-' {
        seq!['-']
    } else {
        Seq::<char>::empty()
    };
    match decimal_parts(n) {
        None => sign + seq!['0', '.', '0'],
        Some((d, e2)) => sign + parts_text(d, e2),
    }
}

/// Canonical text of a number: integers as they are, other numbers in the
/// canonical fixed or scientific form.
pub open spec fn canonical_number_text(n: Seq<char>) -> Seq<char> {
    if is_float_text(n) {
        float_text(n)
    } else {
        n
    }
}

pub(crate) fn push_range(s: &Vec<char>, start: usize, end: usize, out: &mut Vec<char>)
    requires
        start <= end <= s.len(),
    ensures
        final(out)@ == old(out)@ + s@.subrange(start as int, end as int),
{
    let ghost before = out@;
    let mut i: usize = start;
    while i < end
        invariant
            start <= i <= end,
            end <= s.len(),
            out@ == before + s@.subrange(start as int, i as int),
        decreases end - i,
    {
        out.push(s[i]);
        proof {
            assert(out@ =~= before + s@.subrange(start as int, i + 1));
        }
        i = i + 1;
    }
}

fn push_zeros(n: usize, out: &mut Vec<char>)
    ensures
        final(out)@ == old(out)@ + zeros(n as int),
{
    let ghost before = out@;
    let mut i: usize = 0;
    while i < n
        invariant
            i <= n,
            out@ == before + zeros(i as int),
        decreases n - i,
    {
        out.push('0');
        proof {
            assert(out@ =~= before + zeros(i + 1));
        }
        i = i + 1;
    }
}

proof fn lemma_leading_zeros_bound(s: Seq<char>)
    ensures
        leading_zeros(s) <= s.len(),
        forall|j: int| 0 <= j < leading_zeros(s) ==> #[trigger] s[j] == '0',
        leading_zeros(s) < s.len() ==> s[leading_zeros(s) as int] != '0',
    decreases s.len(),
{
    if s.len() > 0 && s[0] == '0' {
        lemma_leading_zeros_bound(s.drop_first());
        assert forall|j: int| 0 <= j < leading_zeros(s) implies #[trigger] s[j] == '0' by {
            if j > 0 {
                assert(s[j] == s.drop_first()[j - 1]);
            }
        }
    }
}

proof fn lemma_trailing_zeros_bound(s: Seq<char>)
    ensures
        trailing_zeros(s) <= s.len(),
        forall|j: int| s.len() - trailing_zeros(s) <= j < s.len() ==> #[trigger] s[j] == '0',
        trailing_zeros(s) < s.len() ==> s[s.len() - trailing_zeros(s) - 1] != '0',
    decreases s.len(),
{
    if s.len() > 0 && s.last() == '0' {
        lemma_trailing_zeros_bound(s.drop_last());
        assert forall|j: int| s.len() - trailing_zeros(s) <= j < s.len() implies #[trigger] s[j]
            == '0' by {
            if j < s.len() - 1 {
                assert(s[j] == s.drop_last()[j]);
            }
        }
    }
}

proof fn lemma_leading_zeros_exact(s: Seq<char>, k: int)
    requires
        0 <= k <= s.len(),
        forall|j: int| 0 <= j < k ==> #[trigger] s[j] == '0',
        k < s.len() ==> s[k] != '0',
    ensures
        leading_zeros(s) == k,
    decreases k,
{
    if k > 0 {
        lemma_leading_zeros_exact(s.drop_first(), k - 1);
    }
}

proof fn lemma_trailing_zeros_exact(s: Seq<char>, k: int)
    requires
        0 <= k <= s.len(),
        forall|j: int| s.len() - k <= j < s.len() ==> #[trigger] s[j] == '0',
        k < s.len() ==> s[s.len() - k - 1] != '0',
    ensures
        trailing_zeros(s) == k,
    decreases k,
{
    if k > 0 {
        let t = s.drop_last();
        assert forall|j: int| t.len() - (k - 1) <= j < t.len() implies #[trigger] t[j] == '0' by {
            assert(t[j] == s[j]);
        }
        if k - 1 < t.len() {
            assert(t[t.len() - (k - 1) - 1] == s[s.len() - k - 1]);
        }
        lemma_trailing_zeros_exact(t, k - 1);
    }
}

pub(crate) fn is_float_exec(n: &Vec<char>) -> (r: bool)
    ensures
        r == is_float_text(n@),
{
    let mut k: usize = 0;
    while k < n.len()
        invariant
            k <= n.len(),
            forall|i: int| 0 <= i < k ==> !(n@[i] == '.' || n@[i] == 'e' || n@[i] == 'E'),
        decreases n.len() - k,
    {
        if n[k] == '.' || n[k] == 'e' || n[k] == 'E' {
            return true;
        }
        k = k + 1;
    }
    false
}

/// The value of the exponent written after position `e`.
fn exponent_at(n: &Vec<char>, e: usize) -> (r: i128)
    requires
        e < n.len(),
        exponent_digits(n@.skip(e + 1)).len() > 0,
        all_digits(exponent_digits(n@.skip(e + 1))),
        digits_value(exponent_digits(n@.skip(e + 1))) <= MAX_EXPONENT_DIGITS_VALUE,
    ensures
        r == exponent_value(n@.skip(e + 1)),
        -(MAX_EXPONENT_DIGITS_VALUE as int) <= r <= MAX_EXPONENT_DIGITS_VALUE,
{
    let ghost es = n@.skip(e + 1);
    let mut p: usize = e + 1;
    let mut exp_negative = false;
    if p < n.len() && (n[p] == '+' || n[p] == '-') {
        exp_negative = n[p] == '-';
        p = p + 1;
    }
    let ghost ed = exponent_digits(es);
    proof {
        assert(ed =~= n@.skip(p as int));
    }
    let mut v: i128 = 0;
    let mut q: usize = p;
    while q < n.len()
        invariant
            p <= q <= n.len(),
            ed == n@.skip(p as int),
            all_digits(ed),
            digits_value(ed) <= MAX_EXPONENT_DIGITS_VALUE,
            v == digits_value(ed.subrange(0, q - p)),
        decreases n.len() - q,
    {
        proof {
            assert(ed.subrange(0, q - p + 1).drop_last() =~= ed.subrange(0, q - p));
            assert(ed[q - p] == n@[q as int]);
            assert(is_digit(ed[q - p]));
            lemma_digits_value_prefix(ed, q - p + 1);
        }
        v = v * 10 + (n[q] as u32 - '0' as u32) as i128;
        q = q + 1;
    }
    proof {
        assert(ed.subrange(0, q - p) =~= ed);
    }
    if exp_negative {
        -v
    } else {
        v
    }
}

/// Appends `parts_text` of the digits `all[lz..end]` with power `e2`.
fn push_parts(all: &Vec<char>, lz: usize, end: usize, e2: i128, out: &mut Vec<char>)
    requires
        lz < end <= all.len(),
        -0x1_0000_0000_0000_0000_0000_0000 < e2 < 0x1_0000_0000_0000_0000_0000_0000,
    ensures
        final(out)@ == old(out)@ + parts_text(all@.subrange(lz as int, end as int), e2 as int),
{
    let ghost start = out@;
    let ghost d = all@.subrange(lz as int, end as int);
    let dlen: usize = end - lz;
    let dot_offset: i128 = e2 + dlen as i128;
    if -5 <= dot_offset && dot_offset <= 21 {
        if dot_offset <= 0 {
            out.push('0');
            out.push('.');
            push_zeros((-dot_offset) as usize, out);
            push_range(all, lz, end, out);
            proof {
                assert(out@ =~= start + parts_text(d, e2 as int));
            }
        } else if dot_offset >= dlen as i128 {
            push_range(all, lz, end, out);
            push_zeros((dot_offset - dlen as i128) as usize, out);
            out.push('.');
            out.push('0');
            proof {
                assert(out@ =~= start + parts_text(d, e2 as int));
            }
        } else {
            let split = lz + dot_offset as usize;
            push_range(all, lz, split, out);
            out.push('.');
            push_range(all, split, end, out);
            proof {
                assert(all@.subrange(lz as int, split as int) =~= d.subrange(0, dot_offset as int));
                assert(all@.subrange(split as int, end as int) =~= d.skip(dot_offset as int));
                assert(out@ =~= start + parts_text(d, e2 as int));
            }
        }
    } else {
        push_range(all, lz, lz + 1, out);
        if dlen > 1 {
            out.push('.');
            push_range(all, lz + 1, end, out);
            proof {
                assert(all@.subrange(lz + 1, end as int) =~= d.skip(1));
            }
        }
        out.push('e');
        proof {
            assert(all@.subrange(lz as int, lz + 1) =~= d.subrange(0, 1));
        }
        let exponent_text = integer_text(dot_offset - 1);
        push_range(&exponent_text, 0, exponent_text.len(), out);
        proof {
            assert(exponent_text@.subrange(0, exponent_text@.len() as int) =~= exponent_text@);
            assert(out@ =~= start + parts_text(d, e2 as int));
        }
    }
}

/// The significant digits of a number and the power of ten of the last one
/// (`decimal_parts`), with the digits as `all[lz..end]`.
#[verifier::spinoff_prover]
#[verifier::rlimit(60)]
pub fn decimal_parts_of(n: &Vec<char>) -> (r: Option<(Vec<char>, usize, usize, i128)>)
    requires
        number_ok(n@),
    ensures
        r is None ==> decimal_parts(n@) is None,
        r matches Some((all, lz, end, e2)) ==> lz < end <= all.len() && decimal_parts(n@) == Some(
            (all@.subrange(lz as int, end as int), e2 as int),
        ) && -0x1_0000_0000_0000_0000_0000 < e2 < 0x1_0000_0000_0000_0000_0000 && all_digits(
            all@,
        ),
{
    let ghost body = unsigned_part(n@);
    let negative = n.len() > 0 && n[0] == '-';
    let b: usize = if negative {
        1
    } else {
        0
    };
    proof {
        if !negative {
            assert(n@.skip(0) =~= n@);
        }
        assert(body =~= n@.subrange(b as int, n.len() as int));
    }
    let e = find_char_exec(n, b, n.len(), 'e', 'E');
    let ghost mant = body.subrange(0, e - b);
    proof {
        assert(mant =~= n@.subrange(b as int, e as int));
    }
    let dot = find_char_exec(n, b, e, '.', '.');
    let mut expo: i128 = 0;
    if e < n.len() {
        proof {
            assert(body.skip(e - b + 1) =~= n@.skip(e + 1));
        }
        expo = exponent_at(n, e);
    }
    proof {
        assert(expo == if e - b < body.len() {
            exponent_value(body.skip(e - b + 1))
        } else {
            0
        });
    }
    // The digits of the integer and fraction parts.
    let mut all: Vec<char> = Vec::new();
    push_range(n, b, dot, &mut all);
    let frac_len: usize = if dot < e {
        e - dot - 1
    } else {
        0
    };
    if dot < e {
        push_range(n, dot + 1, e, &mut all);
    }
    let ghost ip = mant.subrange(0, dot - b);
    let ghost fp = if dot - b < mant.len() {
        mant.skip(dot - b + 1)
    } else {
        Seq::<char>::empty()
    };
    proof {
        assert(ip =~= n@.subrange(b as int, dot as int));
        if dot < e {
            assert(fp =~= n@.subrange(dot + 1, e as int));
        }
        assert(all@ =~= ip + fp);
        assert(fp.len() == frac_len);
        assert forall|j: int| 0 <= j < all@.len() implies is_digit(#[trigger] all@[j]) by {
            if j < ip.len() {
                assert(all@[j] == ip[j]);
            } else {
                assert(all@[j] == fp[j - ip.len()]);
            }
        }
    }
    // Leading and trailing zeros.
    let mut lz: usize = 0;
    while lz < all.len() && all[lz] == '0'
        invariant
            lz <= all.len(),
            forall|j: int| 0 <= j < lz ==> #[trigger] all@[j] == '0',
        decreases all.len() - lz,
    {
        lz = lz + 1;
    }
    proof {
        lemma_leading_zeros_exact(all@, lz as int);
    }
    if lz == all.len() {
        proof {
            assert(all@.skip(lz as int).len() == 0);
        }
        return None;
    }
    let ghost d1 = all@.skip(lz as int);
    let mut end: usize = all.len();
    while end > lz && all[end - 1] == '0'
        invariant
            lz <= end <= all.len(),
            forall|j: int| end <= j < all.len() ==> #[trigger] all@[j] == '0',
        decreases end,
    {
        end = end - 1;
    }
    proof {
        assert(all@[lz as int] != '0');
        assert(end > lz);
        assert forall|j: int| d1.len() - (all.len() - end) <= j < d1.len() implies #[trigger] d1[j]
            == '0' by {
            assert(d1[j] == all@[lz + j]);
        }
        assert(d1[d1.len() - (all.len() - end) - 1] == all@[end - 1]);
        lemma_trailing_zeros_exact(d1, (all.len() - end) as int);
    }
    let ghost d = d1.subrange(0, d1.len() - trailing_zeros(d1));
    proof {
        assert(d =~= all@.subrange(lz as int, end as int));
    }
    let e2: i128 = expo - frac_len as i128 + (all.len() - end) as i128;
    proof {
        assert(decimal_parts(n@) == Some((d, e2 as int)));
    }
    Some((all, lz, end, e2))
}

/// Canonical text of a non-integer number.
fn float_number(n: &Vec<char>) -> (r: Vec<char>)
    requires
        number_ok(n@),
    ensures
        r@ == float_text(n@),
{
    let negative = n.len() > 0 && n[0] == '-';
    let mut out: Vec<char> = Vec::new();
    if negative {
        out.push('-');
    }
    let ghost sign = if n@.len() > 0 && n@[0] == '-' {
        seq!['-']
    } else {
        Seq::<char>::empty()
    };
    proof {
        assert(out@ =~= sign);
    }
    match decimal_parts_of(n) {
        None => {
            out.push('0');
            out.push('.');
            out.push('0');
        },
        Some((all, lz, end, e2)) => {
            push_parts(&all, lz, end, e2, &mut out);
        },
    }
    proof {
        assert(out@ =~= float_text(n@));
    }
    out
}

/// Whether `s[start..end]` is all digits.
fn digits_in(s: &Vec<char>, start: usize, end: usize) -> (r: bool)
    requires
        start <= end <= s.len(),
    ensures
        r == all_digits(s@.subrange(start as int, end as int)),
{
    let mut i: usize = start;
    while i < end
        invariant
            start <= i <= end,
            end <= s.len(),
            forall|j: int| start <= j < i ==> is_digit(#[trigger] s@[j]),
        decreases end - i,
    {
        if !('0' <= s[i] && s[i] <= '9') {
            proof {
                assert(s@.subrange(start as int, end as int)[i - start] == s@[i as int]);
            }
            return false;
        }
        i = i + 1;
    }
    proof {
        assert forall|j: int| 0 <= j < end - start implies is_digit(
            #[trigger] s@.subrange(start as int, end as int)[j],
        ) by {
            assert(s@.subrange(start as int, end as int)[j] == s@[start + j]);
        }
    }
    true
}

/// Whether a number text is one the canonical writer accepts (`number_ok`).
pub fn is_number_text(n: &Vec<char>) -> (r: bool)
    ensures
        r == number_ok(n@),
{
    let ghost body = unsigned_part(n@);
    let negative = n.len() > 0 && n[0] == '-';
    let b: usize = if negative {
        1
    } else {
        0
    };
    proof {
        if !negative {
            assert(n@.skip(0) =~= n@);
        }
        assert(body =~= n@.subrange(b as int, n.len() as int));
    }
    let e = find_char_exec(n, b, n.len(), 'e', 'E');
    let ghost mant = body.subrange(0, e - b);
    proof {
        assert(mant =~= n@.subrange(b as int, e as int));
    }
    let dot = find_char_exec(n, b, e, '.', '.');
    let ghost ip = mant.subrange(0, dot - b);
    proof {
        assert(ip =~= n@.subrange(b as int, dot as int));
    }
    if dot == b || !digits_in(n, b, dot) || (dot - b > 1 && n[b] == '0') {
        proof {
            if dot - b > 1 {
                assert(ip[0] == n@[b as int]);
            }
        }
        return false;
    }
    proof {
        assert(ip[0] == n@[b as int]);
    }
    if dot < e {
        proof {
            assert(mant.skip(dot - b + 1) =~= n@.subrange(dot + 1, e as int));
        }
        if !(e > dot + 1 && digits_in(n, dot + 1, e)) {
            return false;
        }
    }
    if e < n.len() {
        let ghost es = body.skip(e - b + 1);
        proof {
            assert(es =~= n@.skip(e + 1));
        }
        let mut p: usize = e + 1;
        if p < n.len() && (n[p] == '+' || n[p] == '-') {
            p = p + 1;
        }
        proof {
            assert(exponent_digits(es) =~= n@.skip(p as int));
        }
        if p == n.len() {
            return false;
        }
        match crate::scalar::digits_at_most(n, p, MAX_EXPONENT_DIGITS_VALUE as u128) {
            Some(_) => {},
            None => {
                return false;
            },
        }
    }
    true
}

/// Canonical text of a number (see the module documentation).
pub fn canonical_number(n: &Vec<char>) -> (r: Vec<char>)
    requires
        number_ok(n@),
    ensures
        r@ == canonical_number_text(n@),
{
    if is_float_exec(n) {
        float_number(n)
    } else {
        let mut out: Vec<char> = Vec::new();
        push_range(n, 0, n.len(), &mut out);
        proof {
            assert(out@ =~= n@);
        }
        out
    }
}

/// The integer that a number text denotes, when it denotes one: an integer
/// text as written, any other number when its significant digits end at or
/// before the decimal point (`4.0`, `3e2`, `-0.0`).
pub open spec fn integral_value(n: Seq<char>) -> Option<int> {
    if !number_ok(n) {
        None
    } else if !is_float_text(n) {
        integer_value(n)
    } else {
        match decimal_parts(n) {
            None => Some(0),
            Some((d, e2)) => if e2 < 0 {
                None
            } else {
                let m = digits_value(d) * pow10(e2 as nat);
                Some(
                    if n[0] == '-' {
                        -m
                    } else {
                        m as int
                    },
                )
            },
        }
    }
}

/// The integral value of a number text, when it lies in `[lo, hi]`.
#[verifier::loop_isolation(false)]
pub fn integral_in(n: &Vec<char>, lo: i64, hi: i64) -> (r: Option<i64>)
    requires
        -0x1_0000_0000 <= lo <= hi <= 0x1_0000_0000,
    ensures
        r matches Some(x) ==> integral_value(n@) == Some(x as int) && lo <= x <= hi,
        r is None ==> match integral_value(n@) {
            Some(v) => !(lo <= v <= hi),
            None => true,
        },
{
    if !is_number_text(n) {
        return None;
    }
    if !is_float_exec(n) {
        return match integer_of(n) {
            Some(v) => if lo as i128 <= v && v <= hi as i128 {
                Some(v as i64)
            } else {
                None
            },
            None => None,
        };
    }
    match decimal_parts_of(n) {
        None => if lo <= 0 && 0 <= hi {
            Some(0)
        } else {
            None
        },
        Some((all, lz, end, e2)) => {
            if e2 < 0 {
                return None;
            }
            let ghost d = all@.subrange(lz as int, end as int);
            let mut digits: Vec<char> = Vec::new();
            push_range(&all, lz, end, &mut digits);
            proof {
                assert(digits@.skip(0) =~= d);
                assert forall|j: int| 0 <= j < d.len() implies is_digit(#[trigger] d[j]) by {
                    assert(d[j] == all@[lz + j]);
                }
            }
            let limit: u128 = 0x2_0000_0000;
            let m0 = match crate::scalar::digits_at_most(&digits, 0, limit) {
                Some(m) => m,
                None => {
                    proof {
                        lemma_pow10_grows(0, e2 as nat);
                        assert(digits_value(d) * pow10(e2 as nat) >= digits_value(d)) by (nonlinear_arith)
                            requires
                                pow10(e2 as nat) >= 1,
                        ;
                    }
                    return None;
                },
            };
            proof {
                assert(pow10(0) == 1);
                assert(digits_value(d) * 1 == digits_value(d));
            }
            let mut m: u128 = m0;
            let mut k: i128 = 0;
            while k < e2
                invariant
                    0 <= k <= e2,
                    m == digits_value(d) * pow10(k as nat),
                    m <= limit,
                    limit == 0x2_0000_0000,
                decreases e2 - k,
            {
                if m * 10 > limit {
                    proof {
                        lemma_pow10_grows((k + 1) as nat, e2 as nat);
                        let x = digits_value(d);
                        assert(pow10((k + 1) as nat) == 10 * pow10(k as nat));
                        assert(x * pow10(e2 as nat) >= x * pow10((k + 1) as nat)) by (nonlinear_arith)
                            requires
                                pow10(e2 as nat) >= pow10((k + 1) as nat),
                        ;
                        assert(x * pow10((k + 1) as nat) == (x * pow10(k as nat)) * 10) by (nonlinear_arith)
                            requires
                                pow10((k + 1) as nat) == 10 * pow10(k as nat),
                        ;
                        assert(x * pow10(e2 as nat) > 0x2_0000_0000);
                        assert(decimal_parts(n@) == Some((d, e2 as int)));
                    }
                    return None;
                }
                proof {
                    let x = digits_value(d);
                    assert(pow10((k + 1) as nat) == 10 * pow10(k as nat));
                    assert(x * pow10((k + 1) as nat) == (x * pow10(k as nat)) * 10) by (nonlinear_arith)
                        requires
                            pow10((k + 1) as nat) == 10 * pow10(k as nat),
                    ;
                }
                m = m * 10;
                k = k + 1;
            }
            let v: i128 = if n[0] == '-' {
                -(m as i128)
            } else {
                m as i128
            };
            if lo as i128 <= v && v <= hi as i128 {
                Some(v as i64)
            } else {
                None
            }
        },
    }
}

} // verus!
