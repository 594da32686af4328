//! The text form of a decimal floating-point number, as Rust's `f32::from_str`
//! documents it:
//! `Sign? ( 'inf' | 'infinity' | 'nan' | Number )`, where
//! `Number ::= ( Digit+ | Digit+ '.' Digit* | Digit* '.' Digit+ ) Exp?`,
//! `Exp ::= [eE] Sign? Digit+`, letters in any case.
use vstd::prelude::*;

use crate::text::{all_digits, is_digit};

verus! {

pub open spec fn is_sign(c: u8) -> bool {
    c == 43u8 || c == 45u8
}

/// Length of an optional leading sign.
pub open spec fn sign_len(s: Seq<u8>) -> int {
    if s.len() > 0 && is_sign(s[0]) {
        1
    } else {
        0
    }
}

/// A byte with ASCII capitals made lower case.
pub open spec fn lower(c: u8) -> u8 {
    if 65u8 <= c <= 90u8 {
        (c + 32) as u8
    } else {
        c
    }
}

/// `s` spells the lower-case word `w`, ignoring case.
pub open spec fn spells(s: Seq<u8>, w: Seq<u8>) -> bool {
    s.len() == w.len() && forall|i: int| 0 <= i < s.len() ==> lower(#[trigger] s[i]) == w[i]
}

pub open spec fn is_special(b: Seq<u8>) -> bool {
    spells(b, seq![105u8, 110u8, 102u8]) || spells(
        b,
        seq![105u8, 110u8, 102u8, 105u8, 110u8, 105u8, 116u8, 121u8],
    ) || spells(b, seq![110u8, 97u8, 110u8])
}

/// Index of the first byte at or after `from` that satisfies `is_x`, or `s.len()`.
pub open spec fn first_index(s: Seq<u8>, from: int, x0: u8, x1: u8) -> int
    decreases s.len() - from,
{
    if from < 0 || from >= s.len() {
        s.len() as int
    } else if s[from] == x0 || s[from] == x1 {
        from
    } else {
        first_index(s, from + 1, x0, x1)
    }
}

/// `Digit+ | Digit+ '.' Digit* | Digit* '.' Digit+`
pub open spec fn mantissa_ok(m: Seq<u8>) -> bool {
    let d = first_index(m, 0, 46u8, 46u8);
    if d >= m.len() {
        m.len() > 0 && all_digits(m)
    } else {
        let int_part = m.subrange(0, d);
        let frac = m.subrange(d + 1, m.len() as int);
        all_digits(int_part) && all_digits(frac) && (int_part.len() > 0 || frac.len() > 0)
    }
}

/// Empty, or `[eE] Sign? Digit+`.
pub open spec fn exponent_ok(x: Seq<u8>) -> bool {
    x.len() == 0 || {
        let r = x.drop_first();
        let digits = r.subrange(sign_len(r), r.len() as int);
        digits.len() > 0 && all_digits(digits)
    }
}

pub open spec fn number_ok(b: Seq<u8>) -> bool {
    let e = first_index(b, 0, 101u8, 69u8);
    mantissa_ok(b.subrange(0, e)) && exponent_ok(b.subrange(e, b.len() as int))
}

/// Whether `s` is the text of a decimal floating-point number.
pub open spec fn float_syntax(s: Seq<u8>) -> bool {
    let b = s.subrange(sign_len(s), s.len() as int);
    is_special(b) || number_ok(b)
}

proof fn lemma_first_index_bounds(s: Seq<u8>, from: int, x0: u8, x1: u8)
    requires
        0 <= from <= s.len(),
    ensures
        from <= first_index(s, from, x0, x1) <= s.len(),
    decreases s.len() - from,
{
    if from < s.len() && !(s[from] == x0 || s[from] == x1) {
        lemma_first_index_bounds(s, from + 1, x0, x1);
    }
}

/// Finds the first `x0` or `x1` in `s[from..]` (see `first_index`).
fn find_first(s: &[u8], from: usize, x0: u8, x1: u8) -> (r: usize)
    requires
        from <= s@.len(),
    ensures
        r == first_index(s@, from as int, x0, x1),
        from <= r <= s@.len(),
{
    proof {
        lemma_first_index_bounds(s@, from as int, x0, x1);
    }
    let mut i: usize = from;
    while i < s.len() && s[i] != x0 && s[i] != x1
        invariant
            from <= i <= s@.len(),
            first_index(s@, from as int, x0, x1) == first_index(s@, i as int, x0, x1),
        decreases s@.len() - i,
    {
        i = i + 1;
    }
    i
}

/// Whether `s[from..to]` holds decimal digits only.
fn digits_between(s: &[u8], from: usize, to: usize) -> (r: bool)
    requires
        from <= to <= s@.len(),
    ensures
        r == all_digits(s@.subrange(from as int, to as int)),
{
    let mut i: usize = from;
    while i < to
        invariant
            from <= i <= to <= s@.len(),
            forall|j: int| from <= j < i ==> is_digit(#[trigger] s@[j]),
        decreases to - i,
    {
        if !(48u8 <= s[i] && s[i] <= 57u8) {
            assert(s@.subrange(from as int, to as int)[i - from] == s@[i as int]);
            return false;
        }
        i = i + 1;
    }
    assert forall|j: int| 0 <= j < to - from implies is_digit(
        #[trigger] s@.subrange(from as int, to as int)[j],
    ) by {
        assert(s@.subrange(from as int, to as int)[j] == s@[from + j]);
    }
    true
}

/// Whether `s[from..]` spells the lower-case word `w`, ignoring case.
fn spells_from(s: &[u8], from: usize, w: &Vec<u8>) -> (r: bool)
    requires
        from <= s@.len(),
    ensures
        r == spells(s@.subrange(from as int, s@.len() as int), w@),
{
    let ghost b = s@.subrange(from as int, s@.len() as int);
    if s.len() - from != w.len() {
        return false;
    }
    let slen: usize = s.len();
    let mut i: usize = 0;
    while i < w.len()
        invariant
            slen == s@.len(),
            slen - from == w@.len(),
            from <= s@.len(),
            b == s@.subrange(from as int, s@.len() as int),
            b.len() == w@.len(),
            i <= w@.len(),
            forall|j: int| 0 <= j < i ==> lower(#[trigger] b[j]) == w@[j],
        decreases w@.len() - i,
    {
        let c = s[from + i];
        let l: u8 = if 65u8 <= c && c <= 90u8 {
            c + 32
        } else {
            c
        };
        assert(b[i as int] == c);
        if l != w[i] {
            return false;
        }
        i = i + 1;
    }
    true
}

/// Whether `s` is the text of a decimal floating-point number (see `float_syntax`).
pub fn is_float_text(s: &[u8]) -> (r: bool)
    ensures
        r == float_syntax(s@),
{
    let start: usize = if s.len() > 0 && (s[0] == 43u8 || s[0] == 45u8) {
        1
    } else {
        0
    };
    let ghost b = s@.subrange(start as int, s@.len() as int);
    let inf: Vec<u8> = vec![105u8, 110u8, 102u8];
    let infinity: Vec<u8> = vec![105u8, 110u8, 102u8, 105u8, 110u8, 105u8, 116u8, 121u8];
    let nan: Vec<u8> = vec![110u8, 97u8, 110u8];
    assert(inf@ =~= seq![105u8, 110u8, 102u8]);
    assert(infinity@ =~= seq![105u8, 110u8, 102u8, 105u8, 110u8, 105u8, 116u8, 121u8]);
    assert(nan@ =~= seq![110u8, 97u8, 110u8]);
    if spells_from(s, start, &inf) || spells_from(s, start, &infinity) || spells_from(s, start, &nan) {
        return true;
    }
    let len: usize = s.len();
    let e = find_first(s, start, 101u8, 69u8);
    let d = find_first(s, start, 46u8, 46u8);
    proof {
        lemma_first_index_shift(s@, start as int, 101u8, 69u8);
        lemma_first_index_shift(s@, start as int, 46u8, 46u8);
    }
    let mantissa = if d >= e {
        e > start && digits_between(s, start, e)
    } else {
        digits_between(s, start, d) && digits_between(s, d + 1, e) && (d > start || e > d + 1)
    };
    let ghost m = b.subrange(0, e - start);
    assert(m =~= s@.subrange(start as int, e as int));
    if d >= e {
        proof {
            lemma_first_index_within(s@, start as int, e as int, 46u8, 46u8);
        }
        assert(first_index(m, 0, 46u8, 46u8) >= m.len());
    } else {
        proof {
            lemma_first_index_within(s@, start as int, e as int, 46u8, 46u8);
        }
        assert(first_index(m, 0, 46u8, 46u8) == d - start);
        assert(m.subrange(0, d - start) =~= s@.subrange(start as int, d as int));
        assert(m.subrange(d - start + 1, m.len() as int) =~= s@.subrange(d + 1, e as int));
    }
    if !mantissa {
        return false;
    }
    if e == len {
        assert(b.subrange(e - start, b.len() as int).len() == 0);
        return true;
    }
    let es: usize = if e + 1 < len && (s[e + 1] == 43u8 || s[e + 1] == 45u8) {
        e + 2
    } else {
        e + 1
    };
    let ghost x = b.subrange(e - start, b.len() as int);
    assert(x.drop_first() =~= s@.subrange(e + 1, len as int));
    assert(x.drop_first().subrange(sign_len(x.drop_first()), x.drop_first().len() as int)
        =~= s@.subrange(es as int, len as int));
    es < len && digits_between(s, es, len)
}

proof fn lemma_first_index_shift(s: Seq<u8>, start: int, x0: u8, x1: u8)
    requires
        0 <= start <= s.len(),
    ensures
        first_index(s.subrange(start, s.len() as int), 0, x0, x1) == first_index(s, start, x0, x1)
            - start,
{
    lemma_first_index_shift_from(s, start, start, x0, x1);
}

proof fn lemma_first_index_shift_from(s: Seq<u8>, start: int, i: int, x0: u8, x1: u8)
    requires
        0 <= start <= i <= s.len(),
    ensures
        first_index(s.subrange(start, s.len() as int), i - start, x0, x1) == first_index(
            s,
            i,
            x0,
            x1,
        ) - start,
    decreases s.len() - i,
{
    if i < s.len() && !(s[i] == x0 || s[i] == x1) {
        lemma_first_index_shift_from(s, start, i + 1, x0, x1);
    }
}

/// Searching a prefix `s[start..e]` finds the same first match as searching
/// `s[start..]`, when that match lies in the prefix; none otherwise.
proof fn lemma_first_index_within(s: Seq<u8>, start: int, e: int, x0: u8, x1: u8)
    requires
        0 <= start <= e <= s.len(),
    ensures
        first_index(s, start, x0, x1) < e ==> first_index(s.subrange(start, e), 0, x0, x1)
            == first_index(s, start, x0, x1) - start,
        first_index(s, start, x0, x1) >= e ==> first_index(s.subrange(start, e), 0, x0, x1)
            == e - start,
{
    lemma_first_index_within_from(s, start, e, start, x0, x1);
}

proof fn lemma_first_index_within_from(s: Seq<u8>, start: int, e: int, i: int, x0: u8, x1: u8)
    requires
        0 <= start <= i <= e <= s.len(),
    ensures
        first_index(s, i, x0, x1) < e ==> first_index(s.subrange(start, e), i - start, x0, x1)
            == first_index(s, i, x0, x1) - start,
        first_index(s, i, x0, x1) >= e ==> first_index(s.subrange(start, e), i - start, x0, x1)
            == e - start,
    decreases e - i,
{
    lemma_first_index_bounds(s, i, x0, x1);
    if i < e && !(s[i] == x0 || s[i] == x1) {
        lemma_first_index_within_from(s, start, e, i + 1, x0, x1);
    }
}

} // verus!
