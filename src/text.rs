//! Line and field handling for the ASCII header of a recording.
use vstd::prelude::*;

verus! {

/// Index of the first `b'\n'` at or after `from`, or `b.len()` if there is none.
pub open spec fn next_newline(b: Seq<u8>, from: int) -> int
    decreases b.len() - from,
{
    if from >= b.len() {
        b.len() as int
    } else if b[from] == 10u8 {
        from
    } else {
        next_newline(b, from + 1)
    }
}

/// A line without its terminating carriage return, if it has one.
pub open spec fn strip_cr(l: Seq<u8>) -> Seq<u8> {
    if l.len() > 0 && l.last() == 13u8 {
        l.drop_last()
    } else {
        l
    }
}

/// The lines of `b` that start at or after `from`: split at `\n`, each one
/// stripped of a trailing `\r`; a final `\n` does not open an empty line.
pub open spec fn lines_from(b: Seq<u8>, from: int) -> Seq<Seq<u8>>
    decreases b.len() - from,
{
    if from >= b.len() || from < 0 {
        seq![]
    } else {
        let e = next_newline(b, from);
        if e < from || e > b.len() {
            seq![]
        } else if e == b.len() {
            seq![strip_cr(b.subrange(from, e))]
        } else {
            seq![strip_cr(b.subrange(from, e))] + lines_from(b, e + 1)
        }
    }
}

pub open spec fn lines_of(b: Seq<u8>) -> Seq<Seq<u8>> {
    lines_from(b, 0)
}

proof fn lemma_next_newline_bounds(b: Seq<u8>, from: int)
    requires
        0 <= from <= b.len(),
    ensures
        from <= next_newline(b, from) <= b.len(),
        next_newline(b, from) < b.len() ==> b[next_newline(b, from)] == 10u8,
        forall|i: int| from <= i < next_newline(b, from) ==> b[i] != 10u8,
    decreases b.len() - from,
{
    if from < b.len() && b[from] != 10u8 {
        lemma_next_newline_bounds(b, from + 1);
    }
}

/// Copies `b[from..to]` into a new vector.
pub fn copy_range(b: &[u8], from: usize, to: usize) -> (r: Vec<u8>)
    requires
        from <= to <= b@.len(),
    ensures
        r@ == b@.subrange(from as int, to as int),
{
    let mut r: Vec<u8> = Vec::with_capacity(to - from);
    let mut i: usize = from;
    while i < to
        invariant
            from <= i <= to <= b@.len(),
            r@ == b@.subrange(from as int, i as int),
        decreases to - i,
    {
        r.push(b[i]);
        i = i + 1;
        assert(r@ =~= b@.subrange(from as int, i as int));
    }
    r
}

/// Splits `b` into its lines (see `lines_of`).
pub fn split_lines(b: &[u8]) -> (r: Vec<Vec<u8>>)
    ensures
        r@.len() == lines_of(b@).len(),
        forall|k: int| 0 <= k < r@.len() ==> #[trigger] r@[k]@ == lines_of(b@)[k],
{
    let mut r: Vec<Vec<u8>> = Vec::new();
    let mut pos: usize = 0;
    while pos < b.len()
        invariant
            pos <= b@.len(),
            r@.len() + lines_from(b@, pos as int).len() == lines_of(b@).len(),
            forall|k: int| 0 <= k < r@.len() ==> #[trigger] r@[k]@ == lines_of(b@)[k],
            forall|k: int|
                0 <= k < lines_from(b@, pos as int).len() ==> #[trigger] lines_from(
                    b@,
                    pos as int,
                )[k] == lines_of(b@)[r@.len() + k],
        decreases b@.len() - pos,
    {
        proof {
            lemma_next_newline_bounds(b@, pos as int);
        }
        let mut e: usize = pos;
        while e < b.len() && b[e] != 10u8
            invariant
                pos <= e <= b@.len(),
                next_newline(b@, pos as int) == next_newline(b@, e as int),
            decreases b@.len() - e,
        {
            e = e + 1;
        }
        let ghost rest = lines_from(b@, e as int + 1);
        let mut end: usize = e;
        if end > pos && b[end - 1] == 13u8 {
            end = end - 1;
        }
        let line = copy_range(b, pos, end);
        assert(line@ == strip_cr(b@.subrange(pos as int, e as int)));
        assert(lines_from(b@, pos as int) =~= seq![strip_cr(b@.subrange(pos as int, e as int))]
            + rest);
        assert(lines_from(b@, pos as int)[0] == line@);
        let ghost old_len = r@.len();
        r.push(line);
        assert forall|k: int| 0 <= k < rest.len() implies #[trigger] rest[k] == lines_of(
            b@,
        )[r@.len() + k] by {
            assert(rest[k] == lines_from(b@, pos as int)[k + 1]);
        }
        if e < b.len() {
            pos = e + 1;
        } else {
            pos = e;
        }
    }
    r
}

/// Position just past the last `sep0 sep1` pair in `l` that ends at or below
/// `upto`; 0 if there is none.
pub open spec fn entry_start_below<A>(l: Seq<A>, upto: int, sep0: A, sep1: A) -> int
    decreases upto,
{
    if upto < 2 {
        0
    } else if l[upto - 2] == sep0 && l[upto - 1] == sep1 {
        upto
    } else {
        entry_start_below(l, upto - 1, sep0, sep1)
    }
}

/// The value of a header line `label: value`: what follows the last `": "`,
/// or nothing when the line holds none.
pub open spec fn entry_of<A>(l: Seq<A>, colon: A, space: A) -> Seq<A> {
    let start = entry_start_below(l, l.len() as int, colon, space);
    if start == 0 {
        seq![]
    } else {
        l.subrange(start, l.len() as int)
    }
}

/// `entry_of` on the bytes of a line.
pub open spec fn byte_entry(l: Seq<u8>) -> Seq<u8> {
    entry_of(l, 58u8, 32u8)
}

/// The value part of a header line, as bytes.
pub fn entry_bytes(l: &[u8]) -> (r: Vec<u8>)
    ensures
        r@ == byte_entry(l@),
{
    let mut upto: usize = l.len();
    while upto >= 2 && !(l[upto - 2] == 58u8 && l[upto - 1] == 32u8)
        invariant
            upto <= l@.len(),
            entry_start_below(l@, l@.len() as int, 58u8, 32u8) == entry_start_below(
                l@,
                upto as int,
                58u8,
                32u8,
            ),
        decreases upto,
    {
        upto = upto - 1;
    }
    if upto < 2 {
        return Vec::new();
    }
    copy_range(l, upto, l.len())
}

/// The value of a header line `label: value`: the text after the last `": "`,
/// or an empty text when the line holds none.
pub fn get_entry(line: &str) -> (r: String)
    ensures
        r@ == entry_of(line@, ':', ' '),
{
    let n: usize = line.unicode_len();
    let mut upto: usize = n;
    while upto >= 2 && !(line.get_char(upto - 2) == ':' && line.get_char(upto - 1) == ' ')
        invariant
            upto <= n == line@.len(),
            entry_start_below(line@, n as int, ':', ' ') == entry_start_below(
                line@,
                upto as int,
                ':',
                ' ',
            ),
        decreases upto,
    {
        upto = upto - 1;
    }
    if upto < 2 {
        return String::new();
    }
    String::from_str(line.substring_char(upto, n))
}

pub open spec fn is_digit(c: u8) -> bool {
    48u8 <= c <= 57u8
}

/// The number that a string of decimal digits writes.
pub open spec fn digits_value(d: Seq<u8>) -> nat
    decreases d.len(),
{
    if d.len() == 0 {
        0
    } else {
        digits_value(d.drop_last()) * 10 + (d.last() - 48) as nat
    }
}

pub open spec fn all_digits(d: Seq<u8>) -> bool {
    forall|i: int| 0 <= i < d.len() ==> is_digit(#[trigger] d[i])
}

/// The digits of an unsigned number: the text without one leading `+`.
pub open spec fn unsigned_digits(s: Seq<u8>) -> Seq<u8> {
    if s.len() > 0 && s[0] == 43u8 {
        s.drop_first()
    } else {
        s
    }
}

/// What parsing `s` as an unsigned integer no larger than `max` gives: an
/// optional `+`, then one or more decimal digits whose value is at most `max`.
pub open spec fn parse_unsigned_spec(s: Seq<u8>, max: nat) -> Option<nat> {
    let d = unsigned_digits(s);
    if d.len() > 0 && all_digits(d) && digits_value(d) <= max {
        Some(digits_value(d))
    } else {
        None
    }
}

/// The value of a nonempty digit string, capped at `cap`.
pub open spec fn capped_digits_value(d: Seq<u8>, cap: nat) -> nat {
    if digits_value(d) <= cap {
        digits_value(d)
    } else {
        cap
    }
}

/// Reads the digits `d` (all decimal digits) as a number; any value above
/// `cap` comes back as `cap + 1`.
pub fn read_digits_capped(d: &[u8], cap: u64) -> (r: u128)
    requires
        all_digits(d@),
    ensures
        r == capped_digits_value(d@, cap as nat + 1),
{
    let mut v: u128 = 0;
    let mut i: usize = 0;
    while i < d.len()
        invariant
            i <= d@.len(),
            all_digits(d@),
            v as nat == capped_digits_value(d@.subrange(0, i as int), cap as nat + 1),
        decreases d@.len() - i,
    {
        let ghost pre = d@.subrange(0, i as int);
        let ghost next = d@.subrange(0, i as int + 1);
        assert(next.drop_last() =~= pre);
        assert(next.last() == d@[i as int]);
        assert(is_digit(d@[i as int]));
        let digit: u128 = (d[i] - 48u8) as u128;
        if v > cap as u128 {
            assert(digits_value(pre) > cap);
            assert(digits_value(next) >= digits_value(pre)) by (nonlinear_arith)
                requires
                    digits_value(next) == digits_value(pre) * 10 + digit,
            ;
        } else {
            assert(v * 10 + digit <= 10 * 18446744073709551615 + 9) by (nonlinear_arith)
                requires
                    v <= 18446744073709551615,
                    digit <= 9,
            ;
            v = v * 10 + digit;
            if v > cap as u128 + 1 {
                v = cap as u128 + 1;
            }
        }
        i = i + 1;
        assert(d@.subrange(0, i as int) == next);
    }
    assert(d@.subrange(0, d@.len() as int) =~= d@);
    v
}

/// Parses `s` as an unsigned integer no larger than `max`, as `str::parse`
/// does for Rust's unsigned integer types.
pub fn parse_unsigned(s: &[u8], max: u64) -> (r: Option<u64>)
    ensures
        r matches Some(v) ==> parse_unsigned_spec(s@, max as nat) == Some(v as nat),
        r is None ==> parse_unsigned_spec(s@, max as nat) is None,
{
    let start: usize = if s.len() > 0 && s[0] == 43u8 {
        1
    } else {
        0
    };
    let ghost d = unsigned_digits(s@);
    assert(d =~= s@.subrange(start as int, s@.len() as int));
    if start >= s.len() {
        return None;
    }
    let mut i: usize = start;
    while i < s.len()
        invariant
            start <= i <= s@.len(),
            d == unsigned_digits(s@),
            d =~= s@.subrange(start as int, s@.len() as int),
            forall|j: int| 0 <= j < i - start ==> is_digit(#[trigger] d[j]),
        decreases s@.len() - i,
    {
        if !(48u8 <= s[i] && s[i] <= 57u8) {
            assert(d[i - start] == s@[i as int]);
            assert(!is_digit(d[i - start]));
            assert(!all_digits(d));
            return None;
        }
        i = i + 1;
    }
    let digits = copy_range(s, start, s.len());
    let v = read_digits_capped(digits.as_slice(), max);
    if v > max as u128 {
        None
    } else {
        Some(v as u64)
    }
}

} // verus!
