//! Per-subset gains, recovered from `"Gain">` tags anywhere in a recording.
use vstd::prelude::*;
use vstd::utf8::encode_utf8;

use crate::outside::{gain_tags, gain_tags_of, lossy_of, lossy_text};
use crate::text::{all_digits, capped_digits_value, copy_range, read_digits_capped};

verus! {

/// Number of bytes in the `"Gain">` tag that precedes a gain's digits.
pub const GAIN_TAG_LEN: usize = 7;

/// The gain that one tag match gives: the decimal digits after the tag, capped
/// at `u64::MAX`; none where they are not all ASCII digits.
pub open spec fn gain_of_tag(t: Seq<char>) -> Option<u64> {
    let b = encode_utf8(t);
    let d = b.subrange(7, b.len() as int);
    if b.len() > 7 && all_digits(d) {
        Some(capped_digits_value(d, 18446744073709551615) as u64)
    } else {
        None
    }
}

/// The gains that a list of tag matches gives, in order, skipping those that
/// give none.
pub open spec fn gains_of(tags: Seq<Seq<char>>) -> Seq<u64>
    decreases tags.len(),
{
    if tags.len() == 0 {
        seq![]
    } else {
        gains_of(tags.drop_last()) + match gain_of_tag(tags.last()) {
            Some(g) => seq![g],
            None => seq![],
        }
    }
}

/// The gain list of a recording's header: a zero for subset 0, then one entry
/// per readable gain tag in the header's text.
pub open spec fn recording_gains(data: Seq<u8>) -> Seq<u64> {
    seq![0u64] + gains_of(gain_tags_of(lossy_of(data)))
}

/// Reads the gain of one tag match.
pub fn gain_from_tag(t: &str) -> (r: Option<u64>)
    ensures
        r == gain_of_tag(t@),
{
    let b = t.as_bytes();
    if b.len() <= GAIN_TAG_LEN {
        return None;
    }
    let d = copy_range(b, GAIN_TAG_LEN, b.len());
    assert(b@ == encode_utf8(t@));
    let mut i: usize = 0;
    while i < d.len()
        invariant
            i <= d@.len(),
            b@ == encode_utf8(t@),
            d@ == b@.subrange(7, b@.len() as int),
            b@.len() > 7,
            forall|j: int| 0 <= j < i ==> crate::text::is_digit(#[trigger] d@[j]),
        decreases d@.len() - i,
    {
        if !(48u8 <= d[i] && d[i] <= 57u8) {
            assert(!crate::text::is_digit(d@[i as int]));
            assert(!all_digits(d@));
            assert(d@ == encode_utf8(t@).subrange(7, encode_utf8(t@).len() as int));
            return None;
        }
        i = i + 1;
    }
    let v = read_digits_capped(d.as_slice(), 18446744073709551614);
    if v > 18446744073709551615 {
        Some(18446744073709551615)
    } else {
        Some(v as u64)
    }
}

/// The gains of a list of tag matches (see `gains_of`).
pub fn gains_from_tags(tags: &Vec<String>) -> (r: Vec<u64>)
    ensures
        r@ == gains_of(tags@.map_values(|t: String| t@)),
{
    let mut r: Vec<u64> = Vec::new();
    let mut k: usize = 0;
    while k < tags.len()
        invariant
            k <= tags@.len(),
            r@ == gains_of(tags@.map_values(|t: String| t@).subrange(0, k as int)),
        decreases tags@.len() - k,
    {
        let ghost tv = tags@.map_values(|t: String| t@);
        assert(tv.subrange(0, k as int + 1).drop_last() =~= tv.subrange(0, k as int));
        match gain_from_tag(tags[k].as_str()) {
            Some(g) => r.push(g),
            None => {},
        }
        k = k + 1;
        assert(r@ =~= gains_of(tv.subrange(0, k as int)));
    }
    assert(tags@.map_values(|t: String| t@).subrange(0, k as int) =~= tags@.map_values(
        |t: String| t@,
    ));
    r
}

/// The gain list of a recording's header bytes (see `recording_gains`).
pub fn recording_gain_list(data: &[u8]) -> (r: Vec<u64>)
    ensures
        r@ == recording_gains(data@),
{
    let text = lossy_text(data);
    let tags = gain_tags(text.as_str());
    assert(tags@.map_values(|t: String| t@) =~= gain_tags_of(lossy_of(data@)));
    let found = gains_from_tags(&tags);
    let mut r: Vec<u64> = vec![0u64];
    let mut k: usize = 0;
    while k < found.len()
        invariant
            k <= found@.len(),
            r@ == seq![0u64] + found@.subrange(0, k as int),
        decreases found@.len() - k,
    {
        r.push(found[k]);
        k = k + 1;
        assert(r@ =~= seq![0u64] + found@.subrange(0, k as int));
    }
    assert(found@.subrange(0, k as int) =~= found@);
    r
}

} // verus!
