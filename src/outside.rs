//! The calls this library makes into std and outside crates, with what it
//! assumes of each.
use vstd::prelude::*;
use vstd::utf8::{decode_utf8, valid_utf8};

verus! {

/// The text that `String::from_utf8_lossy` makes of a byte string.
pub uninterp spec fn lossy_of(b: Seq<u8>) -> Seq<char>;

/// The texts of the successive, non-overlapping matches of the pattern
/// `"Gain">\d+` in a text, as `regex::Regex::find_iter` yields them.
pub uninterp spec fn gain_tags_of(s: Seq<char>) -> Seq<Seq<char>>;

/// Relies on `String::from_utf8`: it succeeds exactly on valid UTF-8 and then
/// holds the decoded characters.
#[verifier::external_body]
pub(crate) fn text_of(b: &[u8]) -> (r: Option<String>)
    ensures
        r is Some <==> valid_utf8(b@),
        r matches Some(s) ==> s@ == decode_utf8(b@),
{
    String::from_utf8(b.to_vec()).ok()
}

/// Relies on `String::from_utf8_lossy`: its result depends on the bytes alone.
#[verifier::external_body]
pub(crate) fn lossy_text(b: &[u8]) -> (r: String)
    ensures
        r@ == lossy_of(b@),
{
    String::from_utf8_lossy(b).into_owned()
}

/// Relies on `regex::Regex::find_iter` with the pattern `"Gain">\d+`: the
/// matches depend on the text alone.
#[verifier::external_body]
pub(crate) fn gain_tags(text: &str) -> (r: Vec<String>)
    ensures
        r@.len() == gain_tags_of(text@).len(),
        forall|k: int| 0 <= k < r@.len() ==> #[trigger] r@[k]@ == gain_tags_of(text@)[k],
{
    let re = regex::Regex::new("\"Gain\">\\d+").unwrap();
    re.find_iter(text).map(|m| String::from(m.as_str())).collect()
}

} // verus!
