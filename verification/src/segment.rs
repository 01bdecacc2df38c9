//! Sentence segmentation: Unicode-aware sentence boundary detection through
//! the `unicode-segmentation` crate.

use vstd::prelude::*;

use unicode_segmentation::UnicodeSegmentation;

verus! {

/// What UAX#29 sentence segmentation yields on a text: the substrings, in
/// source order, that contain at least one alphanumeric character.
pub uninterp spec fn sentences_of(t: Seq<char>) -> Seq<Seq<char>>;

/// Relies on unicode-segmentation's `unicode_sentences`: the substrings of
/// the input split on UAX#29 sentence boundaries that contain at least one
/// alphabetic or numeric character, in order. Each such substring is
/// nonempty, and the empty text has none.
#[verifier::external_body]
pub(crate) fn split_into_sentences(text: &str) -> (r: Vec<String>)
    ensures
        r@.map_values(|s: String| s@) == sentences_of(text@),
        forall|i: int| 0 <= i < r@.len() ==> r@[i]@.len() > 0,
        text@.len() == 0 ==> r@.len() == 0,
{
    text.unicode_sentences().map(|s| s.to_string()).collect()
}

} // verus!
