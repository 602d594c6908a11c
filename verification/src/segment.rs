//! Unicode segmentation of the input text.
//!
//! The text is split on Unicode word boundaries into spans whose concatenation
//! is the original text; a span counts as a word iff it contains at least one
//! word-forming (alphanumeric-like) character; a word is further split into
//! grapheme clusters, again with concatenation preserved.  The segmentations
//! themselves are performed by the `unicode_segmentation` crate and are given
//! names here; the partition facts stated of them are the ones that crate
//! documents.

use vstd::prelude::*;

use crate::model::concat_all;
use unicode_segmentation::UnicodeSegmentation;

verus! {

/// The spans that splitting `s` on Unicode (UAX #29) word boundaries yields,
/// in order.
pub uninterp spec fn word_spans(s: Seq<char>) -> Seq<Seq<char>>;

/// Whether `s` contains at least one word-forming character, that is, whether
/// splitting `s` on word boundaries yields at least one word.
pub uninterp spec fn has_word_char(s: Seq<char>) -> bool;

/// The extended grapheme clusters of `s`, in order.
pub uninterp spec fn graphemes_of(s: Seq<char>) -> Seq<Seq<char>>;

/// Relies on unicode_segmentation's `split_word_bounds`: the substrings of
/// `input` between UAX #29 word boundaries, in order; its documentation states
/// that their concatenation is just the original string.
#[verifier::external_body]
pub(crate) fn split_word_bounds_vec(input: &str) -> (r: Vec<String>)
    ensures
        r@.map_values(|p: String| p@) == word_spans(input@),
        concat_all(r@.map_values(|p: String| p@)) == input@,
{
    UnicodeSegmentation::split_word_bounds(input).map(|w| w.to_string()).collect()
}

/// Relies on unicode_segmentation's `unicode_words`: it yields exactly those
/// word-bounded substrings that contain an alphanumeric character, so `span`
/// contains a word-forming character iff the iterator is non-empty.
#[verifier::external_body]
pub(crate) fn has_word(span: &str) -> (r: bool)
    ensures
        r == has_word_char(span@),
{
    UnicodeSegmentation::unicode_words(span).next().is_some()
}

/// Relies on unicode_segmentation's `graphemes` with extended grapheme
/// clusters: the substrings of `span` between UAX #29 grapheme-cluster
/// boundaries, in order; as for word bounds, their concatenation is the
/// original string.
#[verifier::external_body]
pub(crate) fn graphemes_vec(span: &str) -> (r: Vec<String>)
    ensures
        r@.map_values(|p: String| p@) == graphemes_of(span@),
        concat_all(r@.map_values(|p: String| p@)) == span@,
{
    UnicodeSegmentation::graphemes(span, true).map(|g| g.to_string()).collect()
}

} // verus!
