//! The length rule of the short-text classifier.
use vstd::prelude::*;

verus! {

/// Texts of at most this many words are phatic whatever they say.
pub const SHORT_TEXT_WORDS: usize = 3;

/// Texts of at least this many words are never phatic.
pub const LONG_TEXT_WORDS: usize = 15;

/// The decision that the length of a cleaned text makes on its own: phatic for a short
/// text, not phatic for a long one, and `None` in between, where the comparison with
/// example embeddings decides.
pub fn phatic_by_word_count(words: usize) -> (r: Option<bool>)
    ensures
        words <= SHORT_TEXT_WORDS ==> r == Some(true),
        words >= LONG_TEXT_WORDS ==> r == Some(false),
        SHORT_TEXT_WORDS < words < LONG_TEXT_WORDS ==> r is None,
{
    if words <= SHORT_TEXT_WORDS {
        Some(true)
    } else if words >= LONG_TEXT_WORDS {
        Some(false)
    } else {
        None
    }
}

} // verus!
