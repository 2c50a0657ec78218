//! The one place where the tokenizer meets the regex engine.
//!
//! The scanner never interprets patterns itself: it hands a pattern string
//! and the remaining input to [`regex_find`] and works with the reported
//! character offsets. What a regular expression matches is far too large to
//! restate here, so the outcome is only given a name, [`find_of`]; everything
//! the rest of the crate proves about scanning holds for whatever value the
//! engine returns, given only that the offsets lie inside the text.

use vstd::prelude::*;

verus! {

/// The leftmost match that the regex engine reports for `pattern` against
/// `text`, as half-open character offsets into `text`, or `None` if the
/// pattern does not match `text` (or is not a valid pattern). The result is a
/// function of the two strings alone.
pub uninterp spec fn find_of(pattern: Seq<char>, text: Seq<char>) -> Option<(usize, usize)>;

/// Relies on `regex::Regex::new` and `regex::Regex::find`: compiling a
/// pattern and searching a text is deterministic in the two strings, and a
/// reported match lies inside the haystack (`Match::start() <= Match::end()`,
/// both on scalar boundaries within it). The byte offsets the engine reports
/// are converted to character offsets before being returned.
#[verifier::external_body]
fn regex_find(pattern: &str, text: &str) -> (r: Option<(usize, usize)>)
    ensures
        r == find_of(pattern@, text@),
        r matches Some(m) ==> m.0 <= m.1 && m.1 <= text@.len(),
{
    let re = match regex::Regex::new(pattern) {
        Ok(re) => re,
        Err(_) => return None,
    };
    match re.find(text) {
        Some(m) => {
            let start = text[..m.start()].chars().count();
            let end = text[..m.end()].chars().count();
            Some((start, end))
        }
        None => None,
    }
}

/// The number of characters that `pattern` matches at the very start of
/// `text`, if it matches there at all. A match that begins later than the
/// first character does not count: the tokenizer only accepts matches
/// anchored at its current position.
pub open spec fn anchored_match_len(pattern: Seq<char>, text: Seq<char>) -> Option<usize> {
    match find_of(pattern, text) {
        Some(m) => if m.0 == 0 && m.1 <= text.len() {
            Some(m.1)
        } else {
            None
        },
        None => None,
    }
}

/// Searches `text` with `pattern` and keeps the match only when it is
/// anchored at the start of `text`.
pub fn anchored_len(pattern: &str, text: &str) -> (r: Option<usize>)
    ensures
        r == anchored_match_len(pattern@, text@),
        r matches Some(n) ==> n <= text@.len(),
{
    match regex_find(pattern, text) {
        Some((start, end)) => if start == 0 {
            Some(end)
        } else {
            None
        },
        None => None,
    }
}

} // verus!
