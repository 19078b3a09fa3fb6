//! The guard of a read-only run: whether a statement may change data.

use vstd::prelude::*;

verus! {

/// What the `regex` crate answers for a pattern and a text: whether the
/// pattern matches anywhere in the text, or `None` where the pattern does
/// not compile.
pub uninterp spec fn pattern_found(pattern: Seq<char>, text: Seq<char>) -> Option<bool>;

/// Searches `text` for `pattern` with the `regex` crate.
///
/// The body compiles the pattern with `regex::Regex::new`, which fails on a
/// pattern that is not valid or too large, and asks `regex::Regex::is_match`
/// whether there is a match anywhere in the text. The contract claims only
/// that the answer is a function of the pattern and the text.
#[verifier::external_body]
pub(crate) fn find_pattern(pattern: &str, text: &str) -> (found: Option<bool>)
    ensures
        found == pattern_found(pattern@, text@),
{
    match regex::Regex::new(pattern) {
        Ok(regex) => Some(regex.is_match(text)),
        Err(_) => None,
    }
}

/// The pattern of a statement that changes data: the word `UPDATE` or the
/// word `DELETE`, in any case.
pub open spec fn destructive_pattern() -> Seq<char> {
    "(?i)\\b(UPDATE|DELETE)\\b"@
}

/// Whether the outcome of the search marks a statement as one that may
/// change data. A search that could not be made counts as a match, so that
/// the guard fails closed.
pub fn is_match_destructive(found: Option<bool>) -> (destructive: bool)
    ensures
        destructive == (found != Some(false)),
{
    match found {
        Some(hit) => hit,
        None => true,
    }
}

/// Whether `query` may change data: whether it holds the word `UPDATE` or
/// the word `DELETE`, in any case.
pub fn is_query_destructive(query: &str) -> (destructive: bool)
    ensures
        destructive == (pattern_found(destructive_pattern(), query@) != Some(false)),
{
    is_match_destructive(find_pattern("(?i)\\b(UPDATE|DELETE)\\b", query))
}

} // verus!
