//! Regular-expression search, through the `regex` crate.
//!
//! Nothing here is proved: each item states what the crate's own
//! documentation and source give, and the rest of the library builds on that.
//! A search goes from the text of a pattern and a haystack to the texts of
//! the matches. The pattern is compiled by `Regex::new` for each search, so
//! that a regex with other settings than the plain ones never comes up.

use vstd::prelude::*;

verus! {

/// The error with which the `regex` crate rejects a pattern.
#[verifier::external_type_specification]
#[verifier::external_body]
pub struct ExRegexError(regex::Error);

/// Whether `Regex::new` compiles `pattern`: the pattern is well formed and
/// its program stays within the size limit that the crate sets by default.
pub uninterp spec fn regex_accepts(pattern: Seq<char>) -> bool;

/// What `Regex::find` yields on `haystack` for the regex that `Regex::new`
/// makes of `pattern`: the text of the leftmost match, if there is one.
pub uninterp spec fn regex_first_match(pattern: Seq<char>, haystack: Seq<char>) -> Option<Seq<char>>;

/// What `Regex::find_iter` yields on `haystack` for the regex that
/// `Regex::new` makes of `pattern`: the texts of the successive
/// non-overlapping matches, in order.
pub uninterp spec fn regex_all_matches(pattern: Seq<char>, haystack: Seq<char>) -> Seq<Seq<char>>;

/// `Regex::new` on `pattern`, then `Regex::find` on `haystack`: the error
/// where the pattern is rejected, else the text of the leftmost match.
#[verifier::external_body]
pub(crate) fn regex_find(pattern: &str, haystack: &str) -> (found: Result<
    Option<String>,
    regex::Error,
>)
    ensures
        found is Ok <==> regex_accepts(pattern@),
        found matches Ok(span) ==> span.deep_view() == regex_first_match(pattern@, haystack@),
{
    match regex::Regex::new(pattern) {
        Ok(re) => Ok(re.find(haystack).map(|m| m.as_str().to_string())),
        Err(e) => Err(e),
    }
}

/// `Regex::new` on `pattern`, then `Regex::find_iter` on `haystack`: the
/// error where the pattern is rejected, else the texts of all matches.
#[verifier::external_body]
pub(crate) fn regex_find_iter(pattern: &str, haystack: &str) -> (found: Result<
    Vec<String>,
    regex::Error,
>)
    ensures
        found is Ok <==> regex_accepts(pattern@),
        found matches Ok(spans) ==> spans.deep_view() == regex_all_matches(pattern@, haystack@),
{
    match regex::Regex::new(pattern) {
        Ok(re) => Ok(re.find_iter(haystack).map(|m| m.as_str().to_string()).collect()),
        Err(e) => Err(e),
    }
}

} // verus!
