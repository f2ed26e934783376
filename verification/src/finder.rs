//! Where lines of a given shape begin in a text, found by the `regex` crate.

use vstd::prelude::*;

verus! {

/// The error with which the `regex` crate turns a pattern down.
#[verifier::external_type_specification]
#[verifier::external_body]
pub struct ExPatternError(regex::Error);

/// What the `regex` crate finds of `pattern` in `text` when `^` and `$` match
/// at line breaks: the byte offset at which each match begins, in the order of
/// the matches, or `None` where it does not accept `pattern`.
pub uninterp spec fn line_match_starts(pattern: Seq<char>, text: Seq<char>) -> Option<Seq<usize>>;

/// Compiles `pattern` with `regex::RegexBuilder` in multi-line mode and walks
/// `regex::Regex::find_iter` over `text`, keeping `regex::Match::start` of each
/// match.
///
/// Not proved: that the outcome depends on `pattern` and `text` alone, which is
/// all that the contract claims. It gives that outcome the name
/// [`line_match_starts`] and says nothing of which offsets it holds.
#[verifier::external_body]
pub(crate) fn find_line_starts(pattern: &str, text: &str) -> (found: Result<
    Vec<usize>,
    regex::Error,
>)
    ensures
        match found {
            Ok(starts) => line_match_starts(pattern@, text@) == Some(starts@),
            Err(_) => line_match_starts(pattern@, text@) is None,
        },
{
    let matcher = regex::RegexBuilder::new(pattern).multi_line(true).build()?;
    Ok(matcher.find_iter(text).map(|found| found.start()).collect())
}

} // verus!
