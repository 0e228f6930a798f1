//! The regular-expression engine behind the detector: the `regex` crate.
//!
//! Nothing in this file is proved. It declares the engine's types, gives names
//! to what the engine computes, and states in three small functions how the
//! engine's own functions relate to those names. All proofs about matching
//! rest on these statements.

use regex::Regex;
use vstd::prelude::*;

verus! {

/// A compiled regular expression of the `regex` crate.
#[verifier::external_type_specification]
#[verifier::external_body]
pub struct ExRegex(regex::Regex);

/// What `regex` reports for an expression that it refuses to compile.
#[verifier::external_type_specification]
#[verifier::external_body]
pub struct ExRegexError(regex::Error);

/// Whether `Regex::new` accepts `pattern`: whether it is within the engine's
/// syntax and, compiled, within its default size limit.
pub uninterp spec fn is_valid_pattern(pattern: Seq<char>) -> bool;

/// Whether `Regex::new` made `re`, so that the engine's default options hold
/// for it.
pub uninterp spec fn plainly_compiled(re: Regex) -> bool;

/// The expression that `re` was compiled from: what `Regex::as_str` returns.
pub uninterp spec fn pattern_of(re: Regex) -> Seq<char>;

/// Whether the expression `pattern`, compiled by `Regex::new`, finds a match
/// anywhere in `haystack`: what `Regex::is_match` then returns.
pub uninterp spec fn pattern_matches(pattern: Seq<char>, haystack: Seq<char>) -> bool;

/// The expression that matches the empty text and nothing else: `^$`.
pub open spec fn match_empty_only() -> Seq<char> {
    seq!['^', '$']
}

/// `Regex::new`. It succeeds exactly on the expressions that
/// `is_valid_pattern` names, and the compiled value keeps the text that it
/// was given. That `^$` is among those expressions is the engine's syntax:
/// two anchors, nothing else.
#[verifier::external_body]
pub(crate) fn compile(pattern: &str) -> (r: Result<Regex, regex::Error>)
    ensures
        r is Ok <==> is_valid_pattern(pattern@),
        r matches Ok(re) ==> plainly_compiled(re) && pattern_of(re) == pattern@,
        pattern@ == match_empty_only() ==> r is Ok,
{
    Regex::new(pattern)
}

/// `Regex::is_match`, which says whether there is a match anywhere in the
/// haystack. For a value that `Regex::new` made, the answer depends on the
/// expression and the haystack alone. For `^$` it is whether the haystack is
/// empty: without the multi-line option `^` matches at the start of the
/// haystack only and `$` at its end only.
#[verifier::external_body]
pub(crate) fn is_match(re: &Regex, haystack: &str) -> (b: bool)
    requires
        plainly_compiled(*re),
    ensures
        b == pattern_matches(pattern_of(*re), haystack@),
        pattern_of(*re) == match_empty_only() ==> b == (haystack@.len() == 0),
{
    re.is_match(haystack)
}

/// `Regex::as_str`: the text that the value was compiled from.
#[verifier::external_body]
pub(crate) fn source<'a>(re: &'a Regex) -> (text: &'a str)
    ensures
        text@ == pattern_of(*re),
{
    re.as_str()
}

} // verus!
