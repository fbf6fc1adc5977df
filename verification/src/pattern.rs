//! Regular expressions, as the `regex` crate reads them.

use regex::Regex;
use vstd::prelude::*;

verus! {

/// Whether `pattern`, compiled by `regex::Regex::new`, finds a match somewhere
/// in `text` (`Regex::is_match`); `None` where the pattern does not compile.
pub uninterp spec fn regex_matches(pattern: Seq<char>, text: Seq<char>) -> Option<bool>;

/// The parts of `text` that lie between the matches of `pattern`, as
/// `Regex::split` yields them; `None` where the pattern does not compile.
pub uninterp spec fn regex_fields(pattern: Seq<char>, text: Seq<char>) -> Option<Seq<Seq<char>>>;

/// Compiles `pattern` with `regex::Regex::new` and asks `Regex::is_match`
/// whether it matches in `text`. The answer is taken on trust; it is `None`
/// where `Regex::new` refuses the pattern.
#[verifier::external_body]
pub(crate) fn try_match(pattern: &str, text: &str) -> (r: Option<bool>)
    ensures
        r == regex_matches(pattern@, text@),
{
    match Regex::new(pattern) {
        Ok(re) => Some(re.is_match(text)),
        Err(_) => None,
    }
}

/// Compiles `pattern` with `regex::Regex::new` and collects what
/// `Regex::split` yields for `text`, each part copied into a `String`. The
/// parts are taken on trust; the result is `None` where `Regex::new` refuses
/// the pattern.
#[verifier::external_body]
pub(crate) fn try_split(pattern: &str, text: &str) -> (r: Option<Vec<String>>)
    ensures
        match r {
            Some(parts) => regex_fields(pattern@, text@) == Some(parts.deep_view()),
            None => regex_fields(pattern@, text@) is None,
        },
{
    match Regex::new(pattern) {
        Ok(re) => Some(re.split(text).map(String::from).collect()),
        Err(_) => None,
    }
}

/// Whether `pattern` is a regular expression that matches somewhere in
/// `text`. A pattern that is no regular expression matches nothing.
pub fn pattern_matches(pattern: &str, text: &str) -> (r: bool)
    ensures
        r == (regex_matches(pattern@, text@) == Some(true)),
{
    match try_match(pattern, text) {
        Some(found) => found,
        None => false,
    }
}

} // verus!
