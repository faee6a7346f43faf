//! Regular expressions, as the `regex` crate compiles and runs them.
//!
//! Nothing here is proved: each item states what the crate's function does,
//! as a function of the pattern text and the text searched.
use vstd::prelude::*;
use regex::Regex;

verus! {

/// The compiled form of a regular expression, as the `regex` crate holds it.
#[verifier::external_type_specification]
#[verifier::external_body]
pub struct ExRegex(regex::Regex);

/// The error that the `regex` crate reports for a pattern it cannot compile.
#[verifier::external_type_specification]
#[verifier::external_body]
pub struct ExRegexError(regex::Error);

/// The pattern text that a compiled expression was built from (what
/// `Regex::as_str` gives back).
pub uninterp spec fn regex_source(re: Regex) -> Seq<char>;

/// Whether `Regex::new` accepts a pattern text.
pub uninterp spec fn pattern_is_valid(pattern: Seq<char>) -> bool;

/// The text that `Regex::replace_all` makes of `text`: every non-overlapping
/// match of the pattern, taken from the left, replaced by the expansion of
/// `replacement`.
pub uninterp spec fn regex_replaced(
    pattern: Seq<char>,
    text: Seq<char>,
    replacement: Seq<char>,
) -> Seq<char>;

/// What `Regex::captures` finds in `text`: `None` where the pattern matches
/// nowhere, else the groups of the leftmost match, group 0 being the whole
/// match, each with the text it matched or `None` where it took no part.
pub uninterp spec fn regex_captures(pattern: Seq<char>, text: Seq<char>) -> Option<
    Seq<Option<Seq<char>>>,
>;

/// `Regex::new` compiles a pattern. Whether it succeeds depends on the pattern
/// alone, and the compiled expression is that of the pattern given.
pub assume_specification[ Regex::new ](re: &str) -> (r: Result<Regex, regex::Error>)
    ensures
        r is Ok <==> pattern_is_valid(re@),
        r matches Ok(compiled) ==> regex_source(compiled) == re@,
;

/// `Regex::replace_all` with a string as the replacement: the result depends
/// on the pattern, the text and the replacement alone.
#[verifier::external_body]
pub(crate) fn replace_all(re: &Regex, text: &str, replacement: &str) -> (out: String)
    ensures
        out@ == regex_replaced(regex_source(*re), text@, replacement@),
{
    re.replace_all(text, replacement).into_owned()
}

/// `Regex::captures`: the groups of the leftmost match, each as an owned
/// string, or `None` where there is no match.
#[verifier::external_body]
pub(crate) fn captures(re: &Regex, text: &str) -> (out: Option<Vec<Option<String>>>)
    ensures
        out.deep_view() == regex_captures(regex_source(*re), text@),
{
    re.captures(text).map(|found| found.iter().map(|g| g.map(|m| m.as_str().to_string())).collect())
}

} // verus!
