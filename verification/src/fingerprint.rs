//! The fingerprint of a statement: its text with the literals, comments,
//! spacing and letter case taken out, so that statements of one shape share
//! one key.
use vstd::prelude::*;
use regex::Regex;
use crate::pattern::{pattern_is_valid, regex_replaced, regex_source, replace_all};
use crate::text::{chars_of, string_of, trim, trimmed};

verus! {

/// A statement that selects a database: `use`, white space, a name, `;`, in
/// any letter case.
pub open spec fn use_pattern() -> Seq<char> {
    "(?i)use\\s+\\S+;"@
}

/// A comment: from `/*` to the nearest `*/`, over line ends too, or from `--`
/// to the end of the line.
pub open spec fn comment_pattern() -> Seq<char> {
    "(?s:/\\*.*?\\*/)|--[^\\n]*"@
}

/// A string in single quotes, in which two quotes in a row stand for one.
pub open spec fn string_pattern() -> Seq<char> {
    "'(?:[^']|'')*'"@
}

/// A run of digits that stands alone as a word.
pub open spec fn number_pattern() -> Seq<char> {
    "\\b\\d+\\b"@
}

/// A run of white space.
pub open spec fn space_pattern() -> Seq<char> {
    "\\s+"@
}

/// What `str::to_lowercase` makes of a text.
pub uninterp spec fn lowercased(text: Seq<char>) -> Seq<char>;

/// `str::to_lowercase`: the text in lower case, which depends on the text
/// alone.
#[verifier::external_body]
pub(crate) fn to_lowercase(text: &str) -> (out: String)
    ensures
        out@ == lowercased(text@),
{
    text.to_lowercase()
}

/// The fingerprint of `sql`. In this order: the statements that select a
/// database are removed, then the comments; each quoted string becomes `?`,
/// then each number that stands alone; each run of white space becomes one
/// blank; the text is trimmed and put in lower case.
pub open spec fn fingerprint_of(sql: Seq<char>) -> Seq<char> {
    let no_use = regex_replaced(use_pattern(), sql, ""@);
    let no_comments = regex_replaced(comment_pattern(), no_use, ""@);
    let no_strings = regex_replaced(string_pattern(), no_comments, "?"@);
    let no_numbers = regex_replaced(number_pattern(), no_strings, "?"@);
    let spaced = regex_replaced(space_pattern(), no_numbers, " "@);
    lowercased(trim(spaced))
}

/// No step of the fingerprint changes `text`.
pub open spec fn is_settled(text: Seq<char>) -> bool {
    &&& regex_replaced(use_pattern(), text, ""@) == text
    &&& regex_replaced(comment_pattern(), text, ""@) == text
    &&& regex_replaced(string_pattern(), text, "?"@) == text
    &&& regex_replaced(number_pattern(), text, "?"@) == text
    &&& regex_replaced(space_pattern(), text, " "@) == text
    &&& trim(text) == text
    &&& lowercased(text) == text
}

/// A text that no step changes is its own fingerprint.
pub proof fn lemma_settled_text_is_its_fingerprint(text: Seq<char>)
    requires
        is_settled(text),
    ensures
        fingerprint_of(text) == text,
{
}

/// Where no step changes the fingerprint of `sql` any more, the fingerprint of
/// that fingerprint is the fingerprint itself.
pub proof fn lemma_settled_fingerprint_is_fixed(sql: Seq<char>)
    requires
        is_settled(fingerprint_of(sql)),
    ensures
        fingerprint_of(fingerprint_of(sql)) == fingerprint_of(sql),
{
    lemma_settled_text_is_its_fingerprint(fingerprint_of(sql));
}

/// The five patterns of the fingerprint, compiled once.
pub struct Fingerprinter {
    use_statement: Regex,
    comment: Regex,
    string: Regex,
    number: Regex,
    space: Regex,
}

impl Fingerprinter {
    /// Each expression is that of its pattern.
    pub closed spec fn wf(&self) -> bool {
        &&& regex_source(self.use_statement) == use_pattern()
        &&& regex_source(self.comment) == comment_pattern()
        &&& regex_source(self.string) == string_pattern()
        &&& regex_source(self.number) == number_pattern()
        &&& regex_source(self.space) == space_pattern()
    }

    /// Compiles the five patterns; `None` where one of them is refused.
    pub fn new() -> (r: Option<Fingerprinter>)
        ensures
            r is Some <==> pattern_is_valid(use_pattern()) && pattern_is_valid(comment_pattern())
                && pattern_is_valid(string_pattern()) && pattern_is_valid(number_pattern())
                && pattern_is_valid(space_pattern()),
            r matches Some(rules) ==> rules.wf(),
    {
        let use_statement = match Regex::new("(?i)use\\s+\\S+;") {
            Ok(re) => re,
            Err(_) => {
                return None;
            },
        };
        let comment = match Regex::new("(?s:/\\*.*?\\*/)|--[^\\n]*") {
            Ok(re) => re,
            Err(_) => {
                return None;
            },
        };
        let string = match Regex::new("'(?:[^']|'')*'") {
            Ok(re) => re,
            Err(_) => {
                return None;
            },
        };
        let number = match Regex::new("\\b\\d+\\b") {
            Ok(re) => re,
            Err(_) => {
                return None;
            },
        };
        let space = match Regex::new("\\s+") {
            Ok(re) => re,
            Err(_) => {
                return None;
            },
        };
        Some(Fingerprinter { use_statement, comment, string, number, space })
    }
}

/// Computes the fingerprint of a statement.
pub fn fingerprint(rules: &Fingerprinter, sql: &str) -> (out: String)
    requires
        rules.wf(),
    ensures
        out@ == fingerprint_of(sql@),
{
    let no_use = replace_all(&rules.use_statement, sql, "");
    let no_comments = replace_all(&rules.comment, no_use.as_str(), "");
    let no_strings = replace_all(&rules.string, no_comments.as_str(), "?");
    let no_numbers = replace_all(&rules.number, no_strings.as_str(), "?");
    let spaced = replace_all(&rules.space, no_numbers.as_str(), " ");
    let kept = string_of(&trimmed(&chars_of(spaced.as_str())));
    to_lowercase(kept.as_str())
}

} // verus!
