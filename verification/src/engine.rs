//! The boundary to the regular-expression engine. Nothing here is proved: each
//! contract records what the `regex` crate documents of the function it names.

use vstd::prelude::*;

verus! {

/// A compiled regular expression of the `regex` crate; nothing of its inside
/// is known here.
#[verifier::external_type_specification]
#[verifier::external_body]
pub struct ExRegex(regex::Regex);

/// The error with which the `regex` crate rejects a pattern.
#[verifier::external_type_specification]
#[verifier::external_body]
pub struct ExRegexError(regex::Error);

/// What `Regex::new` returns for a pattern text: the compiled expression, or
/// the error with which the engine rejects the pattern. Two compilations of
/// one pattern search alike, so they count as one expression.
pub uninterp spec fn compile_outcome(pattern: Seq<char>) -> Result<regex::Regex, regex::Error>;

/// The number of capture groups of an expression (`Regex::captures_len`):
/// the groups that the pattern writes, and one more for the whole match.
pub uninterp spec fn regex_groups(re: regex::Regex) -> nat;

/// What `Regex::captures_iter` yields for an expression and a haystack: one
/// row for each successive non-overlapping match, and in each row, for each
/// capture group starting with group 0 for the whole match, the byte span of
/// the group if it took part in the match.
pub uninterp spec fn regex_captures(re: regex::Regex, haystack: Seq<char>) -> Seq<
    Seq<Option<(usize, usize)>>,
>;

/// The rows of spans as sequences.
pub open spec fn rows_of(caps: Seq<Vec<Option<(usize, usize)>>>) -> Seq<Seq<Option<(usize, usize)>>> {
    caps.map_values(|row: Vec<Option<(usize, usize)>>| row@)
}

/// `Regex::new` compiles a pattern with the default options. What it returns
/// depends on the pattern alone and is given its name.
pub assume_specification[ regex::Regex::new ](re: &str) -> (r: Result<regex::Regex, regex::Error>)
    ensures
        r == compile_outcome(re@),
;

/// `Regex::captures_len` counts the capture groups of the expression, the
/// group of the whole match included, so that the count is never zero.
pub assume_specification[ regex::Regex::captures_len ](re: &regex::Regex) -> (n: usize)
    ensures
        n == regex_groups(*re),
        n >= 1,
;

/// Runs `Regex::captures_iter` over `haystack` and copies, for every match, the
/// span of every group (`Captures::get`, `Match::start`, `Match::end`).
#[verifier::external_body]
pub(crate) fn match_spans(re: &regex::Regex, haystack: &str) -> (out: Vec<Vec<Option<(usize, usize)>>>)
    ensures
        rows_of(out@) == regex_captures(*re, haystack@),
{
    re.captures_iter(haystack).map(
        |c| (0..c.len()).map(|i| c.get(i).map(|m| (m.start(), m.end()))).collect(),
    ).collect()
}

/// The text that the `Display` impl of a compilation error renders: the
/// message of a syntax error as it stands, or the sentence that names the
/// size limit that was passed.
pub uninterp spec fn error_text(e: regex::Error) -> Seq<char>;

/// The message of a compilation error, as its `Display` impl renders it
/// (`ToString::to_string`); the text depends on the error alone.
#[verifier::external_body]
pub(crate) fn error_message(e: &regex::Error) -> (out: String)
    ensures
        out@ == error_text(*e),
{
    e.to_string()
}

/// The characters that `regex::escape` puts a backslash in front of.
pub open spec fn is_meta(c: char) -> bool {
    c == '\\' || c == '.' || c == '+' || c == '*' || c == '?' || c == '(' || c == ')' || c == '|'
        || c == '[' || c == ']' || c == '{' || c == '}' || c == '^' || c == '$' || c == '#' || c
        == '&' || c == '-' || c == '~'
}

/// `s` with a backslash in front of every meta character.
pub open spec fn escaped(s: Seq<char>) -> Seq<char>
    decreases s.len(),
{
    if s.len() == 0 {
        seq![]
    } else if is_meta(s.last()) {
        escaped(s.drop_last()).push('\\').push(s.last())
    } else {
        escaped(s.drop_last()).push(s.last())
    }
}

/// `regex::escape` walks the text once and writes a backslash before each meta
/// character, leaving every other character as it is.
#[verifier::external_body]
pub(crate) fn escape(text: &str) -> (out: String)
    ensures
        out@ == escaped(text@),
{
    regex::escape(text)
}

} // verus!
