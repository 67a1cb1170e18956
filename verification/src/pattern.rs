//! Regular expressions from the `regex` crate, with the pattern text kept
//! beside the compiled expression so that contracts can speak of it.
use vstd::prelude::*;

verus! {

#[verifier::external_type_specification]
#[verifier::external_body]
pub struct ExRegex(regex::Regex);

#[verifier::external_type_specification]
#[verifier::external_body]
pub struct ExRegexError(regex::Error);

/// Whether `regex::Regex::new` accepts a pattern.
pub uninterp spec fn regex_compiles(pattern: Seq<char>) -> bool;

/// The capture groups of the leftmost match of a pattern in a text, as
/// `regex::Regex::captures` finds them (`None` when nothing matches); group
/// `0` is the whole match, a group that took no part in the match is `None`.
pub uninterp spec fn regex_captures(pattern: Seq<char>, text: Seq<char>) -> Option<
    Seq<Option<Seq<char>>>,
>;

/// A text with the leftmost match of a pattern replaced, as
/// `regex::Regex::replace` computes it.
pub uninterp spec fn regex_replace_first(
    pattern: Seq<char>,
    text: Seq<char>,
    replacement: Seq<char>,
) -> Seq<char>;

/// Calls `regex::Regex::new`; the contract claims that it succeeds exactly
/// on the patterns that `regex_compiles` names, which depends on the pattern
/// alone.
#[verifier::external_body]
fn compile_regex(pattern: &str) -> (r: Result<regex::Regex, regex::Error>)
    ensures
        r is Ok <==> regex_compiles(pattern@),
{
    regex::Regex::new(pattern)
}

/// A pattern that was not accepted as a regular expression.
#[derive(Debug)]
pub struct PatternError {
    pub pattern: String,
}

/// A compiled regular expression together with its pattern text.
pub struct Pattern {
    regex: regex::Regex,
    source: String,
}

impl View for Pattern {
    type V = Seq<char>;

    /// The pattern text the expression was compiled from.
    closed spec fn view(&self) -> Seq<char> {
        self.source@
    }
}

impl Pattern {
    /// Compiles a pattern.
    pub fn new(source: &str) -> (r: Result<Pattern, PatternError>)
        ensures
            r is Ok <==> regex_compiles(source@),
            r matches Ok(p) ==> p@ == source@,
            r matches Err(e) ==> e.pattern@ == source@,
    {
        match compile_regex(source) {
            Ok(regex) => Ok(Pattern { regex, source: source.to_string() }),
            Err(_) => Err(PatternError { pattern: source.to_string() }),
        }
    }

    /// The pattern text.
    pub fn as_str(&self) -> (r: &str)
        ensures
            r@ == self@,
    {
        self.source.as_str()
    }
}

/// Calls `regex::Regex::captures` on the compiled expression of `p` and
/// copies out every group.  The contract claims that the groups are those
/// that `regex_captures` names for the pattern text of `p`: a `Pattern` is
/// only made by `Pattern::new`, which compiles exactly that text.
#[verifier::external_body]
pub(crate) fn pattern_captures(p: &Pattern, text: &str) -> (r: Option<Vec<Option<String>>>)
    ensures
        r.deep_view() == regex_captures(p@, text@),
{
    p.regex.captures(text).map(|c| c.iter().map(|m| m.map(|m| m.as_str().to_string())).collect())
}

/// Calls `regex::Regex::replace` on the compiled expression of `p`.  The
/// contract claims that the result is the one `regex_replace_first` names
/// for the pattern text of `p`, the text and the replacement.
#[verifier::external_body]
pub(crate) fn pattern_replace_first(p: &Pattern, text: &str, replacement: &str) -> (r: String)
    ensures
        r@ == regex_replace_first(p@, text@, replacement@),
{
    p.regex.replace(text, replacement).into_owned()
}

} // verus!
