//! Regular expressions, compiled by the `regex` crate.
use vstd::prelude::*;

verus! {

#[verifier::external_type_specification]
#[verifier::external_body]
pub struct ExRegex(regex::Regex);

/// A regular expression together with the text it was compiled from.
pub struct CompiledPattern {
    source: String,
    re: regex::Regex,
}

impl View for CompiledPattern {
    type V = Seq<char>;

    /// The text the expression was compiled from.
    closed spec fn view(&self) -> Seq<char> {
        self.source@
    }
}

/// What `regex::Regex::new` reports of `source`: nothing when it accepts it
/// as a regular expression, else the text its error displays.
pub uninterp spec fn regex_error(source: Seq<char>) -> Option<Seq<char>>;

/// Whether `regex::Regex::new` accepts `source` as a regular expression.
pub open spec fn regex_builds(source: Seq<char>) -> bool {
    regex_error(source) is None
}

/// Whether the regular expression compiled from `source` matches somewhere
/// in `haystack`, as `regex::Regex::is_match` reports it.
pub uninterp spec fn regex_finds(source: Seq<char>, haystack: Seq<char>) -> bool;

/// Calls `regex::Regex::new(source)`.
///
/// Claims: its outcome is `regex_error(source)`, which depends on the text
/// alone (the default size limits are fixed): on success the compiled
/// expression is kept with that text; on failure the error is handed back
/// as the text its `Display` renders.
#[verifier::external_body]
pub(crate) fn regex_new(source: &str) -> (r: Result<CompiledPattern, String>)
    ensures
        match r {
            Ok(p) => regex_error(source@) is None && p@ == source@,
            Err(t) => regex_error(source@) == Some(t@),
        },
{
    match regex::Regex::new(source) {
        Ok(re) => Ok(CompiledPattern { source: source.to_string(), re }),
        Err(e) => Err(e.to_string()),
    }
}

/// Calls `regex::Regex::is_match(haystack)` on the compiled expression.
///
/// Claims: the answer is `regex_finds(source, haystack)`, where `source` is
/// the text the expression was compiled from.
#[verifier::external_body]
pub(crate) fn regex_is_match(p: &CompiledPattern, haystack: &str) -> (r: bool)
    ensures
        r == regex_finds(p@, haystack@),
{
    p.re.is_match(haystack)
}

} // verus!
