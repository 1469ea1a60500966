//! Compiled regular expressions. A `CompiledPattern` is made only here, by
//! `regex_new`, so the regex it holds is always the compilation of the
//! pattern it records, with nothing added or changed.
use vstd::prelude::*;

verus! {

#[verifier::external_type_specification]
#[verifier::external_body]
pub struct ExRegex(regex::Regex);

#[verifier::external_type_specification]
#[verifier::external_body]
pub struct ExRegexError(regex::Error);

/// Whether `regex::Regex::new` accepts `pattern` (with the crate's default
/// syntax options and size limits).
pub uninterp spec fn regex_compiles(pattern: Seq<char>) -> bool;

/// Whether the regex compiled from `pattern` matches somewhere in `haystack`
/// (`regex::Regex::is_match`: an unanchored search).
pub uninterp spec fn regex_finds(pattern: Seq<char>, haystack: Seq<char>) -> bool;

/// A regular expression together with the pattern it was compiled from.
pub struct CompiledPattern {
    source: Ghost<Seq<char>>,
    regex: regex::Regex,
}

impl View for CompiledPattern {
    type V = Seq<char>;

    /// The pattern the regex was compiled from.
    closed spec fn view(&self) -> Seq<char> {
        self.source@
    }
}

/// Calls `regex::Regex::new` on `pattern` and keeps `pattern` beside the
/// result. Claimed: it succeeds exactly when `pattern` is accepted, which
/// depends on `pattern` alone. Which patterns are accepted is left to the
/// crate and not stated.
#[verifier::external_body]
pub(crate) fn regex_new(pattern: &str) -> (r: Result<CompiledPattern, regex::Error>)
    ensures
        r is Ok == regex_compiles(pattern@),
        r matches Ok(c) ==> c@ == pattern@,
{
    match regex::Regex::new(pattern) {
        Ok(regex) => Ok(CompiledPattern { source: Ghost(pattern@), regex }),
        Err(e) => Err(e),
    }
}

/// Calls `regex::Regex::is_match` on the compiled regex. Claimed: the answer
/// depends only on the source pattern and the haystack; what it is for given
/// values is left to the crate and not stated.
#[verifier::external_body]
fn regex_is_match(compiled: &CompiledPattern, haystack: &str) -> (r: bool)
    ensures
        r == regex_finds(compiled@, haystack@),
{
    compiled.regex.is_match(haystack)
}

impl CompiledPattern {
    /// Whether the regex matches somewhere in `haystack`.
    pub fn finds(&self, haystack: &str) -> (r: bool)
        ensures
            r == regex_finds(self@, haystack@),
    {
        regex_is_match(self, haystack)
    }
}

} // verus!
