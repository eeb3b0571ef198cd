//! Regular-expression search through the `regex` crate: compiling a
//! pattern and testing a text against it.

use vstd::prelude::*;

use regex::Regex;

verus! {

/// `regex::Regex`, carried through the library as an opaque value.
#[verifier::external_type_specification]
#[verifier::external_body]
pub struct ExRegex(Regex);

/// Whether `pattern` is valid regular-expression syntax: whether the parse
/// and translation that `regex::Regex::new` runs first (`regex-syntax` with
/// its default settings) accept it. This depends on the pattern alone;
/// whether compilation then stays within the size limit does not.
pub uninterp spec fn regex_syntax_valid(pattern: Seq<char>) -> bool;

/// The message of the error that `regex::Regex::new` returns for a pattern
/// whose syntax is invalid, as its `Display` writes it.
pub uninterp spec fn regex_error_text(pattern: Seq<char>) -> Seq<char>;

/// Whether the regular expression compiled from `pattern` matches somewhere
/// in `haystack` (`regex::Regex::is_match`).
pub uninterp spec fn regex_matches(pattern: Seq<char>, haystack: Seq<char>) -> bool;

/// A regular expression together with the pattern it was compiled from.
/// Only `compile_pattern` builds one, so the two always agree, and the
/// pattern is valid syntax.
pub struct CompiledSearch {
    pattern: String,
    re: Regex,
}

impl CompiledSearch {
    /// The pattern of a compiled regular expression is valid syntax.
    #[verifier::type_invariant]
    pub open spec fn compiled_pattern_valid(self) -> bool {
        regex_syntax_valid(self.pattern())
    }

    /// The pattern this regular expression was compiled from.
    pub closed spec fn pattern(&self) -> Seq<char> {
        self.pattern@
    }
}

/// `regex::Regex::new(pattern)`, its error turned into its message. `Ok`
/// only for valid syntax, holding the pattern; for invalid syntax, the
/// syntax error's message. A pattern of valid syntax may still fail (the
/// compiled form exceeds the default size limit, whose reach depends on the
/// machine's pointer width): which way it goes, and that message, are left
/// unsaid. What the compiled expression matches is stated by
/// `regex_is_match`.
#[verifier::external_body]
pub(crate) fn compile_pattern(pattern: &str) -> (r: Result<CompiledSearch, String>)
    ensures
        r matches Ok(c) ==> regex_syntax_valid(pattern@) && c.pattern() == pattern@,
        r is Err || regex_syntax_valid(pattern@),
        r matches Err(e) ==> (regex_syntax_valid(pattern@) || e@ == regex_error_text(pattern@)),
{
    match Regex::new(pattern) {
        Ok(re) => Ok(CompiledSearch { pattern: pattern.to_string(), re }),
        Err(e) => Err(e.to_string()),
    }
}

/// `regex::Regex::is_match`: whether the regular expression matches
/// somewhere in `haystack`, named `regex_matches` of its pattern.
#[verifier::external_body]
pub(crate) fn regex_is_match(c: &CompiledSearch, haystack: &str) -> (b: bool)
    ensures
        b == regex_matches(c.pattern(), haystack@),
{
    c.re.is_match(haystack)
}

} // verus!
