//! Shell-style glob patterns over path strings, matched by the `glob` crate.

use vstd::prelude::*;

verus! {

#[verifier::external_type_specification]
#[verifier::external_body]
pub struct ExPattern(glob::Pattern);

/// The error `glob::Pattern::new` reports for `pattern`, or `None` when the
/// pattern compiles.
pub uninterp spec fn glob_parse_error(pattern: Seq<char>) -> Option<Seq<char>>;

/// Whether `glob::Pattern::matches` accepts `text` for the pattern compiled
/// from `pattern`.
pub uninterp spec fn glob_matches(pattern: Seq<char>, text: Seq<char>) -> bool;

/// A compiled glob pattern together with the text it was compiled from.
pub struct GlobPattern {
    source: String,
    compiled: glob::Pattern,
}

impl View for GlobPattern {
    type V = Seq<char>;

    closed spec fn view(&self) -> Seq<char> {
        self.source@
    }
}

/// The texts of a list of compiled patterns.
pub open spec fn glob_sources(v: Seq<GlobPattern>) -> Seq<Seq<char>> {
    v.map_values(|c: GlobPattern| c@)
}

/// `glob::Pattern::new`: compiles `pattern`, keeping its text; on failure
/// the error is returned as its display text. The contract names both
/// outcomes as a function of the pattern text alone.
#[verifier::external_body]
pub(crate) fn compile_glob(pattern: &str) -> (r: Result<GlobPattern, String>)
    ensures
        r is Ok <==> glob_parse_error(pattern@) is None,
        r matches Ok(g) ==> g@ == pattern@,
        r matches Err(m) ==> glob_parse_error(pattern@) == Some(m@),
{
    match glob::Pattern::new(pattern) {
        Ok(compiled) => Ok(GlobPattern { source: pattern.to_string(), compiled }),
        Err(e) => Err(e.to_string()),
    }
}

/// `glob::Pattern::matches`: whether `text` matches the compiled pattern
/// (default match options). Only `compile_glob` builds a `GlobPattern`, so
/// the compiled pattern is always the one made from its text.
#[verifier::external_body]
pub(crate) fn glob_match(pattern: &GlobPattern, text: &str) -> (r: bool)
    ensures
        r == glob_matches(pattern@, text@),
{
    pattern.compiled.matches(text)
}

} // verus!
