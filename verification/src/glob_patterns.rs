//! Glob patterns from the `glob` crate. Whether a pattern compiles and what it
//! matches depend on which characters the platform takes for path separators:
//! `/` everywhere, and `\` on some platforms. For patterns and paths without
//! `\` the answers are the same on every platform, and are named here.
use vstd::prelude::*;
use glob::{Pattern, PatternError};

verus! {

/// A compiled glob pattern of the `glob` crate.
#[verifier::external_type_specification]
#[verifier::external_body]
pub struct ExPattern(glob::Pattern);

/// The error of a glob pattern that does not compile.
#[verifier::external_type_specification]
#[verifier::external_body]
pub struct ExPatternError(glob::PatternError);

/// Two `*` in a row occur in `s`.
pub open spec fn has_double_star(s: Seq<char>) -> bool {
    exists|i: int| 0 <= i && i + 1 < s.len() && #[trigger] s[i] == '*' && s[i + 1] == '*'
}

/// Three `*` in a row occur in `s`.
pub open spec fn has_triple_star(s: Seq<char>) -> bool {
    exists|i: int| 0 <= i && i + 2 < s.len() && #[trigger] s[i] == '*' && s[i + 1] == '*' && s[i + 2] == '*'
}

/// A pattern that compiles on every platform: no `[` and no `**`.
pub open spec fn plain_glob(s: Seq<char>) -> bool {
    !s.contains('[') && !has_double_star(s)
}

/// A pattern that fails to compile on every platform: no `[`, and three `*`
/// in a row.
pub open spec fn broken_glob(s: Seq<char>) -> bool {
    !s.contains('[') && has_triple_star(s)
}

/// Every `*` of `s` stands alone or in a pair that is a whole component:
/// no three in a row, and each `**` has a `/` (or the end of the text) on
/// either side.
pub open spec fn whole_star_runs(s: Seq<char>) -> bool {
    &&& !has_triple_star(s)
    &&& forall|i: int| 0 <= i && i + 1 < s.len() && #[trigger] s[i] == '*' && s[i + 1] == '*' ==> {
        &&& (i == 0 || s[i - 1] == '/')
        &&& (i + 2 == s.len() || s[i + 2] == '/')
    }
}

/// The text holds no `\`, the one character only some platforms take for a
/// path separator.
pub open spec fn separator_free(s: Seq<char>) -> bool {
    !s.contains('\\')
}

/// A pattern with no `/`, no `\` and no `**`: matching it never depends on
/// which characters the platform takes for path separators, whatever the
/// path.
pub open spec fn bare_glob(s: Seq<char>) -> bool {
    !s.contains('/') && !s.contains('\\') && !has_double_star(s)
}

/// Every platform decides alike whether `pattern` matches `path`: neither
/// holds a `\`, or the pattern is bare (see `bare_glob`).
pub open spec fn glob_decides(pattern: Seq<char>, path: Seq<char>) -> bool {
    (separator_free(pattern) && separator_free(path)) || bare_glob(pattern)
}

/// Whether `glob::Pattern::new` accepts a pattern (without `\`).
pub uninterp spec fn glob_compiles(pattern: Seq<char>) -> bool;

/// Whether the compiled glob `pattern` matches `path`, as
/// `glob::Pattern::matches` decides, for the pairs where every platform
/// decides alike (`glob_decides`).
pub uninterp spec fn glob_matches(pattern: Seq<char>, path: Seq<char>) -> bool;

/// A compiled glob pattern together with the text it was compiled from.
/// Only `compile_pattern` makes one.
pub struct GlobPattern {
    source: String,
    compiled: Pattern,
}

impl View for GlobPattern {
    type V = Seq<char>;

    /// The text the pattern was compiled from.
    closed spec fn view(&self) -> Seq<char> {
        self.source@
    }
}

/// Compiles a glob pattern, keeping its text.
///
/// Trusted: calls `glob::Pattern::new`. For a pattern without `\` whether
/// it compiles is named (`glob_compiles`). Its source shows besides that
/// without `[` the only errors come from runs of `*`: a single `*` always
/// compiles, a run of three or more never does, and a run of two does
/// exactly when it is a whole component (`whole_star_runs`; `/` is the only
/// separator in a pattern without `\`).
#[verifier::external_body]
pub(crate) fn compile_pattern(pattern: &str) -> (r: Result<GlobPattern, PatternError>)
    ensures
        r matches Ok(g) ==> g@ == pattern@,
        separator_free(pattern@) ==> (r is Ok <==> glob_compiles(pattern@)),
        separator_free(pattern@) && !pattern@.contains('[') ==> (r is Ok <==> whole_star_runs(pattern@)),
        plain_glob(pattern@) ==> r is Ok,
        broken_glob(pattern@) ==> r is Err,
{
    match Pattern::new(pattern) {
        Ok(compiled) => Ok(GlobPattern { source: pattern.to_string(), compiled }),
        Err(e) => Err(e),
    }
}

/// Tests a path against a compiled glob pattern.
///
/// Trusted: calls `glob::Pattern::matches` (default match options) on the
/// pattern compiled from `pattern@` (the only way a `GlobPattern` is made).
/// Where every platform decides alike the answer is named (`glob_matches`):
/// for a pattern and a path without `\`, and for a bare pattern (no `/`,
/// `\` or `**`) and any path, since then its source compares the path's
/// characters with the pattern's without looking at separators (the
/// default options require neither a literal separator nor a literal
/// leading dot). Otherwise nothing is stated: on Windows `/` and `\` match
/// each other.
#[verifier::external_body]
pub(crate) fn pattern_matches(pattern: &GlobPattern, path: &str) -> (r: bool)
    ensures
        separator_free(pattern@) && separator_free(path@) ==> r == glob_matches(pattern@, path@),
        glob_decides(pattern@, path@) ==> r == glob_matches(pattern@, path@),
{
    pattern.compiled.matches(path)
}

} // verus!
