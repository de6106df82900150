//! Glob patterns, as the `glob` crate compiles and matches them.

use vstd::prelude::*;

verus! {

/// Whether `glob::Pattern::new` accepts the pattern. The crate goes by the
/// platform's path separators in one corner, a recursive wildcard next to a
/// separator, so this is its answer on the platform the library is built for.
pub uninterp spec fn glob_valid(pattern: Seq<char>) -> bool;

/// Whether the compiled pattern matches the path under the default match
/// options. Meaningful for valid patterns only.
pub uninterp spec fn glob_match(pattern: Seq<char>, path: Seq<char>) -> bool;

/// How a pattern fares against a path: `None` where the pattern is no valid
/// glob, else whether it matches.
pub open spec fn glob_hit(pattern: Seq<char>, path: Seq<char>) -> Option<bool> {
    if glob_valid(pattern) {
        Some(glob_match(pattern, path))
    } else {
        None
    }
}

/// Compiles `pattern` with `glob::Pattern::new` and tests `path` against it with
/// `Pattern::matches`. Trusted: that the outcome is the one the two names stand
/// for, `None` exactly where the pattern does not compile.
#[verifier::external_body]
pub(crate) fn glob_matches(pattern: &str, path: &str) -> (hit: Option<bool>)
    ensures
        hit is Some == glob_valid(pattern@),
        hit matches Some(m) ==> m == glob_match(pattern@, path@),
{
    match glob::Pattern::new(pattern) {
        Ok(compiled) => Some(compiled.matches(path)),
        Err(_) => None,
    }
}

} // verus!
