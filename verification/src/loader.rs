//! Which loader reads which file under a root path.

use vstd::prelude::*;
use crate::document::{str_views, LoadError};
use crate::globs::{glob_hit, glob_matches};

verus! {

/// The binding that reads the file: the first pattern from index `k` on that
/// matches its relative path, `None` where none does, and an error where a
/// pattern that had to be consulted is no valid glob.
pub open spec fn binding_from(patterns: Seq<Seq<char>>, path: Seq<char>, k: int) -> Result<
    Option<usize>,
    LoadError,
>
    decreases patterns.len() - k,
{
    if k < 0 || k >= patterns.len() {
        Ok(None)
    } else {
        match glob_hit(patterns[k], path) {
            None => Err(LoadError::Pattern { binding: k as usize }),
            Some(true) => Ok(Some(k as usize)),
            Some(false) => binding_from(patterns, path, k + 1),
        }
    }
}

/// The binding that reads the file with this relative path: the first of the
/// registered patterns that matches it. A file that no pattern matches is
/// read by none, which is no error.
pub fn select_loader(patterns: &Vec<String>, relative_path: &str) -> (r: Result<
    Option<usize>,
    LoadError,
>)
    ensures
        r == binding_from(str_views(patterns@), relative_path@, 0),
{
    let ghost views = str_views(patterns@);
    let mut k: usize = 0;
    while k < patterns.len()
        invariant
            k <= patterns.len(),
            views == str_views(patterns@),
            binding_from(views, relative_path@, k as int) == binding_from(
                views,
                relative_path@,
                0,
            ),
        decreases patterns.len() - k,
    {
        match glob_matches(patterns[k].as_str(), relative_path) {
            None => {
                return Err(LoadError::Pattern { binding: k });
            },
            Some(true) => {
                return Ok(Some(k));
            },
            Some(false) => {},
        }
        k += 1;
    }
    Ok(None)
}

/// A file is read exactly when one of the patterns matches it, provided all
/// patterns are valid globs; and the binding chosen is the first that matches.
pub proof fn lemma_binding_meaning(patterns: Seq<Seq<char>>, path: Seq<char>, k: int)
    requires
        0 <= k <= patterns.len() <= usize::MAX,
        forall|i: int| 0 <= i < patterns.len() ==> #[trigger] glob_hit(patterns[i], path) is Some,
    ensures
        match binding_from(patterns, path, k) {
            Ok(Some(b)) => k <= b < patterns.len() && glob_hit(patterns[b as int], path) == Some(
                true,
            ) && forall|i: int| k <= i < b ==> #[trigger] glob_hit(patterns[i], path) == Some(false),
            Ok(None) => forall|i: int|
                k <= i < patterns.len() ==> #[trigger] glob_hit(patterns[i], path) == Some(false),
            Err(_) => false,
        },
    decreases patterns.len() - k,
{
    if k < patterns.len() {
        assert(glob_hit(patterns[k], path) is Some);
        if glob_hit(patterns[k], path) == Some(false) {
            lemma_binding_meaning(patterns, path, k + 1);
        }
    }
}

} // verus!
