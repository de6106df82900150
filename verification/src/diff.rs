//! The diff-aware splitter: one document per retained file patch, then plain
//! hard-cut chunking.

use vstd::prelude::*;
use crate::document::{doc_views, str_views, Document, SplitError};
use crate::globs::{glob_hit, glob_matches};
use crate::text::{split_all, TextSplitter};

verus! {

/// The patch of one file: the paths it names and its unified-diff text.
#[derive(Debug, Clone)]
pub struct FilePatch {
    pub old_path: String,
    pub new_path: String,
    pub text: String,
}

/// What parsing a diff gave.
#[derive(Debug, Clone)]
pub enum ParsedDiff {
    /// The patches, one per file, in the diff's order.
    Patches(Vec<FilePatch>),
    /// The diff is malformed.
    Malformed,
}

/// A document that holds a diff, with what parsing its content gave.
#[derive(Debug, Clone)]
pub struct DiffDocument {
    pub path: String,
    pub parsed: ParsedDiff,
}

impl View for FilePatch {
    /// The old path, the new path and the text.
    type V = (Seq<char>, Seq<char>, Seq<char>);

    open spec fn view(&self) -> (Seq<char>, Seq<char>, Seq<char>) {
        (self.old_path@, self.new_path@, self.text@)
    }
}

/// The views of a sequence of patches, in order.
pub open spec fn patch_views(patches: Seq<FilePatch>) -> Seq<(Seq<char>, Seq<char>, Seq<char>)> {
    Seq::new(patches.len(), |i: int| patches[i]@)
}

impl View for DiffDocument {
    /// The path, and the patches where the diff is well formed.
    type V = (Seq<char>, Option<Seq<(Seq<char>, Seq<char>, Seq<char>)>>);

    open spec fn view(&self) -> (Seq<char>, Option<Seq<(Seq<char>, Seq<char>, Seq<char>)>>) {
        (
            self.path@,
            match self.parsed {
                ParsedDiff::Patches(patches) => Some(patch_views(patches@)),
                ParsedDiff::Malformed => None,
            },
        )
    }
}

/// The views of a sequence of diff documents, in order.
pub open spec fn diff_views(docs: Seq<DiffDocument>) -> Seq<
    (Seq<char>, Option<Seq<(Seq<char>, Seq<char>, Seq<char>)>>),
> {
    Seq::new(docs.len(), |i: int| docs[i]@)
}

/// What becomes of a patch.
#[derive(Debug, Clone, Copy, PartialEq, Eq, Structural)]
pub enum SkipVerdict {
    /// No skip pattern matches either path.
    Keep,
    /// A skip pattern matches one of the paths.
    Skip,
    /// A skip pattern that had to be consulted is no valid glob.
    BadPattern,
}

/// What one skip pattern decides, given how it fared against the old and the
/// new path.
pub open spec fn hit_verdict(old_hit: Option<bool>, new_hit: Option<bool>) -> SkipVerdict {
    match (old_hit, new_hit) {
        (Some(false), Some(false)) => SkipVerdict::Keep,
        (Some(true), Some(_)) => SkipVerdict::Skip,
        (Some(_), Some(true)) => SkipVerdict::Skip,
        _ => SkipVerdict::BadPattern,
    }
}

/// What the skip patterns from index `s` on decide of a patch, consulted in
/// order until one matches or is invalid: `Ok(true)` to keep it, `Ok(false)`
/// to skip it, or the error that names the invalid pattern.
pub open spec fn patch_kept(
    skips: Seq<Seq<char>>,
    old_path: Seq<char>,
    new_path: Seq<char>,
    s: int,
) -> Result<bool, SplitError>
    decreases skips.len() - s,
{
    if s < 0 || s >= skips.len() {
        Ok(true)
    } else {
        match hit_verdict(glob_hit(skips[s], old_path), glob_hit(skips[s], new_path)) {
            SkipVerdict::Keep => patch_kept(skips, old_path, new_path, s + 1),
            SkipVerdict::Skip => Ok(false),
            SkipVerdict::BadPattern => Err(SplitError::Pattern { skip: s as usize }),
        }
    }
}

/// The documents made of the retained patches of one diff, in order, each
/// under the diff's path; or the first error met on the way.
pub open spec fn retained_patches(
    path: Seq<char>,
    patches: Seq<(Seq<char>, Seq<char>, Seq<char>)>,
    skips: Seq<Seq<char>>,
) -> Result<Seq<(Seq<char>, Seq<char>)>, SplitError>
    decreases patches.len(),
{
    if patches.len() == 0 {
        Ok(Seq::empty())
    } else {
        match retained_patches(path, patches.drop_last(), skips) {
            Err(e) => Err(e),
            Ok(docs) => match patch_kept(skips, patches.last().0, patches.last().1, 0) {
                Err(e) => Err(e),
                Ok(true) => Ok(docs.push((path, patches.last().2))),
                Ok(false) => Ok(docs),
            },
        }
    }
}

/// The documents made of the retained patches of every diff, in order; or the
/// first error met on the way: a malformed diff, or an invalid skip pattern.
pub open spec fn retained_all(
    docs: Seq<(Seq<char>, Option<Seq<(Seq<char>, Seq<char>, Seq<char>)>>)>,
    skips: Seq<Seq<char>>,
) -> Result<Seq<(Seq<char>, Seq<char>)>, SplitError>
    decreases docs.len(),
{
    if docs.len() == 0 {
        Ok(Seq::empty())
    } else {
        match retained_all(docs.drop_last(), skips) {
            Err(e) => Err(e),
            Ok(before) => match docs.last().1 {
                None => Err(SplitError::Parse { document: (docs.len() - 1) as usize }),
                Some(patches) => match retained_patches(docs.last().0, patches, skips) {
                    Err(e) => Err(e),
                    Ok(here) => Ok(before + here),
                },
            },
        }
    }
}

/// The chunks of the diffs: the retained patches, cut hard at `chunk_size`
/// characters and merged, with no separators and no overlap.
pub open spec fn diff_chunks(
    docs: Seq<(Seq<char>, Option<Seq<(Seq<char>, Seq<char>, Seq<char>)>>)>,
    skips: Seq<Seq<char>>,
    chunk_size: int,
) -> Result<Seq<(Seq<char>, Seq<char>)>, SplitError> {
    match retained_all(docs, skips) {
        Err(e) => Err(e),
        Ok(retained) => if chunk_size <= 0 {
            Err(SplitError::Config)
        } else {
            Ok(split_all(retained, Seq::empty(), chunk_size, 0))
        },
    }
}

/// What one skip pattern decides of a patch, from how it fared against the
/// patch's two paths.
pub fn pattern_verdict(old_hit: Option<bool>, new_hit: Option<bool>) -> (v: SkipVerdict)
    ensures
        v == hit_verdict(old_hit, new_hit),
{
    match (old_hit, new_hit) {
        (Some(false), Some(false)) => SkipVerdict::Keep,
        (Some(true), Some(_)) => SkipVerdict::Skip,
        (Some(_), Some(true)) => SkipVerdict::Skip,
        _ => SkipVerdict::BadPattern,
    }
}

/// Splits the diffs of a pull request: file by file, without the files that
/// match a skip pattern.
pub struct GithubPRDiffSplitter {
    pub splitter_chunk_size: usize,
    pub skips: Vec<String>,
}

impl GithubPRDiffSplitter {
    /// Chunks of 2000 characters, nothing skipped.
    pub fn create() -> (s: GithubPRDiffSplitter)
        ensures
            s.splitter_chunk_size == 2000,
            s.skips@.len() == 0,
    {
        GithubPRDiffSplitter { splitter_chunk_size: 2000, skips: Vec::new() }
    }

    pub fn with_chunk_size(self, chunk_size: usize) -> (s: GithubPRDiffSplitter)
        ensures
            s.splitter_chunk_size == chunk_size,
            s.skips == self.skips,
    {
        GithubPRDiffSplitter { splitter_chunk_size: chunk_size, skips: self.skips }
    }

    pub fn with_skips(self, skips: Vec<String>) -> (s: GithubPRDiffSplitter)
        ensures
            s.splitter_chunk_size == self.splitter_chunk_size,
            s.skips == skips,
    {
        GithubPRDiffSplitter { splitter_chunk_size: self.splitter_chunk_size, skips }
    }

    /// Diff text has no natural boundaries: no separators.
    pub fn separators(&self) -> (v: Vec<String>)
        ensures
            v@.len() == 0,
    {
        Vec::new()
    }

    /// Whether the patch with these paths is kept: the skip patterns are
    /// consulted in order until one matches either path or is invalid.
    pub fn keeps(&self, old_path: &str, new_path: &str) -> (r: Result<bool, SplitError>)
        ensures
            r == patch_kept(str_views(self.skips@), old_path@, new_path@, 0),
    {
        let ghost skips = str_views(self.skips@);
        let mut s: usize = 0;
        while s < self.skips.len()
            invariant
                s <= self.skips.len(),
                skips == str_views(self.skips@),
                patch_kept(skips, old_path@, new_path@, s as int) == patch_kept(
                    skips,
                    old_path@,
                    new_path@,
                    0,
                ),
            decreases self.skips.len() - s,
        {
            let skip = self.skips[s].as_str();
            let old_hit = glob_matches(skip, old_path);
            let new_hit = glob_matches(skip, new_path);
            match pattern_verdict(old_hit, new_hit) {
                SkipVerdict::Keep => {},
                SkipVerdict::Skip => {
                    return Ok(false);
                },
                SkipVerdict::BadPattern => {
                    return Err(SplitError::Pattern { skip: s });
                },
            }
            s += 1;
        }
        Ok(true)
    }

    /// The documents made of the retained patches of one diff, each under the
    /// diff's path.
    fn retain(&self, path: &str, patches: &Vec<FilePatch>, out: &mut Vec<Document>) -> (r: Result<
        (),
        SplitError,
    >)
        ensures
            match retained_patches(path@, patch_views(patches@), str_views(self.skips@)) {
                Ok(here) => r is Ok && doc_views(final(out)@) == doc_views(old(out)@) + here,
                Err(e) => r == Err::<(), SplitError>(e),
            },
    {
        let ghost skips = str_views(self.skips@);
        let ghost all = patch_views(patches@);
        let ghost before = doc_views(out@);
        let mut j: usize = 0;
        proof {
            assert(all.take(0) =~= Seq::empty());
            assert(before + Seq::<(Seq<char>, Seq<char>)>::empty() =~= before);
        }
        while j < patches.len()
            invariant
                j <= patches.len(),
                skips == str_views(self.skips@),
                all == patch_views(patches@),
                match retained_patches(path@, all.take(j as int), skips) {
                    Ok(here) => doc_views(out@) == before + here,
                    Err(_) => false,
                },
            decreases patches.len() - j,
        {
            let patch = &patches[j];
            let ghost prev = doc_views(out@);
            proof {
                let upto = all.take(j + 1);
                assert(upto.drop_last() =~= all.take(j as int));
                assert(upto.last() == patch@);
                if retained_patches(path@, upto, skips) is Err {
                    lemma_retained_error_stays(path@, all, skips, j + 1);
                }
            }
            match self.keeps(patch.old_path.as_str(), patch.new_path.as_str()) {
                Ok(true) => {
                    out.push(Document::create(path, patch.text.as_str()));
                    proof {
                        let here = retained_patches(path@, all.take(j as int), skips)->Ok_0;
                        assert(doc_views(out@) =~= prev.push((path@, patch@.2)));
                        assert(prev.push((path@, patch@.2)) =~= before + here.push(
                            (path@, patch@.2),
                        ));
                    }
                },
                Ok(false) => {},
                Err(e) => {
                    return Err(e);
                },
            }
            j += 1;
        }
        proof {
            assert(all.take(patches@.len() as int) =~= all);
        }
        Ok(())
    }

    /// The chunks of the diffs. Each diff yields one document per file patch
    /// that no skip pattern matches, under the diff's path; these are cut into
    /// chunks of at most `splitter_chunk_size` characters. Fails on the first
    /// malformed diff or invalid skip pattern met, and, after those, when the
    /// chunk size is zero.
    pub fn split_documents(&self, documents: &[DiffDocument]) -> (r: Result<
        Vec<Document>,
        SplitError,
    >)
        ensures
            match diff_chunks(
                diff_views(documents@),
                str_views(self.skips@),
                self.splitter_chunk_size as int,
            ) {
                Ok(chunks) => r is Ok && doc_views(r->Ok_0@) == chunks,
                Err(e) => r is Err && r->Err_0 == e,
            },
            r matches Ok(chunks) ==> forall|i: int|
                0 <= i < chunks@.len() ==> 0 < (#[trigger] chunks@[i]).content@.len()
                    <= self.splitter_chunk_size,
    {
        let ghost skips = str_views(self.skips@);
        let ghost all = diff_views(documents@);
        let mut diff_documents: Vec<Document> = Vec::new();
        let mut i: usize = 0;
        proof {
            assert(all.take(0) =~= Seq::empty());
            assert(doc_views(diff_documents@) =~= Seq::empty());
        }
        while i < documents.len()
            invariant
                i <= documents.len(),
                skips == str_views(self.skips@),
                all == diff_views(documents@),
                retained_all(all.take(i as int), skips) == Ok::<
                    Seq<(Seq<char>, Seq<char>)>,
                    SplitError,
                >(doc_views(diff_documents@)),
            decreases documents.len() - i,
        {
            let document = &documents[i];
            proof {
                let upto = all.take(i + 1);
                assert(upto.drop_last() =~= all.take(i as int));
                assert(upto.last() == document@);
                if retained_all(upto, skips) is Err {
                    lemma_retained_all_error_stays(all, skips, i + 1);
                }
            }
            match &document.parsed {
                ParsedDiff::Malformed => {
                    return Err(SplitError::Parse { document: i });
                },
                ParsedDiff::Patches(patches) => {
                    match self.retain(document.path.as_str(), patches, &mut diff_documents) {
                        Ok(()) => {},
                        Err(e) => {
                            return Err(e);
                        },
                    }
                },
            }
            i += 1;
        }
        proof {
            assert(all.take(documents@.len() as int) =~= all);
        }
        let text_splitter = TextSplitter::create().with_chunk_size(
            self.splitter_chunk_size,
        ).with_separators(self.separators());
        proof {
            assert(text_splitter.separator_views() =~= Seq::<Seq<char>>::empty());
        }
        text_splitter.split_documents(diff_documents.as_slice())
    }
}

/// A patch is kept exactly when every skip pattern is a valid glob and
/// matches neither its old nor its new path.
pub proof fn lemma_kept_meaning(
    skips: Seq<Seq<char>>,
    old_path: Seq<char>,
    new_path: Seq<char>,
    s: int,
)
    requires
        0 <= s <= skips.len(),
    ensures
        patch_kept(skips, old_path, new_path, s) == Ok::<bool, SplitError>(true) <==> forall|
            i: int,
        |
            s <= i < skips.len() ==> #[trigger] glob_hit(skips[i], old_path) == Some(false)
                && glob_hit(skips[i], new_path) == Some(false),
    decreases skips.len() - s,
{
    if s < skips.len() {
        lemma_kept_meaning(skips, old_path, new_path, s + 1);
    }
}

/// The document is made of the patch at index `j`, and that patch is kept.
pub open spec fn made_of_kept(
    doc: (Seq<char>, Seq<char>),
    path: Seq<char>,
    patches: Seq<(Seq<char>, Seq<char>, Seq<char>)>,
    skips: Seq<Seq<char>>,
    j: int,
) -> bool {
    &&& 0 <= j < patches.len()
    &&& doc == (path, patches[j].2)
    &&& patch_kept(skips, patches[j].0, patches[j].1, 0) == Ok::<bool, SplitError>(true)
}

/// The document is made of one of the patches, and that patch is kept.
pub open spec fn has_kept_source(
    doc: (Seq<char>, Seq<char>),
    path: Seq<char>,
    patches: Seq<(Seq<char>, Seq<char>, Seq<char>)>,
    skips: Seq<Seq<char>>,
) -> bool {
    exists|j: int| #[trigger] made_of_kept(doc, path, patches, skips, j)
}

/// Every document that a diff yields is made of one of its patches that no
/// skip pattern matches: nothing comes out of a skipped file.
pub proof fn lemma_retained_are_kept(
    path: Seq<char>,
    patches: Seq<(Seq<char>, Seq<char>, Seq<char>)>,
    skips: Seq<Seq<char>>,
)
    ensures
        retained_patches(path, patches, skips) matches Ok(docs) ==> forall|d: int|
            0 <= d < docs.len() ==> #[trigger] has_kept_source(docs[d], path, patches, skips),
    decreases patches.len(),
{
    if patches.len() > 0 {
        let earlier = patches.drop_last();
        lemma_retained_are_kept(path, earlier, skips);
        if let Ok(docs) = retained_patches(path, patches, skips) {
            let before = retained_patches(path, earlier, skips)->Ok_0;
            assert forall|d: int| 0 <= d < docs.len() implies #[trigger] has_kept_source(
                docs[d],
                path,
                patches,
                skips,
            ) by {
                if d < before.len() {
                    assert(has_kept_source(before[d], path, earlier, skips));
                    let j = choose|j: int| #[trigger]
                        made_of_kept(before[d], path, earlier, skips, j);
                    assert(earlier[j] == patches[j]);
                    assert(made_of_kept(docs[d], path, patches, skips, j));
                } else {
                    assert(made_of_kept(docs[d], path, patches, skips, patches.len() - 1));
                }
            }
        }
    }
}

/// An error met among the first `n` patches is the error of the whole diff.
proof fn lemma_retained_error_stays(
    path: Seq<char>,
    patches: Seq<(Seq<char>, Seq<char>, Seq<char>)>,
    skips: Seq<Seq<char>>,
    n: int,
)
    requires
        0 <= n <= patches.len(),
        retained_patches(path, patches.take(n), skips) is Err,
    ensures
        retained_patches(path, patches, skips) == retained_patches(path, patches.take(n), skips),
    decreases patches.len() - n,
{
    if n < patches.len() {
        let next = patches.take(n + 1);
        assert(next.drop_last() =~= patches.take(n));
        lemma_retained_error_stays(path, patches, skips, n + 1);
    } else {
        assert(patches.take(n) =~= patches);
    }
}

/// An error met among the first `n` diffs is the error of them all.
proof fn lemma_retained_all_error_stays(
    docs: Seq<(Seq<char>, Option<Seq<(Seq<char>, Seq<char>, Seq<char>)>>)>,
    skips: Seq<Seq<char>>,
    n: int,
)
    requires
        0 <= n <= docs.len(),
        retained_all(docs.take(n), skips) is Err,
    ensures
        retained_all(docs, skips) == retained_all(docs.take(n), skips),
    decreases docs.len() - n,
{
    if n < docs.len() {
        let next = docs.take(n + 1);
        assert(next.drop_last() =~= docs.take(n));
        lemma_retained_all_error_stays(docs, skips, n + 1);
    } else {
        assert(docs.take(n) =~= docs);
    }
}

} // verus!
