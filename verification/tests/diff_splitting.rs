use llmchain::diff::{
    pattern_verdict, DiffDocument, FilePatch, GithubPRDiffSplitter, ParsedDiff, SkipVerdict,
};
use llmchain::document::{Document, SplitError};

const TWO_FILES: &str = "\
--- a/skip.txt
+++ a/skip.txt
@@ -1,2 +1,2 @@
-old line
+new line
 same line
--- b/keep.txt
+++ b/keep.txt
@@ -1,1 +1,1 @@
-before
+after
";

fn parse(path: &str, content: &str) -> DiffDocument {
    let parsed = match patch::Patch::from_multiple(content) {
        Ok(patches) => ParsedDiff::Patches(
            patches
                .iter()
                .map(|p| FilePatch {
                    old_path: p.old.path.to_string(),
                    new_path: p.new.path.to_string(),
                    text: format!("{}", p),
                })
                .collect(),
        ),
        Err(_) => ParsedDiff::Malformed,
    };
    DiffDocument { path: path.to_string(), parsed }
}

fn file_patch(old_path: &str, new_path: &str, text: &str) -> FilePatch {
    FilePatch {
        old_path: old_path.to_string(),
        new_path: new_path.to_string(),
        text: text.to_string(),
    }
}

fn pairs(docs: &[Document]) -> Vec<(String, String)> {
    docs.iter().map(|d| (d.meta.path.clone(), d.content.clone())).collect()
}

#[test]
fn defaults_of_the_diff_splitter() {
    let splitter = GithubPRDiffSplitter::create();
    assert_eq!(splitter.splitter_chunk_size, 2000);
    assert!(splitter.skips.is_empty());
    assert!(splitter.separators().is_empty());
    let splitter = splitter.with_chunk_size(7).with_skips(vec!["*.lock".to_string()]);
    assert_eq!(splitter.splitter_chunk_size, 7);
    assert_eq!(splitter.skips, vec!["*.lock".to_string()]);
}

#[test]
fn skip_pattern_drops_the_matching_patch() {
    let splitter = GithubPRDiffSplitter::create().with_skips(vec!["a/*".to_string()]);
    let docs = vec![parse("pr.diff", TWO_FILES)];
    let chunks = splitter.split_documents(&docs).unwrap();
    assert_eq!(
        pairs(&chunks),
        vec![(
            "pr.diff".to_string(),
            "--- b/keep.txt\n+++ b/keep.txt\n@@ -1,1 +1,1 @@\n-before\n+after".to_string()
        )]
    );
}

#[test]
fn without_skips_every_patch_is_kept_in_order() {
    let splitter = GithubPRDiffSplitter::create();
    let docs = vec![parse("pr.diff", TWO_FILES)];
    let chunks = splitter.split_documents(&docs).unwrap();
    assert_eq!(chunks.len(), 2);
    assert!(chunks[0].content.starts_with("--- a/skip.txt\n+++ a/skip.txt\n"));
    assert!(chunks[1].content.starts_with("--- b/keep.txt\n+++ b/keep.txt\n"));
    assert_eq!(chunks[0].meta.path, "pr.diff");
    assert_eq!(chunks[1].meta.path, "pr.diff");
}

#[test]
fn new_path_alone_can_match() {
    let splitter = GithubPRDiffSplitter::create().with_skips(vec!["*.lock".to_string()]);
    assert_eq!(splitter.keeps("/dev/null", "Cargo.lock"), Ok(false));
    assert_eq!(splitter.keeps("Cargo.lock", "/dev/null"), Ok(false));
    assert_eq!(splitter.keeps("Cargo.toml", "Cargo.toml"), Ok(true));
}

#[test]
fn literal_pattern_matches_only_itself() {
    let splitter = GithubPRDiffSplitter::create().with_skips(vec!["a/b.txt".to_string()]);
    assert_eq!(splitter.keeps("a/b.txt", "x"), Ok(false));
    assert_eq!(splitter.keeps("a/b.txt.orig", "x"), Ok(true));
}

#[test]
fn patterns_are_consulted_in_order() {
    let skips = vec!["src/*".to_string(), "a/**b".to_string()];
    let splitter = GithubPRDiffSplitter::create().with_skips(skips);
    assert_eq!(splitter.keeps("src/lib.rs", "src/lib.rs"), Ok(false));
    assert_eq!(splitter.keeps("doc/x.md", "doc/x.md"), Err(SplitError::Pattern { skip: 1 }));
}

#[test]
fn invalid_pattern_is_an_error_once_a_patch_meets_it() {
    let splitter = GithubPRDiffSplitter::create().with_skips(vec!["abc[def".to_string()]);
    let docs = vec![parse("pr.diff", TWO_FILES)];
    assert_eq!(splitter.split_documents(&docs).unwrap_err(), SplitError::Pattern { skip: 0 });
    let none = vec![DiffDocument { path: "e.diff".to_string(), parsed: ParsedDiff::Patches(vec![]) }];
    assert!(splitter.split_documents(&none).unwrap().is_empty());
}

#[test]
fn malformed_diff_is_an_error() {
    let splitter = GithubPRDiffSplitter::create();
    let docs = vec![parse("ok.diff", TWO_FILES), parse("bad.diff", "no diff at all")];
    assert_eq!(splitter.split_documents(&docs).unwrap_err(), SplitError::Parse { document: 1 });
}

#[test]
fn first_error_in_order_wins() {
    let splitter = GithubPRDiffSplitter::create().with_chunk_size(0).with_skips(vec!["[".to_string()]);
    let bad_then_patch = vec![
        DiffDocument { path: "bad.diff".to_string(), parsed: ParsedDiff::Malformed },
        parse("ok.diff", TWO_FILES),
    ];
    assert_eq!(
        splitter.split_documents(&bad_then_patch).unwrap_err(),
        SplitError::Parse { document: 0 }
    );
    let patch_then_bad = vec![
        parse("ok.diff", TWO_FILES),
        DiffDocument { path: "bad.diff".to_string(), parsed: ParsedDiff::Malformed },
    ];
    assert_eq!(
        splitter.split_documents(&patch_then_bad).unwrap_err(),
        SplitError::Pattern { skip: 0 }
    );
}

#[test]
fn zero_chunk_size_is_refused_last() {
    let splitter = GithubPRDiffSplitter::create().with_chunk_size(0);
    assert_eq!(splitter.split_documents(&[]).unwrap_err(), SplitError::Config);
}

#[test]
fn long_patches_are_cut_hard() {
    let splitter = GithubPRDiffSplitter::create().with_chunk_size(4);
    let docs = vec![DiffDocument {
        path: "pr.diff".to_string(),
        parsed: ParsedDiff::Patches(vec![
            file_patch("a", "a", "0123456789"),
            file_patch("b", "b", "xy"),
        ]),
    }];
    let chunks = splitter.split_documents(&docs).unwrap();
    let expected: Vec<(String, String)> = ["0123", "4567", "89", "xy"]
        .iter()
        .map(|c| ("pr.diff".to_string(), c.to_string()))
        .collect();
    assert_eq!(pairs(&chunks), expected);
}

#[test]
fn verdict_of_one_pattern() {
    assert_eq!(pattern_verdict(Some(false), Some(false)), SkipVerdict::Keep);
    assert_eq!(pattern_verdict(Some(true), Some(false)), SkipVerdict::Skip);
    assert_eq!(pattern_verdict(Some(false), Some(true)), SkipVerdict::Skip);
    assert_eq!(pattern_verdict(Some(true), Some(true)), SkipVerdict::Skip);
    assert_eq!(pattern_verdict(None, None), SkipVerdict::BadPattern);
    assert_eq!(pattern_verdict(None, Some(true)), SkipVerdict::BadPattern);
    assert_eq!(pattern_verdict(Some(true), None), SkipVerdict::BadPattern);
}
