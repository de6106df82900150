use llmchain::document::{Document, SplitError};
use llmchain::markdown::MarkdownSplitter;
use llmchain::text::{to_chars, TextSplitter};

fn strings(items: &[&str]) -> Vec<String> {
    items.iter().map(|s| s.to_string()).collect()
}

fn contents(docs: &[Document]) -> Vec<String> {
    docs.iter().map(|d| d.content.clone()).collect()
}

#[test]
fn hard_cut_without_separators() {
    let splitter = TextSplitter::create().with_chunk_size(4);
    let chunks = splitter.split_text("abcdefghij").unwrap();
    assert_eq!(chunks, strings(&["abcd", "efgh", "ij"]));
}

#[test]
fn text_that_fits_is_one_chunk() {
    let splitter = TextSplitter::create().with_chunk_size(10).with_separators(strings(&[" "]));
    assert_eq!(splitter.split_text("aa bb cc d").unwrap(), strings(&["aa bb cc d"]));
}

#[test]
fn empty_text_has_no_chunks() {
    let splitter = TextSplitter::create();
    assert_eq!(splitter.split_text("").unwrap(), Vec::<String>::new());
    let docs = vec![Document::create("empty.txt", "")];
    assert!(splitter.split_documents(&docs).unwrap().is_empty());
}

#[test]
fn defaults_of_the_text_splitter() {
    let splitter = TextSplitter::create();
    assert_eq!(splitter.splitter_chunk_size, 400);
    assert_eq!(splitter.chunk_overlap, 0);
    assert!(splitter.separators().is_empty());
    let text = "x".repeat(401);
    let chunks = splitter.split_text(&text).unwrap();
    assert_eq!(chunks, vec!["x".repeat(400), "x".to_string()]);
}

#[test]
fn overlap_prefixes_each_later_chunk() {
    let splitter = TextSplitter::create().with_chunk_size(4).with_chunk_overlap(1);
    let chunks = splitter.split_text("abcdefghij").unwrap();
    assert_eq!(chunks, strings(&["abc", "cdef", "fghi", "ij"]));
}

#[test]
fn overlap_larger_than_a_chunk_takes_all_of_it() {
    let splitter = TextSplitter::create().with_chunk_size(5).with_chunk_overlap(3);
    let chunks = splitter.split_text("abcdefg").unwrap();
    assert_eq!(chunks, strings(&["ab", "abcd", "bcdef", "defg"]));
}

#[test]
fn cuts_before_separators_and_merges_greedily() {
    let splitter = TextSplitter::create().with_chunk_size(5).with_separators(strings(&[" "]));
    let chunks = splitter.split_text("aa bb cc dd").unwrap();
    assert_eq!(chunks, strings(&["aa bb", " cc", " dd"]));
}

#[test]
fn oversized_segment_goes_to_the_next_separator() {
    let splitter =
        TextSplitter::create().with_chunk_size(4).with_separators(strings(&["\n\n", " "]));
    let chunks = splitter.split_text("ab cd ef\n\ngh").unwrap();
    assert_eq!(chunks, strings(&["ab", " cd", " ef", "\n\ngh"]));
}

#[test]
fn oversized_segment_without_separator_is_cut_hard() {
    let splitter = TextSplitter::create().with_chunk_size(3).with_separators(strings(&[" "]));
    let chunks = splitter.split_text("abcdefgh ij").unwrap();
    assert_eq!(chunks, strings(&["abc", "def", "gh", " ij"]));
}

#[test]
fn single_characters_after_a_hard_cut_are_merged() {
    let splitter = TextSplitter::create().with_chunk_size(4).with_separators(strings(&["-"]));
    let chunks = splitter.split_text("abcde-f").unwrap();
    assert_eq!(chunks, strings(&["abcd", "e-f"]));
}

#[test]
fn absent_separator_is_passed_over() {
    let splitter =
        TextSplitter::create().with_chunk_size(3).with_separators(strings(&["#", "", ","]));
    let chunks = splitter.split_text("a,b,c,d").unwrap();
    assert_eq!(chunks, strings(&["a,b", ",c", ",d"]));
}

#[test]
fn counts_characters_not_bytes() {
    let splitter = TextSplitter::create().with_chunk_size(2);
    let chunks = splitter.split_text("äöüß€").unwrap();
    assert_eq!(chunks, strings(&["äö", "üß", "€"]));
    assert_eq!(to_chars("ä€"), vec!['ä', '€']);
}

#[test]
fn overlap_not_below_chunk_size_is_refused() {
    let equal = TextSplitter::create().with_chunk_size(4).with_chunk_overlap(4);
    assert_eq!(equal.split_text("abc").unwrap_err(), SplitError::Config);
    let zero = TextSplitter::create().with_chunk_size(0);
    assert_eq!(zero.split_documents(&[]).unwrap_err(), SplitError::Config);
    let markdown = MarkdownSplitter::create().with_chunk_size(10).with_chunk_overlap(11);
    assert_eq!(markdown.split_documents(&[]).unwrap_err(), SplitError::Config);
}

#[test]
fn chunks_keep_order_and_path() {
    let splitter = TextSplitter::create().with_chunk_size(3);
    let docs = vec![Document::create("a.txt", "abcde"), Document::create("b.txt", "xy")];
    let chunks = splitter.split_documents(&docs).unwrap();
    let got: Vec<(String, String)> =
        chunks.iter().map(|d| (d.meta.path.clone(), d.content.clone())).collect();
    assert_eq!(
        got,
        vec![
            ("a.txt".to_string(), "abc".to_string()),
            ("a.txt".to_string(), "de".to_string()),
            ("b.txt".to_string(), "xy".to_string()),
        ]
    );
    assert_eq!(chunks[0].path(), "a.txt");
}

#[test]
fn chunk_size_bound_holds() {
    let text = "The quick brown fox. Jumps over\n\nthe lazy dog, again and again and again.";
    for max_size in 1..20usize {
        for overlap in 0..max_size {
            let splitter = TextSplitter::create()
                .with_chunk_size(max_size)
                .with_chunk_overlap(overlap)
                .with_separators(strings(&["\n\n", ". ", " "]));
            for chunk in splitter.split_text(text).unwrap() {
                let n = chunk.chars().count();
                assert!(n >= 1 && n <= max_size);
            }
        }
    }
}

#[test]
fn adjacent_chunks_share_the_overlap() {
    let text = "The quick brown fox. Jumps over\n\nthe lazy dog, again and again and again.";
    for max_size in 2..20usize {
        for overlap in 1..max_size {
            let splitter = TextSplitter::create()
                .with_chunk_size(max_size)
                .with_chunk_overlap(overlap)
                .with_separators(strings(&["\n\n", ". ", " "]));
            let chunks: Vec<Vec<char>> = splitter
                .split_text(text)
                .unwrap()
                .iter()
                .map(|c| c.chars().collect())
                .collect();
            for pair in chunks.windows(2) {
                let shared = overlap.min(pair[0].len());
                assert_eq!(pair[1][..shared], pair[0][pair[0].len() - shared..]);
            }
        }
    }
}

#[test]
fn chunks_without_overlap_rebuild_the_text() {
    let text = "# Title\n\nFirst paragraph. Second sentence.\n\n## Part\nMore text here";
    for max_size in 1..30usize {
        let splitter = TextSplitter::create()
            .with_chunk_size(max_size)
            .with_separators(strings(&["\n#", "\n\n", ". ", " ", ""]));
        let chunks = splitter.split_text(text).unwrap();
        let joined = chunks.concat();
        assert_eq!(joined, text);
        assert_eq!(splitter.split_text(&joined).unwrap(), chunks);
    }
}

#[test]
fn markdown_separators_in_order() {
    let splitter = MarkdownSplitter::create();
    assert_eq!(splitter.splitter_chunk_size, 400);
    assert_eq!(splitter.chunk_overlap, 0);
    assert_eq!(splitter.separators(), strings(&["\n#", "\n\n", ". ", " ", ""]));
}

#[test]
fn markdown_cuts_at_headings_first() {
    let splitter = MarkdownSplitter::create().with_chunk_size(12);
    let docs = vec![Document::create("doc.md", "# A\nalpha\n# B\nbeta. gamma")];
    let chunks = splitter.split_documents(&docs).unwrap();
    assert_eq!(contents(&chunks), strings(&["# A\nalpha", "\n# B\nbeta", ". gamma"]));
}

#[test]
fn two_markdown_files_end_to_end() {
    let small = "a".repeat(50);
    let mut large = String::new();
    while large.chars().count() < 5000 {
        large.push_str("## Heading\n\nSome words in a sentence. More words follow here.\n\n");
    }
    let large: String = large.chars().take(5000).collect();
    let docs = vec![Document::create("small.md", &small), Document::create("large.md", &large)];
    let splitter = MarkdownSplitter::create().with_chunk_size(1000).with_chunk_overlap(100);
    let chunks = splitter.split_documents(&docs).unwrap();
    let of_small: Vec<&Document> = chunks.iter().filter(|d| d.meta.path == "small.md").collect();
    let of_large: Vec<&Document> = chunks.iter().filter(|d| d.meta.path == "large.md").collect();
    assert_eq!(of_small.len(), 1);
    assert_eq!(of_small[0].content, small);
    assert!(of_large.len() >= 5);
    assert_eq!(chunks.len(), of_small.len() + of_large.len());
    for chunk in &chunks {
        assert!(chunk.content.chars().count() <= 1000);
    }
    for pair in of_large.windows(2) {
        let before: Vec<char> = pair[0].content.chars().collect();
        let after: Vec<char> = pair[1].content.chars().collect();
        assert!(before.len() >= 100);
        assert_eq!(after[..100], before[before.len() - 100..]);
    }
    let mut rebuilt: String = of_large[0].content.clone();
    for chunk in &of_large[1..] {
        rebuilt.extend(chunk.content.chars().skip(100));
    }
    assert_eq!(rebuilt, large);
}
