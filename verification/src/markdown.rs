//! The markdown-aware splitter: the plain-text splitter with a fixed list of
//! separators, from heading boundaries down to single characters.

use vstd::prelude::*;
use crate::document::{doc_views, str_views, Document, SplitError};
use crate::text::{split_all, TextSplitter};

verus! {

/// The separators of markdown, most meaningful first: a heading, a blank
/// line, the end of a sentence, a space, and last no separator at all, which
/// leaves the hard cut.
pub open spec fn markdown_separators() -> Seq<Seq<char>> {
    seq!["\n#"@, "\n\n"@, ". "@, " "@, ""@]
}

/// Splits markdown at its headings, paragraphs and sentences.
pub struct MarkdownSplitter {
    pub splitter_chunk_size: usize,
    pub chunk_overlap: usize,
}

impl MarkdownSplitter {
    /// Chunks of 400 characters, no overlap.
    pub fn create() -> (s: MarkdownSplitter)
        ensures
            s.splitter_chunk_size == 400,
            s.chunk_overlap == 0,
    {
        MarkdownSplitter { splitter_chunk_size: 400, chunk_overlap: 0 }
    }

    pub fn with_chunk_size(self, chunk_size: usize) -> (s: MarkdownSplitter)
        ensures
            s.splitter_chunk_size == chunk_size,
            s.chunk_overlap == self.chunk_overlap,
    {
        MarkdownSplitter { splitter_chunk_size: chunk_size, chunk_overlap: self.chunk_overlap }
    }

    pub fn with_chunk_overlap(self, overlap: usize) -> (s: MarkdownSplitter)
        ensures
            s.splitter_chunk_size == self.splitter_chunk_size,
            s.chunk_overlap == overlap,
    {
        MarkdownSplitter { splitter_chunk_size: self.splitter_chunk_size, chunk_overlap: overlap }
    }

    /// The separators of markdown, most meaningful first.
    pub fn separators(&self) -> (v: Vec<String>)
        ensures
            str_views(v@) == markdown_separators(),
    {
        let mut v: Vec<String> = Vec::new();
        v.push("\n#".to_owned());
        v.push("\n\n".to_owned());
        v.push(". ".to_owned());
        v.push(" ".to_owned());
        v.push("".to_owned());
        proof {
            assert(str_views(v@) =~= markdown_separators());
        }
        v
    }

    /// The chunks of every document, in the documents' order, cut at the
    /// separators of markdown. Fails exactly when the overlap is not smaller
    /// than the chunk size.
    pub fn split_documents(&self, documents: &[Document]) -> (r: Result<Vec<Document>, SplitError>)
        ensures
            match r {
                Ok(chunks) => self.chunk_overlap < self.splitter_chunk_size && doc_views(chunks@)
                    == split_all(
                    doc_views(documents@),
                    markdown_separators(),
                    self.splitter_chunk_size as int,
                    self.chunk_overlap as int,
                ),
                Err(e) => self.chunk_overlap >= self.splitter_chunk_size && e is Config,
            },
            r matches Ok(chunks) ==> forall|i: int|
                0 <= i < chunks@.len() ==> 0 < (#[trigger] chunks@[i]).content@.len()
                    <= self.splitter_chunk_size,
    {
        let text_splitter = TextSplitter::create().with_chunk_size(
            self.splitter_chunk_size,
        ).with_chunk_overlap(self.chunk_overlap).with_separators(self.separators());
        text_splitter.split_documents(documents)
    }
}

} // verus!
