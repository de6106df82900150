//! Documents, their provenance, and the errors of the chunking pipeline.

use vstd::prelude::*;

verus! {

/// Settings shared by the splitters.
#[derive(Debug, Clone)]
pub struct DocumentSettings {
    pub splitter_chunk_size: usize,
}

/// Where a document came from.
#[derive(Debug, Clone)]
pub struct DocumentMeta {
    pub path: String,
}

/// A whole source file or, after splitting, one chunk of it.
#[derive(Debug, Clone)]
pub struct Document {
    pub meta: DocumentMeta,
    pub content: String,
}

/// Why a splitter refused its input.
#[derive(Debug, Clone, Copy, PartialEq, Eq, Structural)]
pub enum SplitError {
    /// The overlap is not smaller than the chunk size.
    Config,
    /// The diff of the document at this position could not be parsed.
    Parse { document: usize },
    /// The skip pattern at this position is not a valid glob.
    Pattern { skip: usize },
}

/// Why a loader could not read its source.
#[derive(Debug, Clone, Copy, PartialEq, Eq, Structural)]
pub enum LoadError {
    /// The root path or a file under it is unreadable.
    Io,
    /// The pattern of the binding at this position is not a valid glob.
    Pattern { binding: usize },
}

/// A source of documents under a root path.
pub trait DocumentLoader {
    fn load(&self, path: &str) -> Result<Vec<Document>, LoadError>;
}

impl View for Document {
    /// The path and the content, as character sequences.
    type V = (Seq<char>, Seq<char>);

    open spec fn view(&self) -> (Seq<char>, Seq<char>) {
        (self.meta.path@, self.content@)
    }
}

/// The views of a sequence of documents, in order.
pub open spec fn doc_views(docs: Seq<Document>) -> Seq<(Seq<char>, Seq<char>)> {
    Seq::new(docs.len(), |i: int| docs[i]@)
}

/// The views of a sequence of strings, in order.
pub open spec fn str_views(strings: Seq<String>) -> Seq<Seq<char>> {
    Seq::new(strings.len(), |i: int| strings[i]@)
}

impl Document {
    /// A document with the given path and content.
    pub fn create(path: &str, content: &str) -> (doc: Document)
        ensures
            doc@ == (path@, content@),
    {
        Document { meta: DocumentMeta { path: path.to_owned() }, content: content.to_owned() }
    }

    /// The path this document was read from.
    pub fn path(&self) -> (p: &str)
        ensures
            p@ == self@.0,
    {
        self.meta.path.as_str()
    }
}

} // verus!
