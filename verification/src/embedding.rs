//! What goes to an embedding provider and what is taken from its answer.
//! The provider itself is outside this library.

use vstd::prelude::*;
use crate::document::{str_views, Document};

verus! {

/// The contents of the documents, in the documents' order.
pub open spec fn content_views(docs: Seq<Document>) -> Seq<Seq<char>> {
    Seq::new(docs.len(), |i: int| docs[i].content@)
}

/// The inputs of one batched request: the content of every document, one
/// for one and in order.
pub fn document_contents(documents: &[Document]) -> (inputs: Vec<String>)
    ensures
        str_views(inputs@) == content_views(documents@),
{
    let mut inputs: Vec<String> = Vec::new();
    let mut i: usize = 0;
    while i < documents.len()
        invariant
            i <= documents.len(),
            inputs@.len() == i,
            forall|j: int| 0 <= j < i ==> (#[trigger] inputs@[j])@ == documents@[j].content@,
        decreases documents.len() - i,
    {
        inputs.push(documents[i].content.clone());
        i += 1;
    }
    proof {
        assert(str_views(inputs@) =~= content_views(documents@));
    }
    inputs
}

/// The vector of a single query: the first of the provider's answer, or an
/// empty vector where the provider answered with none.
pub fn query_embedding<T>(embeddings: Vec<Vec<T>>) -> (vector: Vec<T>)
    ensures
        vector@ == if embeddings@.len() == 0 {
            Seq::<T>::empty()
        } else {
            embeddings@[0]@
        },
{
    let mut embeddings = embeddings;
    if embeddings.len() == 0 {
        Vec::new()
    } else {
        embeddings.swap_remove(0)
    }
}

} // verus!
