//! Preparing text for the asymmetric embedding models.
//!
//! The dense and sparse models are retrieval-tuned and asymmetric: text
//! being indexed is tagged as a passage, while query text is embedded as
//! is. The models themselves are outside collaborators; this module
//! prepares their batch inputs, and the store pairs their outputs with the
//! chunks (see `QdrantVectorStore::store_chunk_batch`).

use vstd::prelude::*;
use vstd::string::StringExecFns;

verus! {

/// The marker prefixed to every chunk before it is embedded for indexing.
pub open spec fn passage_prefix() -> Seq<char> {
    "passage: "@
}

/// Tags every chunk as a passage for the asymmetric embedding models: each
/// output is the passage marker followed by the chunk, in chunk order, one
/// output per chunk.
pub fn prepare_passages(chunks: &Vec<String>) -> (r: Vec<String>)
    ensures
        r@.len() == chunks@.len(),
        forall|i: int|
            0 <= i < r@.len() ==> r.deep_view()[i] == passage_prefix() + chunks.deep_view()[i],
{
    let ghost cv = chunks.deep_view();
    let mut out: Vec<String> = Vec::new();
    let mut i: usize = 0;
    while i < chunks.len()
        invariant
            cv == chunks.deep_view(),
            chunks@.len() == cv.len(),
            i <= cv.len(),
            out@.len() == i,
            forall|t: int| 0 <= t < i ==> out.deep_view()[t] == passage_prefix() + cv[t],
        decreases cv.len() - i,
    {
        let ghost out0 = out.deep_view();
        let mut tagged = String::from_str("passage: ");
        tagged.append(chunks[i].as_str());
        out.push(tagged);
        proof {
            assert(out.deep_view() =~= out0.push(passage_prefix() + cv[i as int]));
        }
        i = i + 1;
    }
    out
}

} // verus!
