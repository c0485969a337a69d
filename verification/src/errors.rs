//! The failure taxonomy of the pipeline.
//!
//! Ingestion failures are isolated to one file and never abort a run; a
//! retrieval failure aborts only its query; a synthesis failure is reported
//! distinctly from an ordinary empty answer.

use vstd::prelude::*;

verus! {

/// An ingestion failure, fatal for one file only.
#[derive(Debug, PartialEq, Eq, Structural)]
pub enum IngestError {
    /// The dense and sparse embedding batches do not both match the chunk
    /// count; none of the file's chunks are stored.
    EmbeddingCountMismatch { chunks: usize, dense: usize, sparse: usize },
}

/// A failure that aborts a single query.
#[derive(Debug)]
pub enum RetrievalError {
    /// The reranking call failed. Fused order is never returned in its
    /// place: fused rank and true relevance are not guaranteed to correlate.
    RerankFailed(String),
    /// The reranker returned a different number of scores than candidates.
    RerankCountMismatch { candidates: usize, scores: usize },
}

/// A failure of answer synthesis.
#[derive(Debug)]
pub enum SynthesisError {
    /// The model returned no completion choices at all.
    NoChoices,
    /// The completion carries no content: the model reported the given
    /// finish condition (such as a truncation) instead of a normal
    /// completion, so the answer may be incomplete.
    Truncated { finish_reason: String },
}

} // verus!
