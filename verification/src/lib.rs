//! A retrieval pipeline library: document text is normalized and chunked,
//! each chunk is paired with a dense and a sparse embedding, chunks and file
//! metadata are kept in a two-collection vector store, and queries are
//! answered by fusing dense and sparse candidate rankings, reranking the
//! fused candidates, and synthesizing an answer over the retrieved evidence.

mod strings;
pub mod ai;
pub mod chunking;
pub mod crawl;
pub mod digest;
pub mod embed;
pub mod errors;
pub mod fusion;
pub mod qdrant_client;

pub use crawl::{is_supported_file_type, should_include_file};
