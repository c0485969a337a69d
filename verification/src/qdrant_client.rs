//! The vector store model: two collections, their schema, and their
//! invariants.
//!
//! The metadata collection holds one point per ingested file, keyed by the
//! deterministic file identifier, so re-ingestion overwrites and never
//! duplicates a record. The chunk collection holds one point per chunk,
//! keyed by a freshly drawn random identifier, so a chunk write always adds
//! a point; a chunk is stored with both its vectors or not at all.

use vstd::prelude::*;
use vstd::string::StringExecFns;
use crate::digest::{compute_file_id, file_id_spec, fresh_point_id};
use crate::errors::{IngestError, RetrievalError};
use crate::fusion::{FusedCandidate, RerankOutcome};

verus! {

/// Metadata stored for one ingested file.
#[derive(Debug, Clone)]
pub struct FileMetadata {
    pub file_path: String,
    pub file_name: String,
    pub file_size: u64,
    pub modified_time: u64,
    pub content_hash: String,
    pub markdown_content: Option<String>,
}

/// Payload stored with one chunk.
#[derive(Debug, Clone)]
pub struct ChunkMetadata {
    pub file_id: String,
    pub chunk_index: i32,
    pub chunk_content: String,
}

/// One point of the metadata collection: a file record keyed by the
/// deterministic file identifier.
pub struct FilePoint {
    pub id: String,
    pub metadata: FileMetadata,
}

/// One point of the chunk collection: the chunk payload and both of its
/// vectors, keyed by a random point identifier.
pub struct ChunkPoint<D, S> {
    pub point_id: u128,
    pub metadata: ChunkMetadata,
    pub dense: D,
    pub sparse: S,
}

/// The view of an optional owned string.
pub open spec fn opt_string_view(o: Option<String>) -> Option<Seq<char>> {
    match o {
        Option::Some(s) => Option::Some(s@),
        Option::None => Option::None,
    }
}

/// The view of an optional borrowed string.
pub open spec fn opt_str_view(o: Option<&str>) -> Option<Seq<char>> {
    match o {
        Option::Some(s) => Option::Some(s@),
        Option::None => Option::None,
    }
}

/// A file point is keyed by the identifier derived from its own path.
pub open spec fn file_point_wf(p: FilePoint) -> bool {
    p.id@ == file_id_spec(p.metadata.file_path@)
}

/// The file point stored for the given field values.
pub open spec fn file_point_matches(
    p: FilePoint,
    path: Seq<char>,
    name: Seq<char>,
    size: u64,
    mtime: u64,
    hash: Seq<char>,
    md: Option<Seq<char>>,
) -> bool {
    &&& p.id@ == file_id_spec(path)
    &&& p.metadata.file_path@ == path
    &&& p.metadata.file_name@ == name
    &&& p.metadata.file_size == size
    &&& p.metadata.modified_time == mtime
    &&& p.metadata.content_hash@ == hash
    &&& opt_string_view(p.metadata.markdown_content) == md
}

/// The chunk point stored for the given field values.
pub open spec fn chunk_point_matches<D, S>(
    p: ChunkPoint<D, S>,
    file_id: Seq<char>,
    index: i32,
    text: Seq<char>,
    dense: D,
    sparse: S,
) -> bool {
    &&& p.metadata.file_id@ == file_id
    &&& p.metadata.chunk_index == index
    &&& p.metadata.chunk_content@ == text
    &&& p.dense == dense
    &&& p.sparse == sparse
}

/// The first position holding a file point with the given identifier.
pub open spec fn find_file(files: Seq<FilePoint>, id: Seq<char>) -> Option<int>
    decreases files.len(),
{
    if files.len() == 0 {
        Option::None
    } else if files[0].id@ == id {
        Option::Some(0)
    } else {
        match find_file(files.drop_first(), id) {
            Option::None => Option::None,
            Option::Some(i) => Option::Some(i + 1),
        }
    }
}

/// `find_file` returns the first match: the found point carries the
/// identifier and no earlier point does; with no match, no point does.
pub proof fn lemma_find_file_first(files: Seq<FilePoint>, id: Seq<char>)
    ensures
        match find_file(files, id) {
            Option::None => forall|j: int|
                0 <= j < files.len() ==> (#[trigger] files[j]).id@ != id,
            Option::Some(i) => {
                &&& 0 <= i < files.len()
                &&& files[i].id@ == id
                &&& forall|j: int| 0 <= j < i ==> (#[trigger] files[j]).id@ != id
            },
        },
    decreases files.len(),
{
    if files.len() > 0 && files[0].id@ != id {
        let rest = files.drop_first();
        lemma_find_file_first(rest, id);
        match find_file(rest, id) {
            Option::None => {
                assert forall|j: int| 0 <= j < files.len() implies (#[trigger] files[j]).id@
                    != id by {
                    if j >= 1 {
                        assert(files[j] == rest[j - 1]);
                    }
                }
            },
            Option::Some(i) => {
                assert(files[i + 1] == rest[i]);
                assert forall|j: int| 0 <= j < i + 1 implies (#[trigger] files[j]).id@ != id by {
                    if j >= 1 {
                        assert(files[j] == rest[j - 1]);
                    }
                }
            },
        }
    }
}

/// The model of the vector store: the chunk collection and the file
/// metadata collection, by the names the backend knows them under.
pub struct QdrantVectorStore<D, S> {
    pub collection_name: String,
    pub files_collection_name: String,
    pub files: Vec<FilePoint>,
    pub chunks: Vec<ChunkPoint<D, S>>,
}

impl<D, S> QdrantVectorStore<D, S> {
    /// The store invariant: every file point is keyed by the identifier of
    /// its own path, and no two file points share an identifier.
    pub open spec fn wf(self) -> bool {
        &&& (forall|i: int|
            0 <= i < self.files@.len() ==> file_point_wf(#[trigger] self.files@[i]))
        &&& (forall|i: int, j: int|
            0 <= i < j < self.files@.len() ==> (#[trigger] self.files@[i]).id@ != (
            #[trigger] self.files@[j]).id@)
    }

    /// Creates the store model with both collections present and empty.
    /// Creating it again would find them already there: an idempotent
    /// initialization, never a failure.
    pub fn new() -> (r: Self)
        ensures
            r.wf(),
            r.files@.len() == 0,
            r.chunks@.len() == 0,
            r.collection_name@ == "file_embeddings"@,
            r.files_collection_name@ == "files"@,
    {
        QdrantVectorStore {
            collection_name: String::from_str("file_embeddings"),
            files_collection_name: String::from_str("files"),
            files: Vec::new(),
            chunks: Vec::new(),
        }
    }

    /// Writes or overwrites the metadata record of one file, keyed by the
    /// deterministic identifier of its path, and returns that identifier.
    /// A record with the same identifier is replaced in place; otherwise the
    /// record is appended: re-ingestion never duplicates a file record.
    pub fn store_file_metadata(
        &mut self,
        file_path: &str,
        file_name: &str,
        file_size: u64,
        modified_time: u64,
        content_hash: &str,
        markdown_content: Option<&str>,
    ) -> (id: String)
        requires
            old(self).wf(),
        ensures
            final(self).wf(),
            id@ == file_id_spec(file_path@),
            final(self).chunks == old(self).chunks,
            final(self).collection_name == old(self).collection_name,
            final(self).files_collection_name == old(self).files_collection_name,
            ({
                let fs0 = old(self).files@;
                let fs1 = final(self).files@;
                match find_file(fs0, file_id_spec(file_path@)) {
                    Option::None => {
                        &&& fs1.len() == fs0.len() + 1
                        &&& fs1.subrange(0, fs0.len() as int) == fs0
                        &&& file_point_matches(
                            fs1[fs0.len() as int],
                            file_path@,
                            file_name@,
                            file_size,
                            modified_time,
                            content_hash@,
                            opt_str_view(markdown_content),
                        )
                    },
                    Option::Some(i) => {
                        &&& fs1.len() == fs0.len()
                        &&& (forall|j: int| 0 <= j < fs1.len() && j != i ==> fs1[j] == fs0[j])
                        &&& file_point_matches(
                            fs1[i],
                            file_path@,
                            file_name@,
                            file_size,
                            modified_time,
                            content_hash@,
                            opt_str_view(markdown_content),
                        )
                    },
                }
            }),
    {
        let id = compute_file_id(file_path);
        let metadata = FileMetadata {
            file_path: file_path.to_owned(),
            file_name: file_name.to_owned(),
            file_size,
            modified_time,
            content_hash: content_hash.to_owned(),
            markdown_content: match markdown_content {
                Option::Some(s) => Option::Some(s.to_owned()),
                Option::None => Option::None,
            },
        };
        let point = FilePoint { id: id.clone(), metadata };
        let ghost fs0 = self.files@;
        let ghost target = file_id_spec(file_path@);
        proof {
            lemma_find_file_first(fs0, target);
        }
        let mut k: usize = 0;
        let mut found: Option<usize> = Option::None;
        while k < self.files.len() && found.is_none()
            invariant
                self.files@ == fs0,
                k <= fs0.len(),
                point.id@ == target,
                match found {
                    Option::None => forall|j: int|
                        0 <= j < k ==> (#[trigger] fs0[j]).id@ != target,
                    Option::Some(f) => {
                        &&& f < k <= fs0.len()
                        &&& fs0[f as int].id@ == target
                        &&& forall|j: int| 0 <= j < f ==> (#[trigger] fs0[j]).id@ != target
                    },
                },
            decreases fs0.len() - k,
        {
            if self.files[k].id == point.id {
                found = Option::Some(k);
            }
            k = k + 1;
        }
        match found {
            Option::Some(i) => {
                proof {
                    // The first match found by the scan is the one the spec names.
                    assert(find_file(fs0, target) == Option::Some(i as int));
                }
                self.files[i] = point;
            },
            Option::None => {
                proof {
                    assert(find_file(fs0, target) is None);
                }
                self.files.push(point);
                assert(self.files@.subrange(0, fs0.len() as int) =~= fs0);
            },
        }
        id
    }

    /// Appends one chunk point, keyed by a freshly drawn random identifier,
    /// carrying the chunk payload and both of its vectors. The write is
    /// acknowledged before returning, so a later query observes the point.
    pub fn store_embeddings(
        &mut self,
        file_id: &str,
        chunk: &String,
        chunk_index: i32,
        dense_embedding: D,
        sparse_embedding: S,
    )
        requires
            old(self).wf(),
        ensures
            final(self).wf(),
            final(self).files == old(self).files,
            final(self).collection_name == old(self).collection_name,
            final(self).files_collection_name == old(self).files_collection_name,
            final(self).chunks@.len() == old(self).chunks@.len() + 1,
            final(self).chunks@.subrange(0, old(self).chunks@.len() as int) == old(self).chunks@,
            chunk_point_matches(
                final(self).chunks@.last(),
                file_id@,
                chunk_index,
                chunk@,
                dense_embedding,
                sparse_embedding,
            ),
    {
        let point_id = fresh_point_id();
        let metadata = ChunkMetadata {
            file_id: file_id.to_owned(),
            chunk_index,
            chunk_content: chunk.clone(),
        };
        let point = ChunkPoint { point_id, metadata, dense: dense_embedding, sparse: sparse_embedding };
        let ghost cs0 = self.chunks@;
        self.chunks.push(point);
        assert(self.chunks@.subrange(0, cs0.len() as int) =~= cs0);
    }

    /// Stores the chunks of one file with their paired embeddings: chunk
    /// `i` is stored with dense vector `i` and sparse vector `i`. When the
    /// batches do not all have one entry per chunk the whole batch is
    /// rejected and nothing is stored: a chunk is never persisted with only
    /// one of its two vectors.
    pub fn store_chunk_batch(
        &mut self,
        file_id: &str,
        chunks: &Vec<String>,
        mut dense: Vec<D>,
        mut sparse: Vec<S>,
    ) -> (r: Result<usize, IngestError>)
        requires
            old(self).wf(),
            chunks@.len() <= i32::MAX,
        ensures
            final(self).wf(),
            final(self).files == old(self).files,
            final(self).collection_name == old(self).collection_name,
            final(self).files_collection_name == old(self).files_collection_name,
            r is Ok <==> (dense@.len() == chunks@.len() && sparse@.len() == chunks@.len()),
            r matches Ok(n) ==> n == chunks@.len(),
            r is Err ==> *final(self) == *old(self) && r == Err::<usize, IngestError>(
                IngestError::EmbeddingCountMismatch {
                    chunks: chunks@.len() as usize,
                    dense: dense@.len() as usize,
                    sparse: sparse@.len() as usize,
                },
            ),
            r is Ok ==> {
                &&& final(self).chunks@.len() == old(self).chunks@.len() + chunks@.len()
                &&& final(self).chunks@.subrange(0, old(self).chunks@.len() as int) == old(
                    self,
                ).chunks@
                &&& (forall|i: int|
                    0 <= i < chunks@.len() ==> chunk_point_matches(
                        #[trigger] final(self).chunks@[old(self).chunks@.len() + i],
                        file_id@,
                        i as i32,
                        chunks@[i]@,
                        dense@[i],
                        sparse@[i],
                    ))
            },
    {
        if dense.len() != chunks.len() || sparse.len() != chunks.len() {
            return Err(
                IngestError::EmbeddingCountMismatch {
                    chunks: chunks.len(),
                    dense: dense.len(),
                    sparse: sparse.len(),
                },
            );
        }
        let ghost cs0 = self.chunks@;
        let ghost dense0 = dense@;
        let ghost sparse0 = sparse@;
        let n = chunks.len();
        let mut i: usize = 0;
        while i < n
            invariant
                self.wf(),
                self.files == old(self).files,
                self.collection_name == old(self).collection_name,
                self.files_collection_name == old(self).files_collection_name,
                i <= n,
                n == chunks@.len() <= i32::MAX,
                dense@ == dense0.skip(i as int),
                sparse@ == sparse0.skip(i as int),
                dense0.len() == n && sparse0.len() == n,
                self.chunks@.len() == cs0.len() + i,
                self.chunks@.subrange(0, cs0.len() as int) == cs0,
                forall|j: int|
                    0 <= j < i ==> chunk_point_matches(
                        #[trigger] self.chunks@[cs0.len() + j],
                        file_id@,
                        j as i32,
                        chunks@[j]@,
                        dense0[j],
                        sparse0[j],
                    ),
            decreases n - i,
        {
            let ghost pre = self.chunks@;
            let d = dense.remove(0);
            let s = sparse.remove(0);
            proof {
                assert(dense0.skip(i as int)[0] == dense0[i as int]);
                assert(dense0.skip(i as int).remove(0) =~= dense0.skip(i as int + 1));
                assert(sparse0.skip(i as int)[0] == sparse0[i as int]);
                assert(sparse0.skip(i as int).remove(0) =~= sparse0.skip(i as int + 1));
            }
            self.store_embeddings(file_id, &chunks[i], i as i32, d, s);
            proof {
                assert(self.chunks@.subrange(0, cs0.len() as int) =~= cs0);
                assert(forall|j: int|
                    0 <= j < i ==> #[trigger] self.chunks@[cs0.len() + j] == pre[cs0.len() + j]);
            }
            i = i + 1;
        }
        proof {
            assert(dense0.skip(n as int).len() == 0);
        }
        Ok(n)
    }

    /// The display identity (path and name) of the file with the given
    /// identifier; empty strings when no such file record exists.
    pub fn file_display(&self, file_id: &String) -> (r: (String, String))
        ensures
            match find_file(self.files@, file_id@) {
                Option::Some(i) => r.0@ == self.files@[i].metadata.file_path@ && r.1@
                    == self.files@[i].metadata.file_name@,
                Option::None => r.0@ == Seq::<char>::empty() && r.1@ == Seq::<char>::empty(),
            },
    {
        let ghost fs = self.files@;
        proof {
            lemma_find_file_first(fs, file_id@);
        }
        let mut k: usize = 0;
        while k < self.files.len()
            invariant
                self.files@ == fs,
                k <= fs.len(),
                forall|j: int| 0 <= j < k ==> (#[trigger] fs[j]).id@ != file_id@,
            decreases fs.len() - k,
        {
            if self.files[k].id == *file_id {
                proof {
                    lemma_find_file_first(fs, file_id@);
                    assert(find_file(fs, file_id@) == Option::Some(k as int));
                }
                return (self.files[k].metadata.file_path.clone(), self.files[k].metadata.file_name.clone());
            }
            k = k + 1;
        }
        proof {
            assert(find_file(fs, file_id@) is None);
        }
        (String::new(), String::new())
    }

    /// Orders the fused candidates by their rerank scores and returns the
    /// top results. With no fused candidates the result is empty and
    /// reranking is skipped: no error, whatever the rerank outcome. With
    /// candidates present, a failed rerank call fails the whole query (the
    /// fused order is never returned in its place), and so does a score
    /// count that does not match the candidate count. Otherwise candidate
    /// `j` is paired with score `j`, the pairs are ordered descending by
    /// score, at most `top_k` results are returned, each result comes from
    /// a fused candidate of its own, and every result kept scores at least
    /// as well as every score dropped.
    #[verifier::rlimit(100)]
    pub fn finish_hybrid_search(
        &self,
        fused: Vec<FusedCandidate>,
        outcome: RerankOutcome,
        top_k: usize,
    ) -> (r: Result<Vec<SearchResult>, RetrievalError>)
        ensures
            fused@.len() == 0 ==> (r matches Ok(v) && v@.len() == 0),
            fused@.len() > 0 ==> match outcome {
                RerankOutcome::Failed(m) => r matches Err(RetrievalError::RerankFailed(m2))
                    && m2 == m,
                RerankOutcome::Scores(sc) => {
                    if sc@.len() != fused@.len() {
                        r matches Err(RetrievalError::RerankCountMismatch { candidates, scores })
                            && candidates == fused@.len() && scores == sc@.len()
                    } else {
                        r matches Ok(v) && {
                            &&& v@.len() == vstd::math::min(top_k as int, fused@.len() as int)
                            &&& results_sorted(v@)
                            &&& results_assigned(v@, fused@, sc@, self.files@)
                            &&& results_dominate(v@, sc@)
                        }
                    }
                },
            },
    {
        if fused.len() == 0 {
            let empty: Vec<SearchResult> = Vec::new();
            return Ok(empty);
        }
        let sc = match outcome {
            RerankOutcome::Failed(m) => {
                return Err(RetrievalError::RerankFailed(m));
            },
            RerankOutcome::Scores(sc) => sc,
        };
        if sc.len() != fused.len() {
            return Err(
                RetrievalError::RerankCountMismatch { candidates: fused.len(), scores: sc.len() },
            );
        }
        let ghost fv = fused@;
        let ghost scv = sc@;
        let mut pairs: Vec<(usize, SearchResult)> = Vec::new();
        let mut t: usize = 0;
        while t < fused.len()
            invariant
                fv == fused@,
                scv == sc@,
                t <= fv.len(),
                scv.len() == fv.len(),
                pairs@.len() == t,
                forall|u: int| 0 <= u < t ==> (#[trigger] pairs@[u]).0 == u,
                forall|u: int| 0 <= u < t ==> pair_ok(#[trigger] pairs@[u], fv, scv, self.files@),
            decreases fv.len() - t,
        {
            let c = &fused[t];
            let (path, name) = self.file_display(&c.hit.file_id);
            let item = SearchResult {
                file_path: path,
                file_name: name,
                chunk_content: c.hit.chunk_content.clone(),
                chunk_index: c.hit.chunk_index,
                similarity_score: sc[t],
            };
            pairs.push((t, item));
            t = t + 1;
        }
        let ghost resv = pairs@;
        proof {
            broadcast use vstd::seq_lib::group_to_multiset_ensures;
            broadcast use vstd::multiset::group_multiset_axioms;

            // Distinct positions carry distinct indices, so the pairs are
            // pairwise distinct values.
            assert forall|a: int, b: int|
                0 <= a < resv.len() && 0 <= b < resv.len() && a != b implies resv[a]
                != resv[b] by {
                assert(resv[a].0 == a);
                assert(resv[b].0 == b);
            }
            assert(resv.no_duplicates());
            resv.lemma_multiset_has_no_duplicates();
        }
        let mut sorted = sort_indexed_desc(pairs);
        let ghost sortedv = sorted@;
        proof {
            broadcast use vstd::seq_lib::group_to_multiset_ensures;
            broadcast use vstd::multiset::group_multiset_axioms;

            // Every sorted pair is one of the built pairs, at the position
            // its own index names.
            assert forall|p: int| 0 <= p < sortedv.len() implies (pair_ok(
                #[trigger] sortedv[p],
                fv,
                scv,
                self.files@,
            ) && sortedv[p] == resv[sortedv[p].0 as int]) by {
                let x = sortedv[p];
                assert(sortedv.contains(x));
                assert(sortedv.to_multiset().count(x) > 0);
                assert(resv.to_multiset().count(x) > 0);
                assert(resv.contains(x));
                let u = choose|u: int| 0 <= u < resv.len() && resv[u] == x;
                assert(resv[u].0 == u);
                assert(pair_ok(resv[u], fv, scv, self.files@));
            }
            // The sort kept the pairs distinct, so no candidate index
            // appears twice.
            sortedv.lemma_multiset_has_no_duplicates_conv();
            assert(sortedv.no_duplicates());
            assert forall|a: int, b: int|
                0 <= a < b < sortedv.len() implies (#[trigger] sortedv[a]).0 != (
            #[trigger] sortedv[b]).0 by {
                if sortedv[a].0 == sortedv[b].0 {
                    assert(sortedv[a] == resv[sortedv[a].0 as int]);
                    assert(sortedv[b] == resv[sortedv[b].0 as int]);
                }
            }
            // Every score of the batch is carried by some sorted pair.
            assert forall|j: int| #![trigger scv[j]] 0 <= j < scv.len() implies exists|p: int|
                0 <= p < sortedv.len() && (#[trigger] sortedv[p]).1.similarity_score == scv[
                j] by {
                let x = resv[j];
                assert(pair_ok(x, fv, scv, self.files@));
                assert(x.1.similarity_score == scv[j]);
                assert(resv.contains(x));
                assert(resv.to_multiset().count(x) > 0);
                assert(sortedv.to_multiset().count(x) > 0);
                assert(sortedv.contains(x));
                let p = choose|p: int| 0 <= p < sortedv.len() && sortedv[p] == x;
                assert(sortedv[p].1.similarity_score == scv[j]);
            }
        }
        // Keep the top pairs only.
        while sorted.len() > top_k
            invariant
                sorted@.len() <= sortedv.len(),
                sorted@ == sortedv.take(sorted@.len() as int),
                sorted@.len() >= top_k || sorted@.len() == sortedv.len(),
            decreases sorted@.len(),
        {
            sorted.pop();
            proof {
                assert(sortedv.take(sorted@.len() as int + 1).drop_last() =~= sortedv.take(
                    sorted@.len() as int,
                ));
            }
        }
        let ghost keepv = sorted@;
        proof {
            assert forall|u: int| 0 <= u < keepv.len() implies #[trigger] keepv[u]
                == sortedv[u] by {}
        }
        // Strip the indices off the kept pairs.
        let mut out: Vec<SearchResult> = Vec::new();
        while sorted.len() > 0
            invariant
                out@.len() + sorted@.len() == keepv.len(),
                sorted@ == keepv.skip(out@.len() as int),
                forall|u: int| 0 <= u < out@.len() ==> #[trigger] out@[u] == keepv[u].1,
            decreases sorted@.len(),
        {
            let ghost n = out@.len() as int;
            proof {
                assert(keepv.skip(n)[0] == keepv[n]);
                assert(keepv.skip(n).remove(0) =~= keepv.skip(n + 1));
            }
            let p = sorted.remove(0);
            out.push(p.1);
        }
        proof {
            let rv = out@;
            let ln = rv.len() as int;
            assert(ln == keepv.len());
            assert(sortedv.len() == fv.len());
            assert(ln == vstd::math::min(top_k as int, fv.len() as int));
            assert forall|u: int| 0 <= u < ln implies #[trigger] rv[u] == sortedv[u].1 by {
                assert(rv[u] == keepv[u].1);
                assert(keepv[u] == sortedv[u]);
            }
            assert(results_sorted(rv)) by {
                assert forall|a: int, b: int|
                    0 <= a <= b < ln implies (#[trigger] rv[a]).similarity_score >= (
                #[trigger] rv[b]).similarity_score by {
                    assert(rv[a] == sortedv[a].1);
                    assert(rv[b] == sortedv[b].1);
                }
            }
            // The witness: each result's own candidate index.
            assert(results_assigned(rv, fv, scv, self.files@)) by {
                let w = Seq::new(rv.len(), |u: int| keepv[u].0 as int);
                assert(w.len() == rv.len());
                assert forall|t1: int, t2: int| 0 <= t1 < t2 < w.len() implies w[t1] != w[
                t2] by {
                    assert(w[t1] == sortedv[t1].0 as int);
                    assert(w[t2] == sortedv[t2].0 as int);
                    assert(sortedv[t1].0 != sortedv[t2].0);
                }
                assert forall|u: int| 0 <= u < w.len() implies 0 <= #[trigger] w[u] < fv.len()
                    && result_from(rv[u], fv[w[u]], scv[w[u]], self.files@) by {
                    assert(w[u] == sortedv[u].0 as int);
                    assert(pair_ok(sortedv[u], fv, scv, self.files@));
                    assert(rv[u] == sortedv[u].1);
                }
            }
            assert(results_dominate(rv, scv)) by {
                assert forall|t: int, j: int|
                    0 <= t < rv.len() && 0 <= j < scv.len() implies ((
                #[trigger] rv[t]).similarity_score >= (#[trigger] scv[j]) || exists|u: int|
                    0 <= u < rv.len() && (#[trigger] rv[u]).similarity_score == scv[j]) by {
                    let p = choose|p: int|
                        0 <= p < sortedv.len() && (#[trigger] sortedv[p]).1.similarity_score
                            == scv[j];
                    if p < ln {
                        assert(rv[p] == sortedv[p].1);
                        assert(rv[p].similarity_score == scv[j]);
                    } else {
                        assert(sortedv[t].1.similarity_score >= sortedv[p].1.similarity_score);
                        assert(rv[t] == sortedv[t].1);
                    }
                }
            }
        }
        Ok(out)
    }
}

/// One fused, reranked answer to a query: the originating file's display
/// identity, the chunk text and position, and the final relevance score as
/// a fixed-point value in ten-thousandths.
#[derive(Debug)]
pub struct SearchResult {
    pub file_path: String,
    pub file_name: String,
    pub chunk_content: String,
    pub chunk_index: i32,
    pub similarity_score: i64,
}

/// The search result built from fused candidate `c` with rerank score
/// `score`: the chunk payload is the candidate's, and the file display
/// identity is resolved from the metadata collection by the candidate's
/// file identifier (empty when no record exists).
pub open spec fn result_from(
    r: SearchResult,
    c: FusedCandidate,
    score: i64,
    files: Seq<FilePoint>,
) -> bool {
    &&& r.chunk_content@ == c.hit.chunk_content@
    &&& r.chunk_index == c.hit.chunk_index
    &&& r.similarity_score == score
    &&& match find_file(files, c.hit.file_id@) {
        Option::Some(i) => r.file_path@ == files[i].metadata.file_path@ && r.file_name@
            == files[i].metadata.file_name@,
        Option::None => r.file_path@ == Seq::<char>::empty() && r.file_name@ == Seq::<
            char,
        >::empty(),
    }
}

/// Search results in descending relevance order.
pub open spec fn results_sorted(s: Seq<SearchResult>) -> bool {
    forall|i: int, j: int|
        0 <= i <= j < s.len() ==> (#[trigger] s[i]).similarity_score >= (
        #[trigger] s[j]).similarity_score
}

/// One indexed result: the result at that index of the score batch, built
/// from that fused candidate and its own rerank score.
pub open spec fn pair_ok(
    p: (usize, SearchResult),
    fused: Seq<FusedCandidate>,
    sc: Seq<i64>,
    files: Seq<FilePoint>,
) -> bool {
    &&& 0 <= p.0 < fused.len()
    &&& result_from(p.1, fused[p.0 as int], sc[p.0 as int], files)
}

/// The results are distinct fused candidates, each paired with its own
/// rerank score: some injective assignment of candidate positions covers
/// the whole result list.
pub open spec fn results_assigned(
    v: Seq<SearchResult>,
    fused: Seq<FusedCandidate>,
    sc: Seq<i64>,
    files: Seq<FilePoint>,
) -> bool {
    exists|order: Seq<int>|
        #![trigger order.len()]
        {
            &&& order.len() == v.len()
            &&& (forall|t1: int, t2: int|
                0 <= t1 < t2 < order.len() ==> order[t1] != order[t2])
            &&& (forall|t: int|
                0 <= t < order.len() ==> 0 <= #[trigger] order[t] < fused.len() && result_from(
                    v[t],
                    fused[order[t]],
                    sc[order[t]],
                    files,
                ))
        }
}

/// Every kept result scores at least as well as every score that no kept
/// result carries.
pub open spec fn results_dominate(v: Seq<SearchResult>, sc: Seq<i64>) -> bool {
    forall|t: int, j: int|
        0 <= t < v.len() && 0 <= j < sc.len() ==> ((#[trigger] v[t]).similarity_score >= (
        #[trigger] sc[j]) || exists|u: int|
            0 <= u < v.len() && (#[trigger] v[u]).similarity_score == sc[j])
}

/// Indexed results in descending relevance order.
pub open spec fn pairs_sorted(s: Seq<(usize, SearchResult)>) -> bool {
    forall|i: int, j: int|
        0 <= i <= j < s.len() ==> (#[trigger] s[i]).1.similarity_score >= (
        #[trigger] s[j]).1.similarity_score
}

/// Sorts indexed results by relevance score, descending: the result is a
/// permutation of the input in descending score order.
fn sort_indexed_desc(input: Vec<(usize, SearchResult)>) -> (r: Vec<(usize, SearchResult)>)
    ensures
        r@.to_multiset() == input@.to_multiset(),
        r@.len() == input@.len(),
        pairs_sorted(r@),
{
    broadcast use vstd::seq_lib::group_to_multiset_ensures;
    broadcast use vstd::multiset::group_multiset_axioms;

    let ghost orig = input@;
    let mut rest = input;
    let mut out: Vec<(usize, SearchResult)> = Vec::new();
    while rest.len() > 0
        invariant
            out@.to_multiset().add(rest@.to_multiset()) == orig.to_multiset(),
            out@.len() + rest@.len() == orig.len(),
            pairs_sorted(out@),
            forall|a: int, b: int|
                0 <= a < out@.len() && 0 <= b < rest@.len() ==> (
                #[trigger] out@[a]).1.similarity_score >= (
                #[trigger] rest@[b]).1.similarity_score,
        decreases rest@.len(),
    {
        let mut m: usize = 0;
        let mut j: usize = 1;
        while j < rest.len()
            invariant
                rest@.len() > 0,
                m < j <= rest@.len(),
                forall|t: int|
                    0 <= t < j ==> rest@[m as int].1.similarity_score >= (
                    #[trigger] rest@[t]).1.similarity_score,
            decreases rest@.len() - j,
        {
            if rest[j].1.similarity_score > rest[m].1.similarity_score {
                m = j;
            }
            j = j + 1;
        }
        let ghost rest0 = rest@;
        let ghost out0 = out@;
        let x = rest.remove(m);
        out.push(x);
        proof {
            out0.to_multiset_ensures();
            rest0.to_multiset_ensures();
            assert(out0.push(x).to_multiset() =~= out0.to_multiset().insert(x));
            assert(rest0.remove(m as int).to_multiset() =~= rest0.to_multiset().remove(
                rest0[m as int],
            ));
            assert(rest0.contains(x));
            assert(rest0.to_multiset().count(x) > 0);
            assert(out@.to_multiset().add(rest@.to_multiset()) =~= orig.to_multiset());
            assert forall|a: int, b: int|
                0 <= a < out@.len() && 0 <= b < rest@.len() implies (
            #[trigger] out@[a]).1.similarity_score >= (
            #[trigger] rest@[b]).1.similarity_score by {
                assert(rest@[b] == if b < m {
                    rest0[b]
                } else {
                    rest0[b + 1]
                });
                if a < out0.len() {
                } else {
                    assert(out@[a] == x);
                }
            }
        }
    }
    proof {
        assert(rest@.to_multiset() =~= vstd::multiset::Multiset::<(usize, SearchResult)>::empty());
        assert(out@.to_multiset().add(rest@.to_multiset()) =~= out@.to_multiset());
    }
    out
}

/// The sequence of file points after writing `p` over any point sharing its
/// identifier, or appending it when none does.
pub open spec fn upsert_file(files: Seq<FilePoint>, p: FilePoint) -> Seq<FilePoint> {
    match find_file(files, p.id@) {
        Option::None => files.push(p),
        Option::Some(i) => files.update(i, p),
    }
}

/// Re-ingesting a file under the same identifier overwrites its record and
/// never duplicates it: a second write with the same identifier leaves the
/// number of file records unchanged.
pub proof fn lemma_reingest_no_duplicate(files: Seq<FilePoint>, p1: FilePoint, p2: FilePoint)
    requires
        p1.id@ == p2.id@,
    ensures
        upsert_file(upsert_file(files, p1), p2).len() == upsert_file(files, p1).len(),
{
    let after1 = upsert_file(files, p1);
    lemma_find_file_first(files, p1.id@);
    lemma_find_file_first(after1, p2.id@);
    match find_file(after1, p2.id@) {
        Option::None => {
            // Impossible: after the first write some point carries the identifier.
            match find_file(files, p1.id@) {
                Option::None => {
                    assert(after1[files.len() as int].id@ == p2.id@);
                },
                Option::Some(i) => {
                    assert(after1[i].id@ == p2.id@);
                },
            }
        },
        Option::Some(_) => {},
    }
}

} // verus!
