use file_crawler::errors::RetrievalError;
use file_crawler::fusion::{
    fuse_prefetch, FusedCandidate, PrefetchHit, RerankOutcome, DEFAULT_FUSION_K,
    DEFAULT_RANK_CONSTANT,
};
use file_crawler::qdrant_client::QdrantVectorStore;

fn hit(point_id: u128, file_id: &str, index: i32, text: &str) -> PrefetchHit {
    PrefetchHit {
        point_id,
        file_id: file_id.to_string(),
        chunk_index: index,
        chunk_content: text.to_string(),
    }
}

#[test]
fn fusion_orders_by_reciprocal_rank_sum() {
    // With rank constant 2:
    //   a: dense rank 1 only            -> 1/3
    //   b: dense rank 2, sparse rank 1  -> 1/4 + 1/3 = 7/12
    //   c: sparse rank 2 only           -> 1/4
    let dense = vec![hit(1, "f", 0, "a"), hit(2, "f", 1, "b")];
    let sparse = vec![hit(2, "f", 1, "b"), hit(3, "f", 2, "c")];
    let fused = fuse_prefetch(&dense, &sparse, 2, 50);
    assert_eq!(fused.len(), 3);
    assert_eq!(fused[0].hit.point_id, 2);
    assert_eq!(fused[0].dense_rank, Some(2));
    assert_eq!(fused[0].sparse_rank, Some(1));
    assert_eq!(fused[1].hit.point_id, 1);
    assert_eq!(fused[1].dense_rank, Some(1));
    assert_eq!(fused[1].sparse_rank, None);
    assert_eq!(fused[2].hit.point_id, 3);
    assert_eq!(fused[2].dense_rank, None);
    assert_eq!(fused[2].sparse_rank, Some(2));
}

#[test]
fn fusion_deduplicates_and_keeps_first_occurrence_payload() {
    let dense = vec![hit(7, "f", 0, "dense payload"), hit(7, "f", 0, "repeat")];
    let sparse = vec![hit(7, "f", 0, "sparse payload")];
    let fused = fuse_prefetch(&dense, &sparse, DEFAULT_RANK_CONSTANT, DEFAULT_FUSION_K);
    assert_eq!(fused.len(), 1);
    assert_eq!(fused[0].hit.chunk_content, "dense payload");
    assert_eq!(fused[0].dense_rank, Some(1));
    assert_eq!(fused[0].sparse_rank, Some(1));
}

#[test]
fn fusion_never_returns_more_than_fusion_k() {
    let dense = vec![hit(1, "f", 0, "a"), hit(2, "f", 1, "b"), hit(3, "f", 2, "c")];
    let sparse = vec![hit(4, "f", 3, "d")];
    let fused = fuse_prefetch(&dense, &sparse, 2, 2);
    assert_eq!(fused.len(), 2);
    // The two kept candidates are the two best: dense rank 1 (1/3) and the
    // sparse-only candidate at rank 1 (1/3) tie ahead of ranks 2 and 3.
    assert!(fused.iter().all(|c| c.hit.point_id == 1 || c.hit.point_id == 4));
}

#[test]
fn empty_prefetch_lists_fuse_to_nothing_and_skip_reranking() {
    let fused = fuse_prefetch(&Vec::new(), &Vec::new(), DEFAULT_RANK_CONSTANT, DEFAULT_FUSION_K);
    assert!(fused.is_empty());
    let store: QdrantVectorStore<u8, u8> = QdrantVectorStore::new();
    // Even a failed rerank call is no error when there was nothing to rank.
    let r = store.finish_hybrid_search(fused, RerankOutcome::Failed("down".to_string()), 10);
    assert!(matches!(r, Ok(v) if v.is_empty()));
}

#[test]
fn failed_rerank_aborts_the_query() {
    let store: QdrantVectorStore<u8, u8> = QdrantVectorStore::new();
    let fused = vec![FusedCandidate {
        hit: hit(1, "f", 0, "text"),
        dense_rank: Some(1),
        sparse_rank: None,
    }];
    let r = store.finish_hybrid_search(fused, RerankOutcome::Failed("model down".to_string()), 10);
    assert!(matches!(r, Err(RetrievalError::RerankFailed(m)) if m == "model down"));
}

#[test]
fn rerank_score_count_mismatch_aborts_the_query() {
    let store: QdrantVectorStore<u8, u8> = QdrantVectorStore::new();
    let fused = vec![
        FusedCandidate { hit: hit(1, "f", 0, "x"), dense_rank: Some(1), sparse_rank: None },
        FusedCandidate { hit: hit(2, "f", 1, "y"), dense_rank: Some(2), sparse_rank: None },
    ];
    let r = store.finish_hybrid_search(fused, RerankOutcome::Scores(vec![100]), 10);
    assert!(matches!(
        r,
        Err(RetrievalError::RerankCountMismatch { candidates: 2, scores: 1 })
    ));
}

#[test]
fn results_are_ordered_by_rerank_score_and_cut_to_top_k() {
    let mut store: QdrantVectorStore<u8, u8> = QdrantVectorStore::new();
    let file_id = store.store_file_metadata("docs/a.pdf", "a.pdf", 1, 1, "h", None);
    let fused = vec![
        FusedCandidate { hit: hit(1, &file_id, 0, "low"), dense_rank: Some(1), sparse_rank: None },
        FusedCandidate { hit: hit(2, &file_id, 1, "high"), dense_rank: Some(2), sparse_rank: None },
        FusedCandidate { hit: hit(3, &file_id, 2, "mid"), dense_rank: Some(3), sparse_rank: None },
    ];
    let r = store
        .finish_hybrid_search(fused, RerankOutcome::Scores(vec![1000, 3000, 2000]), 2)
        .unwrap();
    assert_eq!(r.len(), 2);
    assert_eq!(r[0].chunk_content, "high");
    assert_eq!(r[0].similarity_score, 3000);
    assert_eq!(r[1].chunk_content, "mid");
    assert_eq!(r[1].similarity_score, 2000);
    // The file display identity is denormalized from the metadata record.
    assert_eq!(r[0].file_path, "docs/a.pdf");
    assert_eq!(r[0].file_name, "a.pdf");
}

#[test]
fn tied_scores_keep_distinct_candidates() {
    let store: QdrantVectorStore<u8, u8> = QdrantVectorStore::new();
    let fused = vec![
        FusedCandidate { hit: hit(1, "f", 0, "x"), dense_rank: Some(1), sparse_rank: None },
        FusedCandidate { hit: hit(2, "f", 1, "y"), dense_rank: Some(2), sparse_rank: None },
    ];
    let r = store.finish_hybrid_search(fused, RerankOutcome::Scores(vec![500, 500]), 2).unwrap();
    assert_eq!(r.len(), 2);
    // Both candidates are kept once each, never one of them twice.
    let mut texts: Vec<&str> = r.iter().map(|x| x.chunk_content.as_str()).collect();
    texts.sort();
    assert_eq!(texts, vec!["x", "y"]);
}

#[test]
fn unknown_file_identifier_gets_empty_display_identity() {
    let store: QdrantVectorStore<u8, u8> = QdrantVectorStore::new();
    let fused = vec![FusedCandidate {
        hit: hit(1, "nobody", 0, "text"),
        dense_rank: Some(1),
        sparse_rank: None,
    }];
    let r = store.finish_hybrid_search(fused, RerankOutcome::Scores(vec![5]), 10).unwrap();
    assert_eq!(r.len(), 1);
    assert_eq!(r[0].file_path, "");
    assert_eq!(r[0].file_name, "");
}
