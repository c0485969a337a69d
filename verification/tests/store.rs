use file_crawler::digest::{compute_content_hash, compute_file_id};
use file_crawler::errors::IngestError;
use file_crawler::qdrant_client::QdrantVectorStore;

#[test]
fn file_id_is_the_md5_of_the_path() {
    // Classic MD5 test vectors, in lowercase hex.
    assert_eq!(compute_file_id("abc"), "900150983cd24fb0d6963f7d28e17f72");
    assert_eq!(compute_content_hash(""), "d41d8cd98f00b204e9800998ecf8427e");
}

#[test]
fn reingesting_a_path_yields_the_same_id_and_no_duplicate() {
    let mut store: QdrantVectorStore<u8, u8> = QdrantVectorStore::new();
    let id1 = store.store_file_metadata("docs/a.pdf", "a.pdf", 10, 111, "h1", None);
    let id2 = store.store_file_metadata("docs/a.pdf", "a.pdf", 12, 222, "h2", Some("text"));
    assert_eq!(id1, id2);
    assert_eq!(store.files.len(), 1);
    assert_eq!(store.files[0].metadata.file_size, 12);
    assert_eq!(store.files[0].metadata.modified_time, 222);
    assert_eq!(store.files[0].metadata.content_hash, "h2");
    assert_eq!(store.files[0].metadata.markdown_content, Some("text".to_string()));
}

#[test]
fn different_paths_get_their_own_records() {
    let mut store: QdrantVectorStore<u8, u8> = QdrantVectorStore::new();
    let id1 = store.store_file_metadata("a", "a", 1, 1, "h", None);
    let id2 = store.store_file_metadata("b", "b", 1, 1, "h", None);
    assert_ne!(id1, id2);
    assert_eq!(store.files.len(), 2);
}

#[test]
fn ingesting_a_three_chunk_file_adds_three_points_and_one_record() {
    let mut store: QdrantVectorStore<u8, u8> = QdrantVectorStore::new();
    let id = store.store_file_metadata("report.docx", "report.docx", 42, 7, "hash", None);
    let chunks = vec!["first".to_string(), "second".to_string(), "third".to_string()];
    let stored = store.store_chunk_batch(&id, &chunks, vec![1u8, 2, 3], vec![9u8, 8, 7]);
    assert_eq!(stored, Ok(3));
    assert_eq!(store.files.len(), 1);
    assert_eq!(store.chunks.len(), 3);
    assert_eq!(store.files[0].id, id);
    for (i, point) in store.chunks.iter().enumerate() {
        assert_eq!(point.metadata.file_id, id);
        assert_eq!(point.metadata.chunk_index, i as i32);
        assert_eq!(point.metadata.chunk_content, chunks[i]);
    }
    assert_eq!(store.chunks[0].dense, 1u8);
    assert_eq!(store.chunks[0].sparse, 9u8);
}

#[test]
fn embedding_count_mismatch_stores_nothing() {
    let mut store: QdrantVectorStore<u8, u8> = QdrantVectorStore::new();
    let id = store.store_file_metadata("report.docx", "report.docx", 42, 7, "hash", None);
    let chunks = vec!["first".to_string(), "second".to_string(), "third".to_string()];
    let r = store.store_chunk_batch(&id, &chunks, vec![1u8, 2], vec![9u8, 8, 7]);
    assert_eq!(
        r,
        Err(IngestError::EmbeddingCountMismatch { chunks: 3, dense: 2, sparse: 3 })
    );
    assert_eq!(store.chunks.len(), 0);
}

#[test]
fn collections_have_their_names() {
    let store: QdrantVectorStore<u8, u8> = QdrantVectorStore::new();
    assert_eq!(store.collection_name, "file_embeddings");
    assert_eq!(store.files_collection_name, "files");
}
