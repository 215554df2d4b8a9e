//! The ingestion and retrieval pipelines, end to end, with a
//! deterministic stand-in for the embedding model.

use repo_index::pipeline::{
    assemble_embeddings, decode_files, embed_repo, embedding_collapsed, ingest, retrieve,
    EmbedError, EmbeddingsModel, FetchFailure, IngestError, IngestReport, Query, RetrievalError,
};
use repo_index::repo::{FetchedFile, Repository};
use repo_index::store::{StorageError, VectorStore};

/// Embeds a text as letter counts: how often `h` and `g` occur, padded
/// with zeroes up to the model's dimension.
struct CountModel {
    dim: usize,
}

impl EmbeddingsModel for CountModel {
    fn embed(&self, text: &str) -> Result<Vec<i32>, EmbedError> {
        let h = text.bytes().filter(|&b| b == b'h').count() as i32;
        let g = text.bytes().filter(|&b| b == b'g').count() as i32;
        let mut v = vec![h, g];
        while v.len() < self.dim {
            v.push(0);
        }
        v.truncate(self.dim);
        Ok(v)
    }
}

/// A model that is down: every call fails.
struct DownModel;

impl EmbeddingsModel for DownModel {
    fn embed(&self, _text: &str) -> Result<Vec<i32>, EmbedError> {
        Err(EmbedError { message: "model unavailable".to_string() })
    }
}

/// A model that fails only on texts containing a marker.
struct PickyModel;

impl EmbeddingsModel for PickyModel {
    fn embed(&self, text: &str) -> Result<Vec<i32>, EmbedError> {
        if text.contains("poison") {
            Err(EmbedError { message: "cannot embed".to_string() })
        } else {
            Ok(vec![1, 2])
        }
    }
}

fn repo() -> Repository {
    Repository {
        owner: "acme".to_string(),
        name: "widgets".to_string(),
        branch: "main".to_string(),
    }
}

fn file(path: &str, bytes: &[u8]) -> FetchedFile {
    FetchedFile { path: path.to_string(), bytes: bytes.to_vec() }
}

fn query(text: &str) -> Query {
    Query { repository: repo(), query: text.to_string() }
}

#[test]
fn round_trip_finds_the_matching_file() {
    let model = CountModel { dim: 2 };
    let mut store = VectorStore::new();
    let files = vec![file("a.txt", b"hello world"), file("b.txt", b"goodbye")];
    let report = ingest(&mut store, &repo(), Ok(files), &model, 2).unwrap();
    assert_eq!(
        report,
        IngestReport { fetched: 2, skipped: 0, embed_failed: 0, upserted: 2 }
    );
    let found = retrieve(&store, &query("hello"), 1, &model).unwrap();
    assert_eq!(found.len(), 1);
    assert_eq!(found[0].path, "a.txt");
    assert_eq!(found[0].content, "hello world");
    assert_eq!(found[0].length, 11);
}

#[test]
fn non_text_files_are_skipped_not_fatal() {
    let model = CountModel { dim: 2 };
    let mut store = VectorStore::new();
    let files = vec![file("good.txt", b"fine text"), file("bad.bin", &[0xff, 0xfe, 0x00])];
    let report = ingest(&mut store, &repo(), Ok(files), &model, 2).unwrap();
    assert_eq!(
        report,
        IngestReport { fetched: 2, skipped: 1, embed_failed: 0, upserted: 1 }
    );
    let fp = store.get_file_paths(&repo()).unwrap();
    assert_eq!(fp.file_paths, vec!["good.txt".to_string()]);
}

#[test]
fn reingesting_unchanged_content_does_not_grow_the_index() {
    let model = CountModel { dim: 2 };
    let mut store = VectorStore::new();
    let files = || vec![file("a.txt", b"hello world"), file("b.txt", b"goodbye")];
    ingest(&mut store, &repo(), Ok(files()), &model, 2).unwrap();
    let first = store.get_file_paths(&repo()).unwrap();
    ingest(&mut store, &repo(), Ok(files()), &model, 2).unwrap();
    let second = store.get_file_paths(&repo()).unwrap();
    assert_eq!(first.repo_id, second.repo_id);
    assert_eq!(first.file_paths, second.file_paths);
    assert_eq!(second.file_paths.len(), 2);
}

#[test]
fn a_second_dimension_is_a_schema_conflict() {
    let mut store = VectorStore::new();
    let files = || vec![file("a.txt", b"hello")];
    ingest(&mut store, &repo(), Ok(files()), &CountModel { dim: 2 }, 2).unwrap();
    let err = ingest(&mut store, &repo(), Ok(files()), &CountModel { dim: 3 }, 3).unwrap_err();
    assert!(matches!(err, IngestError::Storage(StorageError::SchemaConflict)));
    // and nothing was corrupted: the old collection still answers
    let found = retrieve(&store, &query("hello"), 1, &CountModel { dim: 2 }).unwrap();
    assert_eq!(found.len(), 1);
}

#[test]
fn a_model_that_always_fails_fails_the_ingestion() {
    let mut store = VectorStore::new();
    let files = vec![file("a.txt", b"hello"), file("b.txt", b"there")];
    let err = ingest(&mut store, &repo(), Ok(files), &DownModel, 2).unwrap_err();
    assert!(matches!(err, IngestError::Embed));
    // the store is untouched: the repository still looks never-ingested
    let found = retrieve(&store, &query("hello"), 1, &CountModel { dim: 2 }).unwrap();
    assert!(found.is_empty());
}

#[test]
fn a_single_bad_file_is_only_counted() {
    let mut store = VectorStore::new();
    let files = vec![file("ok.txt", b"fine"), file("bad.txt", b"poison here")];
    let report = ingest(&mut store, &repo(), Ok(files), &PickyModel, 2).unwrap();
    assert_eq!(
        report,
        IngestReport { fetched: 2, skipped: 0, embed_failed: 1, upserted: 1 }
    );
    let fp = store.get_file_paths(&repo()).unwrap();
    assert_eq!(fp.file_paths, vec!["ok.txt".to_string()]);
}

#[test]
fn a_fetch_failure_is_fatal() {
    let mut store = VectorStore::new();
    let fetched = Err(FetchFailure { message: "archive unreachable".to_string() });
    let err = ingest(&mut store, &repo(), fetched, &CountModel { dim: 2 }, 2).unwrap_err();
    match err {
        IngestError::Fetch(f) => assert_eq!(f.message, "archive unreachable"),
        other => panic!("expected a fetch error, got {:?}", other),
    }
}

#[test]
fn an_empty_repository_ingests_cleanly() {
    let mut store = VectorStore::new();
    let report = ingest(&mut store, &repo(), Ok(Vec::new()), &CountModel { dim: 2 }, 2).unwrap();
    assert_eq!(
        report,
        IngestReport { fetched: 0, skipped: 0, embed_failed: 0, upserted: 0 }
    );
    let fp = store.get_file_paths(&repo()).unwrap();
    assert!(fp.file_paths.is_empty());
}

#[test]
fn a_down_model_fails_the_query() {
    let model = CountModel { dim: 2 };
    let mut store = VectorStore::new();
    ingest(&mut store, &repo(), Ok(vec![file("a.txt", b"hello")]), &model, 2).unwrap();
    let err = retrieve(&store, &query("hello"), 1, &DownModel).unwrap_err();
    assert!(matches!(err, RetrievalError::Embed(_)));
}

#[test]
fn a_wrong_query_dimension_is_a_schema_conflict() {
    let mut store = VectorStore::new();
    ingest(&mut store, &repo(), Ok(vec![file("a.txt", b"hi")]), &CountModel { dim: 2 }, 2)
        .unwrap();
    let err = retrieve(&store, &query("hi"), 1, &CountModel { dim: 3 }).unwrap_err();
    assert!(matches!(err, RetrievalError::Storage(StorageError::SchemaConflict)));
}

#[test]
fn embed_repo_reports_the_collection_key() {
    let model = CountModel { dim: 2 };
    let (embeddings, report) =
        embed_repo(&repo(), vec![file("a.txt", b"hello world")], &model);
    assert_eq!(embeddings.repo_id, "acme-widgets-main");
    assert_eq!(embeddings.file_embeddings.len(), 1);
    assert_eq!(embeddings.file_embeddings[0].path, "a.txt");
    assert_eq!(embeddings.file_embeddings[0].content, "hello world");
    assert_eq!(
        report,
        IngestReport { fetched: 1, skipped: 0, embed_failed: 0, upserted: 1 }
    );
}

#[test]
fn decode_files_keeps_text_and_counts_the_rest() {
    let (decoded, skipped) = decode_files(vec![
        file("a.txt", b"hello"),
        file("b.bin", &[0xff, 0xfe]),
        file("c.txt", b"world"),
    ]);
    assert_eq!(skipped, 1);
    assert_eq!(decoded.len(), 2);
    assert_eq!(decoded[0].path, "a.txt");
    assert_eq!(decoded[0].content, "hello");
    assert_eq!(decoded[0].length, 5);
    assert_eq!(decoded[1].path, "c.txt");
    assert_eq!(decoded[1].content, "world");
}

#[test]
fn assemble_embeddings_pairs_files_with_outcomes() {
    let (decoded, skipped) = decode_files(vec![file("a.txt", b"hello"), file("b.txt", b"world")]);
    let results = vec![Some(vec![1, 2]), None];
    let (embeddings, report) = assemble_embeddings(&repo(), decoded, results, skipped);
    assert_eq!(embeddings.repo_id, "acme-widgets-main");
    assert_eq!(embeddings.file_embeddings.len(), 1);
    assert_eq!(embeddings.file_embeddings[0].path, "a.txt");
    assert_eq!(embeddings.file_embeddings[0].content, "hello");
    assert_eq!(embeddings.file_embeddings[0].embeddings, vec![1, 2]);
    assert_eq!(
        report,
        IngestReport { fetched: 2, skipped: 0, embed_failed: 1, upserted: 1 }
    );
    assert!(!embedding_collapsed(&report));
}

#[test]
fn embedding_collapsed_means_files_but_no_vectors() {
    assert!(embedding_collapsed(&IngestReport {
        fetched: 2,
        skipped: 0,
        embed_failed: 2,
        upserted: 0,
    }));
    assert!(!embedding_collapsed(&IngestReport {
        fetched: 2,
        skipped: 2,
        embed_failed: 0,
        upserted: 0,
    }));
    assert!(!embedding_collapsed(&IngestReport {
        fetched: 2,
        skipped: 0,
        embed_failed: 1,
        upserted: 1,
    }));
}
