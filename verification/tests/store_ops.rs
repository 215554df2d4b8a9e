//! The vector store: collections, upserts, search and hydration.

use repo_index::repo::Repository;
use repo_index::store::{IndexPoint, StorageError, VectorStore};

fn repo(owner: &str, name: &str, branch: &str) -> Repository {
    Repository { owner: owner.to_string(), name: name.to_string(), branch: branch.to_string() }
}

fn point(key: &str, path: &str, content: &str, vector: Vec<i32>) -> IndexPoint {
    IndexPoint::new(&key.to_string(), path.to_string(), content.to_string(), vector)
}

fn key() -> String {
    "acme-widgets-main".to_string()
}

#[test]
fn ensure_collection_is_idempotent() {
    let mut store = VectorStore::new();
    assert_eq!(store.ensure_collection(&key(), 2), Ok(()));
    assert_eq!(store.ensure_collection(&key(), 2), Ok(()));
}

#[test]
fn ensure_collection_rejects_a_changed_dimension() {
    let mut store = VectorStore::new();
    assert_eq!(store.ensure_collection(&key(), 2), Ok(()));
    assert_eq!(store.ensure_collection(&key(), 3), Err(StorageError::SchemaConflict));
}

#[test]
fn upsert_needs_a_collection() {
    let mut store = VectorStore::new();
    let r = store.upsert(&key(), vec![point(&key(), "a", "x", vec![1, 0])]);
    assert_eq!(r, Err(StorageError::NotFound));
}

#[test]
fn upsert_rejects_a_wrong_vector_length() {
    let mut store = VectorStore::new();
    store.ensure_collection(&key(), 2).unwrap();
    let r = store.upsert(&key(), vec![point(&key(), "a", "x", vec![1, 0, 0])]);
    assert_eq!(r, Err(StorageError::SchemaConflict));
}

#[test]
fn upsert_overwrites_by_path() {
    let mut store = VectorStore::new();
    store.ensure_collection(&key(), 2).unwrap();
    store.upsert(&key(), vec![point(&key(), "a.txt", "one", vec![1, 0])]).unwrap();
    store.upsert(&key(), vec![point(&key(), "a.txt", "two", vec![2, 0])]).unwrap();
    let fp = store.get_file_paths(&repo("acme", "widgets", "main")).unwrap();
    assert_eq!(fp.file_paths, vec!["a.txt".to_string()]);
    let files = store
        .get_relevant_files(&repo("acme", "widgets", "main"), &vec![1, 0], 10)
        .unwrap();
    assert_eq!(files.len(), 1);
    assert_eq!(files[0].content, "two");
}

#[test]
fn search_returns_the_limit_best_in_descending_order() {
    let mut store = VectorStore::new();
    store.ensure_collection(&key(), 2).unwrap();
    store
        .upsert(
            &key(),
            vec![
                point(&key(), "ant", "", vec![1, 0]),
                point(&key(), "bee", "", vec![5, 0]),
                point(&key(), "cat", "", vec![3, 0]),
                point(&key(), "dog", "", vec![2, 0]),
                point(&key(), "eel", "", vec![4, 0]),
            ],
        )
        .unwrap();
    let hits = store.search(&key(), &vec![1, 0], 2).unwrap();
    assert_eq!(hits.len(), 2);
    assert_eq!(hits[0].path, "bee");
    assert_eq!(hits[0].score, 5);
    assert_eq!(hits[1].path, "eel");
    assert_eq!(hits[1].score, 4);
}

#[test]
fn search_breaks_ties_by_insertion_order() {
    let mut store = VectorStore::new();
    store.ensure_collection(&key(), 2).unwrap();
    store
        .upsert(
            &key(),
            vec![
                point(&key(), "first", "", vec![3, 0]),
                point(&key(), "second", "", vec![3, 0]),
                point(&key(), "third", "", vec![9, 0]),
            ],
        )
        .unwrap();
    let hits = store.search(&key(), &vec![1, 0], 10).unwrap();
    assert_eq!(hits.len(), 3);
    assert_eq!(hits[0].path, "third");
    assert_eq!(hits[1].path, "first");
    assert_eq!(hits[2].path, "second");
}

#[test]
fn search_handles_negative_scores() {
    let mut store = VectorStore::new();
    store.ensure_collection(&key(), 2).unwrap();
    store
        .upsert(
            &key(),
            vec![
                point(&key(), "neg", "", vec![-7, 0]),
                point(&key(), "pos", "", vec![2, 0]),
            ],
        )
        .unwrap();
    let hits = store.search(&key(), &vec![1, 0], 10).unwrap();
    assert_eq!(hits[0].path, "pos");
    assert_eq!(hits[0].score, 2);
    assert_eq!(hits[1].path, "neg");
    assert_eq!(hits[1].score, -7);
}

#[test]
fn search_with_limit_zero_returns_nothing() {
    let mut store = VectorStore::new();
    store.ensure_collection(&key(), 2).unwrap();
    store.upsert(&key(), vec![point(&key(), "a", "", vec![1, 0])]).unwrap();
    let hits = store.search(&key(), &vec![1, 0], 0).unwrap();
    assert!(hits.is_empty());
}

#[test]
fn search_without_a_collection_is_not_found() {
    let store = VectorStore::new();
    assert!(matches!(store.search(&key(), &vec![1, 0], 2), Err(StorageError::NotFound)));
}

#[test]
fn search_with_a_wrong_dimension_is_a_schema_conflict() {
    let mut store = VectorStore::new();
    store.ensure_collection(&key(), 2).unwrap();
    assert!(matches!(
        store.search(&key(), &vec![1, 0, 0], 2),
        Err(StorageError::SchemaConflict)
    ));
}

#[test]
fn list_paths_caps_the_count() {
    let mut store = VectorStore::new();
    store.ensure_collection(&key(), 1).unwrap();
    store
        .upsert(
            &key(),
            vec![
                point(&key(), "a", "", vec![1]),
                point(&key(), "b", "", vec![2]),
                point(&key(), "c", "", vec![3]),
            ],
        )
        .unwrap();
    let paths = store.list_paths(&key(), 2).unwrap();
    assert_eq!(paths, vec!["a".to_string(), "b".to_string()]);
    assert!(matches!(
        store.list_paths(&"missing".to_string(), 2),
        Err(StorageError::NotFound)
    ));
}

#[test]
fn query_without_ingestion_returns_an_empty_list() {
    let store = VectorStore::new();
    let files = store
        .get_relevant_files(&repo("never", "seen", "main"), &vec![1, 0], 2)
        .unwrap();
    assert!(files.is_empty());
}

#[test]
fn hydration_returns_stored_content_in_rank_order() {
    let mut store = VectorStore::new();
    store.ensure_collection(&key(), 2).unwrap();
    store
        .upsert(
            &key(),
            vec![
                point(&key(), "low.txt", "low content", vec![1, 0]),
                point(&key(), "high.txt", "high content", vec![8, 0]),
            ],
        )
        .unwrap();
    let files = store
        .get_relevant_files(&repo("acme", "widgets", "main"), &vec![1, 0], 5)
        .unwrap();
    assert_eq!(files.len(), 2);
    assert_eq!(files[0].path, "high.txt");
    assert_eq!(files[0].content, "high content");
    assert_eq!(files[0].length, 12);
    assert_eq!(files[1].path, "low.txt");
    assert_eq!(files[1].length, 11);
}
