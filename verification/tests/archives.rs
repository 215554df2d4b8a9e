//! Unpacking repository archives, built on the fly with the zip crate.

use repo_index::archive::unpack_archive;
use repo_index::pipeline::{ingest, retrieve, EmbedError, EmbeddingsModel, Query};
use repo_index::repo::Repository;
use repo_index::store::VectorStore;
use std::io::Write;

fn zip_bytes(dirs: &[&str], files: &[(&str, &[u8])]) -> Vec<u8> {
    let cursor = std::io::Cursor::new(Vec::new());
    let mut writer = zip::ZipWriter::new(cursor);
    let options = zip::write::SimpleFileOptions::default();
    for d in dirs {
        writer.add_directory(*d, options).unwrap();
    }
    for (name, bytes) in files {
        writer.start_file(*name, options).unwrap();
        writer.write_all(bytes).unwrap();
    }
    writer.finish().unwrap().into_inner()
}

#[test]
fn unpack_strips_the_root_and_keeps_order() {
    let bytes = zip_bytes(
        &["root/sub/"],
        &[("root/a.txt", b"hello world"), ("root/sub/b.txt", b"goodbye")],
    );
    let files = unpack_archive(bytes).unwrap();
    assert_eq!(files.len(), 2);
    assert_eq!(files[0].path, "a.txt");
    assert_eq!(files[0].bytes, b"hello world".to_vec());
    assert_eq!(files[1].path, "sub/b.txt");
    assert_eq!(files[1].bytes, b"goodbye".to_vec());
}

#[test]
fn unpack_keeps_binary_bytes() {
    let payload = [0u8, 159, 255, 10];
    let bytes = zip_bytes(&[], &[("root/x.bin", &payload)]);
    let files = unpack_archive(bytes).unwrap();
    assert_eq!(files[0].bytes, payload.to_vec());
}

#[test]
fn unpack_of_an_empty_archive_is_empty() {
    let bytes = zip_bytes(&[], &[]);
    assert_eq!(unpack_archive(bytes).unwrap().len(), 0);
}

#[test]
fn unpack_without_a_root_directory_fails() {
    let bytes = zip_bytes(&[], &[("plain.txt", b"no root here")]);
    assert!(unpack_archive(bytes).is_none());
}

#[test]
fn unpack_of_garbage_fails() {
    assert!(unpack_archive(b"this is not an archive".to_vec()).is_none());
}

struct CountModel;

impl EmbeddingsModel for CountModel {
    fn embed(&self, text: &str) -> Result<Vec<i32>, EmbedError> {
        let h = text.bytes().filter(|&b| b == b'h').count() as i32;
        let g = text.bytes().filter(|&b| b == b'g').count() as i32;
        Ok(vec![h, g])
    }
}

#[test]
fn a_zipped_repository_goes_through_the_whole_pipeline() {
    let repository = Repository {
        owner: "acme".to_string(),
        name: "widgets".to_string(),
        branch: "main".to_string(),
    };
    let bytes = zip_bytes(
        &["widgets-main/"],
        &[
            ("widgets-main/a.txt", b"hello world"),
            ("widgets-main/b.txt", b"goodbye"),
            ("widgets-main/junk.bin", &[0xff, 0x00, 0xfe]),
        ],
    );
    let mut store = VectorStore::new();
    let fetched = unpack_archive(bytes).unwrap();
    let report = ingest(&mut store, &repository, Ok(fetched), &CountModel, 2).unwrap();
    assert_eq!(report.fetched, 3);
    assert_eq!(report.skipped, 1);
    assert_eq!(report.upserted, 2);
    let q = Query { repository, query: "hello".to_string() };
    let found = retrieve(&store, &q, 1, &CountModel).unwrap();
    assert_eq!(found[0].path, "a.txt");
    assert_eq!(found[0].content, "hello world");
    assert_eq!(found[0].length, 11);
}
