//! Collection keys, point identifiers and text rendering.

use repo_index::repo::{key_of, strip_root, File, Repository};
use repo_index::store::point_id_of;
use repo_index::text::{decimal_string, decode_text};

fn repo(owner: &str, name: &str, branch: &str) -> Repository {
    Repository { owner: owner.to_string(), name: name.to_string(), branch: branch.to_string() }
}

#[test]
fn key_of_joins_the_fields() {
    assert_eq!(key_of(&repo("acme", "widgets", "main")), "acme-widgets-main");
}

#[test]
fn key_of_is_deterministic() {
    let a = repo("acme", "widgets", "main");
    assert_eq!(key_of(&a), key_of(&a.clone()));
}

#[test]
fn key_of_separates_identities() {
    let base = repo("acme", "widgets", "main");
    let other_owner = repo("acmf", "widgets", "main");
    let other_name = repo("acme", "gadgets", "main");
    let other_branch = repo("acme", "widgets", "dev");
    assert_ne!(key_of(&base), key_of(&other_owner));
    assert_ne!(key_of(&base), key_of(&other_name));
    assert_ne!(key_of(&base), key_of(&other_branch));
}

#[test]
fn point_id_is_key_slash_path() {
    let id = point_id_of(&"acme-widgets-main".to_string(), &"src/lib.rs".to_string());
    assert_eq!(id, "acme-widgets-main/src/lib.rs");
}

#[test]
fn strip_root_drops_the_first_component() {
    assert_eq!(strip_root("root/a.txt"), Some("a.txt".to_string()));
    assert_eq!(strip_root("repo-main/sub/b.txt"), Some("sub/b.txt".to_string()));
    assert_eq!(strip_root("/x"), Some("x".to_string()));
    assert_eq!(strip_root("trailing/"), Some("".to_string()));
    assert_eq!(strip_root("noslash"), None);
    assert_eq!(strip_root(""), None);
}

#[test]
fn decimal_string_renders_exactly() {
    assert_eq!(decimal_string(0), "0");
    assert_eq!(decimal_string(7), "7");
    assert_eq!(decimal_string(11), "11");
    assert_eq!(decimal_string(10050), "10050");
    assert_eq!(decimal_string(u64::MAX), "18446744073709551615");
}

#[test]
fn display_string_labels_path_length_content() {
    let f = File {
        path: "a.txt".to_string(),
        content: "hello world".to_string(),
        length: 11,
    };
    assert_eq!(
        f.display_string(),
        "File path: a.txt\nFile length: 11 bytes\nFile content: hello world"
    );
}

#[test]
fn decode_text_accepts_utf8_and_rejects_the_rest() {
    assert_eq!(decode_text(&b"hello".to_vec()), Some("hello".to_string()));
    assert_eq!(decode_text(&Vec::new()), Some(String::new()));
    assert_eq!(decode_text(&vec![0xc3, 0xa9]), Some("\u{e9}".to_string()));
    assert_eq!(decode_text(&vec![0xff, 0xfe]), None);
    assert_eq!(decode_text(&vec![0xc3]), None);
}
