use anko::hash::compute_hash;
use anko::parse::Kind;
use sha2::Digest;

fn sample_labels() -> Vec<String> {
    vec!["lexer".to_string(), "parser".to_string()]
}

#[test]
fn same_input_produces_same_hash() {
    let file = "src/parser.rs";
    let h1 = compute_hash(&Kind::Todo, &sample_labels(), "rewrite error recovery", file);
    let h2 = compute_hash(&Kind::Todo, &sample_labels(), "rewrite error recovery", file);
    assert_eq!(h1, h2);
}

#[test]
fn different_kind_produces_different_hash() {
    let file = "src/parser.rs";
    let h_todo = compute_hash(&Kind::Todo, &sample_labels(), "same message", file);
    let h_bug = compute_hash(&Kind::Bug, &sample_labels(), "same message", file);
    assert_ne!(h_todo, h_bug);
}

#[test]
fn different_message_produces_different_hash() {
    let file = "src/parser.rs";
    let h1 = compute_hash(&Kind::Todo, &sample_labels(), "message one", file);
    let h2 = compute_hash(&Kind::Todo, &sample_labels(), "message two", file);
    assert_ne!(h1, h2);
}

#[test]
fn different_file_produces_different_hash() {
    let h1 = compute_hash(&Kind::Todo, &sample_labels(), "same message", "src/a.rs");
    let h2 = compute_hash(&Kind::Todo, &sample_labels(), "same message", "src/b.rs");
    assert_ne!(h1, h2);
}

#[test]
fn different_labels_produces_different_hash() {
    let file = "src/parser.rs";
    let h1 = compute_hash(&Kind::Todo, &vec!["lexer".to_string()], "same message", file);
    let h2 = compute_hash(&Kind::Todo, &vec!["parser".to_string()], "same message", file);
    assert_ne!(h1, h2);
}

#[test]
fn empty_labels_does_not_panic_and_is_stable() {
    let file = "src/parser.rs";
    let empty: Vec<String> = vec![];
    let h1 = compute_hash(&Kind::Todo, &empty, "no labels here", file);
    let h2 = compute_hash(&Kind::Todo, &empty, "no labels here", file);
    assert_eq!(h1, h2);
}

#[test]
fn label_order_does_not_affect_hash() {
    let file = "src/parser.rs";
    let h1 = compute_hash(&Kind::Todo, &vec!["a".to_string(), "b".to_string()], "msg", file);
    let h2 = compute_hash(&Kind::Todo, &vec!["b".to_string(), "a".to_string()], "msg", file);
    assert_eq!(
        h1, h2,
        "label order should not affect the hash now that labels are sorted"
    );
}

#[test]
fn output_is_64_char_lowercase_hex() {
    let file = "src/parser.rs";
    let h = compute_hash(&Kind::Todo, &sample_labels(), "check format", file);
    assert_eq!(h.len(), 64); // SHA-256 -> 32 bytes -> 64 hex chars
    assert!(h.chars().all(|c| c.is_ascii_hexdigit() && !c.is_ascii_uppercase()));
}

#[test]
fn single_comma_label_differs_from_two_labels() {
    let file = "src/parser.rs";
    let one_weird_label = vec!["lexer,parser".to_string()];
    let two_normal_labels = vec!["lexer".to_string(), "parser".to_string()];
    let h1 = compute_hash(&Kind::Todo, &one_weird_label, "fix", file);
    let h2 = compute_hash(&Kind::Todo, &two_normal_labels, "fix", file);
    assert_ne!(
        h1, h2,
        "a single label containing a comma should not collide with two separate labels"
    );
}

#[test]
fn empty_labels_differs_from_message_starting_where_labels_would_end() {
    let file = "src/parser.rs";
    let empty: Vec<String> = vec![];
    let h1 = compute_hash(&Kind::Todo, &empty, "x", file);
    let h2 = compute_hash(&Kind::Todo, &vec!["x".to_string()], "", file);
    assert_ne!(
        h1, h2,
        "field boundaries must not blur even when adjacent fields are empty/short"
    );
}

#[test]
fn hash_matches_known_sha256_of_fields() {
    // SHA-256 of "Todo\0\0x\0f\0".
    let h = compute_hash(&Kind::Todo, &[], "x", "f");
    let expected = {
        hex::encode(sha2::Sha256::digest(b"Todo\0\0x\0f\0"))
    };
    assert_eq!(h, expected);
}

#[test]
fn labels_are_hashed_sorted_and_nul_separated() {
    let h = compute_hash(
        &Kind::Depr,
        &vec!["b".to_string(), "a".to_string(), "ab".to_string()],
        "m",
        "dir/file.ml",
    );
    let expected = {
        hex::encode(sha2::Sha256::digest("Depr\0a\0ab\0b\0m\0dir/file.ml\0".as_bytes()))
    };
    assert_eq!(h, expected);
}

#[test]
fn non_ascii_labels_sort_by_code_point() {
    let h1 = compute_hash(&Kind::Bug, &vec!["é".to_string(), "z".to_string()], "m", "f");
    let expected = {
        hex::encode(sha2::Sha256::digest("Bug\0z\0é\0m\0f\0".as_bytes()))
    };
    assert_eq!(h1, expected);
}
