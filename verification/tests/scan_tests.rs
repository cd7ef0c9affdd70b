use anko::hash::compute_hash;
use anko::parse::Kind;
use anko::scan::{is_denylisted, scan_contents, scan_file, ScanError};

#[test]
fn contents_single_tag_has_fields_and_hash() {
    let tags = scan_contents("// TODO(parser): fix this\nfn main() {}\n", "main.rs");
    assert_eq!(tags.len(), 1);
    assert_eq!(tags[0].kind, Kind::Todo);
    assert_eq!(tags[0].message, "fix this");
    assert_eq!(tags[0].labels, vec!["parser".to_string()]);
    assert_eq!(tags[0].file, "main.rs");
    assert_eq!(tags[0].line, 1);
    assert_eq!(
        tags[0].hash,
        compute_hash(&Kind::Todo, &vec!["parser".to_string()], "fix this", "main.rs")
    );
}

#[test]
fn contents_multiple_tags_in_line_order() {
    let tags = scan_contents("// TODO: first\nfn main() {}\n// BUG: second\n", "main.rs");
    assert_eq!(tags.len(), 2);
    assert_eq!(tags[0].message, "first");
    assert_eq!(tags[1].message, "second");
    assert_eq!(tags[1].kind, Kind::Bug);
    assert_eq!(tags[0].line, 1);
    assert_eq!(tags[1].line, 3);
}

#[test]
fn contents_without_tags_give_nothing() {
    assert!(scan_contents("fn main() {}\n// just a comment\n", "main.rs").is_empty());
    assert!(scan_contents("", "main.rs").is_empty());
}

#[test]
fn crlf_line_endings_are_stripped() {
    let tags = scan_contents("# TODO: a\r\n# BUG: b\r\n", "x.py");
    assert_eq!(tags.len(), 2);
    assert_eq!(tags[0].message, "a");
    assert_eq!(tags[1].message, "b");
    assert_eq!(tags[1].line, 2);
}

#[test]
fn last_line_without_newline_is_scanned() {
    let tags = scan_contents("x\n(* DEPR: old *)", "a.ml");
    assert_eq!(tags.len(), 1);
    assert_eq!(tags[0].kind, Kind::Depr);
    assert_eq!(tags[0].message, "old");
    assert_eq!(tags[0].line, 2);
}

#[test]
fn moving_a_tag_within_a_file_keeps_its_hash() {
    let a = scan_contents("// TODO: keep me\nfn a() {}\n", "lib.rs");
    let b = scan_contents("fn a() {}\n\n\n// TODO: keep me\n", "lib.rs");
    assert_eq!(a.len(), 1);
    assert_eq!(b.len(), 1);
    assert_eq!(a[0].hash, b[0].hash);
    assert_eq!(a[0].line, 1);
    assert_eq!(b[0].line, 4);
}

#[test]
fn swapping_blocks_of_lines_keeps_the_identities_of_their_tags() {
    let a = "fn a() {}\n";
    let x = "// TODO(p): one\n\n";
    let y = "# BUG: two\nlet z = 0;\n(* DEPR: three *)\n";
    let c = "// TODO: four";
    let before = scan_contents(&format!("{a}{x}{y}{c}"), "f");
    let after = scan_contents(&format!("{a}{y}{x}{c}"), "f");
    let key = |t: &anko::parse::TrackedTag| {
        (t.message.clone(), t.labels.clone(), t.file.clone(), t.hash.clone())
    };
    let mut ids_before: Vec<_> = before.iter().map(key).collect();
    let mut ids_after: Vec<_> = after.iter().map(key).collect();
    ids_before.sort();
    ids_after.sort();
    assert_eq!(ids_before, ids_after);
    assert_eq!(ids_before.len(), 4);
    let lines_before: Vec<usize> = before.iter().map(|t| t.line).collect();
    let lines_after: Vec<usize> = after.iter().map(|t| t.line).collect();
    assert_eq!(lines_before, vec![2, 4, 6, 7]);
    assert_eq!(lines_after, vec![2, 4, 5, 7]);
}

#[test]
fn scan_file_passes_contents_through() {
    let tags = scan_file(Ok("// TODO: x\n".to_string()), "f.rs").unwrap();
    assert_eq!(tags.len(), 1);
    assert_eq!(tags[0].line, 1);
    assert!(scan_file(Ok("fn main() {}\n".to_string()), "f.rs").unwrap().is_empty());
}

#[test]
fn scan_file_reports_read_errors() {
    let err = std::io::Error::new(std::io::ErrorKind::NotFound, "does_not_exist.rs");
    match scan_file(Err(err), "does_not_exist.rs") {
        Err(ScanError::Io(e)) => assert_eq!(e.kind(), std::io::ErrorKind::NotFound),
        _ => panic!("expected an I/O error"),
    }
}

#[test]
fn denylist_names() {
    for name in [".git", "node_modules", "target", "vendor", "dist", "build"] {
        assert!(is_denylisted(name), "{name}");
    }
    for name in ["src", "main.rs", "targets", ".github", ""] {
        assert!(!is_denylisted(name), "{name}");
    }
}

#[test]
fn tags_of_joined_blocks_are_the_tags_of_each_block() {
    let a = "// TODO: one\nlet x = 1;\n";
    let b = "# BUG(p): two\n(* DEPR: three *)";
    let joined = scan_contents(&format!("{a}{b}"), "f");
    let mut separate = scan_contents(a, "f");
    // The tags of the second block come two lines further down.
    separate.extend(scan_contents(b, "f").into_iter().map(|mut t| {
        t.line += 2;
        t
    }));
    assert_eq!(joined, separate);
    assert_eq!(joined.len(), 3);
    assert_eq!(joined[2].line, 4);
}

#[test]
fn scan_file_returns_error_for_nonexistent_path() {
    // What reading a path that does not exist gives.
    let read: std::io::Result<String> = Err(std::io::ErrorKind::NotFound.into());

    let result = scan_file(read, "does_not_exist.rs");

    assert!(result.is_err());
}

#[test]
fn io_errors_convert_to_scan_errors() {
    let err: ScanError = std::io::Error::from(std::io::ErrorKind::PermissionDenied).into();
    match err {
        ScanError::Io(e) => assert_eq!(e.kind(), std::io::ErrorKind::PermissionDenied),
        _ => panic!("expected an I/O error"),
    }
}

#[test]
fn moving_the_last_line_without_a_final_line_feed_keeps_identities() {
    let before = scan_contents("// TODO(a): first\nfn x() {}\n# BUG: last", "g.rs");
    let after = scan_contents("# BUG: last\n// TODO(a): first\nfn x() {}", "g.rs");
    let key = |t: &anko::parse::TrackedTag| (t.kind, t.message.clone(), t.labels.clone(), t.hash.clone());
    let mut ids_before: Vec<_> = before.iter().map(key).collect();
    let mut ids_after: Vec<_> = after.iter().map(key).collect();
    assert_eq!(ids_before.len(), 2);
    ids_before.sort_by(|p, q| p.1.cmp(&q.1));
    ids_after.sort_by(|p, q| p.1.cmp(&q.1));
    assert_eq!(ids_before, ids_after);
    assert_eq!(before.iter().map(|t| t.line).collect::<Vec<_>>(), vec![1, 3]);
    assert_eq!(after.iter().map(|t| t.line).collect::<Vec<_>>(), vec![1, 2]);
}
