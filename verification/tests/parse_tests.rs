use anko::parse::{parse_tag_line, Kind};

#[test]
fn parses_slash_slash_with_labels() {
    let result = parse_tag_line("// TODO(lexer, parser): rewrite error recovery");
    assert_eq!(
        result,
        Some((Kind::Todo, vec!["lexer".into(), "parser".into()], "rewrite error recovery".into()))
    );
}

#[test]
fn parses_slash_slash_no_labels() {
    let result = parse_tag_line("// TODO: fix this");
    assert_eq!(result, Some((Kind::Todo, vec![], "fix this".into())));
}

#[test]
fn parses_hash_style() {
    let result = parse_tag_line("# BUG(auth): token refresh race condition");
    assert_eq!(result, Some((Kind::Bug, vec!["auth".into()], "token refresh race condition".into())));
}

#[test]
fn parses_ocaml_block_style() {
    let result = parse_tag_line("(* DEPR(api): remove v1 endpoint *)");
    assert_eq!(result, Some((Kind::Depr, vec!["api".into()], "remove v1 endpoint".into())));
}

#[test]
fn rejects_non_matching_line() {
    let result = parse_tag_line("// just a regular comment");
    assert_eq!(result, None);
}

#[test]
fn rejects_missing_colon() {
    let result = parse_tag_line("// TODO fix this");
    assert_eq!(result, None);
}

#[test]
fn empty_parentheses_give_one_empty_label() {
    assert_eq!(parse_tag_line("// TODO(): x"), Some((Kind::Todo, vec!["".into()], "x".into())));
}

#[test]
fn labels_are_split_on_commas_and_trimmed() {
    assert_eq!(
        parse_tag_line("  #BUG ( a ,b,, c ) :  msg  "),
        Some((Kind::Bug, vec!["a".into(), "b".into(), "".into(), "c".into()], "msg".into()))
    );
}

#[test]
fn unclosed_label_parenthesis_is_rejected() {
    assert_eq!(parse_tag_line("// TODO(lexer: msg"), None);
}

#[test]
fn whitespace_only_message_gives_empty_message() {
    assert_eq!(parse_tag_line("// TODO:  "), Some((Kind::Todo, vec![], "".into())));
    assert_eq!(parse_tag_line("// TODO:"), None);
}

#[test]
fn newline_inside_message_is_rejected() {
    assert_eq!(parse_tag_line("// TODO: a\nb"), None);
    assert_eq!(parse_tag_line("// TODO: a\n"), None);
}

#[test]
fn block_comment_message_keeps_inner_closers() {
    assert_eq!(
        parse_tag_line("(* TODO: a *) b *)  "),
        Some((Kind::Todo, vec![], "a *) b".into()))
    );
    assert_eq!(parse_tag_line("(* TODO: *)"), Some((Kind::Todo, vec![], "".into())));
    assert_eq!(parse_tag_line("(* TODO:*)"), None);
    assert_eq!(parse_tag_line("(* TODO: x"), None);
}

#[test]
fn lowercase_or_unknown_keyword_is_rejected() {
    assert_eq!(parse_tag_line("// todo: x"), None);
    assert_eq!(parse_tag_line("// FIXME: x"), None);
    assert_eq!(parse_tag_line("// TODOS: x"), None);
}

#[test]
fn colon_inside_labels_is_part_of_the_label() {
    assert_eq!(
        parse_tag_line("// DEPR(a:b): gone"),
        Some((Kind::Depr, vec!["a:b".into()], "gone".into()))
    );
}

#[test]
fn unicode_whitespace_is_skipped() {
    assert_eq!(
        parse_tag_line("\u{3000}//\u{a0}TODO:\u{2003}wide"),
        Some((Kind::Todo, vec![], "wide".into()))
    );
}

#[test]
fn written_line_comment_parses_back() {
    assert_eq!(
        parse_tag_line("// BUG(auth, db, ): token refresh: retry *)"),
        Some((
            Kind::Bug,
            vec!["auth".into(), "db".into(), "".into()],
            "token refresh: retry *)".into()
        ))
    );
    assert_eq!(
        parse_tag_line("// DEPR: old api"),
        Some((Kind::Depr, vec![], "old api".into()))
    );
}

#[test]
fn written_block_comment_parses_back() {
    assert_eq!(
        parse_tag_line("(* TODO(a b, c): split (* this *) up *)"),
        Some((Kind::Todo, vec!["a b".into(), "c".into()], "split (* this *) up".into()))
    );
}

#[test]
fn found_tag_rewritten_canonically_is_found_again() {
    let found = parse_tag_line("  #BUG ( a ,b ) :\t msg  ").unwrap();
    assert_eq!(found, (Kind::Bug, vec!["a".into(), "b".into()], "msg".into()));
    let rewritten = format!("// BUG({}): {}", found.1.join(", "), found.2);
    assert_eq!(parse_tag_line(&rewritten), Some(found));
}

#[test]
fn empty_message_rewrites_to_itself() {
    let found = parse_tag_line("(* BUG(x):   *)").unwrap();
    assert_eq!(found, (Kind::Bug, vec!["x".into()], "".into()));
    assert_eq!(parse_tag_line("// BUG(x): "), Some(found));
}
