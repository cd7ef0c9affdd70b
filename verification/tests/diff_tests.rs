use anko::diff::{diff, ExistingIssue, IssueMap, SyncAction};
use anko::parse::{Kind, TrackedTag};

fn make_tag(hash: &str) -> TrackedTag {
    TrackedTag {
        kind: Kind::Todo,
        labels: vec![],
        message: "sample message".to_string(),
        file: "src/main.rs".to_string(),
        line: 1,
        hash: hash.to_string(),
    }
}

#[test]
fn new_tag_with_no_existing_record_opens_issue() {
    let current = vec![make_tag("hash1")];
    let existing = IssueMap::new();

    let actions = diff(&current, &existing);

    assert_eq!(actions.len(), 1);
    match &actions[0] {
        SyncAction::Open(tag) => assert_eq!(tag.hash, "hash1"),
        _ => panic!("expected Open action"),
    }
}

#[test]
fn tag_with_open_issue_is_noop() {
    let current = vec![make_tag("hash1")];
    let mut existing = IssueMap::new();
    existing.insert("hash1".to_string(), ExistingIssue::Open(42));

    let actions = diff(&current, &existing);

    assert!(actions.is_empty());
}

#[test]
fn tag_with_closed_issue_is_noop_and_not_reopened() {
    let current = vec![make_tag("hash1")];
    let mut existing = IssueMap::new();
    existing.insert("hash1".to_string(), ExistingIssue::Closed(42));

    let actions = diff(&current, &existing);

    assert!(actions.is_empty(), "closed issues must never be reopened");
}

#[test]
fn missing_tag_with_open_issue_closes_it() {
    let current: Vec<TrackedTag> = vec![];
    let mut existing = IssueMap::new();
    existing.insert("hash1".to_string(), ExistingIssue::Open(42));

    let actions = diff(&current, &existing);

    assert_eq!(actions.len(), 1);
    match &actions[0] {
        SyncAction::Close { hash, issue_number } => {
            assert_eq!(hash, "hash1");
            assert_eq!(*issue_number, 42);
        }
        _ => panic!("expected Close action"),
    }
}

#[test]
fn missing_tag_with_already_closed_issue_is_noop() {
    let current: Vec<TrackedTag> = vec![];
    let mut existing = IssueMap::new();
    existing.insert("hash1".to_string(), ExistingIssue::Closed(42));

    let actions = diff(&current, &existing);
    assert!(actions.is_empty());
}

#[test]
fn empty_current_and_empty_existing_produces_no_actions() {
    let current: Vec<TrackedTag> = vec![];
    let existing = IssueMap::new();

    let actions = diff(&current, &existing);
    assert!(actions.is_empty());
}

#[test]
fn multiple_tags_produce_independent_correct_actions() {
    let current = vec![make_tag("hash1"), make_tag("hash2"), make_tag("hash3")];
    let mut existing = IssueMap::new(); // new (OPEN new issue)
    existing.insert("hash2".to_string(), ExistingIssue::Open(2)); // open & still in code (DO NOTHING)
    existing.insert("hash3".to_string(), ExistingIssue::Closed(3)); // closed & still in code (DO NOTHING)
    existing.insert("hash4".to_string(), ExistingIssue::Open(4)); // open & missing from code

    let mut actions = diff(&current, &existing);
    assert_eq!(actions.len(), 2);

    actions.sort_by_key(|a| match a {
        SyncAction::Open(tag) => tag.hash.clone(),
        SyncAction::Close { hash, .. } => hash.clone(),
    });

    match &actions[0] {
        SyncAction::Open(tag) => assert_eq!(tag.hash, "hash1"),
        _ => panic!("expected Open action for hash1"),
    }
    match &actions[1] {
        SyncAction::Close { hash, issue_number } => {
            assert_eq!(hash, "hash4");
            assert_eq!(*issue_number, 4);
        }
        _ => panic!("expected Close action for hash4"),
    }
}

#[test]
fn duplicate_hashes_in_current_do_not_produce_duplicate_opens() {
    let current = vec![make_tag("hash1"), make_tag("hash1")];
    let existing = IssueMap::new();

    let actions = diff(&current, &existing);
    assert_eq!(actions.len(), 2);
}

#[test]
fn opened_action_carries_the_whole_tag() {
    let mut tag = make_tag("hash9");
    tag.labels = vec!["lexer".to_string(), "parser".to_string()];
    tag.kind = Kind::Bug;
    let actions = diff(&[tag.clone()], &IssueMap::new());
    assert_eq!(actions, vec![SyncAction::Open(tag)]);
}

#[test]
fn opens_come_before_closes_in_record_order() {
    let current = vec![make_tag("b"), make_tag("a")];
    let mut existing = IssueMap::new();
    existing.insert("z".to_string(), ExistingIssue::Open(26));
    existing.insert("y".to_string(), ExistingIssue::Open(25));
    let actions = diff(&current, &existing);
    let keys: Vec<String> = actions
        .iter()
        .map(|a| match a {
            SyncAction::Open(t) => format!("open {}", t.hash),
            SyncAction::Close { hash, issue_number } => format!("close {} {}", hash, issue_number),
        })
        .collect();
    assert_eq!(keys, vec!["open b", "open a", "close z 26", "close y 25"]);
}

#[test]
fn issue_map_insert_replaces_and_reports_previous() {
    let mut m = IssueMap::new();
    assert_eq!(m.insert("h".to_string(), ExistingIssue::Open(1)), None);
    assert_eq!(m.get(&"h".to_string()), Some(ExistingIssue::Open(1)));
    assert_eq!(m.insert("h".to_string(), ExistingIssue::Closed(1)), Some(ExistingIssue::Open(1)));
    assert_eq!(m.get(&"h".to_string()), Some(ExistingIssue::Closed(1)));
    assert_eq!(m.get(&"other".to_string()), None);
}

#[test]
fn reopened_record_state_wins_after_second_insert() {
    let mut existing = IssueMap::new();
    existing.insert("h".to_string(), ExistingIssue::Closed(7));
    existing.insert("h".to_string(), ExistingIssue::Open(7));
    let actions = diff(&[], &existing);
    assert_eq!(
        actions,
        vec![SyncAction::Close { hash: "h".to_string(), issue_number: 7 }]
    );
}
