use anko::diff::ExistingIssue;
use anko::parse::{Kind, TrackedTag};
use anko::sync::{SyncCommand, SyncEvent, SyncRun};

fn tag(hash: &str) -> TrackedTag {
    TrackedTag {
        kind: Kind::Todo,
        labels: vec![],
        message: format!("message {hash}"),
        file: "src/lib.rs".to_string(),
        line: 3,
        hash: hash.to_string(),
    }
}

#[test]
fn sync_fetches_records_then_opens_records_and_closes() {
    let (mut run, cmd) = SyncRun::new(vec![tag("h1"), tag("h2"), tag("h3")]);
    assert_eq!(cmd, SyncCommand::ListRecords);
    let records = vec![("h2".to_string(), 7), ("h3".to_string(), 9), ("gone".to_string(), 4)];
    assert_eq!(run.step(SyncEvent::RecordsListed(records)), SyncCommand::FetchIssue(7));
    // h2's issue was closed by hand: it stays closed.
    assert_eq!(
        run.step(SyncEvent::IssueFetched(Some(ExistingIssue::Closed(7)))),
        SyncCommand::FetchIssue(9)
    );
    assert_eq!(
        run.step(SyncEvent::IssueFetched(Some(ExistingIssue::Open(9)))),
        SyncCommand::FetchIssue(4)
    );
    // Only h1 is new; the issue of the tag that left the code is closed.
    assert_eq!(
        run.step(SyncEvent::IssueFetched(Some(ExistingIssue::Open(4)))),
        SyncCommand::OpenIssue(tag("h1"))
    );
    assert_eq!(
        run.step(SyncEvent::IssueOpened(12)),
        SyncCommand::SaveRecord("h1".to_string(), 12)
    );
    assert_eq!(run.step(SyncEvent::Finished), SyncCommand::CloseIssue(4));
    // The closed issue is no longer managed: its record goes.
    assert_eq!(run.step(SyncEvent::Finished), SyncCommand::DeleteRecord("gone".to_string()));
    assert_eq!(run.step(SyncEvent::Finished), SyncCommand::Done);
    assert_eq!(run.step(SyncEvent::Finished), SyncCommand::Done);
}

#[test]
fn sync_with_nothing_to_do_ends() {
    let (mut run, cmd) = SyncRun::new(vec![]);
    assert_eq!(cmd, SyncCommand::ListRecords);
    assert_eq!(run.step(SyncEvent::RecordsListed(vec![])), SyncCommand::Done);
}

#[test]
fn record_whose_issue_is_gone_counts_as_no_record() {
    let (mut run, _) = SyncRun::new(vec![tag("h1")]);
    assert_eq!(
        run.step(SyncEvent::RecordsListed(vec![("h1".to_string(), 3)])),
        SyncCommand::FetchIssue(3)
    );
    assert_eq!(run.step(SyncEvent::IssueFetched(None)), SyncCommand::OpenIssue(tag("h1")));
}

#[test]
fn unexpected_event_ends_the_sync() {
    let (mut run, _) = SyncRun::new(vec![tag("h1")]);
    assert_eq!(run.step(SyncEvent::Finished), SyncCommand::Done);
    assert_eq!(run.step(SyncEvent::RecordsListed(vec![])), SyncCommand::Done);
}

#[test]
fn each_closed_issue_has_its_record_deleted_before_the_next_action() {
    let (mut run, _) = SyncRun::new(vec![]);
    let records = vec![("a".to_string(), 1), ("b".to_string(), 2)];
    assert_eq!(run.step(SyncEvent::RecordsListed(records)), SyncCommand::FetchIssue(1));
    assert_eq!(
        run.step(SyncEvent::IssueFetched(Some(ExistingIssue::Open(1)))),
        SyncCommand::FetchIssue(2)
    );
    assert_eq!(
        run.step(SyncEvent::IssueFetched(Some(ExistingIssue::Open(2)))),
        SyncCommand::CloseIssue(1)
    );
    assert_eq!(run.step(SyncEvent::Finished), SyncCommand::DeleteRecord("a".to_string()));
    assert_eq!(run.step(SyncEvent::Finished), SyncCommand::CloseIssue(2));
    assert_eq!(run.step(SyncEvent::Finished), SyncCommand::DeleteRecord("b".to_string()));
    assert_eq!(run.step(SyncEvent::Finished), SyncCommand::Done);
}
