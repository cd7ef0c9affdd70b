//! One sync of a repository, as a state machine: the caller performs each
//! command (reading the store, asking the tracker, opening or closing an
//! issue) and hands back what came of it; the machine decides what comes next.
//!
//! First the issue records of the repository are listed and the state of each
//! recorded issue is fetched. Then the actions of [`diff`] are carried out in
//! order: issues are opened for new tags (and recorded), and issues whose tags
//! have left the code are closed (and their records dropped, so that an issue
//! reopened by hand afterwards is left alone).

use vstd::prelude::*;
use crate::diff::{
    actions_view, clone_tag, diff, distinct_keys, insert_entries, lemma_insert_entries, law_diff_closes_exactly_stale_open_issues,
    law_diff_opens_exactly_unrecorded_tags, map_of, spec_diff, tags_view, ActionView, ExistingIssue,
    IssueMap, SyncAction, in_current,
};
use crate::parse::{TagView, TrackedTag};

verus! {

/// Where a sync stands: what it waits on.
#[derive(Debug, Clone, Copy, PartialEq, Eq, Structural)]
pub enum SyncPhase {
    /// Waiting for the issue records of the repository.
    Listing,
    /// Waiting for the state of the issue of the record at this index.
    Fetch(usize),
    /// Waiting for the number of the issue opened for the action at this index.
    AwaitOpen(usize),
    /// Waiting for the record of that issue to be saved.
    Saving(usize),
    /// Waiting for the issue of the action at this index to be closed.
    Closing(usize),
    /// Waiting for the record of that issue to be deleted.
    Deleting(usize),
    /// Nothing more to do.
    Done,
}

/// What the caller is asked to do next.
#[derive(Debug, Clone, PartialEq, Eq)]
pub enum SyncCommand {
    /// List the issue records of the repository: tag hash and issue number.
    ListRecords,
    /// Fetch the state of this issue.
    FetchIssue(u64),
    /// Open an issue for this tag.
    OpenIssue(TrackedTag),
    /// Record this issue number for this tag hash.
    SaveRecord(String, u64),
    /// Close this issue.
    CloseIssue(u64),
    /// Delete the record of this tag hash.
    DeleteRecord(String),
    /// The sync is over.
    Done,
}

/// What came of the last command.
#[derive(Debug, Clone, PartialEq, Eq)]
pub enum SyncEvent {
    /// The records listed: tag hash and issue number, each hash once.
    RecordsListed(Vec<(String, u64)>),
    /// The issue fetched, if it exists.
    IssueFetched(Option<ExistingIssue>),
    /// The number of the issue opened.
    IssueOpened(u64),
    /// A record was saved or deleted, or an issue closed.
    Finished,
}

/// Where a sync stands, with its index as an integer.
pub enum PhaseView {
    Listing,
    Fetch(int),
    AwaitOpen(int),
    Saving(int),
    Closing(int),
    Deleting(int),
    Done,
}

pub open spec fn phase_view(p: SyncPhase) -> PhaseView {
    match p {
        SyncPhase::Listing => PhaseView::Listing,
        SyncPhase::Fetch(i) => PhaseView::Fetch(i as int),
        SyncPhase::AwaitOpen(j) => PhaseView::AwaitOpen(j as int),
        SyncPhase::Saving(j) => PhaseView::Saving(j as int),
        SyncPhase::Closing(j) => PhaseView::Closing(j as int),
        SyncPhase::Deleting(j) => PhaseView::Deleting(j as int),
        SyncPhase::Done => PhaseView::Done,
    }
}

pub open spec fn records_view(v: Seq<(String, u64)>) -> Seq<(Seq<char>, u64)> {
    v.map_values(|r: (String, u64)| (r.0@, r.1))
}

pub enum EventView {
    RecordsListed(Seq<(Seq<char>, u64)>),
    IssueFetched(Option<ExistingIssue>),
    IssueOpened(u64),
    Finished,
}

impl View for SyncEvent {
    type V = EventView;

    open spec fn view(&self) -> EventView {
        match self {
            SyncEvent::RecordsListed(r) => EventView::RecordsListed(records_view(r@)),
            SyncEvent::IssueFetched(o) => EventView::IssueFetched(*o),
            SyncEvent::IssueOpened(n) => EventView::IssueOpened(*n),
            SyncEvent::Finished => EventView::Finished,
        }
    }
}

pub enum CommandView {
    ListRecords,
    FetchIssue(u64),
    OpenIssue(TagView),
    SaveRecord(Seq<char>, u64),
    CloseIssue(u64),
    DeleteRecord(Seq<char>),
    Done,
}

impl View for SyncCommand {
    type V = CommandView;

    open spec fn view(&self) -> CommandView {
        match self {
            SyncCommand::ListRecords => CommandView::ListRecords,
            SyncCommand::FetchIssue(n) => CommandView::FetchIssue(*n),
            SyncCommand::OpenIssue(t) => CommandView::OpenIssue(t@),
            SyncCommand::SaveRecord(h, n) => CommandView::SaveRecord(h@, *n),
            SyncCommand::CloseIssue(n) => CommandView::CloseIssue(*n),
            SyncCommand::DeleteRecord(h) => CommandView::DeleteRecord(h@),
            SyncCommand::Done => CommandView::Done,
        }
    }
}

/// The state of a sync, as plain values.
pub struct SyncView {
    pub current: Seq<TagView>,
    pub records: Seq<(Seq<char>, u64)>,
    pub existing: Seq<(Seq<char>, ExistingIssue)>,
    pub actions: Seq<ActionView>,
    pub phase: PhaseView,
}

/// Moving on to the record at index `i`, or to the actions once all records
/// are fetched: the actions are then those of `diff`.
pub open spec fn spec_fetch_from(v: SyncView, i: int) -> (SyncView, CommandView) {
    if 0 <= i < v.records.len() {
        (SyncView { phase: PhaseView::Fetch(i), ..v }, CommandView::FetchIssue(v.records[i].1))
    } else {
        spec_apply_from(SyncView { actions: spec_diff(v.current, v.existing), ..v }, 0)
    }
}

/// Moving on to the action at index `j`, or finishing after the last one.
pub open spec fn spec_apply_from(v: SyncView, j: int) -> (SyncView, CommandView) {
    if 0 <= j < v.actions.len() {
        match v.actions[j] {
            ActionView::Open(t) => (
                SyncView { phase: PhaseView::AwaitOpen(j), ..v },
                CommandView::OpenIssue(t),
            ),
            ActionView::Close(_, n) => (
                SyncView { phase: PhaseView::Closing(j), ..v },
                CommandView::CloseIssue(n),
            ),
        }
    } else {
        (SyncView { phase: PhaseView::Done, ..v }, CommandView::Done)
    }
}

/// The hash of the tag of the action at index `j`.
pub open spec fn action_hash(v: SyncView, j: int) -> Seq<char> {
    match v.actions[j] {
        ActionView::Open(t) => t.hash,
        ActionView::Close(h, _) => h,
    }
}

/// The state in which a sync starts, for the tags found in the code, with its
/// first command: list the records.
pub open spec fn sync_start(current: Seq<TagView>) -> SyncView {
    SyncView {
        current,
        records: Seq::empty(),
        existing: Seq::empty(),
        actions: Seq::empty(),
        phase: PhaseView::Listing,
    }
}

/// One step: the next state and command, from the state and what came of the
/// last command. An event that does not answer the last command ends the sync.
pub open spec fn spec_step(v: SyncView, e: EventView) -> (SyncView, CommandView) {
    match (v.phase, e) {
        (PhaseView::Listing, EventView::RecordsListed(rs)) => spec_fetch_from(
            SyncView { records: rs, ..v },
            0,
        ),
        (PhaseView::Fetch(i), EventView::IssueFetched(None)) => spec_fetch_from(v, i + 1),
        (PhaseView::Fetch(i), EventView::IssueFetched(Some(st))) => spec_fetch_from(
            SyncView { existing: insert_entries(v.existing, v.records[i].0, st), ..v },
            i + 1,
        ),
        (PhaseView::AwaitOpen(j), EventView::IssueOpened(n)) => (
            SyncView { phase: PhaseView::Saving(j), ..v },
            CommandView::SaveRecord(action_hash(v, j), n),
        ),
        (PhaseView::Saving(j), EventView::Finished) => spec_apply_from(v, j + 1),
        (PhaseView::Closing(j), EventView::Finished) => (
            SyncView { phase: PhaseView::Deleting(j), ..v },
            CommandView::DeleteRecord(action_hash(v, j)),
        ),
        (PhaseView::Deleting(j), EventView::Finished) => spec_apply_from(v, j + 1),
        (PhaseView::Done, _) => (v, CommandView::Done),
        _ => (SyncView { phase: PhaseView::Done, ..v }, CommandView::Done),
    }
}

/// A sync in progress.
pub struct SyncRun {
    current: Vec<TrackedTag>,
    records: Vec<(String, u64)>,
    existing: IssueMap,
    actions: Vec<SyncAction>,
    phase: SyncPhase,
}

impl View for SyncRun {
    type V = SyncView;

    closed spec fn view(&self) -> SyncView {
        SyncView {
            current: tags_view(self.current@),
            records: records_view(self.records@),
            existing: self.existing.entries(),
            actions: actions_view(self.actions@),
            phase: phase_view(self.phase),
        }
    }
}

impl SyncRun {
    #[verifier::type_invariant]
    closed spec fn inv(&self) -> bool {
        &&& distinct_keys(self.existing.entries())
        &&& match self.phase {
            SyncPhase::Listing => true,
            SyncPhase::Fetch(i) => i < self.records@.len(),
            SyncPhase::AwaitOpen(j) => j < self.actions@.len() && self.actions@[j as int] is Open,
            SyncPhase::Saving(j) => j < self.actions@.len() && self.actions@[j as int] is Open,
            SyncPhase::Closing(j) => j < self.actions@.len(),
            SyncPhase::Deleting(j) => j < self.actions@.len(),
            SyncPhase::Done => true,
        }
    }

    /// Starts a sync for the tags found in the code, with its first command.
    pub fn new(current: Vec<TrackedTag>) -> (r: (SyncRun, SyncCommand))
        ensures
            r.0@ == sync_start(tags_view(current@)),
            r.1@ == CommandView::ListRecords,
            distinct_keys(r.0@.existing),
    {
        let run = SyncRun {
            current,
            records: Vec::new(),
            existing: IssueMap::new(),
            actions: Vec::new(),
            phase: SyncPhase::Listing,
        };
        proof {
            assert(actions_view(run.actions@) =~= Seq::<ActionView>::empty());
            assert(records_view(run.records@) =~= Seq::<(Seq<char>, u64)>::empty());
        }
        (run, SyncCommand::ListRecords)
    }

    fn fetch_from(&mut self, i: usize) -> (cmd: SyncCommand)
        requires
            i <= old(self).records@.len(),
        ensures
            (final(self)@, cmd@) == spec_fetch_from(old(self)@, i as int),
    {
        proof {
            use_type_invariant(&*self);
        }
        if i < self.records.len() {
            self.phase = SyncPhase::Fetch(i);
            SyncCommand::FetchIssue(self.records[i].1)
        } else {
            let actions = diff(self.current.as_slice(), &self.existing);
            self.phase = SyncPhase::Done;
            self.actions = actions;
            self.apply_from(0)
        }
    }

    fn apply_from(&mut self, j: usize) -> (cmd: SyncCommand)
        requires
            j <= old(self).actions@.len(),
        ensures
            (final(self)@, cmd@) == spec_apply_from(old(self)@, j as int),
    {
        proof {
            use_type_invariant(&*self);
        }
        if j < self.actions.len() {
            match &self.actions[j] {
                SyncAction::Open(t) => {
                    let tag = clone_tag(t);
                    self.phase = SyncPhase::AwaitOpen(j);
                    SyncCommand::OpenIssue(tag)
                },
                SyncAction::Close { hash: _, issue_number } => {
                    let n = *issue_number;
                    self.phase = SyncPhase::Closing(j);
                    SyncCommand::CloseIssue(n)
                },
            }
        } else {
            self.phase = SyncPhase::Done;
            SyncCommand::Done
        }
    }

    /// Takes what came of the last command and gives the next one.
    pub fn step(&mut self, event: SyncEvent) -> (cmd: SyncCommand)
        ensures
            (final(self)@, cmd@) == spec_step(old(self)@, event@),
            distinct_keys(old(self)@.existing),
            distinct_keys(final(self)@.existing),
    {
        proof {
            use_type_invariant(&*self);
            law_sync_knows_each_fetched_issue(self@, event@);
        }
        // Both lengths fit in a usize, so the index after any valid one does too.
        let record_count = self.records.len();
        let action_count = self.actions.len();
        assert(record_count == self.records@.len() && action_count == self.actions@.len());
        match (self.phase, event) {
            (SyncPhase::Listing, SyncEvent::RecordsListed(rs)) => {
                self.phase = SyncPhase::Done;
                self.records = rs;
                self.fetch_from(0)
            },
            (SyncPhase::Fetch(i), SyncEvent::IssueFetched(None)) => self.fetch_from(i + 1),
            (SyncPhase::Fetch(i), SyncEvent::IssueFetched(Some(st))) => {
                let h = self.records[i].0.clone();
                let mut existing = IssueMap::new();
                std::mem::swap(&mut existing, &mut self.existing);
                existing.insert(h, st);
                self.existing = existing;
                self.fetch_from(i + 1)
            },
            (SyncPhase::AwaitOpen(j), SyncEvent::IssueOpened(n)) => {
                let h = match &self.actions[j] {
                    SyncAction::Open(t) => t.hash.clone(),
                    SyncAction::Close { hash, issue_number: _ } => hash.clone(),
                };
                self.phase = SyncPhase::Saving(j);
                SyncCommand::SaveRecord(h, n)
            },
            (SyncPhase::Saving(j), SyncEvent::Finished) => self.apply_from(j + 1),
            (SyncPhase::Closing(j), SyncEvent::Finished) => {
                let h = match &self.actions[j] {
                    SyncAction::Open(t) => t.hash.clone(),
                    SyncAction::Close { hash, issue_number: _ } => hash.clone(),
                };
                self.phase = SyncPhase::Deleting(j);
                SyncCommand::DeleteRecord(h)
            },
            (SyncPhase::Deleting(j), SyncEvent::Finished) => self.apply_from(j + 1),
            (SyncPhase::Done, _) => SyncCommand::Done,
            _ => {
                self.phase = SyncPhase::Done;
                SyncCommand::Done
            },
        }
    }
}

/// The states a sync passes through: while records are fetched, the index is
/// that of a record and no action is planned yet; while actions are carried
/// out, they are those of `diff` for the tags and the issues found, and the
/// index is that of an action of the kind awaited.
pub open spec fn sync_well_formed(v: SyncView) -> bool {
    match v.phase {
        PhaseView::Listing => v.actions.len() == 0,
        PhaseView::Fetch(i) => 0 <= i < v.records.len() && v.actions.len() == 0,
        PhaseView::AwaitOpen(j) => 0 <= j < v.actions.len() && v.actions == spec_diff(
            v.current,
            v.existing,
        ) && v.actions[j] is Open,
        PhaseView::Saving(j) => 0 <= j < v.actions.len() && v.actions == spec_diff(
            v.current,
            v.existing,
        ) && v.actions[j] is Open,
        PhaseView::Closing(j) => 0 <= j < v.actions.len() && v.actions == spec_diff(
            v.current,
            v.existing,
        ) && v.actions[j] is Close,
        PhaseView::Deleting(j) => 0 <= j < v.actions.len() && v.actions == spec_diff(
            v.current,
            v.existing,
        ) && v.actions[j] is Close,
        PhaseView::Done => true,
    }
}

proof fn lemma_apply_from_well_formed(v: SyncView, j: int)
    requires
        0 <= j <= v.actions.len(),
        v.actions == spec_diff(v.current, v.existing),
    ensures
        sync_well_formed(spec_apply_from(v, j).0),
{
}

proof fn lemma_fetch_from_well_formed(v: SyncView, i: int)
    requires
        0 <= i,
        v.actions.len() == 0,
    ensures
        sync_well_formed(spec_fetch_from(v, i).0),
{
    if i >= v.records.len() {
        lemma_apply_from_well_formed(SyncView { actions: spec_diff(v.current, v.existing), ..v }, 0);
    }
}

/// A sync starts in a well-formed state.
pub proof fn law_sync_starts_well_formed(current: Seq<TagView>)
    ensures
        sync_well_formed(sync_start(current)),
{
}

/// Every step keeps a sync well formed, whatever the caller hands back.
pub proof fn law_sync_step_keeps_well_formed(v: SyncView, e: EventView)
    requires
        sync_well_formed(v),
    ensures
        sync_well_formed(spec_step(v, e).0),
{
    match (v.phase, e) {
        (PhaseView::Listing, EventView::RecordsListed(rs)) => lemma_fetch_from_well_formed(
            SyncView { records: rs, ..v },
            0,
        ),
        (PhaseView::Fetch(i), EventView::IssueFetched(None)) => lemma_fetch_from_well_formed(
            v,
            i + 1,
        ),
        (PhaseView::Fetch(i), EventView::IssueFetched(Some(st))) => lemma_fetch_from_well_formed(
            SyncView { existing: insert_entries(v.existing, v.records[i].0, st), ..v },
            i + 1,
        ),
        (PhaseView::Saving(j), EventView::Finished) => lemma_apply_from_well_formed(v, j + 1),
        (PhaseView::Deleting(j), EventView::Finished) => lemma_apply_from_well_formed(v, j + 1),
        _ => {},
    }
}

/// A well-formed sync asks to open an issue only for a tag that is in the
/// code and has no issue on record that still exists, open or closed: a
/// closed issue is never reopened.
pub proof fn law_sync_opens_only_unrecorded_tags(v: SyncView, e: EventView, t: TagView)
    requires
        sync_well_formed(v),
        spec_step(v, e).1 == CommandView::OpenIssue(t),
    ensures
        spec_step(v, e).0.current == v.current,
        v.current.contains(t),
        !map_of(spec_step(v, e).0.existing).contains_key(t.hash),
{
    let w = spec_step(v, e).0;
    law_sync_step_keeps_well_formed(v, e);
    let j = w.phase->AwaitOpen_0;
    assert(w.actions[j] == ActionView::Open(t));
    assert(w.actions.contains(ActionView::Open(t)));
    law_diff_opens_exactly_unrecorded_tags(w.current, w.existing, t);
}

/// A well-formed sync asks to close an issue only if it is on record as open
/// and no tag in the code has its hash any more.
pub proof fn law_sync_closes_only_stale_open_issues(v: SyncView, e: EventView, n: u64)
    requires
        sync_well_formed(v),
        spec_step(v, e).1 == CommandView::CloseIssue(n),
    ensures
        spec_step(v, e).0.current == v.current,
        exists|h: Seq<char>|
            spec_step(v, e).0.existing.contains((h, ExistingIssue::Open(n))) && !in_current(
                v.current,
                h,
            ),
{
    let w = spec_step(v, e).0;
    law_sync_step_keeps_well_formed(v, e);
    let j = w.phase->Closing_0;
    let h = w.actions[j]->Close_0;
    assert(w.actions[j] == ActionView::Close(h, n));
    assert(w.actions.contains(ActionView::Close(h, n)));
    law_diff_closes_exactly_stale_open_issues(w.current, w.existing, h, n);
}

/// Each issue that a sync opens is recorded next, under its tag's hash, with
/// the number the tracker gave it.
pub proof fn law_sync_records_each_opened_issue(v: SyncView, n: u64)
    requires
        sync_well_formed(v),
        v.phase is AwaitOpen,
    ensures
        spec_step(v, EventView::IssueOpened(n)).1 == CommandView::SaveRecord(
            (v.actions[v.phase->AwaitOpen_0])->Open_0.hash,
            n,
        ),
        spec_step(v, EventView::IssueOpened(n)).0.phase == PhaseView::Saving(v.phase->AwaitOpen_0),
{
}

/// Each issue that a sync closes has its record deleted next, so that the
/// sync no longer manages it: the command after the close is to delete the
/// record of the hash of an issue that was on record as open and whose tag is
/// gone from the code.
pub proof fn law_sync_forgets_each_closed_issue(v: SyncView)
    requires
        sync_well_formed(v),
        v.phase is Closing,
    ensures
        spec_step(v, EventView::Finished).1 == CommandView::DeleteRecord(
            (v.actions[v.phase->Closing_0])->Close_0,
        ),
        spec_step(v, EventView::Finished).0.phase == PhaseView::Deleting(v.phase->Closing_0),
        v.existing.contains(
            (
                (v.actions[v.phase->Closing_0])->Close_0,
                ExistingIssue::Open((v.actions[v.phase->Closing_0])->Close_1),
            ),
        ),
        !in_current(v.current, (v.actions[v.phase->Closing_0])->Close_0),
{
    let j = v.phase->Closing_0;
    let h = v.actions[j]->Close_0;
    let n = v.actions[j]->Close_1;
    assert(v.actions[j] == ActionView::Close(h, n));
    assert(v.actions.contains(ActionView::Close(h, n)));
    law_diff_closes_exactly_stale_open_issues(v.current, v.existing, h, n);
}

/// What a sync knows of the issues on record changes only when an issue is
/// fetched, and then exactly as the tracker answered: after the issue of the
/// record at `i` is fetched with state `st`, the record's hash maps to `st`
/// (so an issue fetched as closed is known as closed, and its tag is never
/// given a new issue); after any other step, nothing known changes. The known
/// hashes stay distinct throughout.
pub proof fn law_sync_knows_each_fetched_issue(v: SyncView, e: EventView)
    requires
        distinct_keys(v.existing),
    ensures
        distinct_keys(spec_step(v, e).0.existing),
        map_of(spec_step(v, e).0.existing) == (match (v.phase, e) {
            (PhaseView::Fetch(i), EventView::IssueFetched(Some(st))) => map_of(v.existing).insert(
                v.records[i].0,
                st,
            ),
            _ => map_of(v.existing),
        }),
{
    match (v.phase, e) {
        (PhaseView::Fetch(i), EventView::IssueFetched(Some(st))) => {
            lemma_insert_entries(v.existing, v.records[i].0, st);
        },
        _ => {},
    }
}

} // verus!
