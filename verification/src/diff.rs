//! Deciding which issues to open and which to close, from the tags found in
//! the code and what is known of the issues already filed for them.

use vstd::prelude::*;
use crate::parse::{Kind, TagView, TrackedTag, strings_view};

verus! {

/// What is known of the issue filed for a tag: its state and number.
#[derive(Debug, Clone, Copy, PartialEq, Eq, Structural)]
pub enum ExistingIssue {
    Open(u64),
    Closed(u64),
}

/// One change to make on the issue tracker.
#[derive(Debug, Clone, PartialEq, Eq)]
pub enum SyncAction {
    Open(TrackedTag),
    Close { hash: String, issue_number: u64 },
}

pub enum ActionView {
    Open(TagView),
    Close(Seq<char>, u64),
}

impl View for SyncAction {
    type V = ActionView;

    open spec fn view(&self) -> ActionView {
        match self {
            SyncAction::Open(t) => ActionView::Open(t@),
            SyncAction::Close { hash, issue_number } => ActionView::Close(hash@, *issue_number),
        }
    }
}

pub open spec fn actions_view(v: Seq<SyncAction>) -> Seq<ActionView> {
    v.map_values(|a: SyncAction| a@)
}

/// The map that a list of entries stands for (a later entry wins).
pub open spec fn map_of(es: Seq<(Seq<char>, ExistingIssue)>) -> Map<Seq<char>, ExistingIssue>
    decreases es.len(),
{
    if es.len() == 0 {
        Map::empty()
    } else {
        map_of(es.drop_last()).insert(es.last().0, es.last().1)
    }
}

/// No key occurs twice.
pub open spec fn distinct_keys(es: Seq<(Seq<char>, ExistingIssue)>) -> bool {
    forall|i: int, j: int| 0 <= i < j < es.len() ==> #[trigger] es[i].0 != #[trigger] es[j].0
}

pub proof fn lemma_map_of_contains(es: Seq<(Seq<char>, ExistingIssue)>, k: Seq<char>)
    ensures
        map_of(es).contains_key(k) <==> exists|i: int| 0 <= i < es.len() && #[trigger] es[i].0 == k,
    decreases es.len(),
{
    if es.len() > 0 {
        lemma_map_of_contains(es.drop_last(), k);
        if map_of(es.drop_last()).contains_key(k) {
            let i = choose|i: int| 0 <= i < es.drop_last().len() && #[trigger] es.drop_last()[i].0 == k;
            assert(es[i].0 == k);
        }
        if exists|i: int| 0 <= i < es.len() && #[trigger] es[i].0 == k {
            let i = choose|i: int| 0 <= i < es.len() && #[trigger] es[i].0 == k;
            if i < es.len() - 1 {
                assert(es.drop_last()[i].0 == k);
            }
        }
    }
}

pub proof fn lemma_map_of_value(es: Seq<(Seq<char>, ExistingIssue)>, i: int)
    requires
        distinct_keys(es),
        0 <= i < es.len(),
    ensures
        map_of(es).contains_key(es[i].0),
        map_of(es)[es[i].0] == es[i].1,
    decreases es.len(),
{
    if i < es.len() - 1 {
        lemma_map_of_value(es.drop_last(), i);
        assert(es.drop_last()[i] == es[i]);
    }
}

pub proof fn lemma_map_of_update(es: Seq<(Seq<char>, ExistingIssue)>, i: int, v: ExistingIssue)
    requires
        distinct_keys(es),
        0 <= i < es.len(),
    ensures
        map_of(es.update(i, (es[i].0, v))) == map_of(es).insert(es[i].0, v),
    decreases es.len(),
{
    let es2 = es.update(i, (es[i].0, v));
    if i == es.len() - 1 {
        assert(es2.drop_last() =~= es.drop_last());
        assert(map_of(es2) =~= map_of(es).insert(es[i].0, v));
    } else {
        lemma_map_of_update(es.drop_last(), i, v);
        assert(es2.drop_last() =~= es.drop_last().update(i, (es[i].0, v)));
        assert(es.last().0 != es[i].0);
        assert(map_of(es2) =~= map_of(es).insert(es[i].0, v));
    }
}

/// The entries after setting `k` to `v`: a known key keeps its place, a new
/// one goes last.
pub open spec fn insert_entries(
    es: Seq<(Seq<char>, ExistingIssue)>,
    k: Seq<char>,
    v: ExistingIssue,
) -> Seq<(Seq<char>, ExistingIssue)> {
    if exists|i: int| 0 <= i < es.len() && #[trigger] es[i].0 == k {
        let i = choose|i: int| 0 <= i < es.len() && #[trigger] es[i].0 == k;
        es.update(i, (k, v))
    } else {
        es.push((k, v))
    }
}

/// Setting `k` to `v` in entries with distinct keys sets it in the map they
/// stand for, and keeps the keys distinct.
pub proof fn lemma_insert_entries(es: Seq<(Seq<char>, ExistingIssue)>, k: Seq<char>, v: ExistingIssue)
    requires
        distinct_keys(es),
    ensures
        map_of(insert_entries(es, k, v)) == map_of(es).insert(k, v),
        distinct_keys(insert_entries(es, k, v)),
{
    if exists|i: int| 0 <= i < es.len() && #[trigger] es[i].0 == k {
        let i = choose|i: int| 0 <= i < es.len() && #[trigger] es[i].0 == k;
        lemma_map_of_update(es, i, v);
        let u = es.update(i, (k, v));
        assert forall|a: int, b: int| 0 <= a < b < u.len() implies #[trigger] u[a].0
            != #[trigger] u[b].0 by {
            assert(es[a].0 != es[b].0);
        }
    } else {
        let p = es.push((k, v));
        assert(p.drop_last() =~= es);
        assert forall|a: int, b: int| 0 <= a < b < p.len() implies #[trigger] p[a].0
            != #[trigger] p[b].0 by {
            if b < es.len() {
                assert(es[a].0 != es[b].0);
            } else {
                assert(es[a].0 != k);
            }
        }
    }
}

/// Issues already filed, keyed by tag hash.
///
/// Held as a list of entries with distinct keys, in the order they were
/// added, rather than as a `HashMap`: vstd models a `HashMap` only for keys
/// that it knows hash consistently (integers), and the keys here are strings.
/// The list also fixes the order in which the records are walked, which a
/// `HashMap` leaves open.
pub struct IssueMap {
    entries: Vec<(String, ExistingIssue)>,
}

impl IssueMap {
    /// The entries in the order in which they are walked.
    pub closed spec fn entries(&self) -> Seq<(Seq<char>, ExistingIssue)> {
        self.entries@.map_values(|e: (String, ExistingIssue)| (e.0@, e.1))
    }

    #[verifier::type_invariant]
    closed spec fn inv(&self) -> bool {
        distinct_keys(self.entries())
    }

    /// An empty map.
    pub fn new() -> (r: IssueMap)
        ensures
            r.entries() == Seq::<(Seq<char>, ExistingIssue)>::empty(),
            r@ == Map::<Seq<char>, ExistingIssue>::empty(),
            distinct_keys(r.entries()),
    {
        let r = IssueMap { entries: Vec::new() };
        assert(r.entries() =~= Seq::<(Seq<char>, ExistingIssue)>::empty());
        r
    }

    fn find(&self, key: &String) -> (r: Option<usize>)
        ensures
            match r {
                Some(i) => i < self.entries().len() && self.entries()[i as int].0 == key@,
                None => forall|i: int| 0 <= i < self.entries().len() ==> #[trigger] self.entries()[i].0 != key@,
            },
    {
        let mut i: usize = 0;
        while i < self.entries.len()
            invariant
                i <= self.entries@.len(),
                forall|j: int| 0 <= j < i ==> #[trigger] self.entries()[j].0 != key@,
            decreases self.entries@.len() - i,
        {
            if self.entries[i].0 == *key {
                return Some(i);
            }
            i = i + 1;
        }
        None
    }

    /// Sets the issue known for `key`, and returns the one it replaces.
    /// A new key goes after the others; a known key keeps its place.
    pub fn insert(&mut self, key: String, value: ExistingIssue) -> (r: Option<ExistingIssue>)
        ensures
            final(self)@ == old(self)@.insert(key@, value),
            r == (if old(self)@.contains_key(key@) {
                Some(old(self)@[key@])
            } else {
                None
            }),
            final(self).entries() == insert_entries(old(self).entries(), key@, value),
            distinct_keys(old(self).entries()),
            distinct_keys(final(self).entries()),
    {
        proof {
            use_type_invariant(&*self);
            lemma_map_of_contains(self.entries(), key@);
        }
        match self.find(&key) {
            Some(i) => {
                let old_value = self.entries[i].1;
                proof {
                    lemma_map_of_value(self.entries(), i as int);
                    lemma_map_of_update(self.entries(), i as int, value);
                }
                let ghost before = self.entries();
                let mut entries: Vec<(String, ExistingIssue)> = Vec::new();
                std::mem::swap(&mut entries, &mut self.entries);
                entries.set(i, (key, value));
                let ghost upd = before.update(i as int, (key@, value));
                assert(entries@.map_values(|e: (String, ExistingIssue)| (e.0@, e.1)) =~= upd);
                assert forall|a: int, b: int| 0 <= a < b < upd.len() implies #[trigger] upd[a].0
                    != #[trigger] upd[b].0 by {
                    assert(before[a].0 != before[b].0);
                }
                self.entries = entries;
                assert(self.entries() =~= before.update(i as int, (key@, value)));
                assert(insert_entries(before, key@, value) == before.update(i as int, (key@, value))) by {
                    assert(before[i as int].0 == key@);
                    let c = choose|c: int| 0 <= c < before.len() && #[trigger] before[c].0 == key@;
                    if c != i as int {
                        assert(before[c].0 != before[i as int].0);
                    }
                }
                Some(old_value)
            },
            None => {
                let ghost before = self.entries();
                let mut entries: Vec<(String, ExistingIssue)> = Vec::new();
                std::mem::swap(&mut entries, &mut self.entries);
                entries.push((key, value));
                let ghost pushed = before.push((key@, value));
                assert(entries@.map_values(|e: (String, ExistingIssue)| (e.0@, e.1)) =~= pushed);
                assert forall|a: int, b: int| 0 <= a < b < pushed.len() implies #[trigger] pushed[a].0
                    != #[trigger] pushed[b].0 by {
                    if b < before.len() {
                        assert(before[a].0 != before[b].0);
                    } else {
                        assert(before[a].0 != key@);
                    }
                }
                self.entries = entries;
                assert(self.entries() =~= before.push((key@, value)));
                assert(self.entries().drop_last() =~= before);
                None
            },
        }
    }

    /// The issue known for `key`, if any.
    pub fn get(&self, key: &String) -> (r: Option<ExistingIssue>)
        ensures
            r == (if self@.contains_key(key@) {
                Some(self@[key@])
            } else {
                None
            }),
            distinct_keys(self.entries()),
    {
        proof {
            use_type_invariant(self);
            lemma_map_of_contains(self.entries(), key@);
        }
        match self.find(key) {
            Some(i) => {
                proof {
                    lemma_map_of_value(self.entries(), i as int);
                }
                Some(self.entries[i].1)
            },
            None => None,
        }
    }
}

impl View for IssueMap {
    type V = Map<Seq<char>, ExistingIssue>;

    open spec fn view(&self) -> Map<Seq<char>, ExistingIssue> {
        map_of(self.entries())
    }
}

} // verus!

verus! {

pub open spec fn tags_view(v: Seq<TrackedTag>) -> Seq<TagView> {
    v.map_values(|t: TrackedTag| t@)
}

/// Whether some tag of `cur` has hash `h`.
pub open spec fn in_current(cur: Seq<TagView>, h: Seq<char>) -> bool {
    exists|i: int| 0 <= i < cur.len() && #[trigger] cur[i].hash == h
}

/// An `Open` action for each tag, in order, whose hash has no issue on record.
pub open spec fn open_actions(cur: Seq<TagView>, known: Map<Seq<char>, ExistingIssue>) -> Seq<
    ActionView,
>
    decreases cur.len(),
{
    if cur.len() == 0 {
        seq![]
    } else {
        let rest = open_actions(cur.drop_last(), known);
        if known.contains_key(cur.last().hash) {
            rest
        } else {
            rest.push(ActionView::Open(cur.last()))
        }
    }
}

/// A `Close` action for each open issue on record, in order, whose hash no
/// tag of `cur` has.
pub open spec fn close_actions(es: Seq<(Seq<char>, ExistingIssue)>, cur: Seq<TagView>) -> Seq<
    ActionView,
>
    decreases es.len(),
{
    if es.len() == 0 {
        seq![]
    } else {
        let rest = close_actions(es.drop_last(), cur);
        match es.last().1 {
            ExistingIssue::Open(n) => if in_current(cur, es.last().0) {
                rest
            } else {
                rest.push(ActionView::Close(es.last().0, n))
            },
            ExistingIssue::Closed(_) => rest,
        }
    }
}

/// The actions that bring the tracker in line with the code: first the
/// openings, in the order of the tags, then the closings, in the order of the
/// records.
pub open spec fn spec_diff(cur: Seq<TagView>, es: Seq<(Seq<char>, ExistingIssue)>) -> Seq<
    ActionView,
> {
    open_actions(cur, map_of(es)) + close_actions(es, cur)
}

/// A copy of `t` with the same contents.
pub fn clone_tag(t: &TrackedTag) -> (r: TrackedTag)
    ensures
        r@ == t@,
{
    let mut labels: Vec<String> = Vec::new();
    let mut i: usize = 0;
    while i < t.labels.len()
        invariant
            i <= t.labels@.len(),
            labels@.len() == i,
            forall|k: int| 0 <= k < i ==> #[trigger] labels@[k]@ == t.labels@[k]@,
        decreases t.labels@.len() - i,
    {
        let c = t.labels[i].clone();
        labels.push(c);
        i = i + 1;
    }
    assert(strings_view(labels@) =~= strings_view(t.labels@));
    TrackedTag {
        kind: t.kind,
        labels,
        message: t.message.clone(),
        file: t.file.clone(),
        line: t.line,
        hash: t.hash.clone(),
    }
}

fn current_has_hash(current: &[TrackedTag], h: &String) -> (r: bool)
    ensures
        r == in_current(tags_view(current@), h@),
{
    let mut i: usize = 0;
    while i < current.len()
        invariant
            i <= current@.len(),
            forall|j: int| 0 <= j < i ==> #[trigger] current@[j].hash@ != h@,
        decreases current@.len() - i,
    {
        if current[i].hash == *h {
            assert(tags_view(current@)[i as int].hash == h@);
            return true;
        }
        i = i + 1;
    }
    assert forall|j: int| 0 <= j < tags_view(current@).len() implies #[trigger] tags_view(
        current@,
    )[j].hash != h@ by {
        assert(current@[j].hash@ != h@);
    }
    false
}

/// Given the tags currently found in code, and what's known about existing
/// issues (keyed by hash), decide what needs to change: open an issue for each
/// tag with no record, close each open issue whose tag is gone. A closed
/// issue is never reopened.
pub fn diff(current: &[TrackedTag], existing: &IssueMap) -> (r: Vec<SyncAction>)
    ensures
        actions_view(r@) == spec_diff(tags_view(current@), existing.entries()),
        distinct_keys(existing.entries()),
{
    proof {
        use_type_invariant(existing);
    }
    let ghost cur = tags_view(current@);
    let mut actions: Vec<SyncAction> = Vec::new();
    let mut i: usize = 0;
    while i < current.len()
        invariant
            i <= current@.len(),
            cur == tags_view(current@),
            actions_view(actions@) == open_actions(cur.take(i as int), existing@),
        decreases current@.len() - i,
    {
        let ghost before = actions@;
        assert(cur.take(i + 1).drop_last() =~= cur.take(i as int));
        match existing.get(&current[i].hash) {
            None => {
                actions.push(SyncAction::Open(clone_tag(&current[i])));
                assert(actions_view(actions@) =~= actions_view(before).push(
                    ActionView::Open(cur[i as int]),
                ));
            },
            Some(_) => {},
        }
        i = i + 1;
    }
    assert(cur.take(current@.len() as int) =~= cur);
    let ghost opens = actions_view(actions@);
    let ghost es = existing.entries();
    let mut j: usize = 0;
    while j < existing.entries.len()
        invariant
            j <= existing.entries@.len(),
            cur == tags_view(current@),
            es == existing.entries(),
            actions_view(actions@) == opens + close_actions(es.take(j as int), cur),
        decreases existing.entries@.len() - j,
    {
        let ghost before = actions@;
        assert(es.take(j + 1).drop_last() =~= es.take(j as int));
        assert(es[j as int] == (existing.entries@[j as int].0@, existing.entries@[j as int].1));
        let (ref hash, issue) = existing.entries[j];
        match issue {
            ExistingIssue::Open(n) => {
                if !current_has_hash(current, hash) {
                    actions.push(SyncAction::Close { hash: hash.clone(), issue_number: n });
                    assert(actions_view(actions@) =~= actions_view(before).push(
                        ActionView::Close(hash@, n),
                    ));
                }
            },
            ExistingIssue::Closed(_) => {},
        }
        j = j + 1;
    }
    assert(es.take(existing.entries@.len() as int) =~= es);
    actions
}

} // verus!

verus! {

proof fn lemma_open_actions(cur: Seq<TagView>, known: Map<Seq<char>, ExistingIssue>, a: ActionView)
    ensures
        open_actions(cur, known).contains(a) <==> (match a {
            ActionView::Open(t) => cur.contains(t) && !known.contains_key(t.hash),
            ActionView::Close(_, _) => false,
        }),
    decreases cur.len(),
{
    if cur.len() > 0 {
        lemma_open_actions(cur.drop_last(), known, a);
        let rest = open_actions(cur.drop_last(), known);
        if let ActionView::Open(t) = a {
            if cur.contains(t) && !known.contains_key(t.hash) {
                let i = choose|i: int| 0 <= i < cur.len() && cur[i] == t;
                if i < cur.len() - 1 {
                    assert(cur.drop_last()[i] == t);
                } else {
                    assert(open_actions(cur, known).last() == a);
                }
            }
            if cur.drop_last().contains(t) {
                let i = choose|i: int| 0 <= i < cur.drop_last().len() && cur.drop_last()[i] == t;
                assert(cur[i] == t);
            }
        }
        if !known.contains_key(cur.last().hash) {
            assert(rest.push(ActionView::Open(cur.last())).contains(a) <==> (rest.contains(a) || a
                == ActionView::Open(cur.last()))) by {
                if rest.push(ActionView::Open(cur.last())).contains(a) {
                    let k = choose|k: int|
                        0 <= k < rest.len() + 1 && rest.push(ActionView::Open(cur.last()))[k] == a;
                    if k < rest.len() {
                        assert(rest[k] == a);
                    }
                }
                if rest.contains(a) {
                    let k = choose|k: int| 0 <= k < rest.len() && rest[k] == a;
                    assert(rest.push(ActionView::Open(cur.last()))[k] == a);
                }
            }
        }
    }
}

proof fn lemma_close_actions(
    es: Seq<(Seq<char>, ExistingIssue)>,
    cur: Seq<TagView>,
    a: ActionView,
)
    ensures
        close_actions(es, cur).contains(a) <==> (match a {
            ActionView::Open(_) => false,
            ActionView::Close(h, n) => es.contains((h, ExistingIssue::Open(n))) && !in_current(
                cur,
                h,
            ),
        }),
    decreases es.len(),
{
    if es.len() > 0 {
        lemma_close_actions(es.drop_last(), cur, a);
        let rest = close_actions(es.drop_last(), cur);
        if let ActionView::Close(h, n) = a {
            let e = (h, ExistingIssue::Open(n));
            if es.contains(e) {
                let i = choose|i: int| 0 <= i < es.len() && es[i] == e;
                if i < es.len() - 1 {
                    assert(es.drop_last()[i] == e);
                }
            }
            if es.drop_last().contains(e) {
                let i = choose|i: int| 0 <= i < es.drop_last().len() && es.drop_last()[i] == e;
                assert(es[i] == e);
            }
        }
        let full = close_actions(es, cur);
        if full != rest {
            let x = full.last();
            assert(full == rest.push(x));
            assert(full.contains(a) <==> (rest.contains(a) || a == x)) by {
                if full.contains(a) {
                    let k = choose|k: int| 0 <= k < full.len() && full[k] == a;
                    if k < rest.len() {
                        assert(rest[k] == a);
                    }
                }
                if rest.contains(a) {
                    let k = choose|k: int| 0 <= k < rest.len() && rest[k] == a;
                    assert(full[k] == a);
                }
            }
        }
    }
}

/// An issue is opened for a tag exactly when the tag is in the code and no
/// issue, open or closed, is on record for its hash: in particular an issue
/// that was closed is never reopened.
pub proof fn law_diff_opens_exactly_unrecorded_tags(
    cur: Seq<TagView>,
    es: Seq<(Seq<char>, ExistingIssue)>,
    t: TagView,
)
    ensures
        spec_diff(cur, es).contains(ActionView::Open(t)) <==> (cur.contains(t) && !map_of(
            es,
        ).contains_key(t.hash)),
{
    let a = ActionView::Open(t);
    let o = open_actions(cur, map_of(es));
    let c = close_actions(es, cur);
    lemma_open_actions(cur, map_of(es), a);
    lemma_close_actions(es, cur, a);
    lemma_seq_concat_contains(o, c, a);
}

/// An issue is closed exactly when it is on record as open and no tag in the
/// code has its hash: an issue that is already closed, or whose tag is still
/// in the code, is left alone.
pub proof fn law_diff_closes_exactly_stale_open_issues(
    cur: Seq<TagView>,
    es: Seq<(Seq<char>, ExistingIssue)>,
    h: Seq<char>,
    n: u64,
)
    ensures
        spec_diff(cur, es).contains(ActionView::Close(h, n)) <==> (es.contains(
            (h, ExistingIssue::Open(n)),
        ) && !in_current(cur, h)),
{
    let a = ActionView::Close(h, n);
    let o = open_actions(cur, map_of(es));
    let c = close_actions(es, cur);
    lemma_open_actions(cur, map_of(es), a);
    lemma_close_actions(es, cur, a);
    lemma_seq_concat_contains(o, c, a);
}

proof fn lemma_seq_concat_contains(a: Seq<ActionView>, b: Seq<ActionView>, x: ActionView)
    ensures
        (a + b).contains(x) <==> (a.contains(x) || b.contains(x)),
{
    if (a + b).contains(x) {
        let k = choose|k: int| 0 <= k < (a + b).len() && (a + b)[k] == x;
        if k < a.len() {
            assert(a[k] == x);
        } else {
            assert(b[k - a.len()] == x);
        }
    }
    if a.contains(x) {
        let k = choose|k: int| 0 <= k < a.len() && a[k] == x;
        assert((a + b)[k] == x);
    }
    if b.contains(x) {
        let k = choose|k: int| 0 <= k < b.len() && b[k] == x;
        assert((a + b)[k + a.len()] == x);
    }
}

/// The tracker is in sync with the code exactly when no action is due: every
/// tag in the code has an issue on record, and every issue on record as open
/// belongs to a tag still in the code.
pub proof fn law_diff_empty_exactly_when_in_sync(
    cur: Seq<TagView>,
    es: Seq<(Seq<char>, ExistingIssue)>,
)
    ensures
        spec_diff(cur, es).len() == 0 <==> (forall|i: int|
            0 <= i < cur.len() ==> map_of(es).contains_key(#[trigger] cur[i].hash)) && (forall|
            i: int,
        |
            0 <= i < es.len() && (#[trigger] es[i]).1 is Open ==> in_current(cur, es[i].0)),
{
    let d = spec_diff(cur, es);
    if d.len() == 0 {
        assert forall|i: int| 0 <= i < cur.len() implies map_of(es).contains_key(
            #[trigger] cur[i].hash,
        ) by {
            law_diff_opens_exactly_unrecorded_tags(cur, es, cur[i]);
            assert(cur.contains(cur[i]));
        }
        assert forall|i: int| 0 <= i < es.len() && (#[trigger] es[i]).1 is Open implies in_current(
            cur,
            es[i].0,
        ) by {
            let n = es[i].1->Open_0;
            law_diff_closes_exactly_stale_open_issues(cur, es, es[i].0, n);
            assert(es[i] == (es[i].0, ExistingIssue::Open(n)));
            assert(es.contains((es[i].0, ExistingIssue::Open(n))));
        }
    } else {
        let a = d[0];
        assert(d.contains(a));
        match a {
            ActionView::Open(t) => {
                law_diff_opens_exactly_unrecorded_tags(cur, es, t);
                let i = choose|i: int| 0 <= i < cur.len() && cur[i] == t;
                assert(!map_of(es).contains_key(cur[i].hash));
            },
            ActionView::Close(h, n) => {
                law_diff_closes_exactly_stale_open_issues(cur, es, h, n);
                let i = choose|i: int| 0 <= i < es.len() && es[i] == (h, ExistingIssue::Open(n));
                assert(es[i].1 is Open && !in_current(cur, es[i].0));
            },
        }
    }
}

} // verus!
