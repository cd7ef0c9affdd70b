//! What the issue tracker is told: label colours and descriptions, the labels
//! and body of a new issue, and how an issue's state reads back.

use vstd::prelude::*;
use crate::diff::ExistingIssue;
use crate::parse::{Kind, TrackedTag, keyword_at, strings_view};
use crate::text::{decimal, push_decimal, str_eq};

verus! {

/// The name of the label that marks issues managed by the bot.
pub const BOT_LABEL: &'static str = "anko";

/// The colour given to a label of this name when it is created.
pub open spec fn spec_label_colour(name: Seq<char>) -> Seq<char> {
    if name == "todo"@ {
        "6f42c1"@
    } else if name == "bug"@ {
        "d73a4a"@
    } else if name == "depr"@ {
        "6a737d"@
    } else if name == "anko"@ {
        "672422"@
    } else {
        "ededed"@
    }
}

/// The description given to a label of this name when it is created.
pub open spec fn spec_label_description(name: Seq<char>) -> Seq<char> {
    if name == "todo"@ {
        "Tasks that need to be completed"@
    } else if name == "bug"@ {
        "Something isn't working"@
    } else if name == "depr"@ {
        "Code or functionality that should no longer be used"@
    } else if name == "anko"@ {
        "Issues automatically created or managed by Anko"@
    } else {
        ""@
    }
}

pub fn label_colour(name: &str) -> (r: &'static str)
    ensures
        r@ == spec_label_colour(name@),
{
    if str_eq(name, "todo") {
        "6f42c1"
    } else if str_eq(name, "bug") {
        "d73a4a"
    } else if str_eq(name, "depr") {
        "6a737d"
    } else if str_eq(name, "anko") {
        "672422"
    } else {
        "ededed"
    }
}

pub fn label_description(name: &str) -> (r: &'static str)
    ensures
        r@ == spec_label_description(name@),
{
    if str_eq(name, "todo") {
        "Tasks that need to be completed"
    } else if str_eq(name, "bug") {
        "Something isn't working"
    } else if str_eq(name, "depr") {
        "Code or functionality that should no longer be used"
    } else if str_eq(name, "anko") {
        "Issues automatically created or managed by Anko"
    } else {
        ""
    }
}

/// The label of a kind of tag.
pub open spec fn spec_kind_label(k: Kind) -> Seq<char> {
    match k {
        Kind::Todo => "todo"@,
        Kind::Bug => "bug"@,
        Kind::Depr => "depr"@,
    }
}

pub fn kind_label(k: Kind) -> (r: &'static str)
    ensures
        r@ == spec_kind_label(k),
{
    match k {
        Kind::Todo => "todo",
        Kind::Bug => "bug",
        Kind::Depr => "depr",
    }
}

/// The labels of the issue opened for a tag: its own labels, then its kind's
/// label, then the bot's label.
pub fn issue_labels(tag: &TrackedTag) -> (r: Vec<String>)
    ensures
        strings_view(r@) == tag@.labels.push(spec_kind_label(tag.kind)).push("anko"@),
{
    let mut labels: Vec<String> = Vec::new();
    let mut i: usize = 0;
    while i < tag.labels.len()
        invariant
            i <= tag.labels@.len(),
            labels@.len() == i,
            forall|k: int| 0 <= k < i ==> #[trigger] labels@[k]@ == tag.labels@[k]@,
        decreases tag.labels@.len() - i,
    {
        labels.push(tag.labels[i].clone());
        i = i + 1;
    }
    labels.push(kind_label(tag.kind).to_owned());
    labels.push(BOT_LABEL.to_owned());
    assert(strings_view(labels@) =~= tag@.labels.push(spec_kind_label(tag.kind)).push("anko"@));
    labels
}

/// The body of the issue opened for a tag: where it was found, as
/// `file:line`, and its kind.
pub open spec fn spec_issue_body(t: crate::parse::TagView) -> Seq<char> {
    "Found in: `"@ + t.file + ":"@ + decimal(t.line) + "`\n\n`"@ + spec_kind_label(t.kind)
        + "` detected by anko.\n"@
}

pub fn issue_body(tag: &TrackedTag) -> (r: String)
    ensures
        r@ == spec_issue_body(tag@),
{
    let mut body = String::new();
    body.append("Found in: `");
    body.append(tag.file.as_str());
    body.append(":");
    push_decimal(&mut body, tag.line);
    body.append("`\n\n`");
    body.append(kind_label(tag.kind));
    body.append("` detected by anko.\n");
    body
}

/// The state of an issue as the tracker reports it.
#[derive(Debug, Clone, Copy, PartialEq, Eq, Structural)]
pub enum IssueStatus {
    Open,
    Closed,
    Other,
}

/// What is known of an issue from its state and number: an issue in a state
/// other than open or closed counts as open.
pub fn existing_from_status(status: IssueStatus, number: u64) -> (r: ExistingIssue)
    ensures
        r == (match status {
            IssueStatus::Closed => ExistingIssue::Closed(number),
            _ => ExistingIssue::Open(number),
        }),
{
    match status {
        IssueStatus::Open => ExistingIssue::Open(number),
        IssueStatus::Closed => ExistingIssue::Closed(number),
        IssueStatus::Other => ExistingIssue::Open(number),
    }
}

/// `s` with each ASCII lower-case letter made upper-case.
pub open spec fn ascii_upper(s: Seq<char>) -> Seq<char> {
    s.map_values(
        |c: char|
            if 'a' <= c <= 'z' {
                ((c as u32) - 32) as char
            } else {
                c
            },
    )
}

/// The label of each kind of tag: `todo`, `bug` and `depr`.
pub proof fn law_kind_labels()
    ensures
        spec_kind_label(Kind::Todo) == "todo"@,
        spec_kind_label(Kind::Bug) == "bug"@,
        spec_kind_label(Kind::Depr) == "depr"@,
{
}

/// A kind's label names that kind: written in upper case it is the keyword
/// that a tagged comment of that kind starts with, read back as that kind.
/// So no two kinds share a label.
pub proof fn law_kind_label_names_its_kind(k: Kind, k2: Kind)
    ensures
        keyword_at(ascii_upper(spec_kind_label(k)), 0) == Some(
            (k, spec_kind_label(k).len() as int),
        ),
        k != k2 ==> spec_kind_label(k) != spec_kind_label(k2),
{
    reveal_strlit("todo");
    reveal_strlit("bug");
    reveal_strlit("depr");
    let l = spec_kind_label(k);
    let u = ascii_upper(l);
    assert(u.len() == l.len());
    match k {
        Kind::Todo => {
            assert(u =~= seq!['T', 'O', 'D', 'O']);
        },
        Kind::Bug => {
            assert(u =~= seq!['B', 'U', 'G']);
        },
        Kind::Depr => {
            assert(u =~= seq!['D', 'E', 'P', 'R']);
        },
    }
    if k != k2 {
        let l2 = spec_kind_label(k2);
        if l == l2 {
            match (k, k2) {
                (Kind::Todo, _) => assert(l[0] != l2[0] || l.len() != l2.len()),
                (Kind::Bug, _) => assert(l[0] != l2[0]),
                (Kind::Depr, _) => assert(l[0] != l2[0] || l.len() != l2.len()),
            }
        }
    }
}

} // verus!
