//! Finding the tags in the text of one file.

use vstd::prelude::*;
use crate::diff::tags_view;
use crate::hash::{compute_hash, spec_hash};
use crate::parse::{Kind, parse_tag_line, spec_parse_tag_line, TagView, TrackedTag};
use crate::text::{
    chars_of, find_char, find_char_exec, lemma_find_char_bounds, str_eq, string_of_range,
};

verus! {

#[verifier::external_type_specification]
#[verifier::external_body]
pub struct ExIoError(std::io::Error);

/// Why a file could not be scanned.
#[derive(Debug)]
pub enum ScanError {
    Io(std::io::Error),
    InvalidUtf8,
}

impl From<std::io::Error> for ScanError {
    fn from(err: std::io::Error) -> (r: ScanError) {
        ScanError::Io(err)
    }
}

impl vstd::std_specs::convert::FromSpecImpl<std::io::Error> for ScanError {
    open spec fn obeys_from_spec() -> bool {
        true
    }

    open spec fn from_spec(err: std::io::Error) -> ScanError {
        ScanError::Io(err)
    }
}

/// The spans of the lines of `s` from index `i` on, as `str::lines` yields
/// them: split after each `\n`, the `\n` and a `\r` just before it dropped,
/// and no empty line after a final `\n`.
pub open spec fn line_spans(s: Seq<char>, i: int) -> Seq<(int, int)>
    decreases s.len() - i,
{
    if i < 0 || i >= s.len() {
        seq![]
    } else {
        let j = find_char(s, i, s.len() as int, '\n');
        proof {
            lemma_find_char_bounds(s, i, s.len() as int, '\n');
        }
        if j >= s.len() {
            seq![(i, s.len() as int)]
        } else {
            let e = if j > i && s[j - 1] == '\r' {
                j - 1
            } else {
                j
            };
            seq![(i, e)] + line_spans(s, j + 1)
        }
    }
}

/// The tag that one line holds, if any, for a file at `file`, where the line
/// is line `number` of the file.
pub open spec fn tag_of_line(line: Seq<char>, file: Seq<char>, number: nat) -> Seq<TagView> {
    match spec_parse_tag_line(line) {
        None => seq![],
        Some((k, labels, message)) => seq![
            TagView {
                kind: k,
                labels: labels,
                message: message,
                file: file,
                line: number,
                hash: spec_hash(k, labels, message, file),
            },
        ],
    }
}

/// The tags of the lines of `s` whose spans are `spans`, in order, where the
/// first of these lines is line `first` of the file.
pub open spec fn tags_of_spans(
    s: Seq<char>,
    spans: Seq<(int, int)>,
    file: Seq<char>,
    first: nat,
) -> Seq<TagView>
    decreases spans.len(),
{
    if spans.len() == 0 {
        seq![]
    } else {
        tag_of_line(s.subrange(spans[0].0, spans[0].1), file, first) + tags_of_spans(
            s,
            spans.drop_first(),
            file,
            first + 1,
        )
    }
}

/// The number of lines of `s`, as `str::lines` counts them.
pub open spec fn line_count(s: Seq<char>) -> nat {
    line_spans(s, 0).len()
}

/// The tags found in the text of a file at `file`, in line order, with their
/// lines counted from 1.
pub open spec fn spec_scan_contents(s: Seq<char>, file: Seq<char>) -> Seq<TagView> {
    tags_of_spans(s, line_spans(s, 0), file, 1)
}

/// The tag on one line, if any, where `line` is line `number` of the file.
fn scan_line(line: &str, file: &str, number: usize) -> (r: Option<TrackedTag>)
    ensures
        match r {
            None => tag_of_line(line@, file@, number as nat) == Seq::<TagView>::empty(),
            Some(t) => tag_of_line(line@, file@, number as nat) == seq![t@],
        },
{
    match parse_tag_line(line) {
        None => None,
        Some((kind, labels, message)) => {
            let hash = compute_hash(&kind, labels.as_slice(), message.as_str(), file);
            Some(TrackedTag { kind, labels, message, file: file.to_owned(), line: number, hash })
        },
    }
}

/// All tags in the text of a file whose path, relative to the scanned root,
/// is `file`, in line order, each with the line it stands on.
#[verifier::spinoff_prover]
pub fn scan_contents(contents: &str, file: &str) -> (r: Vec<TrackedTag>)
    ensures
        tags_view(r@) == spec_scan_contents(contents@, file@),
{
    let s = chars_of(contents);
    let n = s.len();
    let mut out: Vec<TrackedTag> = Vec::new();
    let mut i: usize = 0;
    let mut count: usize = 0;
    while i < n
        invariant
            n == s@.len(),
            s@ == contents@,
            i <= n,
            count <= i,
            tags_view(out@) + tags_of_spans(s@, line_spans(s@, i as int), file@, (count + 1) as nat)
                == spec_scan_contents(s@, file@),
        decreases n - i,
    {
        let j = find_char_exec(&s, i, n, '\n');
        let e = if j < n && j > i && s[j - 1] == '\r' {
            j - 1
        } else {
            j
        };
        let line = string_of_range(&s, i, e);
        let ghost before = out@;
        let ghost spans = line_spans(s@, i as int);
        match scan_line(line.as_str(), file, count + 1) {
            None => {},
            Some(t) => {
                out.push(t);
            },
        }
        assert(tags_view(out@) =~= tags_view(before) + tag_of_line(
            s@.subrange(i as int, e as int),
            file@,
            (count + 1) as nat,
        ));
        if j >= n {
            assert(spans =~= seq![(i as int, n as int)]);
            assert(spans.drop_first() =~= Seq::<(int, int)>::empty());
            assert(tags_view(out@) + tags_of_spans(s@, line_spans(s@, n as int), file@, (count + 2) as nat)
                =~= tags_view(out@));
            i = n;
        } else {
            assert(spans.drop_first() =~= line_spans(s@, j + 1));
            i = j + 1;
        }
        count = count + 1;
    }
    assert(line_spans(s@, n as int) =~= Seq::<(int, int)>::empty());
    assert(tags_view(out@) + Seq::<TagView>::empty() =~= tags_view(out@));
    out
}

/// The tags of a file from the outcome of reading it: its tags if it was read,
/// the read error otherwise.
pub fn scan_file(read: Result<String, std::io::Error>, file: &str) -> (r: Result<
    Vec<TrackedTag>,
    ScanError,
>)
    ensures
        read is Ok <==> r is Ok,
        read matches Ok(contents) ==> r matches Ok(tags) && tags_view(tags@) == spec_scan_contents(
            contents@,
            file@,
        ),
        read matches Err(e) ==> r matches Err(ScanError::Io(e2)) && e2 == e,
{
    match read {
        Ok(contents) => Ok(scan_contents(contents.as_str(), file)),
        Err(e) => Err(ScanError::from(e)),
    }
}

} // verus!

verus! {

/// Directory and file names that a scan never enters.
pub open spec fn is_denylisted_name(name: Seq<char>) -> bool {
    ||| name == ".git"@
    ||| name == "node_modules"@
    ||| name == "target"@
    ||| name == "vendor"@
    ||| name == "dist"@
    ||| name == "build"@
}

/// Whether a scan skips an entry of this name (and all below it).
pub fn is_denylisted(name: &str) -> (r: bool)
    ensures
        r == is_denylisted_name(name@),
{
    str_eq(name, ".git") || str_eq(name, "node_modules") || str_eq(name, "target") || str_eq(
        name,
        "vendor",
    ) || str_eq(name, "dist") || str_eq(name, "build")
}

/// The names a scan skips are exactly these six: `.git`, `node_modules`,
/// `target`, `vendor`, `dist` and `build`; any other name is scanned.
pub proof fn law_denylist_is_exactly_six_names()
    ensures
        Set::new(|name: Seq<char>| is_denylisted_name(name)) == set![
            ".git"@,
            "node_modules"@,
            "target"@,
            "vendor"@,
            "dist"@,
            "build"@,
        ],
{
    assert(Set::new(|name: Seq<char>| is_denylisted_name(name)) =~= set![
        ".git"@,
        "node_modules"@,
        "target"@,
        "vendor"@,
        "dist"@,
        "build"@,
    ]);
}

} // verus!

verus! {

proof fn lemma_tags_of_spans_identity(
    s: Seq<char>,
    spans: Seq<(int, int)>,
    file: Seq<char>,
    first: nat,
)
    ensures
        forall|i: int|
            0 <= i < tags_of_spans(s, spans, file, first).len() ==> {
                let t = #[trigger] tags_of_spans(s, spans, file, first)[i];
                &&& t.file == file
                &&& t.line >= first
                &&& t.hash == spec_hash(t.kind, t.labels, t.message, file)
            },
    decreases spans.len(),
{
    if spans.len() > 0 {
        lemma_tags_of_spans_identity(s, spans.drop_first(), file, first + 1);
        let head = tag_of_line(s.subrange(spans[0].0, spans[0].1), file, first);
        let rest = tags_of_spans(s, spans.drop_first(), file, first + 1);
        let all = tags_of_spans(s, spans, file, first);
        assert forall|i: int| 0 <= i < all.len() implies {
            let t = #[trigger] all[i];
            &&& t.file == file
            &&& t.line >= first
            &&& t.hash == spec_hash(t.kind, t.labels, t.message, file)
        } by {
            if i >= head.len() {
                assert(all[i] == rest[i - head.len()]);
            }
        }
    }
}

/// A tag's identity comes from its kind, labels, message and file alone (not
/// from the line it stands on): every tag found in a file carries that file,
/// a line counted from 1, and the hash of those fields.
pub proof fn law_scanned_tag_identity_is_its_fields(contents: Seq<char>, file: Seq<char>)
    ensures
        forall|i: int|
            0 <= i < spec_scan_contents(contents, file).len() ==> {
                let t = #[trigger] spec_scan_contents(contents, file)[i];
                &&& t.file == file
                &&& t.line >= 1
                &&& t.hash == spec_hash(t.kind, t.labels, t.message, file)
            },
{
    lemma_tags_of_spans_identity(contents, line_spans(contents, 0), file, 1);
}

/// The tags found from index `i` on, where the line at `i` is line `first`.
pub open spec fn tags_from(s: Seq<char>, i: int, file: Seq<char>, first: nat) -> Seq<TagView> {
    tags_of_spans(s, line_spans(s, i), file, first)
}

/// The same tag, `d` lines further down.
pub open spec fn moved_down(t: TagView, d: nat) -> TagView {
    TagView {
        kind: t.kind,
        labels: t.labels,
        message: t.message,
        file: t.file,
        line: t.line + d,
        hash: t.hash,
    }
}

/// The same tags, each `d` lines further down.
pub open spec fn shift_lines(ts: Seq<TagView>, d: nat) -> Seq<TagView> {
    ts.map_values(|t: TagView| moved_down(t, d))
}

/// What identifies a tag, all but its line.
pub open spec fn identity(t: TagView) -> (Kind, Seq<Seq<char>>, Seq<char>, Seq<char>, Seq<char>) {
    (t.kind, t.labels, t.message, t.file, t.hash)
}

pub open spec fn identities(ts: Seq<TagView>) -> Seq<(Kind, Seq<Seq<char>>, Seq<char>, Seq<char>, Seq<char>)> {
    ts.map_values(|t: TagView| identity(t))
}

proof fn lemma_tags_of_spans_shift(
    s: Seq<char>,
    spans: Seq<(int, int)>,
    file: Seq<char>,
    first: nat,
    d: nat,
)
    ensures
        tags_of_spans(s, spans, file, first + d) == shift_lines(tags_of_spans(s, spans, file, first), d),
    decreases spans.len(),
{
    if spans.len() == 0 {
        assert(shift_lines(Seq::<TagView>::empty(), d) =~= Seq::<TagView>::empty());
    } else {
        lemma_tags_of_spans_shift(s, spans.drop_first(), file, first + 1, d);
        let line = s.subrange(spans[0].0, spans[0].1);
        let h0 = tag_of_line(line, file, first);
        let h1 = tag_of_line(line, file, first + d);
        let r0 = tags_of_spans(s, spans.drop_first(), file, first + 1);
        assert(h1 =~= shift_lines(h0, d));
        assert(first + d + 1 == (first + 1) + d);
        assert(shift_lines(h0 + r0, d) =~= shift_lines(h0, d) + shift_lines(r0, d));
    }
}

proof fn lemma_find_char_shift(a: Seq<char>, b: Seq<char>, j: int, c: char)
    requires
        0 <= j <= b.len(),
    ensures
        find_char(a + b, a.len() + j, (a.len() + b.len()) as int, c) == a.len() + find_char(
            b,
            j,
            b.len() as int,
            c,
        ),
    decreases b.len() - j,
{
    if j < b.len() {
        assert((a + b)[a.len() + j] == b[j]);
        if b[j] != c {
            lemma_find_char_shift(a, b, j + 1, c);
        }
    }
}

proof fn lemma_tags_from_shift(a: Seq<char>, b: Seq<char>, j: int, file: Seq<char>, first: nat)
    requires
        0 <= j <= b.len(),
    ensures
        tags_from(a + b, a.len() + j, file, first) == tags_from(b, j, file, first),
    decreases b.len() - j,
{
    let s = a + b;
    let n = s.len() as int;
    let i = a.len() + j;
    if j < b.len() {
        lemma_find_char_shift(a, b, j, '\n');
        lemma_find_char_bounds(b, j, b.len() as int, '\n');
        let jb = find_char(b, j, b.len() as int, '\n');
        let js = find_char(s, i, n, '\n');
        assert(js == a.len() + jb);
        if jb < b.len() {
            lemma_tags_from_shift(a, b, jb + 1, file, first + 1);
            let eb = if jb > j && b[jb - 1] == '\r' { jb - 1 } else { jb };
            if jb > j {
                assert(s[js - 1] == b[jb - 1]);
            }
            assert(s.subrange(i, a.len() + eb) =~= b.subrange(j, eb));
            assert(line_spans(s, i) == seq![(i, a.len() + eb)] + line_spans(s, js + 1));
            assert(line_spans(b, j) == seq![(j, eb)] + line_spans(b, jb + 1));
            assert((seq![(i, a.len() + eb)] + line_spans(s, js + 1)).drop_first() =~= line_spans(s, js + 1));
            assert((seq![(j, eb)] + line_spans(b, jb + 1)).drop_first() =~= line_spans(b, jb + 1));
            let head = tag_of_line(b.subrange(j, eb), file, first);
            assert(tags_from(s, i, file, first) == head + tags_from(s, js + 1, file, first + 1));
            assert(tags_from(b, j, file, first) == head + tags_from(b, jb + 1, file, first + 1));
        } else {
            assert(s.subrange(i, n) =~= b.subrange(j, b.len() as int));
            assert(line_spans(s, i) == seq![(i, n)]);
            assert(line_spans(b, j) == seq![(j, b.len() as int)]);
            assert(seq![(i, n)].drop_first() =~= Seq::<(int, int)>::empty());
            assert(seq![(j, b.len() as int)].drop_first() =~= Seq::<(int, int)>::empty());
            let head = tag_of_line(b.subrange(j, b.len() as int), file, first);
            assert(tags_of_spans(s, Seq::<(int, int)>::empty(), file, first + 1) == Seq::<TagView>::empty());
            assert(tags_of_spans(b, Seq::<(int, int)>::empty(), file, first + 1) == Seq::<TagView>::empty());
            assert(head + Seq::<TagView>::empty() =~= head);
            assert(tags_from(s, i, file, first) == head + Seq::<TagView>::empty());
            assert(tags_from(b, j, file, first) == head + Seq::<TagView>::empty());
        }
    } else {
        assert(line_spans(s, i) == Seq::<(int, int)>::empty());
        assert(line_spans(b, j) == Seq::<(int, int)>::empty());
    }
}

proof fn lemma_find_char_prefix(a: Seq<char>, b: Seq<char>, i: int, c: char)
    requires
        0 <= i <= a.len(),
        find_char(a, i, a.len() as int, c) < a.len(),
    ensures
        find_char(a + b, i, (a.len() + b.len()) as int, c) == find_char(a, i, a.len() as int, c),
    decreases a.len() - i,
{
    assert((a + b)[i] == a[i]);
    if a[i] != c {
        lemma_find_char_prefix(a, b, i + 1, c);
    }
}

proof fn lemma_tags_from_prefix(a: Seq<char>, b: Seq<char>, i: int, file: Seq<char>, first: nat)
    requires
        0 <= i <= a.len(),
        a.len() == 0 || a.last() == '\n',
    ensures
        tags_from(a + b, i, file, first) == tags_from(a, i, file, first) + tags_from(
            b,
            0,
            file,
            first + line_spans(a, i).len(),
        ),
    decreases a.len() - i,
{
    let s = a + b;
    let n = s.len() as int;
    if i == a.len() {
        lemma_tags_from_shift(a, b, 0, file, first);
        assert(line_spans(a, i) == Seq::<(int, int)>::empty());
        assert(tags_from(a, i, file, first) =~= Seq::<TagView>::empty());
        assert(tags_from(a + b, i, file, first) =~= tags_from(a, i, file, first) + tags_from(
            b,
            0,
            file,
            first + line_spans(a, i).len(),
        ));
    } else {
        lemma_find_char_bounds(a, i, a.len() as int, '\n');
        let ja = find_char(a, i, a.len() as int, '\n');
        if ja == a.len() {
            assert(a[a.len() - 1] == '\n');
            assert(false);
        }
        lemma_find_char_prefix(a, b, i, '\n');
        assert(find_char(s, i, n, '\n') == ja);
        lemma_tags_from_prefix(a, b, ja + 1, file, first + 1);
        let e = if ja > i && a[ja - 1] == '\r' { ja - 1 } else { ja };
        if ja > i {
            assert(s[ja - 1] == a[ja - 1]);
        }
        assert(s.subrange(i, e) =~= a.subrange(i, e));
        assert(line_spans(s, i) == seq![(i, e)] + line_spans(s, ja + 1));
        assert(line_spans(a, i) == seq![(i, e)] + line_spans(a, ja + 1));
        assert(line_spans(a, i).len() == 1 + line_spans(a, ja + 1).len());
        assert((seq![(i, e)] + line_spans(s, ja + 1)).drop_first() =~= line_spans(s, ja + 1));
        assert((seq![(i, e)] + line_spans(a, ja + 1)).drop_first() =~= line_spans(a, ja + 1));
        let head = tag_of_line(a.subrange(i, e), file, first);
        assert(tags_from(s, i, file, first) == head + tags_from(s, ja + 1, file, first + 1));
        assert(tags_from(a, i, file, first) == head + tags_from(a, ja + 1, file, first + 1));
        assert(first + 1 + line_spans(a, ja + 1).len() == first + line_spans(a, i).len());
        assert(tags_from(s, i, file, first) =~= tags_from(a, i, file, first) + tags_from(
            b,
            0,
            file,
            first + line_spans(a, i).len(),
        ));
    }
}

/// The tags of a block of whole lines do not depend on what stands around
/// it: the tags of `a` followed by `b`, where `a` ends a line, are the tags of
/// `a` then those of `b`, each moved down by the number of lines of `a`.
pub proof fn law_scan_of_concatenation(a: Seq<char>, b: Seq<char>, file: Seq<char>)
    requires
        a.len() == 0 || a.last() == '\n',
    ensures
        spec_scan_contents(a + b, file) == spec_scan_contents(a, file) + shift_lines(
            spec_scan_contents(b, file),
            line_count(a),
        ),
{
    lemma_tags_from_prefix(a, b, 0, file, 1);
    lemma_tags_of_spans_shift(b, line_spans(b, 0), file, 1, line_count(a));
    assert(1 + line_count(a) == line_count(a) + 1);
}

proof fn lemma_identities_concat(p: Seq<TagView>, q: Seq<TagView>)
    ensures
        identities(p + q) == identities(p) + identities(q),
{
    assert(identities(p + q) =~= identities(p) + identities(q));
}

/// The lines of `s`, as `str::lines` yields them.
pub open spec fn lines_of(s: Seq<char>) -> Seq<Seq<char>> {
    line_spans(s, 0).map_values(|sp: (int, int)| s.subrange(sp.0, sp.1))
}

/// The identity of the tag that one line holds, if it holds one (the same on
/// whatever line of the file it stands).
pub open spec fn line_identities(line: Seq<char>, file: Seq<char>) -> Seq<
    (Kind, Seq<Seq<char>>, Seq<char>, Seq<char>, Seq<char>),
> {
    identities(tag_of_line(line, file, 1))
}

/// The identities of the tags that the lines `ls` hold, in order.
pub open spec fn identities_of_lines(ls: Seq<Seq<char>>, file: Seq<char>) -> Seq<
    (Kind, Seq<Seq<char>>, Seq<char>, Seq<char>, Seq<char>),
>
    decreases ls.len(),
{
    if ls.len() == 0 {
        seq![]
    } else {
        identities_of_lines(ls.drop_last(), file) + line_identities(ls.last(), file)
    }
}

proof fn lemma_identities_of_lines_concat(a: Seq<Seq<char>>, b: Seq<Seq<char>>, file: Seq<char>)
    ensures
        identities_of_lines(a + b, file) == identities_of_lines(a, file) + identities_of_lines(
            b,
            file,
        ),
    decreases b.len(),
{
    if b.len() == 0 {
        assert(a + b =~= a);
        assert(identities_of_lines(a, file) + identities_of_lines(b, file) =~= identities_of_lines(
            a,
            file,
        ));
    } else {
        lemma_identities_of_lines_concat(a, b.drop_last(), file);
        assert((a + b).drop_last() =~= a + b.drop_last());
        assert((a + b).last() == b.last());
        assert(identities_of_lines(a + b, file) =~= identities_of_lines(a, file)
            + identities_of_lines(b, file));
    }
}

proof fn lemma_tag_of_line_identities(line: Seq<char>, file: Seq<char>, number: nat)
    ensures
        identities(tag_of_line(line, file, number)) == line_identities(line, file),
{
    assert(identities(tag_of_line(line, file, number)) =~= line_identities(line, file));
}

proof fn lemma_identities_of_one_line(l: Seq<char>, file: Seq<char>)
    ensures
        identities_of_lines(seq![l], file) == line_identities(l, file),
{
    assert(seq![l].drop_last() =~= Seq::<Seq<char>>::empty());
    assert(seq![l].last() == l);
    assert(identities_of_lines(Seq::<Seq<char>>::empty(), file) =~= Seq::<
        (Kind, Seq<Seq<char>>, Seq<char>, Seq<char>, Seq<char>),
    >::empty());
    assert(identities_of_lines(seq![l], file) =~= line_identities(l, file));
}

/// The identities of the tags of the lines at `spans` are those of the lines
/// themselves, whatever line the first of them is.
proof fn lemma_tags_of_spans_identities(
    s: Seq<char>,
    spans: Seq<(int, int)>,
    file: Seq<char>,
    first: nat,
)
    ensures
        identities(tags_of_spans(s, spans, file, first)) == identities_of_lines(
            spans.map_values(|sp: (int, int)| s.subrange(sp.0, sp.1)),
            file,
        ),
    decreases spans.len(),
{
    let ls = spans.map_values(|sp: (int, int)| s.subrange(sp.0, sp.1));
    if spans.len() == 0 {
        assert(identities(Seq::<TagView>::empty()) =~= Seq::<
            (Kind, Seq<Seq<char>>, Seq<char>, Seq<char>, Seq<char>),
        >::empty());
    } else {
        lemma_tags_of_spans_identities(s, spans.drop_first(), file, first + 1);
        let head = tag_of_line(s.subrange(spans[0].0, spans[0].1), file, first);
        let rest = tags_of_spans(s, spans.drop_first(), file, first + 1);
        lemma_identities_concat(head, rest);
        lemma_tag_of_line_identities(s.subrange(spans[0].0, spans[0].1), file, first);
        let rest_lines = spans.drop_first().map_values(|sp: (int, int)| s.subrange(sp.0, sp.1));
        assert(ls =~= seq![ls[0]] + rest_lines);
        lemma_identities_of_lines_concat(seq![ls[0]], rest_lines, file);
        lemma_identities_of_one_line(ls[0], file);
    }
}

/// The identities of the tags of a file are those of its lines.
proof fn lemma_scan_identities(s: Seq<char>, file: Seq<char>)
    ensures
        identities(spec_scan_contents(s, file)) == identities_of_lines(lines_of(s), file),
{
    lemma_tags_of_spans_identities(s, line_spans(s, 0), file, 1);
}

/// Taking out the line at `k` takes out its tag identities and no others.
proof fn lemma_identities_remove_line(ls: Seq<Seq<char>>, k: int, file: Seq<char>)
    requires
        0 <= k < ls.len(),
    ensures
        identities_of_lines(ls, file).to_multiset() == identities_of_lines(
            ls.remove(k),
            file,
        ).to_multiset().add(line_identities(ls[k], file).to_multiset()),
{
    broadcast use vstd::multiset::group_multiset_axioms;
    broadcast use vstd::seq_lib::lemma_multiset_commutative;

    let p = ls.take(k);
    let q = ls.skip(k + 1);
    let l = ls[k];
    assert(ls =~= p + seq![l] + q);
    assert(ls.remove(k) =~= p + q);
    lemma_identities_of_lines_concat(p + seq![l], q, file);
    lemma_identities_of_lines_concat(p, seq![l], file);
    lemma_identities_of_lines_concat(p, q, file);
    lemma_identities_of_one_line(l, file);
    let ip = identities_of_lines(p, file);
    let iq = identities_of_lines(q, file);
    let il = line_identities(l, file);
    assert(identities_of_lines(ls, file) == ip + il + iq);
    assert(identities_of_lines(ls.remove(k), file) == ip + iq);
    assert((ip + il + iq).to_multiset() =~= (ip + iq).to_multiset().add(il.to_multiset()));
}

/// Lines that are the same up to order hold the same tag identities, each as
/// often.
proof fn lemma_permuted_lines_identities(ls1: Seq<Seq<char>>, ls2: Seq<Seq<char>>, file: Seq<char>)
    requires
        ls1.to_multiset() == ls2.to_multiset(),
    ensures
        identities_of_lines(ls1, file).to_multiset() == identities_of_lines(ls2, file).to_multiset(),
    decreases ls1.len(),
{
    vstd::seq_lib::to_multiset_len(ls1);
    vstd::seq_lib::to_multiset_len(ls2);
    if ls1.len() == 0 {
        assert(ls2.len() == 0);
        assert(ls1 =~= ls2);
    } else {
        let j = ls1.len() - 1;
        let l = ls1[j];
        assert(ls1.contains(l));
        vstd::seq_lib::to_multiset_contains(ls1, l);
        vstd::seq_lib::to_multiset_contains(ls2, l);
        assert(ls2.contains(l));
        let k = choose|k: int| 0 <= k < ls2.len() && ls2[k] == l;
        vstd::seq_lib::to_multiset_remove(ls1, j);
        vstd::seq_lib::to_multiset_remove(ls2, k);
        assert(ls1.remove(j).to_multiset() == ls1.to_multiset().remove(l));
        assert(ls2.remove(k).to_multiset() == ls2.to_multiset().remove(l));
        lemma_permuted_lines_identities(ls1.remove(j), ls2.remove(k), file);
        lemma_identities_remove_line(ls1, j, file);
        lemma_identities_remove_line(ls2, k, file);
    }
}

/// Moving tagged lines within a file changes no tag's identity: two texts of
/// a file whose lines are the same up to order (any moves of any lines,
/// the last line included, with or without a final line feed) hold the same
/// tags but for their line numbers, each as often. So a moved tag neither
/// closes its issue nor opens a new one.
pub proof fn law_moving_lines_keeps_tag_identities(s1: Seq<char>, s2: Seq<char>, file: Seq<char>)
    requires
        lines_of(s1).to_multiset() == lines_of(s2).to_multiset(),
    ensures
        identities(spec_scan_contents(s1, file)).to_multiset() == identities(
            spec_scan_contents(s2, file),
        ).to_multiset(),
{
    lemma_scan_identities(s1, file);
    lemma_scan_identities(s2, file);
    lemma_permuted_lines_identities(lines_of(s1), lines_of(s2), file);
}

/// The lines at `spans` of `s`.
pub open spec fn lines_at(s: Seq<char>, spans: Seq<(int, int)>) -> Seq<Seq<char>> {
    spans.map_values(|sp: (int, int)| s.subrange(sp.0, sp.1))
}

proof fn lemma_lines_at_drop_first(s: Seq<char>, spans: Seq<(int, int)>)
    requires
        spans.len() > 0,
    ensures
        lines_at(s, spans).len() == spans.len(),
        lines_at(s, spans)[0] == s.subrange(spans[0].0, spans[0].1),
        lines_at(s, spans.drop_first()) == lines_at(s, spans).drop_first(),
{
    assert(lines_at(s, spans.drop_first()) =~= lines_at(s, spans).drop_first());
}

proof fn lemma_tags_of_spans_fields(s: Seq<char>, spans: Seq<(int, int)>, file: Seq<char>, first: nat)
    ensures
        forall|i: int|
            0 <= i < tags_of_spans(s, spans, file, first).len() ==> {
                let t = #[trigger] tags_of_spans(s, spans, file, first)[i];
                &&& first <= t.line < first + spans.len()
                &&& spec_parse_tag_line(lines_at(s, spans)[t.line - first]) == Some(
                    (t.kind, t.labels, t.message),
                )
                &&& t.file == file
                &&& t.hash == spec_hash(t.kind, t.labels, t.message, file)
            },
    decreases spans.len(),
{
    if spans.len() > 0 {
        lemma_tags_of_spans_fields(s, spans.drop_first(), file, first + 1);
        lemma_lines_at_drop_first(s, spans);
        let ts = tags_of_spans(s, spans, file, first);
        let ls = lines_at(s, spans);
        let head = tag_of_line(s.subrange(spans[0].0, spans[0].1), file, first);
        let rest = tags_of_spans(s, spans.drop_first(), file, first + 1);
        let rls = lines_at(s, spans.drop_first());
        assert forall|i: int| 0 <= i < ts.len() implies {
            let t = #[trigger] ts[i];
            &&& first <= t.line < first + spans.len()
            &&& spec_parse_tag_line(ls[t.line - first]) == Some((t.kind, t.labels, t.message))
            &&& t.file == file
            &&& t.hash == spec_hash(t.kind, t.labels, t.message, file)
        } by {
            if i >= head.len() {
                let t = rest[i - head.len()];
                assert(ts[i] == t);
                assert(rls[t.line - (first + 1)] == ls[t.line - first]);
            }
        }
    }
}

proof fn lemma_tags_of_spans_ordered(s: Seq<char>, spans: Seq<(int, int)>, file: Seq<char>, first: nat)
    ensures
        forall|i: int, j: int|
            0 <= i < j < tags_of_spans(s, spans, file, first).len() ==> (#[trigger] tags_of_spans(
                s,
                spans,
                file,
                first,
            )[i]).line < (#[trigger] tags_of_spans(s, spans, file, first)[j]).line,
    decreases spans.len(),
{
    if spans.len() > 0 {
        lemma_tags_of_spans_ordered(s, spans.drop_first(), file, first + 1);
        lemma_tags_of_spans_fields(s, spans.drop_first(), file, first + 1);
        let ts = tags_of_spans(s, spans, file, first);
        let head = tag_of_line(s.subrange(spans[0].0, spans[0].1), file, first);
        let rest = tags_of_spans(s, spans.drop_first(), file, first + 1);
        assert forall|i: int, j: int| 0 <= i < j < ts.len() implies (#[trigger] ts[i]).line < (
        #[trigger] ts[j]).line by {
            if i >= head.len() {
                assert(ts[i] == rest[i - head.len()]);
            }
            assert(ts[j] == rest[j - head.len()]);
            assert(rest[j - head.len()].line >= first + 1);
        }
    }
}

proof fn lemma_tags_of_spans_complete(s: Seq<char>, spans: Seq<(int, int)>, file: Seq<char>, first: nat)
    ensures
        forall|k: int|
            0 <= k < spans.len() && (#[trigger] spec_parse_tag_line(lines_at(s, spans)[k])) is Some
                ==> exists|i: int|
                0 <= i < tags_of_spans(s, spans, file, first).len() && (#[trigger] tags_of_spans(
                    s,
                    spans,
                    file,
                    first,
                )[i]).line == first + k,
    decreases spans.len(),
{
    if spans.len() > 0 {
        lemma_tags_of_spans_complete(s, spans.drop_first(), file, first + 1);
        lemma_lines_at_drop_first(s, spans);
        let ts = tags_of_spans(s, spans, file, first);
        let ls = lines_at(s, spans);
        let head = tag_of_line(s.subrange(spans[0].0, spans[0].1), file, first);
        let rest = tags_of_spans(s, spans.drop_first(), file, first + 1);
        let rls = lines_at(s, spans.drop_first());
        assert forall|k: int| 0 <= k < spans.len() && (#[trigger] spec_parse_tag_line(ls[k])) is Some implies exists|
            i: int,
        | 0 <= i < ts.len() && (#[trigger] ts[i]).line == first + k by {
            if k == 0 {
                assert(ts[0] == head[0]);
            } else {
                assert(rls[k - 1] == ls[k]);
                assert(spec_parse_tag_line(rls[k - 1]) is Some);
                let i = choose|i: int| 0 <= i < rest.len() && (#[trigger] rest[i]).line == first + 1
                    + (k - 1);
                assert(ts[i + head.len()] == rest[i]);
            }
        }
    }
}

/// The tags of a file are exactly its lines that parse as tagged comments, in
/// order: each tag stands on a line of the file (counted from 1), carries the
/// kind, labels and message that parsing that line gives, the file, and the
/// hash of those fields; tags come in strictly increasing line order; and every
/// line that parses as a tagged comment gives a tag.
pub proof fn law_scanned_tags_are_the_parsed_lines(s: Seq<char>, file: Seq<char>)
    ensures
        ({
            let ts = spec_scan_contents(s, file);
            let ls = lines_of(s);
            &&& forall|i: int|
                0 <= i < ts.len() ==> {
                    let t = #[trigger] ts[i];
                    &&& 1 <= t.line <= ls.len()
                    &&& spec_parse_tag_line(ls[t.line - 1]) == Some((t.kind, t.labels, t.message))
                    &&& t.file == file
                    &&& t.hash == spec_hash(t.kind, t.labels, t.message, file)
                }
            &&& forall|i: int, j: int|
                0 <= i < j < ts.len() ==> (#[trigger] ts[i]).line < (#[trigger] ts[j]).line
            &&& forall|k: int|
                0 <= k < ls.len() && (#[trigger] spec_parse_tag_line(ls[k])) is Some ==> exists|
                    i: int,
                | 0 <= i < ts.len() && (#[trigger] ts[i]).line == k + 1
        }),
{
    let spans = line_spans(s, 0);
    assert(lines_of(s) == lines_at(s, spans));
    lemma_tags_of_spans_fields(s, spans, file, 1);
    lemma_tags_of_spans_ordered(s, spans, file, 1);
    lemma_tags_of_spans_complete(s, spans, file, 1);
}

} // verus!
