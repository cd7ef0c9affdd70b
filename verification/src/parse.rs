//! Recognising one source line as a tagged comment.
//!
//! Two shapes are accepted (`\s` is Unicode whitespace, `.` any character
//! but a line feed):
//!
//! * line comments: `\s* (// | #) \s* KIND \s* ( "(" LABELS ")" )? \s* : \s* (.+)` to the end;
//! * block comments: `\s* "(*" \s* KIND \s* ( "(" LABELS ")" )? \s* : \s* (.+?) \s* "*)" \s*` to the end,
//!
//! where `KIND` is `TODO`, `BUG` or `DEPR` and `LABELS` holds no `)`.
//! Labels are split on `,` and trimmed; the message is trimmed.

use vstd::prelude::*;
use vstd::string::StrSliceExecFns;
use crate::text::{
    chars_of, find_char, find_char_exec, is_ws, lemma_find_char_bounds, lemma_skip_ws_back_bounds,
    lemma_skip_ws_bounds, no_newline,
    no_newline_exec, skip_ws, skip_ws_back, skip_ws_back_exec, skip_ws_exec, trim_range,
};

verus! {

/// The kind of a tagged comment.
#[derive(Debug, Clone, Copy, PartialEq, Eq, Structural)]
pub enum Kind {
    Todo,
    Bug,
    Depr,
}

/// A tag found in the code, with the hash that identifies it across scans.
#[derive(Debug, Clone, PartialEq, Eq)]
pub struct TrackedTag {
    pub kind: Kind,
    pub labels: Vec<String>,
    pub message: String,
    pub file: String,
    /// The line the tag stands on, counted from 1.
    pub line: usize,
    pub hash: String,
}

/// What a `TrackedTag` holds, as plain values.
pub struct TagView {
    pub kind: Kind,
    pub labels: Seq<Seq<char>>,
    pub message: Seq<char>,
    pub file: Seq<char>,
    pub line: nat,
    pub hash: Seq<char>,
}

pub open spec fn strings_view(v: Seq<String>) -> Seq<Seq<char>> {
    v.map_values(|x: String| x@)
}

impl View for TrackedTag {
    type V = TagView;

    open spec fn view(&self) -> TagView {
        TagView {
            kind: self.kind,
            labels: strings_view(self.labels@),
            message: self.message@,
            file: self.file@,
            line: self.line as nat,
            hash: self.hash@,
        }
    }
}

/// The keyword that starts at `i`, with the index just after it.
pub open spec fn keyword_at(s: Seq<char>, i: int) -> Option<(Kind, int)> {
    if 0 <= i && i + 4 <= s.len() && s[i] == 'T' && s[i + 1] == 'O' && s[i + 2] == 'D' && s[i
        + 3] == 'O' {
        Some((Kind::Todo, i + 4))
    } else if 0 <= i && i + 3 <= s.len() && s[i] == 'B' && s[i + 1] == 'U' && s[i + 2] == 'G' {
        Some((Kind::Bug, i + 3))
    } else if 0 <= i && i + 4 <= s.len() && s[i] == 'D' && s[i + 1] == 'E' && s[i + 2] == 'P'
        && s[i + 3] == 'R' {
        Some((Kind::Depr, i + 4))
    } else {
        None
    }
}

/// The comment opener that starts at `i` (`//` or `#` for line comments,
/// `(*` for block comments), with the index just after it.
pub open spec fn opener_at(s: Seq<char>, i: int, block: bool) -> Option<int> {
    if 0 <= i && block {
        if i + 2 <= s.len() && s[i] == '(' && s[i + 1] == '*' {
            Some(i + 2)
        } else {
            None
        }
    } else if 0 <= i && i + 2 <= s.len() && s[i] == '/' && s[i + 1] == '/' {
        Some(i + 2)
    } else if 0 <= i && i + 1 <= s.len() && s[i] == '#' {
        Some(i + 1)
    } else {
        None
    }
}

/// Everything up to and including the colon: the kind, the span between the
/// label parentheses if there are any, and the index just after the colon.
pub open spec fn spec_header(s: Seq<char>, block: bool) -> Option<(Kind, Option<(int, int)>, int)> {
    let n = s.len() as int;
    let i0 = skip_ws(s, 0, n);
    match opener_at(s, i0, block) {
        None => None,
        Some(i1) => {
            let i2 = skip_ws(s, i1, n);
            match keyword_at(s, i2) {
                None => None,
                Some((k, i3)) => {
                    let i4 = skip_ws(s, i3, n);
                    if i4 < n && s[i4] == '(' {
                        let j = find_char(s, i4 + 1, n, ')');
                        if j < n {
                            let i5 = skip_ws(s, j + 1, n);
                            if i5 < n && s[i5] == ':' {
                                Some((k, Some((i4 + 1, j)), i5 + 1))
                            } else {
                                None
                            }
                        } else {
                            None
                        }
                    } else if i4 < n && s[i4] == ':' {
                        Some((k, None, i4 + 1))
                    } else {
                        None
                    }
                },
            }
        },
    }
}

/// The span of the message of a line comment whose text after the colon
/// starts at `r`: `\s*(.+)$` then trimmed.
pub open spec fn line_message(s: Seq<char>, r: int) -> Option<(int, int)> {
    let n = s.len() as int;
    let k = skip_ws(s, r, n);
    if r >= n {
        None
    } else if k < n {
        if no_newline(s, k, n) {
            Some((k, skip_ws_back(s, k, n)))
        } else {
            None
        }
    } else if s[n - 1] != '\n' {
        Some((n, n))
    } else {
        None
    }
}

/// Whether some character of `s[a..b]` is not a line feed.
pub open spec fn has_non_newline(s: Seq<char>, a: int, b: int) -> bool {
    exists|k: int| a <= k < b && #[trigger] s[k] != '\n'
}

/// The span of the message of a block comment whose text after the colon
/// starts at `r`: `\s*(.+?)\s*\*\)\s*$` then trimmed.
pub open spec fn block_message(s: Seq<char>, r: int) -> Option<(int, int)> {
    let n = s.len() as int;
    let e = skip_ws_back(s, r, n);
    if e - r >= 2 && s[e - 2] == '*' && s[e - 1] == ')' {
        let q = e - 2;
        let k = skip_ws(s, r, q);
        if k < q {
            let b = skip_ws_back(s, k, q);
            if no_newline(s, k, b) {
                Some((k, b))
            } else {
                None
            }
        } else if has_non_newline(s, r, q) {
            Some((q, q))
        } else {
            None
        }
    } else {
        None
    }
}

/// The labels between `a` and `b`: split on `,`, each trimmed.
pub open spec fn split_labels(s: Seq<char>, a: int, b: int) -> Seq<Seq<char>>
    decreases b - a,
{
    if a > b {
        seq![]
    } else {
        let j = find_char(s, a, b, ',');
        proof {
            lemma_find_char_bounds(s, a, b, ',');
        }
        if j >= b {
            seq![trim_range(s, a, b)]
        } else {
            seq![trim_range(s, a, j)] + split_labels(s, j + 1, b)
        }
    }
}

pub open spec fn parse_with(s: Seq<char>, block: bool) -> Option<(Kind, Seq<Seq<char>>, Seq<char>)> {
    match spec_header(s, block) {
        None => None,
        Some((k, labels, r)) => {
            let msg = if block {
                block_message(s, r)
            } else {
                line_message(s, r)
            };
            match msg {
                None => None,
                Some((m0, m1)) => Some(
                    (
                        k,
                        match labels {
                            None => seq![],
                            Some((a, b)) => split_labels(s, a, b),
                        },
                        s.subrange(m0, m1),
                    ),
                ),
            }
        },
    }
}

/// The kind, labels and message of a tagged comment line, if it is one:
/// the line-comment shape is tried first, then the block-comment shape.
pub open spec fn spec_parse_tag_line(s: Seq<char>) -> Option<(Kind, Seq<Seq<char>>, Seq<char>)> {
    match parse_with(s, false) {
        Some(x) => Some(x),
        None => parse_with(s, true),
    }
}

pub open spec fn parsed_view(r: Option<(Kind, Vec<String>, String)>) -> Option<
    (Kind, Seq<Seq<char>>, Seq<char>),
> {
    match r {
        None => None,
        Some((k, ls, m)) => Some((k, strings_view(ls@), m@)),
    }
}

} // verus!

verus! {

fn keyword_at_exec(s: &Vec<char>, i: usize) -> (r: Option<(Kind, usize)>)
    requires
        i <= s@.len(),
    ensures
        match r {
            None => keyword_at(s@, i as int) is None,
            Some((k, j)) => keyword_at(s@, i as int) == Some((k, j as int)) && j <= s@.len(),
        },
{
    let n = s.len();
    if n - i >= 4 && s[i] == 'T' && s[i + 1] == 'O' && s[i + 2] == 'D' && s[i + 3] == 'O' {
        Some((Kind::Todo, i + 4))
    } else if n - i >= 3 && s[i] == 'B' && s[i + 1] == 'U' && s[i + 2] == 'G' {
        Some((Kind::Bug, i + 3))
    } else if n - i >= 4 && s[i] == 'D' && s[i + 1] == 'E' && s[i + 2] == 'P' && s[i + 3] == 'R' {
        Some((Kind::Depr, i + 4))
    } else {
        None
    }
}

fn opener_at_exec(s: &Vec<char>, i: usize, block: bool) -> (r: Option<usize>)
    requires
        i <= s@.len(),
    ensures
        match r {
            None => opener_at(s@, i as int, block) is None,
            Some(j) => opener_at(s@, i as int, block) == Some(j as int) && j <= s@.len(),
        },
{
    let n = s.len();
    if block {
        if n - i >= 2 && s[i] == '(' && s[i + 1] == '*' {
            Some(i + 2)
        } else {
            None
        }
    } else if n - i >= 2 && s[i] == '/' && s[i + 1] == '/' {
        Some(i + 2)
    } else if n - i >= 1 && s[i] == '#' {
        Some(i + 1)
    } else {
        None
    }
}

pub open spec fn header_view(r: Option<(Kind, Option<(usize, usize)>, usize)>) -> Option<
    (Kind, Option<(int, int)>, int),
> {
    match r {
        None => None,
        Some((k, l, e)) => Some(
            (
                k,
                match l {
                    None => None,
                    Some((a, b)) => Some((a as int, b as int)),
                },
                e as int,
            ),
        ),
    }
}

fn header_exec(s: &Vec<char>, block: bool) -> (r: Option<(Kind, Option<(usize, usize)>, usize)>)
    ensures
        header_view(r) == spec_header(s@, block),
        match r {
            None => true,
            Some((_, l, e)) => e <= s@.len() && match l {
                None => true,
                Some((a, b)) => a <= b < e,
            },
        },
{
    let n = s.len();
    let i0 = skip_ws_exec(s, 0, n);
    let i1 = match opener_at_exec(s, i0, block) {
        None => return None,
        Some(i1) => i1,
    };
    let i2 = skip_ws_exec(s, i1, n);
    let (k, i3) = match keyword_at_exec(s, i2) {
        None => return None,
        Some(x) => x,
    };
    let i4 = skip_ws_exec(s, i3, n);
    if i4 < n && s[i4] == '(' {
        let j = find_char_exec(s, i4 + 1, n, ')');
        if j < n {
            let i5 = skip_ws_exec(s, j + 1, n);
            if i5 < n && s[i5] == ':' {
                Some((k, Some((i4 + 1, j)), i5 + 1))
            } else {
                None
            }
        } else {
            None
        }
    } else if i4 < n && s[i4] == ':' {
        Some((k, None, i4 + 1))
    } else {
        None
    }
}

pub open spec fn span_view(r: Option<(usize, usize)>) -> Option<(int, int)> {
    match r {
        None => None,
        Some((a, b)) => Some((a as int, b as int)),
    }
}

fn line_message_exec(s: &Vec<char>, r: usize) -> (m: Option<(usize, usize)>)
    requires
        r <= s@.len(),
    ensures
        span_view(m) == line_message(s@, r as int),
        match m {
            None => true,
            Some((a, b)) => a <= b <= s@.len(),
        },
{
    let n = s.len();
    if r >= n {
        return None;
    }
    let k = skip_ws_exec(s, r, n);
    if k < n {
        if no_newline_exec(s, k, n) {
            let b = skip_ws_back_exec(s, k, n);
            Some((k, b))
        } else {
            None
        }
    } else if s[n - 1] != '\n' {
        Some((n, n))
    } else {
        None
    }
}

fn has_non_newline_exec(s: &Vec<char>, a: usize, b: usize) -> (r: bool)
    requires
        a <= b <= s@.len(),
    ensures
        r == has_non_newline(s@, a as int, b as int),
{
    let mut k = a;
    while k < b
        invariant
            a <= k <= b <= s@.len(),
            forall|t: int| a <= t < k ==> s@[t] == '\n',
        decreases b - k,
    {
        if s[k] != '\n' {
            return true;
        }
        k = k + 1;
    }
    false
}

fn block_message_exec(s: &Vec<char>, r: usize) -> (m: Option<(usize, usize)>)
    requires
        r <= s@.len(),
    ensures
        span_view(m) == block_message(s@, r as int),
        match m {
            None => true,
            Some((a, b)) => a <= b <= s@.len(),
        },
{
    let n = s.len();
    let e = skip_ws_back_exec(s, r, n);
    if e - r >= 2 && s[e - 2] == '*' && s[e - 1] == ')' {
        let q = e - 2;
        let k = skip_ws_exec(s, r, q);
        if k < q {
            let b = skip_ws_back_exec(s, k, q);
            if no_newline_exec(s, k, b) {
                Some((k, b))
            } else {
                None
            }
        } else if has_non_newline_exec(s, r, q) {
            Some((q, q))
        } else {
            None
        }
    } else {
        None
    }
}

fn labels_exec(line: &str, s: &Vec<char>, a: usize, b: usize) -> (r: Vec<String>)
    requires
        s@ == line@,
        a <= b <= s@.len(),
    ensures
        strings_view(r@) == split_labels(s@, a as int, b as int),
{
    let mut out: Vec<String> = Vec::new();
    let mut pos = a;
    loop
        invariant
            s@ == line@,
            a <= pos <= b <= s@.len(),
            strings_view(out@) + split_labels(s@, pos as int, b as int) == split_labels(
                s@,
                a as int,
                b as int,
            ),
        decreases b - pos,
    {
        let j = find_char_exec(s, pos, b, ',');
        let lo = skip_ws_exec(s, pos, j);
        let hi = skip_ws_back_exec(s, lo, j);
        let piece = line.substring_char(lo, hi).to_owned();
        let ghost before = out@;
        out.push(piece);
        assert(strings_view(out@) =~= strings_view(before).push(piece@));
        if j >= b {
            assert(split_labels(s@, pos as int, b as int) =~= seq![trim_range(s@, pos as int, b as int)]);
            return out;
        }
        pos = j + 1;
    }
}

/// Attempts to parse one line as a tagged comment. Returns `None` if the
/// line doesn't match either shape at all.
pub fn parse_tag_line(line: &str) -> (r: Option<(Kind, Vec<String>, String)>)
    ensures
        parsed_view(r) == spec_parse_tag_line(line@),
{
    let s = chars_of(line);
    match parse_with_exec(line, &s, false) {
        Some(x) => Some(x),
        None => parse_with_exec(line, &s, true),
    }
}

fn parse_with_exec(line: &str, s: &Vec<char>, block: bool) -> (r: Option<(Kind, Vec<String>, String)>)
    requires
        s@ == line@,
    ensures
        parsed_view(r) == parse_with(s@, block),
{
    let (k, labels, rest) = match header_exec(s, block) {
        None => return None,
        Some(h) => h,
    };
    let msg = if block {
        block_message_exec(s, rest)
    } else {
        line_message_exec(s, rest)
    };
    let (m0, m1) = match msg {
        None => return None,
        Some(m) => m,
    };
    let ls = match labels {
        None => {
            let v: Vec<String> = Vec::new();
            assert(strings_view(v@) =~= Seq::<Seq<char>>::empty());
            v
        },
        Some((a, b)) => labels_exec(line, s, a, b),
    };
    let message = line.substring_char(m0, m1).to_owned();
    let r = Some((k, ls, message));
    r
}

} // verus!

verus! {

/// The keyword of a kind as it is written in a comment.
pub open spec fn keyword_chars(k: Kind) -> Seq<char> {
    match k {
        Kind::Todo => seq!['T', 'O', 'D', 'O'],
        Kind::Bug => seq!['B', 'U', 'G'],
        Kind::Depr => seq!['D', 'E', 'P', 'R'],
    }
}

/// A label that comes back unchanged from a comment: no `,` or `)`, and no
/// whitespace at either end.
pub open spec fn is_clean_label(l: Seq<char>) -> bool {
    &&& forall|i: int| 0 <= i < l.len() ==> #[trigger] l[i] != ',' && l[i] != ')'
    &&& l.len() > 0 ==> !is_ws(l[0]) && !is_ws(l.last())
}

/// A message that comes back unchanged from a line comment: not empty, no
/// line feed, and no whitespace at either end.
pub open spec fn is_clean_message(m: Seq<char>) -> bool {
    &&& m.len() > 0
    &&& !is_ws(m[0])
    &&& !is_ws(m.last())
    &&& forall|i: int| 0 <= i < m.len() ==> #[trigger] m[i] != '\n'
}

/// The label part of a written tag: `(l1, l2, ...)`, or nothing when there are
/// no labels.
pub open spec fn render_labels(labels: Seq<Seq<char>>) -> Seq<char> {
    if labels.len() == 0 {
        Seq::<char>::empty()
    } else {
        seq!['('] + crate::hash::join(labels, label_sep()) + seq![')']
    }
}

/// A tag written as a line comment: `// KIND(l1, l2, ...): message`.
pub open spec fn render_line_comment(k: Kind, labels: Seq<Seq<char>>, message: Seq<char>) -> Seq<
    char,
> {
    seq!['/', '/', ' '] + keyword_chars(k) + render_labels(labels) + seq![':', ' '] + message
}

/// A tag written as a block comment: `(* KIND(l1, l2, ...): message *)`.
pub open spec fn render_block_comment(k: Kind, labels: Seq<Seq<char>>, message: Seq<char>) -> Seq<
    char,
> {
    seq!['(', '*', ' '] + keyword_chars(k) + render_labels(labels) + seq![':', ' '] + message
        + seq![' ', '*', ')']
}

proof fn lemma_find_char_at(s: Seq<char>, i: int, t: int, end: int, c: char)
    requires
        0 <= i <= t < end <= s.len(),
        s[t] == c,
        forall|k: int| i <= k < t ==> #[trigger] s[k] != c,
    ensures
        find_char(s, i, end, c) == t,
    decreases t - i,
{
    if i < t {
        lemma_find_char_at(s, i + 1, t, end, c);
    }
}

proof fn lemma_find_char_none(s: Seq<char>, i: int, end: int, c: char)
    requires
        0 <= i <= end <= s.len(),
        forall|k: int| i <= k < end ==> #[trigger] s[k] != c,
    ensures
        find_char(s, i, end, c) == end,
    decreases end - i,
{
    if i < end {
        lemma_find_char_none(s, i + 1, end, c);
    }
}

proof fn lemma_join_front(l: Seq<Seq<char>>, sep: Seq<char>)
    requires
        l.len() >= 2,
    ensures
        crate::hash::join(l, sep) == l[0] + sep + crate::hash::join(l.drop_first(), sep),
    decreases l.len(),
{
    let j = crate::hash::join(l, sep);
    if l.len() > 2 {
        lemma_join_front(l.drop_last(), sep);
        let d = l.drop_first();
        assert(l.drop_last().drop_first() =~= d.drop_last());
        assert(d.last() == l.last());
        assert(l.drop_last()[0] == l[0]);
        assert(crate::hash::join(d, sep) == crate::hash::join(d.drop_last(), sep) + sep + d.last());
        assert(j == crate::hash::join(l.drop_last(), sep) + sep + l.last());
        assert(j =~= l[0] + sep + crate::hash::join(l.drop_first(), sep));
    } else {
        assert(l.drop_first() =~= seq![l[1]]);
        assert(l.drop_last() =~= seq![l[0]]);
        assert(crate::hash::join(seq![l[1]], sep) == l[1]);
        assert(crate::hash::join(seq![l[0]], sep) == l[0]);
        assert(j == crate::hash::join(l.drop_last(), sep) + sep + l.last());
    }
}

/// Whether every character of `w` is whitespace.
pub open spec fn all_ws(w: Seq<char>) -> bool {
    forall|i: int| 0 <= i < w.len() ==> is_ws(#[trigger] w[i])
}

/// The separator between written labels: a comma, then a space.
pub open spec fn label_sep() -> Seq<char> {
    seq![',', ' ']
}

proof fn lemma_join_lacks_paren(l: Seq<Seq<char>>, sep: Seq<char>)
    requires
        forall|i: int| 0 <= i < l.len() ==> is_clean_label(#[trigger] l[i]),
        forall|i: int| 0 <= i < sep.len() ==> #[trigger] sep[i] != ')',
    ensures
        forall|k: int| 0 <= k < crate::hash::join(l, sep).len() ==> #[trigger] crate::hash::join(l, sep)[k] != ')',
    decreases l.len(),
{
    let j = crate::hash::join(l, sep);
    if l.len() == 1 {
        assert(is_clean_label(l[0]));
    } else if l.len() > 1 {
        lemma_join_lacks_paren(l.drop_last(), sep);
        let p = crate::hash::join(l.drop_last(), sep);
        assert(is_clean_label(l.last()));
        assert forall|k: int| 0 <= k < j.len() implies #[trigger] j[k] != ')' by {
            if k < p.len() {
                assert(j[k] == p[k]);
            } else if k < p.len() + sep.len() {
                assert(j[k] == sep[k - p.len()]);
            } else {
                assert(j[k] == l.last()[k - p.len() - sep.len()]);
            }
        }
    }
}

proof fn lemma_skip_ws_run(s: Seq<char>, a: int, m: int, end: int)
    requires
        0 <= a <= m <= end <= s.len(),
        forall|k: int| a <= k < m ==> is_ws(#[trigger] s[k]),
        m < end ==> !is_ws(s[m]),
    ensures
        skip_ws(s, a, end) == m,
    decreases m - a,
{
    if a < m {
        lemma_skip_ws_run(s, a + 1, m, end);
    }
}

proof fn lemma_trim_padded(s: Seq<char>, a: int, w: Seq<char>, l: Seq<char>)
    requires
        is_clean_label(l),
        all_ws(w),
        0 <= a,
        a + w.len() + l.len() <= s.len(),
        s.subrange(a, a + w.len() + l.len()) == w + l,
    ensures
        trim_range(s, a, a + w.len() + l.len()) == l,
{
    let b = a + w.len() + l.len();
    let m = a + w.len();
    assert forall|k: int| a <= k < m implies is_ws(#[trigger] s[k]) by {
        assert(s[k] == s.subrange(a, b)[k - a]);
        assert((w + l)[k - a] == w[k - a]);
    }
    if l.len() > 0 {
        assert(s[m] == s.subrange(a, b)[w.len() as int]);
        assert(s[m] == l[0]);
        assert(s[b - 1] == s.subrange(a, b)[b - 1 - a]);
        assert(s[b - 1] == l.last());
        lemma_skip_ws_run(s, a, m, b);
        assert(s.subrange(m, b) =~= l) by {
            assert forall|k: int| 0 <= k < l.len() implies s.subrange(m, b)[k] == l[k] by {
                assert(s[m + k] == s.subrange(a, b)[w.len() + k]);
            }
        }
    } else {
        lemma_skip_ws_run(s, a, m, b);
        assert(s.subrange(m, m) =~= l);
    }
}

#[verifier::spinoff_prover]
#[verifier::rlimit(40)]
proof fn lemma_split_padded(s: Seq<char>, a: int, w: Seq<char>, l: Seq<Seq<char>>)
    requires
        l.len() >= 1,
        forall|i: int| 0 <= i < l.len() ==> is_clean_label(#[trigger] l[i]),
        all_ws(w),
        0 <= a,
        a + w.len() + crate::hash::join(l, label_sep()).len() <= s.len(),
        s.subrange(a, a + w.len() + crate::hash::join(l, label_sep()).len()) == w + crate::hash::join(
            l,
            label_sep(),
        ),
    ensures
        split_labels(s, a, a + w.len() + crate::hash::join(l, label_sep()).len()) == l,
    decreases l.len(),
{
    let sep = label_sep();
    let j = crate::hash::join(l, sep);
    let b = a + w.len() + j.len();
    let c = w + j;
    let l0 = l[0];
    assert(is_clean_label(l0));
    assert(!is_ws(','));
    assert forall|k: int| a <= k < b implies #[trigger] s[k] == c[k - a] by {
        assert(s[k] == s.subrange(a, b)[k - a]);
    }
    if l.len() == 1 {
        assert(j == l0);
        assert forall|k: int| a <= k < b implies #[trigger] s[k] != ',' by {
            assert(s[k] == c[k - a]);
            if k - a < w.len() {
                assert(is_ws(w[k - a]));
            } else {
                assert(c[k - a] == l0[k - a - w.len()]);
            }
        }
        lemma_find_char_none(s, a, b, ',');
        lemma_trim_padded(s, a, w, l0);
        assert(l =~= seq![l0]);
    } else {
        lemma_join_front(l, sep);
        let rest = l.drop_first();
        let jr = crate::hash::join(rest, sep);
        assert(j == l0 + sep + jr);
        let t = a + w.len() + l0.len();
        assert(s[t] == c[t - a]);
        assert(c[t - a] == ',');
        assert forall|k: int| a <= k < t implies #[trigger] s[k] != ',' by {
            assert(s[k] == c[k - a]);
            if k - a < w.len() {
                assert(is_ws(w[k - a]));
            } else {
                assert(c[k - a] == l0[k - a - w.len()]);
            }
        }
        lemma_find_char_at(s, a, t, b, ',');
        assert(s.subrange(a, t) =~= w + l0) by {
            assert forall|k: int| 0 <= k < t - a implies s.subrange(a, t)[k] == (w + l0)[k] by {
                assert(s[a + k] == c[k]);
            }
        }
        lemma_trim_padded(s, a, w, l0);
        assert forall|i: int| 0 <= i < rest.len() implies is_clean_label(#[trigger] rest[i]) by {
            assert(rest[i] == l[i + 1]);
        }
        let pad = seq![' '];
        assert(all_ws(pad)) by {
            assert(is_ws(' '));
        }
        assert(s.subrange(t + 1, b) =~= pad + jr) by {
            assert forall|k: int| 0 <= k < b - t - 1 implies s.subrange(t + 1, b)[k] == (pad + jr)[k] by {
                assert(s[t + 1 + k] == c[t + 1 + k - a]);
            }
        }
        assert(t + 1 + pad.len() + jr.len() == b);
        lemma_split_padded(s, t + 1, pad, rest);
        assert(split_labels(s, a, b) == seq![l0] + split_labels(s, t + 1, b));
        assert(l =~= seq![l0] + rest);
    }
}

/// The part of a written tag up to its colon parses to its kind and labels,
/// and the text after the colon starts just after it.
proof fn lemma_render_header(
    s: Seq<char>,
    block: bool,
    k: Kind,
    labels: Seq<Seq<char>>,
    tail: Seq<char>,
)
    requires
        forall|i: int| 0 <= i < labels.len() ==> is_clean_label(#[trigger] labels[i]),
        s == (if block {
            seq!['(', '*', ' ']
        } else {
            seq!['/', '/', ' ']
        }) + keyword_chars(k) + render_labels(labels) + seq![':'] + tail,
    ensures
        spec_header(s, block) matches Some((k2, span, r)) && k2 == k && r == s.len() - tail.len()
            && match span {
            None => labels.len() == 0,
            Some((a, b)) => split_labels(s, a, b) == labels,
        },
{
    let n = s.len() as int;
    let kw = keyword_chars(k);
    let kl = kw.len() as int;
    let mid = render_labels(labels);
    let ml = mid.len() as int;
    let open = if block {
        seq!['(', '*', ' ']
    } else {
        seq!['/', '/', ' ']
    };
    assert(n == 3 + kl + ml + 1 + tail.len());
    assert(s[2] == ' ');
    assert(!is_ws('/') && !is_ws('(') && !is_ws(':') && is_ws(' '));
    assert(s[0] == open[0] && s[1] == open[1]);
    assert(skip_ws(s, 0, n) == 0);
    assert(opener_at(s, 0, block) == Some(2int));
    assert(forall|q: int| 0 <= q < kl ==> s[3 + q] == kw[q]);
    assert(!is_ws(s[3]));
    assert(skip_ws(s, 3, n) == 3);
    assert(skip_ws(s, 2, n) == 3);
    assert(keyword_at(s, 3) == Some((k, 3 + kl)));
    let i4 = 3 + kl;
    let r = i4 + ml + 1;
    assert(s[i4 + ml] == ':');
    if labels.len() == 0 {
        assert(s[i4] == ':');
        assert(skip_ws(s, i4, n) == i4);
        assert(spec_header(s, block) == Some((k, None::<(int, int)>, r)));
    } else {
        let jn = crate::hash::join(labels, label_sep());
        assert(s[i4] == '(');
        assert(skip_ws(s, i4, n) == i4);
        let jend = i4 + 1 + jn.len();
        assert(s[jend] == ')');
        lemma_join_lacks_paren(labels, label_sep());
        assert forall|q: int| i4 + 1 <= q < jend implies #[trigger] s[q] != ')' by {
            assert(s[q] == jn[q - i4 - 1]);
        }
        lemma_find_char_at(s, i4 + 1, jend, n, ')');
        assert(jend + 1 == i4 + ml);
        assert(skip_ws(s, jend + 1, n) == jend + 1);
        assert(spec_header(s, block) == Some((k, Some((i4 + 1, jend)), r)));
        assert(s.subrange(i4 + 1, jend) =~= jn) by {
            assert forall|q: int| 0 <= q < jn.len() implies s.subrange(i4 + 1, jend)[q] == jn[q] by {
                assert(s[i4 + 1 + q] == jn[q]);
            }
        }
        let e: Seq<char> = seq![];
        assert(all_ws(e));
        assert(e + jn =~= jn);
        lemma_split_padded(s, i4 + 1, e, labels);
    }
}

/// Writing a tag as a line comment and parsing the line gives the tag back:
/// its kind, its labels and its message, for labels and a message that a
/// comment can hold unchanged (an empty message included).
pub proof fn law_parse_inverts_render_line_comment(
    k: Kind,
    labels: Seq<Seq<char>>,
    message: Seq<char>,
)
    requires
        forall|i: int| 0 <= i < labels.len() ==> is_clean_label(#[trigger] labels[i]),
        message.len() == 0 || is_clean_message(message),
    ensures
        spec_parse_tag_line(render_line_comment(k, labels, message)) == Some((k, labels, message)),
{
    let s = render_line_comment(k, labels, message);
    let n = s.len() as int;
    let tail = seq![' '] + message;
    assert(s =~= seq!['/', '/', ' '] + keyword_chars(k) + render_labels(labels) + seq![':'] + tail);
    lemma_render_header(s, false, k, labels, tail);
    let r = n - tail.len();
    assert(s[r] == ' ');
    assert(is_ws(' '));
    if message.len() == 0 {
        assert(r + 1 == n);
        assert(skip_ws(s, n, n) == n);
        assert(skip_ws(s, r, n) == n);
        assert(s[n - 1] == ' ');
        assert(line_message(s, r) == Some((n, n)));
        assert(s.subrange(n, n) =~= message);
    } else {
        assert(s[r + 1] == message[0]);
        assert(skip_ws(s, r + 1, n) == r + 1);
        assert(skip_ws(s, r, n) == r + 1);
        assert forall|q: int| r + 1 <= q < n implies #[trigger] s[q] != '\n' by {
            assert(s[q] == message[q - r - 1]);
        }
        assert(s[n - 1] == message.last());
        assert(skip_ws_back(s, r + 1, n) == n);
        assert(line_message(s, r) == Some((r + 1, n)));
        assert(s.subrange(r + 1, n) =~= message);
    }
}

/// Writing a tag as a block comment and parsing the line gives the tag back,
/// for labels and a message that a comment can hold unchanged (an empty
/// message included).
pub proof fn law_parse_inverts_render_block_comment(
    k: Kind,
    labels: Seq<Seq<char>>,
    message: Seq<char>,
)
    requires
        forall|i: int| 0 <= i < labels.len() ==> is_clean_label(#[trigger] labels[i]),
        message.len() == 0 || is_clean_message(message),
    ensures
        spec_parse_tag_line(render_block_comment(k, labels, message)) == Some((k, labels, message)),
{
    let s = render_block_comment(k, labels, message);
    let n = s.len() as int;
    let tail = seq![' '] + message + seq![' ', '*', ')'];
    assert(s =~= seq!['(', '*', ' '] + keyword_chars(k) + render_labels(labels) + seq![':'] + tail);
    lemma_render_header(s, true, k, labels, tail);
    assert(s[0] == '(');
    assert(!is_ws('('));
    assert(skip_ws(s, 0, n) == 0);
    assert(opener_at(s, 0, false) is None);
    assert(spec_header(s, false) is None);
    let r = n - tail.len();
    let ml = message.len() as int;
    assert(s[r] == ' ');
    assert(is_ws(' ') && !is_ws(')'));
    assert(s[n - 1] == ')' && s[n - 2] == '*' && s[n - 3] == ' ');
    assert(skip_ws_back(s, r, n) == n);
    let q = n - 2;
    if ml == 0 {
        assert(q == r + 2);
        assert(s[r + 1] == ' ' && s[r] == ' ');
        assert(skip_ws(s, q, q) == q);
        assert(skip_ws(s, r + 1, q) == q);
        assert(skip_ws(s, r, q) == q);
        assert(s[r] != '\n');
        assert(has_non_newline(s, r, q));
        assert(block_message(s, r) == Some((q, q)));
        assert(s.subrange(q, q) =~= message);
    } else {
        assert(s[r + 1] == message[0]);
        assert(skip_ws(s, r + 1, q) == r + 1);
        assert(skip_ws(s, r, q) == r + 1);
        assert(s[r + ml] == message.last());
        assert(r + 1 + ml == q - 1);
        assert(skip_ws_back(s, r + 1, r + 1 + ml) == r + 1 + ml);
        assert(skip_ws_back(s, r + 1, q) == r + 1 + ml);
        assert forall|p: int| r + 1 <= p < r + 1 + ml implies #[trigger] s[p] != '\n' by {
            assert(s[p] == message[p - r - 1]);
        }
        assert(block_message(s, r) == Some((r + 1, r + 1 + ml)));
        assert(s.subrange(r + 1, r + 1 + ml) =~= message);
    }
}

proof fn lemma_trim_range_clean(s: Seq<char>, a: int, b: int)
    requires
        0 <= a <= b <= s.len(),
        forall|k: int| a <= k < b ==> #[trigger] s[k] != ',' && s[k] != ')',
    ensures
        is_clean_label(trim_range(s, a, b)),
{
    lemma_skip_ws_bounds(s, a, b);
    let lo = skip_ws(s, a, b);
    lemma_skip_ws_back_bounds(s, lo, b);
    let hi = skip_ws_back(s, lo, b);
    let t = s.subrange(lo, hi);
    assert forall|i: int| 0 <= i < t.len() implies #[trigger] t[i] != ',' && t[i] != ')' by {
        assert(t[i] == s[lo + i]);
    }
    if t.len() > 0 {
        assert(t[0] == s[lo]);
        assert(t.last() == s[hi - 1]);
    }
}

proof fn lemma_split_labels_clean(s: Seq<char>, a: int, b: int)
    requires
        0 <= a <= b <= s.len(),
        forall|k: int| a <= k < b ==> #[trigger] s[k] != ')',
    ensures
        forall|i: int|
            0 <= i < split_labels(s, a, b).len() ==> is_clean_label(#[trigger] split_labels(s, a, b)[i]),
    decreases b - a,
{
    lemma_find_char_bounds(s, a, b, ',');
    let j = find_char(s, a, b, ',');
    lemma_trim_range_clean(s, a, j);
    let l = split_labels(s, a, b);
    if j < b {
        lemma_split_labels_clean(s, j + 1, b);
        let rest = split_labels(s, j + 1, b);
        assert(l == seq![trim_range(s, a, j)] + rest);
        assert forall|i: int| 0 <= i < l.len() implies is_clean_label(#[trigger] l[i]) by {
            if i > 0 {
                assert(l[i] == rest[i - 1]);
            }
        }
    } else {
        assert(l == seq![trim_range(s, a, b)]);
    }
}

proof fn lemma_header_labels_clean(s: Seq<char>, block: bool)
    requires
        spec_header(s, block) is Some,
    ensures
        spec_header(s, block) matches Some((_, span, r)) && 0 <= r <= s.len() && match span {
            None => true,
            Some((a, b)) => forall|i: int|
                0 <= i < split_labels(s, a, b).len() ==> is_clean_label(
                    #[trigger] split_labels(s, a, b)[i],
                ),
        },
{
    let n = s.len() as int;
    lemma_skip_ws_bounds(s, 0, n);
    let i0 = skip_ws(s, 0, n);
    let i1 = opener_at(s, i0, block)->0;
    lemma_skip_ws_bounds(s, i1, n);
    let i2 = skip_ws(s, i1, n);
    let (_, i3) = keyword_at(s, i2)->0;
    lemma_skip_ws_bounds(s, i3, n);
    let i4 = skip_ws(s, i3, n);
    if i4 < n && s[i4] == '(' {
        lemma_find_char_bounds(s, i4 + 1, n, ')');
        let j = find_char(s, i4 + 1, n, ')');
        lemma_skip_ws_bounds(s, j + 1, n);
        lemma_split_labels_clean(s, i4 + 1, j);
    }
}

/// A found tag written back as a line comment is found again unchanged: the
/// labels and message that parsing yields are ones a comment holds as they
/// are.
pub proof fn law_parsed_tag_rewrites_to_itself(
    s: Seq<char>,
    k: Kind,
    labels: Seq<Seq<char>>,
    message: Seq<char>,
)
    requires
        spec_parse_tag_line(s) == Some((k, labels, message)),
    ensures
        spec_parse_tag_line(render_line_comment(k, labels, message)) == Some((k, labels, message)),
{
    let n = s.len() as int;
    let block = parse_with(s, false) is None;
    assert(parse_with(s, block) == Some((k, labels, message)));
    lemma_header_labels_clean(s, block);
    let (_, _, r) = spec_header(s, block)->0;
    if block {
        let e = skip_ws_back(s, r, n);
        let q = e - 2;
        lemma_skip_ws_back_bounds(s, r, n);
        lemma_skip_ws_bounds(s, r, q);
        let k0 = skip_ws(s, r, q);
        if k0 < q {
            lemma_skip_ws_back_bounds(s, k0, q);
            let b0 = skip_ws_back(s, k0, q);
            assert(message == s.subrange(k0, b0));
            assert(message[0] == s[k0]);
            assert(message.last() == s[b0 - 1]);
            assert forall|i: int| 0 <= i < message.len() implies #[trigger] message[i] != '\n' by {
                assert(message[i] == s[k0 + i]);
            }
        }
    } else {
        lemma_skip_ws_bounds(s, r, n);
        let k0 = skip_ws(s, r, n);
        if k0 < n {
            lemma_skip_ws_back_bounds(s, k0, n);
            let b0 = skip_ws_back(s, k0, n);
            assert(message == s.subrange(k0, b0));
            assert(message[0] == s[k0]);
            assert(message.last() == s[b0 - 1]);
            assert forall|i: int| 0 <= i < message.len() implies #[trigger] message[i] != '\n' by {
                assert(message[i] == s[k0 + i]);
            }
        }
    }
    law_parse_inverts_render_line_comment(k, labels, message);
}

} // verus!

verus! {

// Reading `c + s` from index 1 on is reading `s` from index 0 on: each index
// into `s` is one more in `c + s`.

proof fn lemma_shift_skip_ws(c: char, s: Seq<char>, i: int, e: int)
    requires
        0 <= i <= e <= s.len(),
    ensures
        skip_ws(seq![c] + s, i + 1, e + 1) == skip_ws(s, i, e) + 1,
    decreases e - i,
{
    let t = seq![c] + s;
    if i < e {
        assert(t[i + 1] == s[i]);
        if is_ws(s[i]) {
            lemma_shift_skip_ws(c, s, i + 1, e);
        }
    }
}

proof fn lemma_shift_skip_ws_back(c: char, s: Seq<char>, a: int, b: int)
    requires
        0 <= a <= b <= s.len(),
    ensures
        skip_ws_back(seq![c] + s, a + 1, b + 1) == skip_ws_back(s, a, b) + 1,
    decreases b - a,
{
    let t = seq![c] + s;
    if a < b {
        assert(t[b] == s[b - 1]);
        if is_ws(s[b - 1]) {
            lemma_shift_skip_ws_back(c, s, a, b - 1);
        }
    }
}

proof fn lemma_shift_find_char(c: char, s: Seq<char>, i: int, e: int, x: char)
    requires
        0 <= i <= e <= s.len(),
    ensures
        find_char(seq![c] + s, i + 1, e + 1, x) == find_char(s, i, e, x) + 1,
    decreases e - i,
{
    let t = seq![c] + s;
    if i < e {
        assert(t[i + 1] == s[i]);
        if s[i] != x {
            lemma_shift_find_char(c, s, i + 1, e, x);
        }
    }
}

proof fn lemma_shift_no_newline(c: char, s: Seq<char>, a: int, b: int)
    requires
        0 <= a <= b <= s.len(),
    ensures
        no_newline(seq![c] + s, a + 1, b + 1) == no_newline(s, a, b),
        has_non_newline(seq![c] + s, a + 1, b + 1) == has_non_newline(s, a, b),
{
    let t = seq![c] + s;
    if no_newline(s, a, b) {
        assert forall|k: int| a + 1 <= k < b + 1 implies #[trigger] t[k] != '\n' by {
            assert(t[k] == s[k - 1]);
        }
    }
    if no_newline(t, a + 1, b + 1) {
        assert forall|k: int| a <= k < b implies #[trigger] s[k] != '\n' by {
            assert(t[k + 1] == s[k]);
        }
    }
    if has_non_newline(s, a, b) {
        let k = choose|k: int| a <= k < b && #[trigger] s[k] != '\n';
        assert(t[k + 1] == s[k]);
    }
    if has_non_newline(t, a + 1, b + 1) {
        let k = choose|k: int| a + 1 <= k < b + 1 && #[trigger] t[k] != '\n';
        assert(t[k] == s[k - 1]);
    }
}

proof fn lemma_shift_subrange(c: char, s: Seq<char>, a: int, b: int)
    requires
        0 <= a <= b <= s.len(),
    ensures
        (seq![c] + s).subrange(a + 1, b + 1) == s.subrange(a, b),
{
    assert((seq![c] + s).subrange(a + 1, b + 1) =~= s.subrange(a, b));
}

proof fn lemma_shift_trim_range(c: char, s: Seq<char>, a: int, b: int)
    requires
        0 <= a <= b <= s.len(),
    ensures
        trim_range(seq![c] + s, a + 1, b + 1) == trim_range(s, a, b),
{
    lemma_shift_skip_ws(c, s, a, b);
    lemma_skip_ws_bounds(s, a, b);
    let lo = skip_ws(s, a, b);
    lemma_shift_skip_ws_back(c, s, lo, b);
    lemma_skip_ws_back_bounds(s, lo, b);
    lemma_shift_subrange(c, s, lo, skip_ws_back(s, lo, b));
}

proof fn lemma_shift_split_labels(c: char, s: Seq<char>, a: int, b: int)
    requires
        0 <= a,
        b <= s.len(),
        a <= b + 1,
    ensures
        split_labels(seq![c] + s, a + 1, b + 1) == split_labels(s, a, b),
    decreases b - a,
{
    if a <= b {
        lemma_shift_find_char(c, s, a, b, ',');
        lemma_find_char_bounds(s, a, b, ',');
        let j = find_char(s, a, b, ',');
        if j >= b {
            lemma_shift_trim_range(c, s, a, b);
        } else {
            lemma_shift_trim_range(c, s, a, j);
            lemma_shift_split_labels(c, s, j + 1, b);
        }
    }
}

proof fn lemma_shift_opener_keyword(c: char, s: Seq<char>, i: int, block: bool)
    requires
        0 <= i <= s.len(),
    ensures
        opener_at(seq![c] + s, i + 1, block) == (match opener_at(s, i, block) {
            None => None,
            Some(j) => Some(j + 1),
        }),
        keyword_at(seq![c] + s, i + 1) == (match keyword_at(s, i) {
            None => None,
            Some((k, j)) => Some((k, j + 1)),
        }),
        opener_at(s, i, block) matches Some(j) ==> j <= s.len(),
        keyword_at(s, i) matches Some((_, j)) ==> j <= s.len(),
{
    let t = seq![c] + s;
    if i < s.len() {
        assert(t[i + 1] == s[i]);
    }
    if i + 1 < s.len() {
        assert(t[i + 2] == s[i + 1]);
    }
    if i + 2 < s.len() {
        assert(t[i + 3] == s[i + 2]);
    }
    if i + 3 < s.len() {
        assert(t[i + 4] == s[i + 3]);
    }
}

/// The header read from `s`, each index one further on.
pub open spec fn header_moved(h: Option<(Kind, Option<(int, int)>, int)>) -> Option<
    (Kind, Option<(int, int)>, int),
> {
    match h {
        None => None,
        Some((k, l, r)) => Some(
            (
                k,
                match l {
                    None => None,
                    Some((a, b)) => Some((a + 1, b + 1)),
                },
                r + 1,
            ),
        ),
    }
}

pub open spec fn span_moved(m: Option<(int, int)>) -> Option<(int, int)> {
    match m {
        None => None,
        Some((a, b)) => Some((a + 1, b + 1)),
    }
}

proof fn lemma_shift_header_from(c: char, s: Seq<char>, block: bool)
    ensures
        spec_header(seq![c] + s, block) == header_moved(spec_header(s, block)) || !is_ws(c),
        spec_header(s, block) matches Some((_, l, r)) ==> 0 <= r <= s.len() && match l {
            None => true,
            Some((a, b)) => 0 <= a <= b <= s.len(),
        },
{
    let t = seq![c] + s;
    let n = s.len() as int;
    lemma_skip_ws_bounds(s, 0, n);
    let i0 = skip_ws(s, 0, n);
    if is_ws(c) {
        assert(t[0] == c);
        assert(skip_ws(t, 0, n + 1) == skip_ws(t, 1, n + 1));
        lemma_shift_skip_ws(c, s, 0, n);
    }
    lemma_shift_opener_keyword(c, s, i0, block);
    match opener_at(s, i0, block) {
        None => {},
        Some(i1) => {
            lemma_shift_skip_ws(c, s, i1, n);
            lemma_skip_ws_bounds(s, i1, n);
            let i2 = skip_ws(s, i1, n);
            lemma_shift_opener_keyword(c, s, i2, block);
            match keyword_at(s, i2) {
                None => {},
                Some((k, i3)) => {
                    lemma_shift_skip_ws(c, s, i3, n);
                    lemma_skip_ws_bounds(s, i3, n);
                    let i4 = skip_ws(s, i3, n);
                    if i4 < n {
                        assert(t[i4 + 1] == s[i4]);
                        if s[i4] == '(' {
                            lemma_shift_find_char(c, s, i4 + 1, n, ')');
                            lemma_find_char_bounds(s, i4 + 1, n, ')');
                            let j = find_char(s, i4 + 1, n, ')');
                            if j < n {
                                lemma_shift_skip_ws(c, s, j + 1, n);
                                lemma_skip_ws_bounds(s, j + 1, n);
                                let i5 = skip_ws(s, j + 1, n);
                                if i5 < n {
                                    assert(t[i5 + 1] == s[i5]);
                                }
                            }
                        }
                    }
                },
            }
        },
    }
}

proof fn lemma_shift_line_message(c: char, s: Seq<char>, r: int)
    requires
        0 <= r <= s.len(),
    ensures
        line_message(seq![c] + s, r + 1) == span_moved(line_message(s, r)),
        line_message(s, r) matches Some((a, b)) ==> 0 <= a <= b <= s.len(),
{
    let t = seq![c] + s;
    let n = s.len() as int;
    lemma_shift_skip_ws(c, s, r, n);
    lemma_skip_ws_bounds(s, r, n);
    let k = skip_ws(s, r, n);
    lemma_shift_no_newline(c, s, k, n);
    lemma_shift_skip_ws_back(c, s, k, n);
    lemma_skip_ws_back_bounds(s, k, n);
    if r < n {
        assert(t[n] == s[n - 1]);
    }
}

proof fn lemma_shift_block_message(c: char, s: Seq<char>, r: int)
    requires
        0 <= r <= s.len(),
    ensures
        block_message(seq![c] + s, r + 1) == span_moved(block_message(s, r)),
        block_message(s, r) matches Some((a, b)) ==> 0 <= a <= b <= s.len(),
{
    let t = seq![c] + s;
    let n = s.len() as int;
    lemma_shift_skip_ws_back(c, s, r, n);
    lemma_skip_ws_back_bounds(s, r, n);
    let e = skip_ws_back(s, r, n);
    if e - r >= 2 {
        assert(t[e - 1] == s[e - 2]);
        assert(t[e] == s[e - 1]);
        let q = e - 2;
        lemma_shift_skip_ws(c, s, r, q);
        lemma_skip_ws_bounds(s, r, q);
        let k = skip_ws(s, r, q);
        lemma_shift_skip_ws_back(c, s, k, q);
        lemma_skip_ws_back_bounds(s, k, q);
        let b = skip_ws_back(s, k, q);
        lemma_shift_no_newline(c, s, k, b);
        lemma_shift_no_newline(c, s, r, q);
    }
}

proof fn lemma_shift_parse_with(c: char, s: Seq<char>, block: bool)
    requires
        is_ws(c),
    ensures
        parse_with(seq![c] + s, block) == parse_with(s, block),
{
    let t = seq![c] + s;
    lemma_shift_header_from(c, s, block);
    match spec_header(s, block) {
        None => {},
        Some((k, labels, r)) => {
            lemma_shift_line_message(c, s, r);
            lemma_shift_block_message(c, s, r);
            let msg = if block {
                block_message(s, r)
            } else {
                line_message(s, r)
            };
            match labels {
                None => {},
                Some((a, b)) => {
                    lemma_shift_split_labels(c, s, a, b);
                },
            }
            match msg {
                None => {},
                Some((m0, m1)) => {
                    lemma_shift_subrange(c, s, m0, m1);
                },
            }
        },
    }
}

/// Whitespace before the comment does not change what a line says: with a
/// whitespace character (a space, a tab, ...) put in front, a line parses
/// exactly as it did without it.
pub proof fn law_leading_whitespace_is_ignored(c: char, s: Seq<char>)
    requires
        is_ws(c),
    ensures
        spec_parse_tag_line(seq![c] + s) == spec_parse_tag_line(s),
{
    lemma_shift_parse_with(c, s, false);
    lemma_shift_parse_with(c, s, true);
}

/// Any run of whitespace before the comment, of any length, is ignored the
/// same way.
pub proof fn law_leading_whitespace_run_is_ignored(w: Seq<char>, s: Seq<char>)
    requires
        forall|i: int| 0 <= i < w.len() ==> is_ws(#[trigger] w[i]),
    ensures
        spec_parse_tag_line(w + s) == spec_parse_tag_line(s),
    decreases w.len(),
{
    if w.len() > 0 {
        let rest = w.drop_first();
        assert(is_ws(w[0]));
        assert forall|i: int| 0 <= i < rest.len() implies is_ws(#[trigger] rest[i]) by {
            assert(rest[i] == w[i + 1]);
        }
        law_leading_whitespace_run_is_ignored(rest, s);
        assert(w + s =~= seq![w[0]] + (rest + s));
        law_leading_whitespace_is_ignored(w[0], rest + s);
    } else {
        assert(w + s =~= s);
    }
}

} // verus!
