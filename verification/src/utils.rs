//! The language of a source file, from its path.

use vstd::prelude::*;
use crate::text::chars_of;

verus! {

/// The last component of a `/`-separated path, as `Path::file_name` finds it:
/// trailing `/` and `.` components are skipped; the path has none if what is
/// left ends in `..`, is empty, or ends in a separator.
pub open spec fn file_name(p: Seq<char>) -> Option<Seq<char>>
    decreases p.len(),
{
    if p.len() == 0 {
        None
    } else if p.last() == '/' {
        file_name(p.drop_last())
    } else if p.last() == '.' && (p.len() == 1 || p[p.len() - 2] == '/') {
        if p.len() == 1 {
            None
        } else {
            file_name(p.drop_last())
        }
    } else {
        let seg = p.skip(last_sep(p) + 1);
        if seg == seq!['.', '.'] {
            None
        } else {
            Some(seg)
        }
    }
}

/// The index of the last `/` in `p`, or -1.
pub open spec fn last_sep(p: Seq<char>) -> int
    decreases p.len(),
{
    if p.len() == 0 {
        -1
    } else if p.last() == '/' {
        p.len() - 1
    } else {
        last_sep(p.drop_last())
    }
}

/// The index of the last `.` in `f`, or -1.
pub open spec fn last_dot(f: Seq<char>) -> int
    decreases f.len(),
{
    if f.len() == 0 {
        -1
    } else if f.last() == '.' {
        f.len() - 1
    } else {
        last_dot(f.drop_last())
    }
}

/// The extension of a path, as `Path::extension` finds it: what follows the
/// last `.` of the file name, if that `.` is not its first character.
pub open spec fn extension(p: Seq<char>) -> Option<Seq<char>> {
    match file_name(p) {
        None => None,
        Some(f) => if last_dot(f) > 0 {
            Some(f.skip(last_dot(f) + 1))
        } else {
            None
        },
    }
}

/// The language name for a file extension; empty where it is not known.
pub open spec fn language_of_extension(e: Option<Seq<char>>) -> Seq<char> {
    match e {
        None => ""@,
        Some(x) => if x == "rs"@ {
            "rust"@
        } else if x == "ml"@ {
            "ocaml"@
        } else if x == "py"@ {
            "python"@
        } else if x == "js"@ {
            "javascript"@
        } else if x == "ts"@ {
            "typescript"@
        } else if x == "cpp"@ {
            "cpp"@
        } else if x == "c"@ {
            "c"@
        } else if x == "java"@ {
            "java"@
        } else if x == "cs"@ {
            "csharp"@
        } else {
            ""@
        },
    }
}

proof fn lemma_last_sep(p: Seq<char>)
    ensures
        -1 <= last_sep(p) < p.len(),
        last_sep(p) >= 0 ==> p[last_sep(p)] == '/',
        forall|k: int| last_sep(p) < k < p.len() ==> #[trigger] p[k] != '/',
    decreases p.len(),
{
    if p.len() > 0 && p.last() != '/' {
        lemma_last_sep(p.drop_last());
        assert forall|k: int| last_sep(p) < k < p.len() implies #[trigger] p[k] != '/' by {
            if k < p.len() - 1 {
                assert(p.drop_last()[k] == p[k]);
            }
        }
    }
}

proof fn lemma_last_dot(f: Seq<char>)
    ensures
        -1 <= last_dot(f) < f.len(),
        last_dot(f) >= 0 ==> f[last_dot(f)] == '.',
        forall|k: int| last_dot(f) < k < f.len() ==> #[trigger] f[k] != '.',
    decreases f.len(),
{
    if f.len() > 0 && f.last() != '.' {
        lemma_last_dot(f.drop_last());
        assert forall|k: int| last_dot(f) < k < f.len() implies #[trigger] f[k] != '.' by {
            if k < f.len() - 1 {
                assert(f.drop_last()[k] == f[k]);
            }
        }
    }
}

/// The extension of `p` as a span `[a, b)` of `p`, if it has one.
fn extension_span(p: &Vec<char>) -> (r: Option<(usize, usize)>)
    ensures
        match r {
            None => extension(p@) is None,
            Some((a, b)) => a <= b <= p@.len() && extension(p@) == Some(
                p@.subrange(a as int, b as int),
            ),
        },
{
    let mut end = p.len();
    assert(p@.take(end as int) =~= p@);
    // Skip trailing separators and `.` components.
    loop
        invariant
            end <= p@.len(),
            file_name(p@) == file_name(p@.take(end as int)),
        ensures
            0 < end <= p@.len(),
            file_name(p@) == file_name(p@.take(end as int)),
            p@[end - 1] != '/',
            !(p@[end - 1] == '.' && (end == 1 || p@[end - 2] == '/')),
        decreases end,
    {
        if end == 0 {
            return None;
        }
        let ghost t = p@.take(end as int);
        if p[end - 1] == '/' {
            assert(t.drop_last() =~= p@.take(end - 1));
            end = end - 1;
        } else if p[end - 1] == '.' && (end == 1 || p[end - 2] == '/') {
            if end == 1 {
                return None;
            }
            assert(t.drop_last() =~= p@.take(end - 1));
            end = end - 1;
        } else {
            break;
        }
    }
    let ghost t = p@.take(end as int);
    // Find the start of the last component.
    let mut start = end;
    assert(t.take(start as int) =~= t);
    while start > 0 && p[start - 1] != '/'
        invariant
            start <= end,
            end <= p@.len(),
            t == p@.take(end as int),
            last_sep(t) == last_sep(t.take(start as int)),
            forall|k: int| start <= k < end ==> #[trigger] p@[k] != '/',
        decreases start,
    {
        assert(t.take(start as int).drop_last() =~= t.take(start - 1));
        start = start - 1;
    }
    proof {
        lemma_last_sep(t);
        if start > 0 {
            assert(t.take(start as int).last() == '/');
        } else {
            assert(t.take(0) =~= Seq::<char>::empty());
        }
        assert(last_sep(t) + 1 == start);
        assert(t.skip(start as int) =~= p@.subrange(start as int, end as int));
    }
    let ghost seg = p@.subrange(start as int, end as int);
    if end - start == 2 && p[start] == '.' && p[start + 1] == '.' {
        assert(seg =~= seq!['.', '.']);
        return None;
    }
    assert(seg != seq!['.', '.']);
    assert(t.last() == p@[end - 1]);
    assert(t.len() == 1 ==> t.last() == p@[0]);
    assert(t.len() >= 2 ==> t[t.len() - 2] == p@[end - 2]);
    assert(file_name(t) == Some(seg));
    // Find the last dot of the component.
    let mut d = end;
    assert(seg.take(d - start) =~= seg);
    while d > start && p[d - 1] != '.'
        invariant
            start <= d <= end,
            end <= p@.len(),
            seg == p@.subrange(start as int, end as int),
            last_dot(seg) == last_dot(seg.take(d - start)),
        decreases d,
    {
        assert(seg.take(d - start).drop_last() =~= seg.take(d - start - 1));
        d = d - 1;
    }
    proof {
        if d > start {
            assert(seg.take(d - start).last() == '.');
        } else {
            assert(seg.take(0) =~= Seq::<char>::empty());
        }
    }
    if d - start > 1 {
        assert(seg.skip(d - start) =~= p@.subrange(d as int, end as int));
        Some((d, end))
    } else {
        None
    }
}

fn span_is(p: &Vec<char>, a: usize, b: usize, word: &str) -> (r: bool)
    requires
        a <= b <= p@.len(),
    ensures
        r == (p@.subrange(a as int, b as int) == word@),
{
    let w = chars_of(word);
    if b - a != w.len() {
        assert(p@.subrange(a as int, b as int).len() != word@.len());
        return false;
    }
    let mut k: usize = 0;
    while k < w.len()
        invariant
            k <= w@.len(),
            w@ == word@,
            b - a == w@.len(),
            a <= b <= p@.len(),
            forall|t: int| 0 <= t < k ==> p@[a + t] == w@[t],
        decreases w@.len() - k,
    {
        if p[a + k] != w[k] {
            assert(p@.subrange(a as int, b as int)[k as int] != word@[k as int]);
            return false;
        }
        k = k + 1;
    }
    assert(p@.subrange(a as int, b as int) =~= w@);
    true
}

/// The language of a source file, from the extension of its path; empty
/// where the extension is missing or not known.
pub fn language_from_path(path: &str) -> (r: &'static str)
    ensures
        r@ == language_of_extension(extension(path@)),
{
    let p = chars_of(path);
    match extension_span(&p) {
        None => "",
        Some((a, b)) => {
            if span_is(&p, a, b, "rs") {
                "rust"
            } else if span_is(&p, a, b, "ml") {
                "ocaml"
            } else if span_is(&p, a, b, "py") {
                "python"
            } else if span_is(&p, a, b, "js") {
                "javascript"
            } else if span_is(&p, a, b, "ts") {
                "typescript"
            } else if span_is(&p, a, b, "cpp") {
                "cpp"
            } else if span_is(&p, a, b, "c") {
                "c"
            } else if span_is(&p, a, b, "java") {
                "java"
            } else if span_is(&p, a, b, "cs") {
                "csharp"
            } else {
                ""
            }
        },
    }
}

} // verus!
