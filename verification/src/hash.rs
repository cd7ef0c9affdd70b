//! The identity of a tag: a SHA-256 digest, in lowercase hex, of its kind,
//! its labels (sorted), its message and its file, each field followed by a
//! NUL character.

use vstd::prelude::*;
use sha2::Digest;
use crate::parse::{Kind, strings_view};
use crate::text::chars_of;

verus! {

/// Names the SHA-256 digest of `data`.
pub uninterp spec fn sha256(data: Seq<u8>) -> Seq<u8>;

/// Calls `sha2::Sha256::digest`. Trusted: the result is the SHA-256 digest of
/// `data`, named `sha256(data)`, and has 32 bytes (the output size of SHA-256).
#[verifier::external_body]
fn sha256_digest(data: &[u8]) -> (r: Vec<u8>)
    ensures
        r@ == sha256(data@),
        r@.len() == 32,
{
    sha2::Sha256::digest(data).to_vec()
}

/// The lowercase hex digit for `v` (below 16).
pub open spec fn hex_char(v: int) -> char {
    seq!['0', '1', '2', '3', '4', '5', '6', '7', '8', '9', 'a', 'b', 'c', 'd', 'e', 'f'][v]
}

/// Each byte as two lowercase hex digits, high nibble first.
pub open spec fn hex_lower(data: Seq<u8>) -> Seq<char>
    decreases data.len(),
{
    if data.len() == 0 {
        seq![]
    } else {
        seq![hex_char((data[0] / 16) as int), hex_char((data[0] % 16) as int)] + hex_lower(data.drop_first())
    }
}

/// Calls `hex::encode`. Trusted: the result is each byte of `data` written as
/// two lowercase hex digits, high nibble first, in order.
#[verifier::external_body]
fn hex_encode(data: &[u8]) -> (r: String)
    ensures
        r@ == hex_lower(data@),
{
    hex::encode(data)
}

pub open spec fn is_lower_hex(c: char) -> bool {
    ('0' <= c <= '9') || ('a' <= c <= 'f')
}

pub proof fn lemma_hex_lower(data: Seq<u8>)
    ensures
        hex_lower(data).len() == 2 * data.len(),
        forall|i: int| 0 <= i < hex_lower(data).len() ==> is_lower_hex(#[trigger] hex_lower(data)[i]),
    decreases data.len(),
{
    if data.len() > 0 {
        lemma_hex_lower(data.drop_first());
        let d = data[0] as int;
        assert(0 <= d / 16 < 16 && 0 <= d % 16 < 16);
        let hexes = seq!['0', '1', '2', '3', '4', '5', '6', '7', '8', '9', 'a', 'b', 'c', 'd', 'e', 'f'];
        assert(forall|v: int| 0 <= v < 16 ==> is_lower_hex(#[trigger] hexes[v]));
        let h = hex_lower(data);
        let t = hex_lower(data.drop_first());
        assert forall|i: int| 0 <= i < h.len() implies is_lower_hex(#[trigger] h[i]) by {
            if i >= 2 {
                assert(h[i] == t[i - 2]);
            }
        }
    }
}

/// Lexicographic order on strings by code point, as `String`'s `Ord` orders
/// them (UTF-8 bytes compare in code point order).
pub open spec fn seq_le(a: Seq<char>, b: Seq<char>) -> bool
    decreases a.len(),
{
    if a.len() == 0 {
        true
    } else if b.len() == 0 {
        false
    } else if a[0] < b[0] {
        true
    } else if a[0] > b[0] {
        false
    } else {
        seq_le(a.drop_first(), b.drop_first())
    }
}

/// `x` placed before the first element of `s` that it does not exceed.
pub open spec fn insert_sorted(x: Seq<char>, s: Seq<Seq<char>>) -> Seq<Seq<char>>
    decreases s.len(),
{
    if s.len() == 0 {
        seq![x]
    } else if seq_le(x, s[0]) {
        seq![x] + s
    } else {
        seq![s[0]] + insert_sorted(x, s.drop_first())
    }
}

/// `labels` in ascending order.
pub open spec fn sort_labels(labels: Seq<Seq<char>>) -> Seq<Seq<char>>
    decreases labels.len(),
{
    if labels.len() == 0 {
        seq![]
    } else {
        insert_sorted(labels.last(), sort_labels(labels.drop_last()))
    }
}

/// The parts joined, with `sep` between each two.
pub open spec fn join(parts: Seq<Seq<char>>, sep: Seq<char>) -> Seq<char>
    decreases parts.len(),
{
    if parts.len() == 0 {
        seq![]
    } else if parts.len() == 1 {
        parts[0]
    } else {
        join(parts.drop_last(), sep) + sep + parts.last()
    }
}

/// The name of a kind as `{:?}` writes it.
pub open spec fn kind_name(k: Kind) -> Seq<char> {
    match k {
        Kind::Todo => "Todo"@,
        Kind::Bug => "Bug"@,
        Kind::Depr => "Depr"@,
    }
}

/// The text that is hashed: kind, labels (sorted, NUL-separated), message and
/// file, each followed by a NUL.
pub open spec fn hash_input(
    k: Kind,
    labels: Seq<Seq<char>>,
    message: Seq<char>,
    file: Seq<char>,
) -> Seq<char> {
    let nul = "\0"@;
    kind_name(k) + nul + join(sort_labels(labels), nul) + nul + message + nul + file + nul
}

/// The identity of a tag with these fields.
pub open spec fn spec_hash(k: Kind, labels: Seq<Seq<char>>, message: Seq<char>, file: Seq<char>) -> Seq<
    char,
> {
    hex_lower(sha256(vstd::utf8::encode_utf8(hash_input(k, labels, message, file))))
}

fn kind_name_exec(k: &Kind) -> (r: &'static str)
    ensures
        r@ == kind_name(*k),
{
    match k {
        Kind::Todo => "Todo",
        Kind::Bug => "Bug",
        Kind::Depr => "Depr",
    }
}

/// `seq_le(a, b)`.
pub fn str_le(a: &str, b: &str) -> (r: bool)
    ensures
        r == seq_le(a@, b@),
{
    let x = chars_of(a);
    let y = chars_of(b);
    let mut i: usize = 0;
    assert(x@.skip(0) =~= x@);
    assert(y@.skip(0) =~= y@);
    while i < x.len() && i < y.len() && x[i] == y[i]
        invariant
            i <= x@.len(),
            i <= y@.len(),
            seq_le(x@, y@) == seq_le(x@.skip(i as int), y@.skip(i as int)),
        decreases x@.len() - i,
    {
        assert(x@.skip(i as int).drop_first() =~= x@.skip(i + 1));
        assert(y@.skip(i as int).drop_first() =~= y@.skip(i + 1));
        i = i + 1;
    }
    if i == x.len() {
        true
    } else if i == y.len() {
        false
    } else {
        x[i] < y[i]
    }
}

proof fn lemma_insert_sorted_at(x: Seq<char>, s: Seq<Seq<char>>, k: int)
    requires
        0 <= k <= s.len(),
        forall|j: int| 0 <= j < k ==> !seq_le(x, #[trigger] s[j]),
        k < s.len() ==> seq_le(x, s[k]),
    ensures
        insert_sorted(x, s) == s.insert(k, x),
    decreases s.len(),
{
    if s.len() == 0 {
        assert(s.insert(k, x) =~= seq![x]);
    } else if k == 0 {
        assert(s.insert(k, x) =~= seq![x] + s);
    } else {
        let t = s.drop_first();
        assert forall|j: int| 0 <= j < k - 1 implies !seq_le(x, #[trigger] t[j]) by {
            assert(t[j] == s[j + 1]);
        }
        lemma_insert_sorted_at(x, t, k - 1);
        assert(s.insert(k, x) =~= seq![s[0]] + t.insert(k - 1, x));
    }
}

/// The labels in ascending order.
fn sorted_labels(labels: &[String]) -> (r: Vec<String>)
    ensures
        strings_view(r@) == sort_labels(strings_view(labels@)),
{
    let mut out: Vec<String> = Vec::new();
    let mut i: usize = 0;
    let ghost lv = strings_view(labels@);
    while i < labels.len()
        invariant
            i <= labels@.len(),
            lv == strings_view(labels@),
            strings_view(out@) == sort_labels(lv.take(i as int)),
        decreases labels@.len() - i,
    {
        let x = labels[i].clone();
        let mut k: usize = 0;
        while k < out.len() && !str_le(x.as_str(), out[k].as_str())
            invariant
                k <= out@.len(),
                forall|j: int| 0 <= j < k ==> !seq_le(x@, #[trigger] strings_view(out@)[j]),
            decreases out@.len() - k,
        {
            k = k + 1;
        }
        let ghost before = strings_view(out@);
        proof {
            lemma_insert_sorted_at(x@, before, k as int);
            assert(lv.take(i + 1).drop_last() =~= lv.take(i as int));
            assert(lv.take(i + 1).last() == x@);
        }
        out.insert(k, x);
        assert(strings_view(out@) =~= before.insert(k as int, x@));
        i = i + 1;
    }
    assert(lv.take(labels@.len() as int) =~= lv);
    out
}

/// Computes the identity of a tag: the SHA-256 digest, in lowercase hex, of
/// its kind, sorted labels, message and file, each followed by a NUL.
pub fn compute_hash(kind: &Kind, labels: &[String], message: &str, file: &str) -> (r: String)
    ensures
        r@ == spec_hash(*kind, strings_view(labels@), message@, file@),
        r@.len() == 64,
        forall|i: int| 0 <= i < r@.len() ==> is_lower_hex(#[trigger] r@[i]),
{
    let sorted = sorted_labels(labels);
    let ghost sv = strings_view(sorted@);
    let nul = "\0";
    let mut text = String::new();
    text.append(kind_name_exec(kind));
    text.append(nul);
    let ghost head = text@;
    let mut i: usize = 0;
    while i < sorted.len()
        invariant
            i <= sorted@.len(),
            sv == strings_view(sorted@),
            text@ == head + join(sv.take(i as int), nul@),
        decreases sorted@.len() - i,
    {
        assert(sv.take(i + 1).drop_last() =~= sv.take(i as int));
        if i > 0 {
            text.append(nul);
        }
        text.append(sorted[i].as_str());
        assert(sv.take(i + 1).last() == sorted@[i as int]@);
        if i == 0 {
            assert(join(sv.take(1), nul@) == sv.take(1)[0]);
        }
        i = i + 1;
    }
    assert(sv.take(sorted@.len() as int) =~= sv);
    text.append(nul);
    text.append(message);
    text.append(nul);
    text.append(file);
    text.append(nul);
    let digest = sha256_digest(text.as_str().as_bytes());
    let r = hex_encode(digest.as_slice());
    proof {
        lemma_hex_lower(digest@);
    }
    r
}

} // verus!

verus! {

proof fn lemma_seq_le_total(a: Seq<char>, b: Seq<char>)
    ensures
        seq_le(a, b) || seq_le(b, a),
        seq_le(a, b) && seq_le(b, a) ==> a == b,
    decreases a.len(),
{
    if a.len() > 0 && b.len() > 0 && a[0] == b[0] {
        lemma_seq_le_total(a.drop_first(), b.drop_first());
        if seq_le(a, b) && seq_le(b, a) {
            assert(a =~= seq![a[0]] + a.drop_first());
            assert(b =~= seq![b[0]] + b.drop_first());
        }
    } else if a.len() == 0 && b.len() == 0 {
        assert(a =~= b);
    }
}

proof fn lemma_seq_le_trans(a: Seq<char>, b: Seq<char>, c: Seq<char>)
    requires
        seq_le(a, b),
        seq_le(b, c),
    ensures
        seq_le(a, c),
    decreases a.len(),
{
    if a.len() > 0 && b.len() > 0 && c.len() > 0 && a[0] == b[0] && b[0] == c[0] {
        lemma_seq_le_trans(a.drop_first(), b.drop_first(), c.drop_first());
    }
}

pub open spec fn is_sorted(s: Seq<Seq<char>>) -> bool {
    forall|i: int, j: int| 0 <= i < j < s.len() ==> seq_le(#[trigger] s[i], #[trigger] s[j])
}

proof fn lemma_insert_sorted_props(x: Seq<char>, s: Seq<Seq<char>>)
    requires
        is_sorted(s),
    ensures
        is_sorted(insert_sorted(x, s)),
        insert_sorted(x, s).to_multiset() == s.to_multiset().insert(x),
    decreases s.len(),
{
    broadcast use vstd::seq_lib::to_multiset_insert;

    let r = insert_sorted(x, s);
    if s.len() == 0 {
        assert(r =~= s.insert(0, x));
    } else if seq_le(x, s[0]) {
        assert(r =~= s.insert(0, x));
        assert forall|i: int, j: int| 0 <= i < j < r.len() implies seq_le(#[trigger] r[i], #[trigger] r[j]) by {
            if i == 0 {
                if j > 1 {
                    lemma_seq_le_trans(x, s[0], s[j - 1]);
                }
            } else {
                assert(seq_le(s[i - 1], s[j - 1]));
            }
        }
    } else {
        let t = s.drop_first();
        assert(is_sorted(t)) by {
            assert forall|i: int, j: int| 0 <= i < j < t.len() implies seq_le(#[trigger] t[i], #[trigger] t[j]) by {
                assert(seq_le(s[i + 1], s[j + 1]));
            }
        }
        lemma_insert_sorted_props(x, t);
        lemma_seq_le_total(x, s[0]);
        let it = insert_sorted(x, t);
        assert(r =~= seq![s[0]] + it);
        assert forall|j: int| 0 <= j < it.len() implies seq_le(s[0], #[trigger] it[j]) by {
            assert(it.to_multiset().count(it[j]) > 0) by {
                vstd::seq_lib::to_multiset_contains(it, it[j]);
                assert(it.contains(it[j]));
            }
            if it[j] == x {
            } else {
                assert(t.to_multiset().count(it[j]) > 0);
                vstd::seq_lib::to_multiset_contains(t, it[j]);
                let k = choose|k: int| 0 <= k < t.len() && t[k] == it[j];
                assert(seq_le(s[0], s[k + 1]));
            }
        }
        assert forall|i: int, j: int| 0 <= i < j < r.len() implies seq_le(#[trigger] r[i], #[trigger] r[j]) by {
            if i == 0 {
                assert(r[j] == it[j - 1]);
            } else {
                assert(r[i] == it[i - 1] && r[j] == it[j - 1]);
            }
        }
        assert(s =~= seq![s[0]] + t);
        vstd::seq_lib::lemma_multiset_commutative(seq![s[0]], t);
        vstd::seq_lib::lemma_multiset_commutative(seq![s[0]], it);
        vstd::seq_lib::to_multiset_build(t, s[0]);
        vstd::seq_lib::to_multiset_build(it, s[0]);
        assert(t.push(s[0]) =~= t + seq![s[0]]);
        assert(it.push(s[0]) =~= it + seq![s[0]]);
        assert(r.to_multiset() =~= s.to_multiset().insert(x));
    }
}

proof fn lemma_sort_labels_props(l: Seq<Seq<char>>)
    ensures
        is_sorted(sort_labels(l)),
        sort_labels(l).to_multiset() == l.to_multiset(),
    decreases l.len(),
{
    if l.len() == 0 {
        assert(sort_labels(l).to_multiset() =~= l.to_multiset()) by {
            broadcast use vstd::seq_lib::group_to_multiset_ensures;
            assert(sort_labels(l) =~= l);
        }
    } else {
        lemma_sort_labels_props(l.drop_last());
        lemma_insert_sorted_props(l.last(), sort_labels(l.drop_last()));
        vstd::seq_lib::to_multiset_build(l.drop_last(), l.last());
        assert(l.drop_last().push(l.last()) =~= l);
    }
}

proof fn lemma_sorted_unique(s1: Seq<Seq<char>>, s2: Seq<Seq<char>>)
    requires
        is_sorted(s1),
        is_sorted(s2),
        s1.to_multiset() == s2.to_multiset(),
    ensures
        s1 == s2,
    decreases s1.len(),
{
    broadcast use vstd::seq_lib::group_to_multiset_ensures;

    vstd::seq_lib::to_multiset_len(s1);
    vstd::seq_lib::to_multiset_len(s2);
    if s1.len() == 0 {
        assert(s1 =~= s2);
    } else {
        let a = s1[0];
        let b = s2[0];
        vstd::seq_lib::to_multiset_contains(s1, b);
        vstd::seq_lib::to_multiset_contains(s2, a);
        assert(s1.contains(a));
        let j = choose|j: int| 0 <= j < s2.len() && s2[j] == a;
        let i = choose|i: int| 0 <= i < s1.len() && s1[i] == b;
        if j > 0 {
            assert(seq_le(s2[0], s2[j]));
        } else {
            lemma_seq_le_total(a, a);
        }
        if i > 0 {
            assert(seq_le(s1[0], s1[i]));
        } else {
            lemma_seq_le_total(b, b);
        }
        lemma_seq_le_total(a, b);
        assert(a == b);
        vstd::seq_lib::to_multiset_remove(s1, 0);
        vstd::seq_lib::to_multiset_remove(s2, 0);
        assert(s1.remove(0) =~= s1.drop_first());
        assert(s2.remove(0) =~= s2.drop_first());
        let t1 = s1.drop_first();
        let t2 = s2.drop_first();
        assert(is_sorted(t1)) by {
            assert forall|x: int, y: int| 0 <= x < y < t1.len() implies seq_le(#[trigger] t1[x], #[trigger] t1[y]) by {
                assert(seq_le(s1[x + 1], s1[y + 1]));
            }
        }
        assert(is_sorted(t2)) by {
            assert forall|x: int, y: int| 0 <= x < y < t2.len() implies seq_le(#[trigger] t2[x], #[trigger] t2[y]) by {
                assert(seq_le(s2[x + 1], s2[y + 1]));
            }
        }
        lemma_sorted_unique(t1, t2);
        assert forall|x: int| 0 <= x < s1.len() implies s1[x] == s2[x] by {
            if x > 0 {
                assert(s1[x] == t1[x - 1] && s2[x] == t2[x - 1]);
            }
        }
        assert(s1 =~= s2);
    }
}

/// The labels' order does not matter: lists of labels that hold the same
/// labels, each as many times, give the same identity.
pub proof fn law_label_order_does_not_affect_hash(
    k: Kind,
    l1: Seq<Seq<char>>,
    l2: Seq<Seq<char>>,
    message: Seq<char>,
    file: Seq<char>,
)
    requires
        l1.to_multiset() == l2.to_multiset(),
    ensures
        spec_hash(k, l1, message, file) == spec_hash(k, l2, message, file),
{
    lemma_sort_labels_props(l1);
    lemma_sort_labels_props(l2);
    lemma_sorted_unique(sort_labels(l1), sort_labels(l2));
}

} // verus!

verus! {

/// Whether `c` does not occur in `s`.
pub open spec fn lacks(s: Seq<char>, c: char) -> bool {
    forall|i: int| 0 <= i < s.len() ==> #[trigger] s[i] != c
}

proof fn lemma_split_at_last(x: Seq<char>, y: Seq<char>, x2: Seq<char>, y2: Seq<char>, c: char)
    requires
        x + seq![c] + y == x2 + seq![c] + y2,
        lacks(y, c),
        lacks(y2, c),
    ensures
        x == x2,
        y == y2,
{
    let t = x + seq![c] + y;
    let t2 = x2 + seq![c] + y2;
    assert(t.len() == t2.len());
    if y.len() < y2.len() {
        let p = x.len() as int;
        assert(t[p] == c);
        assert(t2[p] == y2[p - x2.len() - 1]);
        assert(false);
    } else if y.len() > y2.len() {
        let p = x2.len() as int;
        assert(t2[p] == c);
        assert(t[p] == y[p - x.len() - 1]);
        assert(false);
    }
    assert(x =~= x2) by {
        assert forall|i: int| 0 <= i < x.len() implies x[i] == x2[i] by {
            assert(t[i] == x[i] && t2[i] == x2[i]);
        }
    }
    assert(y =~= y2) by {
        assert forall|i: int| 0 <= i < y.len() implies y[i] == y2[i] by {
            assert(t[x.len() + 1 + i] == y[i] && t2[x.len() + 1 + i] == y2[i]);
        }
    }
}

proof fn lemma_split_at_first(x: Seq<char>, y: Seq<char>, x2: Seq<char>, y2: Seq<char>, c: char)
    requires
        x + seq![c] + y == x2 + seq![c] + y2,
        lacks(x, c),
        lacks(x2, c),
    ensures
        x == x2,
        y == y2,
{
    let t = x + seq![c] + y;
    let t2 = x2 + seq![c] + y2;
    assert(t.len() == t2.len());
    if x.len() < x2.len() {
        assert(t[x.len() as int] == c);
        assert(t2[x.len() as int] == x2[x.len() as int]);
        assert(false);
    } else if x.len() > x2.len() {
        assert(t2[x2.len() as int] == c);
        assert(t[x2.len() as int] == x[x2.len() as int]);
        assert(false);
    }
    assert(x =~= x2) by {
        assert forall|i: int| 0 <= i < x.len() implies x[i] == x2[i] by {
            assert(t[i] == x[i] && t2[i] == x2[i]);
        }
    }
    assert(y =~= y2) by {
        assert forall|i: int| 0 <= i < y.len() implies y[i] == y2[i] by {
            assert(t[x.len() + 1 + i] == y[i] && t2[x.len() + 1 + i] == y2[i]);
        }
    }
}

proof fn lemma_join_lacks(l: Seq<Seq<char>>, c: char)
    requires
        l.len() <= 1,
        forall|i: int| 0 <= i < l.len() ==> lacks(#[trigger] l[i], c),
    ensures
        lacks(join(l, seq![c]), c),
{
    if l.len() == 1 {
        assert(lacks(l[0], c));
    }
}

proof fn lemma_join_has(l: Seq<Seq<char>>, c: char)
    requires
        l.len() >= 2,
    ensures
        !lacks(join(l, seq![c]), c),
{
    let p = join(l.drop_last(), seq![c]);
    assert(join(l, seq![c]) == p + seq![c] + l.last());
    assert(join(l, seq![c])[p.len() as int] == c);
}

/// Joining with a separator that no part holds loses nothing, but that no
/// parts and one empty part join alike.
proof fn lemma_join_injective(a: Seq<Seq<char>>, b: Seq<Seq<char>>, c: char)
    requires
        forall|i: int| 0 <= i < a.len() ==> lacks(#[trigger] a[i], c),
        forall|i: int| 0 <= i < b.len() ==> lacks(#[trigger] b[i], c),
        join(a, seq![c]) == join(b, seq![c]),
    ensures
        a == b || (a.len() + b.len() == 1 && join(a, seq![c]).len() == 0),
    decreases a.len() + b.len(),
{
    let sep = seq![c];
    if a.len() >= 2 && b.len() >= 2 {
        let pa = a.drop_last();
        let pb = b.drop_last();
        assert(lacks(a.last(), c));
        assert(lacks(b.last(), c));
        lemma_split_at_last(join(pa, sep), a.last(), join(pb, sep), b.last(), c);
        assert forall|i: int| 0 <= i < pa.len() implies lacks(#[trigger] pa[i], c) by {
            assert(pa[i] == a[i]);
        }
        assert forall|i: int| 0 <= i < pb.len() implies lacks(#[trigger] pb[i], c) by {
            assert(pb[i] == b[i]);
        }
        lemma_join_injective(pa, pb, c);
        assert(a =~= pa.push(a.last()));
        assert(b =~= pb.push(b.last()));
    } else if a.len() >= 2 {
        lemma_join_has(a, c);
        lemma_join_lacks(b, c);
    } else if b.len() >= 2 {
        lemma_join_has(b, c);
        lemma_join_lacks(a, c);
    } else if a.len() == 1 && b.len() == 1 {
        assert(a =~= b);
    } else if a.len() == 0 && b.len() == 0 {
        assert(a =~= b);
    }
}

proof fn lemma_kind_name_lacks_nul(k: Kind)
    ensures
        lacks(kind_name(k), '\0'),
{
    reveal_strlit("Todo");
    reveal_strlit("Bug");
    reveal_strlit("Depr");
}

proof fn lemma_sort_labels_lack(l: Seq<Seq<char>>, c: char)
    requires
        forall|i: int| 0 <= i < l.len() ==> lacks(#[trigger] l[i], c),
    ensures
        forall|i: int| 0 <= i < sort_labels(l).len() ==> lacks(#[trigger] sort_labels(l)[i], c),
{
    broadcast use vstd::seq_lib::group_to_multiset_ensures;

    lemma_sort_labels_props(l);
    let s = sort_labels(l);
    assert forall|i: int| 0 <= i < s.len() implies lacks(#[trigger] s[i], c) by {
        vstd::seq_lib::to_multiset_contains(s, s[i]);
        assert(s.contains(s[i]));
        vstd::seq_lib::to_multiset_contains(l, s[i]);
        let j = choose|j: int| 0 <= j < l.len() && l[j] == s[i];
        assert(lacks(l[j], c));
    }
}

/// Field boundaries do not blur: when no field holds a NUL, the text that is
/// hashed determines the kind, the message, the file and the sorted labels,
/// except that no labels and a single empty label read alike.
pub proof fn law_hash_input_determines_fields(
    k1: Kind,
    l1: Seq<Seq<char>>,
    m1: Seq<char>,
    f1: Seq<char>,
    k2: Kind,
    l2: Seq<Seq<char>>,
    m2: Seq<char>,
    f2: Seq<char>,
)
    requires
        forall|i: int| 0 <= i < l1.len() ==> lacks(#[trigger] l1[i], '\0'),
        forall|i: int| 0 <= i < l2.len() ==> lacks(#[trigger] l2[i], '\0'),
        lacks(m1, '\0'),
        lacks(m2, '\0'),
        lacks(f1, '\0'),
        lacks(f2, '\0'),
        hash_input(k1, l1, m1, f1) == hash_input(k2, l2, m2, f2),
    ensures
        k1 == k2,
        m1 == m2,
        f1 == f2,
        sort_labels(l1) == sort_labels(l2) || (sort_labels(l1).len() + sort_labels(l2).len() == 1
            && join(sort_labels(l1), seq!['\0']).len() == 0),
{
    reveal_strlit("\0");
    let nul = seq!['\0'];
    assert("\0"@ == nul);
    let j1 = join(sort_labels(l1), nul);
    let j2 = join(sort_labels(l2), nul);
    let kn1 = kind_name(k1);
    let kn2 = kind_name(k2);
    let t1 = hash_input(k1, l1, m1, f1);
    let t2 = hash_input(k2, l2, m2, f2);
    let e: Seq<char> = seq![];
    assert(lacks(e, '\0'));
    assert(t1 == (kn1 + nul + j1 + nul + m1 + nul + f1) + nul + e);
    assert(t2 == (kn2 + nul + j2 + nul + m2 + nul + f2) + nul + e);
    lemma_split_at_last(kn1 + nul + j1 + nul + m1 + nul + f1, e, kn2 + nul + j2 + nul + m2 + nul + f2, e, '\0');
    lemma_split_at_last(kn1 + nul + j1 + nul + m1, f1, kn2 + nul + j2 + nul + m2, f2, '\0');
    lemma_split_at_last(kn1 + nul + j1, m1, kn2 + nul + j2, m2, '\0');
    lemma_kind_name_lacks_nul(k1);
    lemma_kind_name_lacks_nul(k2);
    lemma_split_at_first(kn1, j1, kn2, j2, '\0');
    reveal_strlit("Todo");
    reveal_strlit("Bug");
    reveal_strlit("Depr");
    assert(k1 == k2) by {
        if k1 != k2 {
            assert(kn1 != kn2) by {
                assert(kn1[0] != kn2[0] || kn1.len() != kn2.len());
            }
        }
    }
    lemma_sort_labels_lack(l1, '\0');
    lemma_sort_labels_lack(l2, '\0');
    lemma_join_injective(sort_labels(l1), sort_labels(l2), '\0');
}

} // verus!
