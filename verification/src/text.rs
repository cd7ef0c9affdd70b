//! Character-level helpers shared by the parsers: whitespace, trimming,
//! and moving between `&str`, `String` and `Vec<char>`.

use vstd::prelude::*;
use vstd::std_specs::iter::IteratorSpec;

verus! {

/// Unicode `White_Space`: the set matched by a regex `\s` and by
/// `char::is_whitespace`, which `str::trim` strips.
pub open spec fn is_ws(c: char) -> bool {
    let u = c as u32;
    ||| (0x09 <= u <= 0x0d)
    ||| u == 0x20
    ||| u == 0x85
    ||| u == 0xa0
    ||| u == 0x1680
    ||| (0x2000 <= u <= 0x200a)
    ||| u == 0x2028
    ||| u == 0x2029
    ||| u == 0x202f
    ||| u == 0x205f
    ||| u == 0x3000
}

pub fn char_is_ws(c: char) -> (r: bool)
    ensures
        r == is_ws(c),
{
    let u = c as u32;
    (0x09 <= u && u <= 0x0d) || u == 0x20 || u == 0x85 || u == 0xa0 || u == 0x1680 || (0x2000
        <= u && u <= 0x200a) || u == 0x2028 || u == 0x2029 || u == 0x202f || u == 0x205f || u
        == 0x3000
}

/// The characters of `s`, in order.
pub fn chars_of(s: &str) -> (v: Vec<char>)
    ensures
        v@ == s@,
{
    let mut v: Vec<char> = Vec::new();
    let mut it = s.chars();
    loop
        invariant
            v@ + it.remaining() == s@,
            it.obeys_prophetic_iter_laws(),
            it.decrease() is Some,
        ensures
            v@ == s@,
        decreases it.decrease()->0,
    {
        match it.next() {
            Some(c) => {
                v.push(c);
            },
            None => {
                assert(it.remaining().len() == 0);
                break;
            },
        }
    }
    v
}

} // verus!

verus! {

/// First index in `[i, end)` that does not hold whitespace, or `end`.
pub open spec fn skip_ws(s: Seq<char>, i: int, end: int) -> int
    decreases end - i,
{
    if i < end && is_ws(s[i]) {
        skip_ws(s, i + 1, end)
    } else {
        i
    }
}

/// Going left from `j`, the first index `k` in `[start, j]` with `k == start`
/// or `s[k - 1]` not whitespace: where trailing whitespace of `s[start..j]` begins.
pub open spec fn skip_ws_back(s: Seq<char>, start: int, j: int) -> int
    decreases j - start,
{
    if start < j && is_ws(s[j - 1]) {
        skip_ws_back(s, start, j - 1)
    } else {
        j
    }
}

/// First index in `[i, end)` holding `c`, or `end`.
pub open spec fn find_char(s: Seq<char>, i: int, end: int, c: char) -> int
    decreases end - i,
{
    if i < end && s[i] != c {
        find_char(s, i + 1, end, c)
    } else {
        i
    }
}

/// `s[a..b]` with leading and trailing whitespace removed, as `str::trim` does.
pub open spec fn trim_range(s: Seq<char>, a: int, b: int) -> Seq<char> {
    let lo = skip_ws(s, a, b);
    s.subrange(lo, skip_ws_back(s, lo, b))
}

pub proof fn lemma_skip_ws_bounds(s: Seq<char>, i: int, end: int)
    requires
        i <= end,
    ensures
        i <= skip_ws(s, i, end) <= end,
        skip_ws(s, i, end) < end ==> !is_ws(s[skip_ws(s, i, end)]),
    decreases end - i,
{
    if i < end && is_ws(s[i]) {
        lemma_skip_ws_bounds(s, i + 1, end);
    }
}

pub proof fn lemma_skip_ws_back_bounds(s: Seq<char>, start: int, j: int)
    requires
        start <= j,
    ensures
        start <= skip_ws_back(s, start, j) <= j,
        skip_ws_back(s, start, j) > start ==> !is_ws(s[skip_ws_back(s, start, j) - 1]),
        start < j && !is_ws(s[start]) ==> skip_ws_back(s, start, j) > start,
    decreases j - start,
{
    if start < j && is_ws(s[j - 1]) {
        lemma_skip_ws_back_bounds(s, start, j - 1);
    }
}

pub proof fn lemma_find_char_bounds(s: Seq<char>, i: int, end: int, c: char)
    requires
        i <= end,
    ensures
        i <= find_char(s, i, end, c) <= end,
        forall|k: int| i <= k < find_char(s, i, end, c) ==> #[trigger] s[k] != c,
        find_char(s, i, end, c) < end ==> s[find_char(s, i, end, c)] == c,
    decreases end - i,
{
    if i < end && s[i] != c {
        lemma_find_char_bounds(s, i + 1, end, c);
    }
}

pub fn skip_ws_exec(s: &Vec<char>, i: usize, end: usize) -> (r: usize)
    requires
        i <= end <= s@.len(),
    ensures
        r == skip_ws(s@, i as int, end as int),
        i <= r <= end,
{
    let mut j = i;
    while j < end && char_is_ws(s[j])
        invariant
            i <= j <= end <= s@.len(),
            skip_ws(s@, i as int, end as int) == skip_ws(s@, j as int, end as int),
        decreases end - j,
    {
        j = j + 1;
    }
    j
}

pub fn skip_ws_back_exec(s: &Vec<char>, start: usize, j: usize) -> (r: usize)
    requires
        start <= j <= s@.len(),
    ensures
        r == skip_ws_back(s@, start as int, j as int),
        start <= r <= j,
{
    let mut k = j;
    while start < k && char_is_ws(s[k - 1])
        invariant
            start <= k <= j <= s@.len(),
            skip_ws_back(s@, start as int, j as int) == skip_ws_back(s@, start as int, k as int),
        decreases k - start,
    {
        k = k - 1;
    }
    k
}

pub fn find_char_exec(s: &Vec<char>, i: usize, end: usize, c: char) -> (r: usize)
    requires
        i <= end <= s@.len(),
    ensures
        r == find_char(s@, i as int, end as int, c),
        i <= r <= end,
{
    let mut j = i;
    while j < end && s[j] != c
        invariant
            i <= j <= end <= s@.len(),
            find_char(s@, i as int, end as int, c) == find_char(s@, j as int, end as int, c),
        decreases end - j,
    {
        j = j + 1;
    }
    j
}

/// Whether no character of `s[a..b]` is a line feed.
pub open spec fn no_newline(s: Seq<char>, a: int, b: int) -> bool {
    forall|k: int| a <= k < b ==> #[trigger] s[k] != '\n'
}

pub fn no_newline_exec(s: &Vec<char>, a: usize, b: usize) -> (r: bool)
    requires
        a <= b <= s@.len(),
    ensures
        r == no_newline(s@, a as int, b as int),
{
    let mut k = a;
    while k < b
        invariant
            a <= k <= b <= s@.len(),
            no_newline(s@, a as int, k as int),
        decreases b - k,
    {
        if s[k] == '\n' {
            return false;
        }
        k = k + 1;
    }
    true
}

} // verus!

verus! {

/// Calls `String::push`. Trusted: `c` is appended to `s`.
#[verifier::external_body]
pub fn push_char(s: &mut String, c: char)
    ensures
        final(s)@ == old(s)@.push(c),
{
    s.push(c);
}

/// The characters `s[a..b]` as a `String`.
pub fn string_of_range(s: &Vec<char>, a: usize, b: usize) -> (r: String)
    requires
        a <= b <= s@.len(),
    ensures
        r@ == s@.subrange(a as int, b as int),
{
    let mut r = String::new();
    let mut k = a;
    while k < b
        invariant
            a <= k <= b <= s@.len(),
            r@ == s@.subrange(a as int, k as int),
        decreases b - k,
    {
        push_char(&mut r, s[k]);
        assert(s@.subrange(a as int, k + 1) =~= s@.subrange(a as int, k as int).push(s@[k as int]));
        k = k + 1;
    }
    r
}

} // verus!

verus! {

/// Whether `a` and `b` hold the same characters.
pub fn str_eq(a: &str, b: &str) -> (r: bool)
    ensures
        r == (a@ == b@),
{
    a.to_owned() == b.to_owned()
}

} // verus!

verus! {

/// The character of a decimal digit `d`.
pub open spec fn digit_char(d: int) -> char {
    if d == 0 {
        '0'
    } else if d == 1 {
        '1'
    } else if d == 2 {
        '2'
    } else if d == 3 {
        '3'
    } else if d == 4 {
        '4'
    } else if d == 5 {
        '5'
    } else if d == 6 {
        '6'
    } else if d == 7 {
        '7'
    } else if d == 8 {
        '8'
    } else {
        '9'
    }
}

/// `n` written in decimal, without leading zeros.
pub open spec fn decimal(n: nat) -> Seq<char>
    decreases n,
{
    if n < 10 {
        seq![digit_char(n as int)]
    } else {
        decimal(n / 10).push(digit_char((n % 10) as int))
    }
}

fn digit_char_exec(d: usize) -> (r: char)
    requires
        d < 10,
    ensures
        r == digit_char(d as int),
{
    if d == 0 {
        '0'
    } else if d == 1 {
        '1'
    } else if d == 2 {
        '2'
    } else if d == 3 {
        '3'
    } else if d == 4 {
        '4'
    } else if d == 5 {
        '5'
    } else if d == 6 {
        '6'
    } else if d == 7 {
        '7'
    } else if d == 8 {
        '8'
    } else {
        '9'
    }
}

/// Appends `n`, written in decimal, to `s`.
pub fn push_decimal(s: &mut String, n: usize)
    ensures
        final(s)@ == old(s)@ + decimal(n as nat),
    decreases n,
{
    if n >= 10 {
        push_decimal(s, n / 10);
    }
    push_char(s, digit_char_exec(n % 10));
    assert(s@ =~= old(s)@ + decimal(n as nat));
}

/// The number a string of decimal digits stands for.
pub open spec fn value_of_digits(s: Seq<char>) -> int
    decreases s.len(),
{
    if s.len() == 0 {
        0
    } else {
        value_of_digits(s.drop_last()) * 10 + ((s.last() as u32) - ('0' as u32))
    }
}

proof fn lemma_digit_char(d: int)
    requires
        0 <= d < 10,
    ensures
        '0' <= digit_char(d) <= '9',
        (digit_char(d) as u32) - ('0' as u32) == d,
        d != 0 ==> digit_char(d) != '0',
{
}

/// `decimal(n)` is `n` written in decimal: one or more digits, standing for
/// `n`, with no leading zero.
pub proof fn law_decimal_writes_the_number(n: nat)
    ensures
        decimal(n).len() >= 1,
        forall|i: int| 0 <= i < decimal(n).len() ==> '0' <= #[trigger] decimal(n)[i] <= '9',
        value_of_digits(decimal(n)) == n,
        decimal(n).len() > 1 ==> decimal(n)[0] != '0',
    decreases n,
{
    if n < 10 {
        lemma_digit_char(n as int);
        assert(decimal(n) == seq![digit_char(n as int)]);
        assert(seq![digit_char(n as int)].drop_last() =~= Seq::<char>::empty());
        assert(value_of_digits(Seq::<char>::empty()) == 0);
        assert(seq![digit_char(n as int)].last() == digit_char(n as int));
        assert(value_of_digits(decimal(n)) == n);
    } else {
        law_decimal_writes_the_number(n / 10);
        let d = decimal(n / 10);
        let dd = digit_char((n % 10) as int);
        lemma_digit_char((n % 10) as int);
        assert(decimal(n) == d.push(dd));
        assert(d.push(dd).drop_last() =~= d);
        assert(d.push(dd)[0] == d[0]);
        assert forall|i: int| 0 <= i < decimal(n).len() implies '0' <= #[trigger] decimal(n)[i]
            <= '9' by {
            if i < d.len() {
                assert(decimal(n)[i] == d[i]);
            }
        }
        if n / 10 < 10 {
            lemma_digit_char((n / 10) as int);
            assert(d[0] == digit_char((n / 10) as int));
        } else {
            law_decimal_writes_the_number(n / 10 / 10);
            assert(d.len() > 1);
        }
        assert(d.push(dd).last() == dd);
        assert(value_of_digits(d.push(dd)) == value_of_digits(d) * 10 + ((dd as u32) - ('0' as u32)));
        assert(n == (n / 10) * 10 + n % 10);
        assert(value_of_digits(decimal(n)) == n);
    }
}

} // verus!
