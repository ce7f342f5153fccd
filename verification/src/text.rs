//! Character-level helpers shared by the lexer: views of `&str` as
//! sequences of characters, whitespace trimming, prefix tests and searches.

use vstd::prelude::*;

verus! {

/// Whether `c` has the Unicode `White_Space` property: the 25 code points
/// U+0009 to U+000D, U+0020, U+0085, U+00A0, U+1680, U+2000 to U+200A,
/// U+2028, U+2029, U+202F, U+205F and U+3000.
pub open spec fn char_is_whitespace(c: char) -> bool {
    let u = c as u32;
    ||| 0x09 <= u <= 0x0D
    ||| u == 0x20 || u == 0x85 || u == 0xA0 || u == 0x1680
    ||| 0x2000 <= u <= 0x200A
    ||| u == 0x2028 || u == 0x2029 || u == 0x202F || u == 0x205F || u == 0x3000
}

/// Whether `c` is whitespace, as `char::is_whitespace` answers it: whether
/// it has the Unicode `White_Space` property.
pub(crate) fn is_whitespace(c: char) -> (r: bool)
    ensures
        r == char_is_whitespace(c),
{
    let u = c as u32;
    (0x09 <= u && u <= 0x0D) || u == 0x20 || u == 0x85 || u == 0xA0 || u == 0x1680
        || (0x2000 <= u && u <= 0x200A) || u == 0x2028 || u == 0x2029 || u == 0x202F
        || u == 0x205F || u == 0x3000
}

/// The characters of `s`, in order.
pub fn chars_of(s: &str) -> (v: Vec<char>)
    ensures
        v@ == s@,
{
    broadcast use vstd::string::group_string_axioms;
    let mut v: Vec<char> = Vec::new();
    for c in it: s.chars()
        invariant
            v@ == it.seq().take(it.index() as int),
    {
        v.push(c);
    }
    assert(v@ =~= s@);
    v
}


/// `s` without its leading whitespace.
pub open spec fn trim_start(s: Seq<char>) -> Seq<char>
    decreases s.len(),
{
    if s.len() > 0 && char_is_whitespace(s[0]) {
        trim_start(s.drop_first())
    } else {
        s
    }
}

/// `s` without its trailing whitespace.
pub open spec fn trim_end(s: Seq<char>) -> Seq<char>
    decreases s.len(),
{
    if s.len() > 0 && char_is_whitespace(s.last()) {
        trim_end(s.drop_last())
    } else {
        s
    }
}

/// `s` without its leading and trailing whitespace.
pub open spec fn trim(s: Seq<char>) -> Seq<char> {
    trim_end(trim_start(s))
}

/// Whether `s` consists of whitespace only (the empty sequence included).
pub open spec fn is_blank(s: Seq<char>) -> bool {
    forall|i: int| 0 <= i < s.len() ==> char_is_whitespace(#[trigger] s[i])
}

/// Whether `s` begins with `p`.
pub open spec fn starts_with(s: Seq<char>, p: Seq<char>) -> bool {
    p.len() <= s.len() && s.subrange(0, p.len() as int) == p
}

/// Whether `p` occurs in `s` at position `k`.
pub open spec fn occurs_at(s: Seq<char>, p: Seq<char>, k: int) -> bool {
    0 <= k && k + p.len() <= s.len() && s.subrange(k, k + p.len()) == p
}

/// The first position at or after `k` where `p` occurs in `s`, if any.
pub open spec fn find_from(s: Seq<char>, p: Seq<char>, k: int) -> Option<int>
    decreases s.len() + 1 - k,
{
    if k < 0 || k + p.len() > s.len() {
        None
    } else if occurs_at(s, p, k) {
        Some(k)
    } else {
        find_from(s, p, k + 1)
    }
}

/// A found position lies in bounds and is the first occurrence at or after `k`;
/// no position is found only when `p` occurs nowhere at or after `k`.
pub proof fn lemma_find_from(s: Seq<char>, p: Seq<char>, k: int)
    ensures
        k < 0 ==> find_from(s, p, k) is None,
        0 <= k ==> match find_from(s, p, k) {
            Some(j) => k <= j && j + p.len() <= s.len() && occurs_at(s, p, j) && forall|m: int|
                k <= m < j ==> !occurs_at(s, p, m),
            None => forall|m: int| k <= m ==> !occurs_at(s, p, m),
        },
    decreases s.len() + 1 - k,
{
    if k < 0 || k + p.len() > s.len() {
    } else if occurs_at(s, p, k) {
    } else {
        lemma_find_from(s, p, k + 1);
    }
}

/// The position of the first character at or after `i` that differs from `c`
/// (the length of `s` if there is none).
pub open spec fn run_end(s: Seq<char>, c: char, i: int) -> int
    decreases s.len() - i,
{
    if 0 <= i < s.len() && s[i] == c {
        run_end(s, c, i + 1)
    } else {
        i
    }
}

/// The run that starts at `i` lies in bounds and consists of `c` only.
pub proof fn lemma_run_end(s: Seq<char>, c: char, i: int)
    ensures
        !(0 <= i < s.len() && s[i] == c) ==> run_end(s, c, i) == i,
        0 <= i <= s.len() ==> i <= run_end(s, c, i) <= s.len(),
        0 <= i <= s.len() ==> forall|j: int| i <= j < run_end(s, c, i) ==> s[j] == c,
        0 <= i <= s.len() && run_end(s, c, i) < s.len() ==> s[run_end(s, c, i)] != c,
        0 <= i < s.len() && s[i] == c ==> i < run_end(s, c, i),
    decreases s.len() - i,
{
    if 0 <= i < s.len() && s[i] == c {
        lemma_run_end(s, c, i + 1);
    }
}

/// `n` copies of `c`.
pub open spec fn repeat(c: char, n: int) -> Seq<char> {
    Seq::new(n as nat, |_j: int| c)
}

/// The first occurrence of `p` at or after position `k` of `s`.
pub fn find_chars(s: &Vec<char>, p: &Vec<char>, k: usize) -> (r: Option<usize>)
    ensures
        match r {
            Some(j) => find_from(s@, p@, k as int) == Some(j as int),
            None => find_from(s@, p@, k as int) is None,
        },
{
    let n = s.len();
    let m = p.len();
    if m > n {
        proof { lemma_find_from(s@, p@, k as int); }
        return None;
    }
    let mut j = k;
    while j <= n - m
        invariant
            n == s@.len(),
            m == p@.len(),
            m <= n,
            k <= j,
            find_from(s@, p@, k as int) == find_from(s@, p@, j as int),
        decreases n - j,
    {
        let mut t: usize = 0;
        let mut same = true;
        while t < m
            invariant
                n == s@.len(),
                m == p@.len(),
                j + m <= n,
                t <= m,
                same == (forall|u: int| 0 <= u < t ==> s@[j + u] == p@[u]),
            decreases m - t,
        {
            if s[j + t] != p[t] {
                same = false;
            }
            t = t + 1;
        }
        if same {
            assert(s@.subrange(j as int, j + m) =~= p@);
            return Some(j);
        }
        assert(!occurs_at(s@, p@, j as int)) by {
            if occurs_at(s@, p@, j as int) {
                assert forall|u: int| 0 <= u < m implies s@[j + u] == p@[u] by {
                    assert(s@.subrange(j as int, j + m)[u] == s@[j + u]);
                }
            }
        }
        j = j + 1;
    }
    None
}

/// The position just past the run of `c` that starts at `i`.
pub fn skip_run(s: &Vec<char>, c: char, i: usize) -> (r: usize)
    requires
        i <= s@.len(),
    ensures
        r == run_end(s@, c, i as int),
{
    let mut j = i;
    while j < s.len() && s[j] == c
        invariant
            i <= j <= s@.len(),
            run_end(s@, c, i as int) == run_end(s@, c, j as int),
        decreases s@.len() - j,
    {
        j = j + 1;
    }
    j
}

/// The bounds `(a, b)` such that `trim(s) == s[a..b]`.
pub fn trim_bounds(s: &Vec<char>) -> (r: (usize, usize))
    ensures
        r.0 <= r.1 <= s@.len(),
        trim(s@) == s@.subrange(r.0 as int, r.1 as int),
        trim_start(s@) == s@.subrange(r.0 as int, s@.len() as int),
{
    let n = s.len();
    let mut a: usize = 0;
    assert(s@.subrange(0, n as int) =~= s@);
    while a < n && is_whitespace(s[a])
        invariant
            n == s@.len(),
            a <= n,
            trim_start(s@) == trim_start(s@.subrange(a as int, n as int)),
        decreases n - a,
    {
        assert(s@.subrange(a as int, n as int).drop_first() =~= s@.subrange(a + 1, n as int));
        a = a + 1;
    }
    let ghost ts = s@.subrange(a as int, n as int);
    assert(trim_start(ts) == ts);
    let mut b: usize = n;
    while b > a && is_whitespace(s[b - 1])
        invariant
            n == s@.len(),
            a <= b <= n,
            ts == s@.subrange(a as int, n as int),
            trim_end(ts) == trim_end(s@.subrange(a as int, b as int)),
        decreases b - a,
    {
        assert(s@.subrange(a as int, b as int).drop_last() =~= s@.subrange(a as int, b - 1));
        b = b - 1;
    }
    (a, b)
}

/// `s` without its leading and trailing whitespace.
pub fn trim_str(s: &str) -> (r: &str)
    ensures
        r@ == trim(s@),
{
    let v = chars_of(s);
    let (a, b) = trim_bounds(&v);
    s.substring_char(a, b)
}

/// `s` without its leading whitespace.
pub fn trim_start_str(s: &str) -> (r: &str)
    ensures
        r@ == trim_start(s@),
{
    let v = chars_of(s);
    let (a, _b) = trim_bounds(&v);
    s.substring_char(a, v.len())
}

/// A new string holding the characters `from..to` of `s`.
pub fn substring(s: &str, from: usize, to: usize) -> (r: String)
    requires
        from <= to <= s@.len(),
    ensures
        r@ == s@.subrange(from as int, to as int),
{
    String::from_str(s.substring_char(from, to))
}

/// Trimming keeps a part of `s`: `trim(s)` is `s[a..b]` for some `a <= b`.
pub proof fn lemma_trim_len(s: Seq<char>)
    ensures
        trim_start(s).len() <= s.len(),
        trim(s).len() <= s.len(),
        trim_end(s).len() <= s.len(),
    decreases s.len(),
{
    if s.len() > 0 && char_is_whitespace(s[0]) {
        lemma_trim_len(s.drop_first());
    }
    lemma_trim_end_len(s);
    lemma_trim_end_len(trim_start(s));
}

proof fn lemma_trim_end_len(s: Seq<char>)
    ensures
        trim_end(s).len() <= s.len(),
    decreases s.len(),
{
    if s.len() > 0 && char_is_whitespace(s.last()) {
        lemma_trim_end_len(s.drop_last());
    }
}

/// Whether `s` begins with `p`.
pub fn has_prefix(s: &Vec<char>, p: &Vec<char>) -> (r: bool)
    ensures
        r == starts_with(s@, p@),
{
    if p.len() > s.len() {
        return false;
    }
    let mut i: usize = 0;
    while i < p.len()
        invariant
            p@.len() <= s@.len(),
            i <= p@.len(),
            forall|j: int| 0 <= j < i ==> s@[j] == p@[j],
        decreases p@.len() - i,
    {
        if s[i] != p[i] {
            assert(s@.subrange(0, p@.len() as int)[i as int] != p@[i as int]);
            return false;
        }
        i = i + 1;
    }
    assert(s@.subrange(0, p@.len() as int) =~= p@);
    true
}

/// Whether the string `s` begins with `p`.
pub fn str_has_prefix(s: &str, p: &Vec<char>) -> (r: bool)
    ensures
        r == starts_with(s@, p@),
{
    let v = chars_of(s);
    has_prefix(&v, p)
}

proof fn lemma_trim_start_shape(s: Seq<char>)
    ensures
        trim_start(s).len() == 0 || !char_is_whitespace(trim_start(s)[0]),
    decreases s.len(),
{
    if s.len() > 0 && char_is_whitespace(s[0]) {
        lemma_trim_start_shape(s.drop_first());
    }
}

proof fn lemma_trim_end_shape(s: Seq<char>)
    ensures
        trim_end(s).len() <= s.len(),
        trim_end(s) == s.subrange(0, trim_end(s).len() as int),
        trim_end(s).len() == 0 || !char_is_whitespace(trim_end(s).last()),
    decreases s.len(),
{
    if s.len() > 0 && char_is_whitespace(s.last()) {
        lemma_trim_end_shape(s.drop_last());
        assert(s.drop_last().subrange(0, trim_end(s).len() as int) =~= s.subrange(
            0,
            trim_end(s).len() as int,
        ));
    } else {
        assert(s.subrange(0, s.len() as int) =~= s);
    }
}

/// Trimming a trimmed sequence changes nothing.
pub proof fn lemma_trim_idempotent(s: Seq<char>)
    ensures
        trim(trim(s)) == trim(s),
{
    let t = trim_start(s);
    let u = trim_end(t);
    lemma_trim_start_shape(s);
    lemma_trim_end_shape(t);
    if u.len() > 0 {
        assert(u[0] == t[0]);
    }
    assert(trim_start(u) == u);
    lemma_trim_end_shape(u);
    assert(trim_end(u) == u);
}


/// Searching `s` from position `k + j` is searching the part of `s` from `k`
/// on from position `j`, with the position found moved by `k`.
pub proof fn lemma_find_from_shift(s: Seq<char>, p: Seq<char>, k: int, j: int)
    requires
        0 <= k <= s.len(),
        0 <= j,
    ensures
        match find_from(s.subrange(k, s.len() as int), p, j) {
            Some(x) => find_from(s, p, k + j) == Some(x + k),
            None => find_from(s, p, k + j) is None,
        },
    decreases s.len() + 1 - (k + j),
{
    let t = s.subrange(k, s.len() as int);
    if k + j + p.len() > s.len() {
    } else {
        assert(t.subrange(j, j + p.len()) =~= s.subrange(k + j, k + j + p.len()));
        if !occurs_at(s, p, k + j) {
            lemma_find_from_shift(s, p, k, j + 1);
        }
    }
}

/// The run of `c` at `k + j` in `s` is the run at `j` in the part of `s` from
/// `k` on, moved by `k`.
pub proof fn lemma_run_end_shift(s: Seq<char>, c: char, k: int, j: int)
    requires
        0 <= k <= s.len(),
        0 <= j,
    ensures
        run_end(s, c, k + j) == run_end(s.subrange(k, s.len() as int), c, j) + k,
    decreases s.len() - (k + j),
{
    let t = s.subrange(k, s.len() as int);
    if k + j < s.len() && s[k + j] == c {
        assert(t[j] == s[k + j]);
        lemma_run_end_shift(s, c, k, j + 1);
    } else if k + j < s.len() {
        assert(t[j] == s[k + j]);
    }
}

/// Where `s` has `m` copies of `c` from `i` on and then something else or its
/// end, the run of `c` at `i` ends after those copies.
pub proof fn lemma_run_end_exact(s: Seq<char>, c: char, i: int, m: int)
    requires
        0 <= i,
        0 <= m,
        i + m <= s.len(),
        forall|j: int| i <= j < i + m ==> s[j] == c,
        i + m < s.len() ==> s[i + m] != c,
    ensures
        run_end(s, c, i) == i + m,
    decreases m,
{
    if m > 0 {
        lemma_run_end_exact(s, c, i + 1, m - 1);
    }
}

/// Where `p` occurs in `s` at `j`, and at no position from `k` up to `j`, the
/// search from `k` finds it at `j`.
pub proof fn lemma_find_from_first(s: Seq<char>, p: Seq<char>, k: int, j: int)
    requires
        0 <= k <= j,
        occurs_at(s, p, j),
        forall|m: int| k <= m < j ==> !occurs_at(s, p, m),
    ensures
        find_from(s, p, k) == Some(j),
{
    lemma_find_from(s, p, k);
}


/// A sequence that begins with a character other than whitespace keeps that
/// character when trimmed.
pub proof fn lemma_trim_nonempty(s: Seq<char>)
    requires
        s.len() > 0,
        !char_is_whitespace(s[0]),
    ensures
        trim(s).len() > 0,
{
    assert(trim_start(s) == s);
    lemma_trim_end_shape(s);
    if trim_end(s).len() == 0 {
        lemma_trim_end_keeps_first(s);
    }
}

proof fn lemma_trim_end_keeps_first(s: Seq<char>)
    requires
        s.len() > 0,
        !char_is_whitespace(s[0]),
    ensures
        trim_end(s).len() > 0,
    decreases s.len(),
{
    if char_is_whitespace(s.last()) {
        assert(s.len() > 1);
        assert(s.drop_last()[0] == s[0]);
        lemma_trim_end_keeps_first(s.drop_last());
    }
}

} // verus!
