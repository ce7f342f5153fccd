//! Laws of the inline lexer: lexing goes on after each piece of markup, and
//! the text of a link is lexed like any other text.

use vstd::prelude::*;
use crate::inline_parser::{
    code_end, code_tokens, emphasis_end, emphasis_tokens, image_match, image_tokens,
    inline_tokens, is_markup_char, lemma_code_end, lemma_emphasis_end, link_match, link_tokens, scan, tail_text,
    text_run,
};
use crate::text::{
    find_from, lemma_find_from, lemma_find_from_first, lemma_find_from_shift, lemma_run_end,
    lemma_run_end_exact, lemma_run_end_shift, occurs_at, repeat, run_end,
};
use crate::token::TokenV;

verus! {

/// The part of `s` from position `k` on.
pub open spec fn suffix(s: Seq<char>, k: int) -> Seq<char> {
    s.subrange(k, s.len() as int)
}

proof fn lemma_emphasis_shift(s: Seq<char>, k: int, i: int)
    requires
        0 <= k <= s.len(),
        0 <= i,
        k + i < s.len(),
    ensures
        emphasis_end(s, k + i) == emphasis_end(suffix(s, k), i) + k,
        emphasis_tokens(s, k + i) == emphasis_tokens(suffix(s, k), i),
{
    let t = suffix(s, k);
    lemma_run_end_shift(s, '*', k, i);
    lemma_run_end(t, '*', i);
    let n = run_end(t, '*', i);
    let count = n - i;
    lemma_find_from_shift(s, repeat('*', count), k, n);
    lemma_find_from(t, repeat('*', count), n);
    match find_from(t, repeat('*', count), n) {
        Some(f) => {
            assert(s.subrange(n + k, f + k) =~= t.subrange(n, f));
        },
        None => {},
    }
}

proof fn lemma_code_shift(s: Seq<char>, k: int, i: int)
    requires
        0 <= k <= s.len(),
        0 <= i,
        k + i < s.len(),
    ensures
        code_end(s, k + i) == code_end(suffix(s, k), i) + k,
        code_tokens(s, k + i) == code_tokens(suffix(s, k), i),
{
    let t = suffix(s, k);
    lemma_run_end_shift(s, '`', k, i);
    lemma_run_end(t, '`', i);
    let n = run_end(t, '`', i);
    lemma_find_from_shift(s, seq!['`'], k, n);
    lemma_find_from(t, seq!['`'], n);
    match find_from(t, seq!['`'], n) {
        Some(f) => {
            assert(s.subrange(n + k, f + k) =~= t.subrange(n, f));
        },
        None => {},
    }
}

proof fn lemma_image_shift(s: Seq<char>, k: int, i: int)
    requires
        0 <= k <= s.len(),
        0 <= i,
        k + i < s.len(),
    ensures
        (image_match(s, k + i) is Some) == (image_match(suffix(s, k), i) is Some),
        image_tokens(s, k + i) == image_tokens(suffix(s, k), i),
{
    let t = suffix(s, k);
    if i + 1 < t.len() && t[i + 1] == '[' {
        assert(s[k + i + 1] == t[i + 1]);
        lemma_find_from_shift(s, seq![']', '('], k, i + 2);
        lemma_find_from(t, seq![']', '('], i + 2);
        match find_from(t, seq![']', '('], i + 2) {
            Some(f) => {
                lemma_find_from_shift(s, seq![')'], k, f + 2);
                lemma_find_from(t, seq![')'], f + 2);
                match find_from(t, seq![')'], f + 2) {
                    Some(g) => {
                        assert(s.subrange(f + k + 2, g + k) =~= t.subrange(f + 2, g));
                        assert(s.subrange(k + i + 2, f + k) =~= t.subrange(i + 2, f));
                        assert(s.subrange(g + k + 1, s.len() as int) =~= t.subrange(
                            g + 1,
                            t.len() as int,
                        ));
                    },
                    None => {},
                }
            },
            None => {},
        }
    } else if k + i + 1 < s.len() {
        assert(s[k + i + 1] == t[i + 1]);
    }
}

proof fn lemma_link_shift(s: Seq<char>, k: int, i: int)
    requires
        0 <= k <= s.len(),
        0 <= i,
        k + i < s.len(),
    ensures
        link_tokens(s, k + i) == link_tokens(suffix(s, k), i),
{
    let t = suffix(s, k);
    lemma_find_from_shift(s, seq![']', '('], k, i + 1);
    lemma_find_from(t, seq![']', '('], i + 1);
    match find_from(t, seq![']', '('], i + 1) {
        Some(f) => {
            lemma_find_from_shift(s, seq![')'], k, f + 2);
            lemma_find_from(t, seq![')'], f + 2);
            match find_from(t, seq![')'], f + 2) {
                Some(g) => {
                    assert(s.subrange(f + k + 2, g + k) =~= t.subrange(f + 2, g));
                    assert(s.subrange(k + i + 1, f + k) =~= t.subrange(i + 1, f));
                    assert(s.subrange(g + k + 1, s.len() as int) =~= t.subrange(
                        g + 1,
                        t.len() as int,
                    ));
                },
                None => {
                    assert(s.subrange(k + i, s.len() as int) =~= t.subrange(i, t.len() as int));
                },
            }
        },
        None => {
            assert(s.subrange(k + i, s.len() as int) =~= t.subrange(i, t.len() as int));
        },
    }
}

/// Lexing `s` from position `k` on, with nothing pending, is lexing the part
/// of `s` from `k` on: what comes before `k` does not matter.
pub proof fn lemma_scan_shift(s: Seq<char>, k: int, a: int, i: int)
    requires
        0 <= k <= s.len(),
        0 <= a <= i <= s.len() - k,
    ensures
        scan(s, k + a, k + i) == scan(suffix(s, k), a, i),
    decreases s.len() - k - i,
{
    let t = suffix(s, k);
    assert(s.subrange(k + a, k + i) =~= t.subrange(a, i));
    if i < t.len() {
        assert(t[i] == s[k + i]);
        if t[i] == '*' {
            lemma_emphasis_shift(s, k, i);
            lemma_emphasis_end(t, i);
            let e = emphasis_end(t, i);
            lemma_emphasis_bound(t, i);
            lemma_scan_shift(s, k, e, e);
        } else if t[i] == '`' {
            lemma_code_shift(s, k, i);
            lemma_code_end(t, i);
            let e = code_end(t, i);
            lemma_code_bound(t, i);
            lemma_scan_shift(s, k, e, e);
        } else if t[i] == '!' {
            lemma_image_shift(s, k, i);
            if image_match(t, i) is Some {
            } else if i + 1 < t.len() && t[i + 1] == '[' {
                assert(s[k + i + 1] == t[i + 1]);
                lemma_scan_shift(s, k, i + 1, i + 1);
            } else {
                if k + i + 1 < s.len() {
                    assert(s[k + i + 1] == t[i + 1]);
                }
                lemma_scan_shift(s, k, i, i + 1);
            }
        } else if t[i] == '[' {
            lemma_link_shift(s, k, i);
        } else {
            lemma_scan_shift(s, k, a, i + 1);
        }
    }
}

proof fn lemma_emphasis_bound(s: Seq<char>, i: int)
    requires
        0 <= i < s.len(),
    ensures
        emphasis_end(s, i) <= s.len(),
{
    lemma_run_end(s, '*', i);
    let n = run_end(s, '*', i);
    lemma_find_from(s, repeat('*', n - i), n);
}

proof fn lemma_code_bound(s: Seq<char>, i: int)
    requires
        0 <= i < s.len(),
    ensures
        code_end(s, i) <= s.len(),
{
    lemma_run_end(s, '`', i);
    let n = run_end(s, '`', i);
    lemma_find_from(s, seq!['`'], n);
}

/// Lexing `s` from position `k` on, with nothing pending, gives the tokens of
/// the rest of `s`.
pub proof fn lemma_scan_rest(s: Seq<char>, k: int)
    requires
        0 <= k <= s.len(),
    ensures
        scan(s, k, k) == inline_tokens(suffix(s, k)),
{
    lemma_scan_shift(s, k, 0, 0);
}


/// Whether `x` holds no `c`.
pub open spec fn free_of(x: Seq<char>, c: char) -> bool {
    forall|j: int| 0 <= j < x.len() ==> #[trigger] x[j] != c
}

proof fn lemma_first_after(s: Seq<char>, d: Seq<char>, c: char, lo: int, hi: int)
    requires
        0 <= lo <= hi,
        d.len() > 0,
        d[0] == c,
        occurs_at(s, d, hi),
        forall|m: int| lo <= m < hi ==> s[m] != c,
    ensures
        find_from(s, d, lo) == Some(hi),
{
    assert forall|m: int| lo <= m < hi implies !occurs_at(s, d, m) by {
        if occurs_at(s, d, m) {
            assert(s.subrange(m, m + d.len())[0] == s[m]);
        }
    }
    lemma_find_from_first(s, d, lo, hi);
}

proof fn lemma_emphasis_pair(a: Seq<char>, b: Seq<char>, c: int)
    requires
        c == 1 || c == 2,
        a.len() > 0,
        free_of(a, '*'),
    ensures
        inline_tokens(repeat('*', c) + a + repeat('*', c) + b) == (if c == 1 {
            seq![TokenV::EmphasisOpen]
        } else {
            seq![TokenV::StrongOpen]
        }) + inline_tokens(a) + (if c == 1 {
            seq![TokenV::EmphasisClose]
        } else {
            seq![TokenV::StrongClose]
        }) + inline_tokens(b),
{
    let d = repeat('*', c);
    let s = d + a + d + b;
    let n = a.len() as int;
    assert forall|j: int| 0 <= j < c implies s[j] == '*' by {
        assert(s[j] == d[j]);
    }
    assert(s[c] == a[0]);
    lemma_run_end_exact(s, '*', 0, c);
    assert(s.subrange(c + n, c + n + c) =~= d);
    assert forall|m: int| c <= m < c + n implies s[m] != '*' by {
        assert(s[m] == a[m - c]);
    }
    lemma_first_after(s, d, '*', c, c + n);
    let e = c + n + c;
    assert(emphasis_end(s, 0) == e);
    assert(s.subrange(c, c + n) =~= a);
    lemma_scan_rest(s, e);
    assert(suffix(s, e) =~= b);
    assert(text_run(s, 0, 0) =~= Seq::<TokenV>::empty());
    assert(scan(s, 0, 0) == text_run(s, 0, 0) + emphasis_tokens(s, 0) + scan(s, e, e));
}

/// Law: lexing goes on after emphasis: where `a` is text without `*`, the
/// tokens of `*a*` or `**a**` followed by any `b` are the emphasis (or strong
/// emphasis) of the tokens of `a`, then the tokens of `b`.
pub proof fn law_lexing_goes_on_after_emphasis(a: Seq<char>, b: Seq<char>)
    requires
        a.len() > 0,
        free_of(a, '*'),
    ensures
        inline_tokens(seq!['*'] + a + seq!['*'] + b) == seq![TokenV::EmphasisOpen] + inline_tokens(a)
            + seq![TokenV::EmphasisClose] + inline_tokens(b),
        inline_tokens(seq!['*', '*'] + a + seq!['*', '*'] + b) == seq![TokenV::StrongOpen]
            + inline_tokens(a) + seq![TokenV::StrongClose] + inline_tokens(b),
{
    assert(repeat('*', 1) =~= seq!['*']);
    assert(repeat('*', 2) =~= seq!['*', '*']);
    lemma_emphasis_pair(a, b, 1);
    lemma_emphasis_pair(a, b, 2);
}

/// Law: lexing goes on after a code span: where `c` is text without a
/// backtick, the tokens of `` `c` `` followed by any `b` are the code `c`,
/// then the tokens of `b`.
pub proof fn law_lexing_goes_on_after_code(c: Seq<char>, b: Seq<char>)
    requires
        c.len() > 0,
        free_of(c, '`'),
    ensures
        inline_tokens(seq!['`'] + c + seq!['`'] + b) == seq![TokenV::CodeInline { value: c }]
            + inline_tokens(b),
{
    let d = seq!['`'];
    let s = d + c + d + b;
    let n = c.len() as int;
    assert(s[0] == '`');
    assert(s[1] == c[0]);
    lemma_run_end_exact(s, '`', 0, 1);
    assert(s.subrange(1 + n, 2 + n) =~= d);
    assert forall|m: int| 1 <= m < 1 + n implies s[m] != '`' by {
        assert(s[m] == c[m - 1]);
    }
    lemma_first_after(s, d, '`', 1, 1 + n);
    let e = 2 + n;
    assert(code_end(s, 0) == e);
    assert(s.subrange(1, 1 + n) =~= c);
    lemma_scan_rest(s, e);
    assert(suffix(s, e) =~= b);
    assert(text_run(s, 0, 0) =~= Seq::<TokenV>::empty());
    assert(scan(s, 0, 0) == text_run(s, 0, 0) + code_tokens(s, 0) + scan(s, e, e));
}

/// Whether `x` holds no `]` directly followed by `(`.
pub open spec fn free_of_pair(x: Seq<char>) -> bool {
    forall|j: int| 0 <= j && j + 1 < x.len() ==> !(#[trigger] x[j] == ']' && x[j + 1] == '(')
}

/// Law: the text of a link is lexed like any other text: where `t` holds no
/// `](` and `u` no `)`, the tokens of `[t](u)` are a link to `u` around the
/// tokens of `t`; whatever follows the link is kept as one raw text.
pub proof fn law_link_text_is_lexed(t: Seq<char>, u: Seq<char>, b: Seq<char>)
    requires
        free_of_pair(t),
        free_of(u, ')'),
    ensures
        inline_tokens(seq!['['] + t + seq![']', '('] + u + seq![')'] + b) == seq![
            TokenV::LinkOpen { url: u, title: None },
        ] + inline_tokens(t) + seq![TokenV::LinkClose] + (if b.len() > 0 {
            seq![TokenV::Text { value: b }]
        } else {
            Seq::<TokenV>::empty()
        }),
{
    let p = seq![']', '('];
    let q = seq![')'];
    let s = seq!['['] + t + p + u + q + b;
    let n = t.len() as int;
    let m = u.len() as int;
    assert(s[0] == '[');
    assert(s.subrange(1 + n, 3 + n) =~= p);
    assert forall|j: int| 1 <= j < 1 + n implies !occurs_at(s, p, j) by {
        if occurs_at(s, p, j) {
            assert(s.subrange(j, j + 2)[0] == s[j]);
            assert(s.subrange(j, j + 2)[1] == s[j + 1]);
            assert(s[j] == t[j - 1]);
            if j + 1 < 1 + n {
                assert(s[j + 1] == t[j]);
            } else {
                assert(s[j + 1] == ']');
            }
        }
    }
    lemma_find_from_first(s, p, 1, 1 + n);
    assert(s.subrange(3 + n + m, 4 + n + m) =~= q);
    assert forall|j: int| 3 + n <= j < 3 + n + m implies s[j] != ')' by {
        assert(s[j] == u[j - 3 - n]);
    }
    lemma_first_after(s, q, ')', 3 + n, 3 + n + m);
    assert(link_match(s, 0) == Some((1 + n, 3 + n + m)));
    assert(s.subrange(3 + n, 3 + n + m) =~= u);
    assert(s.subrange(1, 1 + n) =~= t);
    assert(s.subrange(4 + n + m, s.len() as int) =~= b);
    assert(text_run(s, 0, 0) =~= Seq::<TokenV>::empty());
    assert(scan(s, 0, 0) == text_run(s, 0, 0) + link_tokens(s, 0));
}


/// Law: an image is read whole: where `t` holds no `](` and `u` no `)`, the
/// tokens of `![t](u)` are one image with the text `t` and the source `u`;
/// whatever follows the image is kept as one raw text.
pub proof fn law_image_is_read_whole(t: Seq<char>, u: Seq<char>, b: Seq<char>)
    requires
        free_of_pair(t),
        free_of(u, ')'),
    ensures
        inline_tokens(seq!['!', '['] + t + seq![']', '('] + u + seq![')'] + b) == seq![
            TokenV::Image { url: u, title: None, alt: Some(t) },
        ] + (if b.len() > 0 {
            seq![TokenV::Text { value: b }]
        } else {
            Seq::<TokenV>::empty()
        }),
{
    let p = seq![']', '('];
    let q = seq![')'];
    let s = seq!['!', '['] + t + p + u + q + b;
    let n = t.len() as int;
    let m = u.len() as int;
    assert(s[0] == '!' && s[1] == '[');
    assert(s.subrange(2 + n, 4 + n) =~= p);
    assert forall|j: int| 2 <= j < 2 + n implies !occurs_at(s, p, j) by {
        if occurs_at(s, p, j) {
            assert(s.subrange(j, j + 2)[0] == s[j]);
            assert(s.subrange(j, j + 2)[1] == s[j + 1]);
            assert(s[j] == t[j - 2]);
            if j + 1 < 2 + n {
                assert(s[j + 1] == t[j - 1]);
            } else {
                assert(s[j + 1] == ']');
            }
        }
    }
    lemma_find_from_first(s, p, 2, 2 + n);
    assert(s.subrange(4 + n + m, 5 + n + m) =~= q);
    assert forall|j: int| 4 + n <= j < 4 + n + m implies s[j] != ')' by {
        assert(s[j] == u[j - 4 - n]);
    }
    lemma_first_after(s, q, ')', 4 + n, 4 + n + m);
    assert(image_match(s, 0) == Some((2 + n, 4 + n + m)));
    assert(s.subrange(4 + n, 4 + n + m) =~= u);
    assert(s.subrange(2, 2 + n) =~= t);
    assert(s.subrange(5 + n + m, s.len() as int) =~= b);
    assert(text_run(s, 0, 0) =~= Seq::<TokenV>::empty());
    assert(scan(s, 0, 0) == text_run(s, 0, 0) + image_tokens(s, 0) + Seq::<TokenV>::empty());
}


/// Lexing meets a markup character with the pending text emitted first, and
/// nothing pending after it.
proof fn lemma_scan_flush(s: Seq<char>, a: int, i: int)
    requires
        0 <= a <= i < s.len(),
        is_markup_char(s[i]),
    ensures
        scan(s, a, i) == text_run(s, a, i) + scan(s, i, i),
{
    assert(text_run(s, i, i) =~= Seq::<TokenV>::empty());
    let x = scan(s, i, i);
    assert(Seq::<TokenV>::empty() + x =~= x);
}

/// Lexing passes over characters that are not markup, keeping them pending.
proof fn lemma_scan_skip_plain(s: Seq<char>, a: int, i: int, j: int)
    requires
        0 <= a <= i <= j <= s.len(),
        forall|m: int| i <= m < j ==> !is_markup_char(#[trigger] s[m]),
    ensures
        scan(s, a, i) == scan(s, a, j),
    decreases j - i,
{
    if i < j {
        lemma_scan_skip_plain(s, a, i + 1, j);
    }
}

/// Law: plain text before markup is one text token: where `p` holds no
/// markup character and `r` begins with one, the tokens of `p` then `r` are
/// the text `p` (where it is not empty), then the tokens of `r`.
pub proof fn law_text_before_markup(p: Seq<char>, r: Seq<char>)
    requires
        forall|j: int| 0 <= j < p.len() ==> !is_markup_char(#[trigger] p[j]),
        r.len() > 0,
        is_markup_char(r[0]),
    ensures
        inline_tokens(p + r) == (if p.len() > 0 {
            seq![TokenV::Text { value: p }]
        } else {
            Seq::<TokenV>::empty()
        }) + inline_tokens(r),
{
    let s = p + r;
    let n = p.len() as int;
    assert forall|m: int| 0 <= m < n implies !is_markup_char(#[trigger] s[m]) by {
        assert(s[m] == p[m]);
    }
    lemma_scan_skip_plain(s, 0, 0, n);
    assert(s[n] == r[0]);
    lemma_scan_flush(s, 0, n);
    lemma_scan_rest(s, n);
    assert(suffix(s, n) =~= r);
    assert(s.subrange(0, n) =~= p);
}

/// Law: a star or two that close nothing are text, and lexing goes on after
/// them: where `a` holds no `*`, the tokens of `*a` (or `**a`) are the text
/// `*` (or `**`), then the tokens of `a`.
pub proof fn law_unclosed_emphasis_is_text(a: Seq<char>)
    requires
        free_of(a, '*'),
    ensures
        inline_tokens(seq!['*'] + a) == seq![TokenV::Text { value: seq!['*'] }] + inline_tokens(a),
        inline_tokens(seq!['*', '*'] + a) == seq![TokenV::Text { value: seq!['*', '*'] }]
            + inline_tokens(a),
{
    assert(repeat('*', 1) =~= seq!['*']);
    assert(repeat('*', 2) =~= seq!['*', '*']);
    lemma_unclosed_stars(a, 1);
    lemma_unclosed_stars(a, 2);
}

proof fn lemma_unclosed_stars(a: Seq<char>, c: int)
    requires
        c == 1 || c == 2,
        free_of(a, '*'),
    ensures
        inline_tokens(repeat('*', c) + a) == seq![TokenV::Text { value: repeat('*', c) }]
            + inline_tokens(a),
{
    let d = repeat('*', c);
    let s = d + a;
    assert forall|j: int| 0 <= j < c implies s[j] == '*' by {
        assert(s[j] == d[j]);
    }
    if c < s.len() {
        assert(s[c] == a[0]);
    }
    lemma_run_end_exact(s, '*', 0, c);
    lemma_find_from(s, d, c);
    assert forall|m: int| c <= m implies !occurs_at(s, d, m) by {
        if occurs_at(s, d, m) {
            assert(s.subrange(m, m + c)[0] == s[m]);
            assert(s[m] == a[m - c]);
        }
    }
    assert(emphasis_end(s, 0) == c);
    lemma_scan_rest(s, c);
    assert(suffix(s, c) =~= a);
    assert(text_run(s, 0, 0) =~= Seq::<TokenV>::empty());
    assert(scan(s, 0, 0) == text_run(s, 0, 0) + emphasis_tokens(s, 0) + scan(s, c, c));
}

/// Law: a backtick that closes nothing is text, and lexing goes on after it:
/// where `c` holds no backtick, the tokens of `` `c `` are the text `` ` ``,
/// then the tokens of `c`.
pub proof fn law_unclosed_code_is_text(c: Seq<char>)
    requires
        free_of(c, '`'),
    ensures
        inline_tokens(seq!['`'] + c) == seq![TokenV::Text { value: seq!['`'] }] + inline_tokens(c),
{
    let d = seq!['`'];
    let s = d + c;
    assert(s[0] == '`');
    if 1 < s.len() {
        assert(s[1] == c[0]);
    }
    lemma_run_end_exact(s, '`', 0, 1);
    lemma_find_from(s, d, 1);
    assert forall|m: int| 1 <= m implies !occurs_at(s, d, m) by {
        if occurs_at(s, d, m) {
            assert(s.subrange(m, m + 1)[0] == s[m]);
            assert(s[m] == c[m - 1]);
        }
    }
    assert(code_end(s, 0) == 1);
    lemma_scan_rest(s, 1);
    assert(suffix(s, 1) =~= c);
    assert(text_run(s, 0, 0) =~= Seq::<TokenV>::empty());
    assert(scan(s, 0, 0) == text_run(s, 0, 0) + code_tokens(s, 0) + scan(s, 1, 1));
}

} // verus!
