//! The inline lexer: emphasis, strong emphasis, inline code, links and
//! images inside the text of one block.

use vstd::prelude::*;
use crate::text::{
    chars_of, find_chars, find_from, lemma_find_from, lemma_run_end, repeat, run_end, substring,
};
use crate::token::{Token, TokenV, extend_tokens, push_token, tokens_view, copy_token};
use crate::utils::count_target_chars;

verus! {

/// The text token for the pending text `s[a..i]`, where it is not empty.
pub open spec fn text_run(s: Seq<char>, a: int, i: int) -> Seq<TokenV> {
    if a < i {
        seq![TokenV::Text { value: s.subrange(a, i) }]
    } else {
        Seq::empty()
    }
}

/// The text token for what follows position `e` of `s`, where anything does.
pub open spec fn tail_text(s: Seq<char>, e: int) -> Seq<TokenV> {
    if e < s.len() {
        seq![TokenV::Text { value: s.subrange(e, s.len() as int) }]
    } else {
        Seq::empty()
    }
}

/// The position after the emphasis markup that starts at the `*` at `i`: after
/// the closing run where one or two stars open and the same run closes later,
/// else after the run of stars.
pub open spec fn emphasis_end(s: Seq<char>, i: int) -> int {
    let n = run_end(s, '*', i);
    let count = n - i;
    if count == 1 || count == 2 {
        match find_from(s, repeat('*', count), n) {
            Some(f) => f + count,
            None => n,
        }
    } else {
        n
    }
}

/// The position after the inline code markup that starts at the backtick at `i`.
pub open spec fn code_end(s: Seq<char>, i: int) -> int {
    let n = run_end(s, '`', i);
    if n - i == 1 {
        match find_from(s, seq!['`'], n) {
            Some(f) => f + 1,
            None => n,
        }
    } else {
        n
    }
}

/// The tokens of the inline code markup that starts at the backtick at `i`:
/// one backtick up to the next one is a code span; any other run of
/// backticks is text.
pub open spec fn code_tokens(s: Seq<char>, i: int) -> Seq<TokenV> {
    let n = run_end(s, '`', i);
    if n - i == 1 {
        match find_from(s, seq!['`'], n) {
            Some(f) => seq![TokenV::CodeInline { value: s.subrange(n, f) }],
            None => seq![TokenV::Text { value: seq!['`'] }],
        }
    } else {
        seq![TokenV::Text { value: repeat('`', n - i) }]
    }
}

/// Where the `!` at `i` opens `![alt](url)`: the positions of the `](` and of
/// the `)`.
pub open spec fn image_match(s: Seq<char>, i: int) -> Option<(int, int)> {
    if i + 1 < s.len() && s[i + 1] == '[' {
        match find_from(s, seq![']', '('], i + 2) {
            Some(f) => match find_from(s, seq![')'], f + 2) {
                Some(g) => Some((f, g)),
                None => None,
            },
            None => None,
        }
    } else {
        None
    }
}

/// The tokens of the `!` at `i`: an image and the raw text after it; or, where
/// it starts no image, the text `!` (a `!` not followed by `[` then also
/// stays part of the pending text).
pub open spec fn image_tokens(s: Seq<char>, i: int) -> Seq<TokenV> {
    match image_match(s, i) {
        Some((f, g)) => seq![
            TokenV::Image {
                url: s.subrange(f + 2, g),
                title: None,
                alt: Some(s.subrange(i + 2, f)),
            },
        ] + tail_text(s, g + 1),
        None => seq![TokenV::Text { value: seq!['!'] }],
    }
}

/// Where the `[` at `i` opens `[text](url)`: the positions of the `](` and of
/// the `)`.
pub open spec fn link_match(s: Seq<char>, i: int) -> Option<(int, int)> {
    match find_from(s, seq![']', '('], i + 1) {
        Some(f) => match find_from(s, seq![')'], f + 2) {
            Some(g) => Some((f, g)),
            None => None,
        },
        None => None,
    }
}

/// The measure of the scan at position `i` of `s`.
pub open spec fn scan_measure(s: Seq<char>, i: int) -> int {
    if 0 <= i <= s.len() {
        s.len() - i
    } else {
        0
    }
}

/// The tokens of the inline markup of `s`.
pub open spec fn inline_tokens(s: Seq<char>) -> Seq<TokenV>
    decreases s.len(), s.len() + 1,
{
    scan(s, 0, 0)
}

/// The tokens of `s` from position `i` on, where `s[a..i]` is text read but
/// not yet emitted.
pub open spec fn scan(s: Seq<char>, a: int, i: int) -> Seq<TokenV>
    decreases s.len(), scan_measure(s, i),
{
    if !(0 <= i < s.len()) {
        text_run(s, a, i)
    } else if s[i] == '*' {
        let e = emphasis_end(s, i);
        proof { lemma_emphasis_end(s, i); }
        text_run(s, a, i) + emphasis_tokens(s, i) + scan(s, e, e)
    } else if s[i] == '`' {
        let e = code_end(s, i);
        proof { lemma_code_end(s, i); }
        text_run(s, a, i) + code_tokens(s, i) + scan(s, e, e)
    } else if s[i] == '!' {
        text_run(s, a, i) + image_tokens(s, i) + if image_match(s, i) is Some {
            Seq::empty()
        } else if i + 1 < s.len() && s[i + 1] == '[' {
            scan(s, i + 1, i + 1)
        } else {
            scan(s, i, i + 1)
        }
    } else if s[i] == '[' {
        text_run(s, a, i) + link_tokens(s, i)
    } else {
        scan(s, a, i + 1)
    }
}

/// The tokens of the emphasis markup that starts at the `*` at `i`: one or two
/// stars up to the next run of as many stars enclose emphasis or strong
/// emphasis; any other run of stars is text.
pub open spec fn emphasis_tokens(s: Seq<char>, i: int) -> Seq<TokenV>
    decreases s.len(), 0int,
{
    let n = run_end(s, '*', i);
    let count = n - i;
    if count == 1 || count == 2 {
        match find_from(s, repeat('*', count), n) {
            Some(f) => {
                proof {
                    lemma_run_end(s, '*', i);
                    lemma_find_from(s, repeat('*', count), n);
                }
                let inner = inline_tokens(s.subrange(n, f));
                if count == 1 {
                    seq![TokenV::EmphasisOpen] + inner + seq![TokenV::EmphasisClose]
                } else {
                    seq![TokenV::StrongOpen] + inner + seq![TokenV::StrongClose]
                }
            },
            None => seq![TokenV::Text { value: repeat('*', count) }],
        }
    } else {
        seq![TokenV::Text { value: repeat('*', count) }]
    }
}

/// The tokens of the `[` at `i`: a link and the raw text after it, or, where
/// no `[text](url)` starts there, all of the rest of `s` as text.
pub open spec fn link_tokens(s: Seq<char>, i: int) -> Seq<TokenV>
    decreases s.len(), 0int,
{
    match link_match(s, i) {
        Some((f, g)) => {
            proof {
                lemma_find_from(s, seq![']', '('], i + 1);
            }
            seq![TokenV::LinkOpen { url: s.subrange(f + 2, g), title: None }] + inline_tokens(
                s.subrange(i + 1, f),
            ) + seq![TokenV::LinkClose] + tail_text(s, g + 1)
        },
        None => seq![TokenV::Text { value: s.subrange(i, s.len() as int) }],
    }
}

pub proof fn lemma_emphasis_end(s: Seq<char>, i: int)
    ensures
        0 <= i < s.len() && s[i] == '*' ==> i < emphasis_end(s, i),
{
    lemma_run_end(s, '*', i);
    let n = run_end(s, '*', i);
    lemma_find_from(s, repeat('*', n - i), n);
}

pub proof fn lemma_code_end(s: Seq<char>, i: int)
    ensures
        0 <= i < s.len() && s[i] == '`' ==> i < code_end(s, i),
{
    lemma_run_end(s, '`', i);
    let n = run_end(s, '`', i);
    lemma_find_from(s, seq!['`'], n);
}

/// The tokens of a block once the inline markup of each unresolved text is
/// resolved; every other token is kept as it is.
pub open spec fn resolve_inline(ts: Seq<TokenV>) -> Seq<TokenV>
    decreases ts.len(),
{
    if ts.len() == 0 {
        Seq::empty()
    } else {
        resolve_inline(ts.drop_last()) + match ts.last() {
            TokenV::UnResolvedText { value } => inline_tokens(value),
            t => seq![t],
        }
    }
}

/// Resolves the inline markup of every unresolved text among `block_tokens`.
pub fn process_inline(block_tokens: Vec<Token>) -> (r: Vec<Token>)
    ensures
        tokens_view(r@) == resolve_inline(tokens_view(block_tokens@)),
{
    let mut result_tokens: Vec<Token> = Vec::new();
    let mut i: usize = 0;
    while i < block_tokens.len()
        invariant
            i <= block_tokens@.len(),
            tokens_view(result_tokens@) == resolve_inline(
                tokens_view(block_tokens@.subrange(0, i as int)),
            ),
        decreases block_tokens@.len() - i,
    {
        let ghost prev = tokens_view(block_tokens@.subrange(0, i as int));
        let ghost next = tokens_view(block_tokens@.subrange(0, i + 1));
        assert(next.drop_last() =~= prev);
        assert(next.last() == block_tokens@[i as int]@);
        match &block_tokens[i] {
            Token::UnResolvedText { value } => {
                let inline_tokens = process_inline_element(value.as_str());
                extend_tokens(&mut result_tokens, inline_tokens);
            },
            token => {
                push_token(&mut result_tokens, copy_token(token));
            },
        }
        i = i + 1;
    }
    assert(block_tokens@.subrange(0, block_tokens@.len() as int) =~= block_tokens@);
    result_tokens
}

/// Appends the pending text `input[a..i]` as a text token, where it is not empty.
fn flush_text(input: &str, a: usize, i: usize, result_tokens: &mut Vec<Token>)
    requires
        a <= i <= input@.len(),
    ensures
        tokens_view(final(result_tokens)@) == tokens_view(old(result_tokens)@) + text_run(
            input@,
            a as int,
            i as int,
        ),
{
    if a < i {
        push_token(result_tokens, Token::Text { value: substring(input, a, i) });
    } else {
        assert(tokens_view(result_tokens@) =~= tokens_view(result_tokens@) + Seq::empty());
    }
}

/// Lexes the inline markup of `input`.
pub fn process_inline_element(input: &str) -> (r: Vec<Token>)
    ensures
        tokens_view(r@) == inline_tokens(input@),
    decreases input@.len(), input@.len() + 1,
{
    let chars = chars_of(input);
    let len = chars.len();
    let ghost s = input@;
    let mut result_tokens: Vec<Token> = Vec::new();
    let mut acc_start: usize = 0;
    let mut index: usize = 0;
    while index < len
        invariant
            s == input@,
            chars@ == s,
            len == s.len(),
            acc_start <= index <= len,
            tokens_view(result_tokens@) + scan(s, acc_start as int, index as int) == inline_tokens(s),
        decreases len - index,
    {
        let ghost before = tokens_view(result_tokens@);
        let c = chars[index];
        if c == '*' {
            proof { lemma_emphasis_end(s, index as int); }
            flush_text(input, acc_start, index, &mut result_tokens);
            let new_index = process_emphasis(input, &chars, index, &mut result_tokens);
            proof { lemma_emphasis_bounds(s, index as int); }
            assert(tokens_view(result_tokens@) + scan(s, new_index as int, new_index as int) =~= before
                + scan(s, acc_start as int, index as int));
            index = new_index;
            acc_start = index;
        } else if c == '`' {
            proof { lemma_code_end(s, index as int); lemma_code_bounds(s, index as int); }
            flush_text(input, acc_start, index, &mut result_tokens);
            let new_index = process_code_inline(input, &chars, index, &mut result_tokens);
            assert(tokens_view(result_tokens@) + scan(s, new_index as int, new_index as int) =~= before
                + scan(s, acc_start as int, index as int));
            index = new_index;
            acc_start = index;
        } else if c == '!' {
            flush_text(input, acc_start, index, &mut result_tokens);
            let (new_index, processed) = process_image(input, &chars, index, &mut result_tokens);
            if processed {
                assert(tokens_view(result_tokens@) + scan(s, new_index as int, new_index as int)
                    =~= before + scan(s, acc_start as int, index as int));
                index = new_index;
                acc_start = index;
            } else {
                assert(tokens_view(result_tokens@) + scan(s, index as int, index + 1) =~= before
                    + scan(s, acc_start as int, index as int));
                acc_start = index;
                index = index + 1;
            }
        } else if c == '[' {
            flush_text(input, acc_start, index, &mut result_tokens);
            let (new_index, _processed) = process_link(input, &chars, index, &mut result_tokens);
            assert(tokens_view(result_tokens@) + scan(s, new_index as int, new_index as int) =~= before
                + scan(s, acc_start as int, index as int));
            index = new_index;
            acc_start = index;
        } else {
            index = index + 1;
        }
    }
    let ghost before = tokens_view(result_tokens@);
    flush_text(input, acc_start, index, &mut result_tokens);
    assert(tokens_view(result_tokens@) =~= before + scan(s, acc_start as int, index as int));
    result_tokens
}

/// The emphasis markup ends after the run of stars, and within `s`.
proof fn lemma_emphasis_bounds(s: Seq<char>, i: int)
    requires
        0 <= i < s.len(),
        s[i] == '*',
    ensures
        emphasis_end(s, i) <= s.len(),
{
    lemma_run_end(s, '*', i);
    let n = run_end(s, '*', i);
    lemma_find_from(s, repeat('*', n - i), n);
}

/// The inline code markup ends within `s`.
proof fn lemma_code_bounds(s: Seq<char>, i: int)
    requires
        0 <= i < s.len(),
        s[i] == '`',
    ensures
        code_end(s, i) <= s.len(),
{
    lemma_run_end(s, '`', i);
    let n = run_end(s, '`', i);
    lemma_find_from(s, seq!['`'], n);
}

/// Lexes the emphasis markup that starts at the `*` at `start_index`; returns
/// the position after it.
fn process_emphasis(
    input: &str,
    chars: &Vec<char>,
    start_index: usize,
    result_tokens: &mut Vec<Token>,
) -> (r: usize)
    requires
        chars@ == input@,
        start_index < chars@.len(),
        chars@[start_index as int] == '*',
    ensures
        r == emphasis_end(input@, start_index as int),
        tokens_view(final(result_tokens)@) == tokens_view(old(result_tokens)@) + emphasis_tokens(
            input@,
            start_index as int,
        ),
    decreases input@.len(), 0int,
{
    let ghost s = input@;
    proof { assert(chars.len() == chars@.len()); }  // the length fits in usize
    let (count, new_index) = count_target_chars('*', chars.as_slice(), start_index);
    let index = new_index;
    proof { lemma_run_end(s, '*', start_index as int); }
    assert(s.subrange(start_index as int, index as int) =~= repeat('*', count as int));
    if count == 1 || count == 2 {
        let pattern = if count == 1 { vec!['*'] } else { vec!['*', '*'] };
        assert(pattern@ =~= repeat('*', count as int));
        let found_index = find_chars(chars, &pattern, index);
        proof { lemma_find_from(s, pattern@, index as int); }
        match found_index {
            None => {
                push_token(result_tokens, Token::Text { value: substring(input, start_index, index) });
                index
            },
            Some(end_index) => {
                let inner = input.substring_char(index, end_index);
                let inner_tokens = process_inline_element(inner);
                if count == 1 {
                    push_token(result_tokens, Token::EmphasisOpen);
                    extend_tokens(result_tokens, inner_tokens);
                    push_token(result_tokens, Token::EmphasisClose);
                } else {
                    push_token(result_tokens, Token::StrongOpen);
                    extend_tokens(result_tokens, inner_tokens);
                    push_token(result_tokens, Token::StrongClose);
                }
                end_index + count
            },
        }
    } else {
        push_token(result_tokens, Token::Text { value: substring(input, start_index, index) });
        index
    }
}

/// Lexes the inline code markup that starts at the backtick at `start_index`;
/// returns the position after it.
fn process_code_inline(
    input: &str,
    chars: &Vec<char>,
    start_index: usize,
    result_tokens: &mut Vec<Token>,
) -> (r: usize)
    requires
        chars@ == input@,
        start_index < chars@.len(),
        chars@[start_index as int] == '`',
    ensures
        r == code_end(input@, start_index as int),
        tokens_view(final(result_tokens)@) == tokens_view(old(result_tokens)@) + code_tokens(
            input@,
            start_index as int,
        ),
{
    let ghost s = input@;
    proof { assert(chars.len() == chars@.len()); }  // the length fits in usize
    let (count, new_index) = count_target_chars('`', chars.as_slice(), start_index);
    let index = new_index;
    proof { lemma_run_end(s, '`', start_index as int); }
    assert(s.subrange(start_index as int, index as int) =~= repeat('`', count as int));
    if count == 1 {
        let pattern = vec!['`'];
        assert(pattern@ =~= seq!['`']);
        let found_index = find_chars(chars, &pattern, index);
        proof { lemma_find_from(s, pattern@, index as int); }
        match found_index {
            None => {
                assert(s.subrange(start_index as int, index as int) =~= seq!['`']);
                push_token(result_tokens, Token::Text { value: substring(input, start_index, index) });
                index
            },
            Some(end_index) => {
                push_token(
                    result_tokens,
                    Token::CodeInline { value: substring(input, index, end_index) },
                );
                end_index + count
            },
        }
    } else {
        push_token(result_tokens, Token::Text { value: substring(input, start_index, index) });
        index
    }
}

/// Lexes the `!` at `start_index`: an image where `![alt](url)` starts there.
/// Returns the position to go on from and whether the `!` was consumed; a `!`
/// not followed by `[` is not consumed and starts the pending text.
fn process_image(
    input: &str,
    chars: &Vec<char>,
    start_index: usize,
    result_tokens: &mut Vec<Token>,
) -> (r: (usize, bool))
    requires
        chars@ == input@,
        start_index < chars@.len(),
        chars@[start_index as int] == '!',
    ensures
        tokens_view(final(result_tokens)@) == tokens_view(old(result_tokens)@) + image_tokens(
            input@,
            start_index as int,
        ),
        image_match(input@, start_index as int) is Some ==> r == (chars@.len() as usize, true),
        image_match(input@, start_index as int) is None ==> if start_index + 1 < input@.len()
            && input@[start_index + 1] == '[' {
            r.0 == start_index + 1 && r.1
        } else {
            r == (start_index, false)
        },
{
    let ghost s = input@;
    proof { assert(chars.len() == chars@.len()); }  // the length fits in usize
    let index = start_index + 1;
    assert(s.subrange(start_index as int, start_index + 1) =~= seq!['!']);
    if index >= chars.len() || chars[index] != '[' {
        push_token(result_tokens, Token::Text { value: substring(input, start_index, index) });
        return (start_index, false);
    }
    let alt_start = start_index + 2;
    let open_pattern = vec![']', '('];
    let close_pattern = vec![')'];
    assert(open_pattern@ =~= seq![']', '(']);
    assert(close_pattern@ =~= seq![')']);
    if let Some(alt_end) = find_chars(chars, &open_pattern, alt_start) {
        proof { lemma_find_from(s, open_pattern@, alt_start as int); }
        let url_start = alt_end + 2;
        if let Some(url_end) = find_chars(chars, &close_pattern, url_start) {
            proof { lemma_find_from(s, close_pattern@, url_start as int); }
            let url = substring(input, url_start, url_end);
            let alt_text = substring(input, alt_start, alt_end);
            push_token(result_tokens, Token::Image { url, title: None, alt: Some(alt_text) });
            let total_len = url_end + 1;
            if total_len < chars.len() {
                push_token(
                    result_tokens,
                    Token::Text { value: substring(input, total_len, chars.len()) },
                );
            } else {
                assert(tokens_view(result_tokens@) =~= tokens_view(result_tokens@) + Seq::empty());
            }
            return (chars.len(), true);
        }
    }
    push_token(result_tokens, Token::Text { value: substring(input, start_index, index) });
    (index, true)
}

/// Lexes the `[` at `start_index`: a link where `[text](url)` starts there,
/// else the rest of the input as text. Returns the end of the input and `true`.
fn process_link(
    input: &str,
    chars: &Vec<char>,
    start_index: usize,
    result_tokens: &mut Vec<Token>,
) -> (r: (usize, bool))
    requires
        chars@ == input@,
        start_index < chars@.len(),
    ensures
        tokens_view(final(result_tokens)@) == tokens_view(old(result_tokens)@) + link_tokens(
            input@,
            start_index as int,
        ),
        r == (chars@.len() as usize, true),
    decreases input@.len(), 0int,
{
    let ghost s = input@;
    proof { assert(chars.len() == chars@.len()); }  // the length fits in usize
    let text_start = start_index + 1;
    let open_pattern = vec![']', '('];
    let close_pattern = vec![')'];
    assert(open_pattern@ =~= seq![']', '(']);
    assert(close_pattern@ =~= seq![')']);
    if let Some(text_end) = find_chars(chars, &open_pattern, text_start) {
        proof { lemma_find_from(s, open_pattern@, text_start as int); }
        let url_start = text_end + 2;
        if let Some(url_end) = find_chars(chars, &close_pattern, url_start) {
            proof { lemma_find_from(s, close_pattern@, url_start as int); }
            let url = substring(input, url_start, url_end);
            let link_text = input.substring_char(text_start, text_end);
            let inner_tokens = process_inline_element(link_text);
            push_token(result_tokens, Token::LinkOpen { url, title: None });
            extend_tokens(result_tokens, inner_tokens);
            push_token(result_tokens, Token::LinkClose);
            let total_len = url_end + 1;
            if total_len < chars.len() {
                push_token(
                    result_tokens,
                    Token::Text { value: substring(input, total_len, chars.len()) },
                );
            } else {
                assert(tokens_view(result_tokens@) =~= tokens_view(result_tokens@) + Seq::empty());
            }
            return (chars.len(), true);
        }
    }
    push_token(result_tokens, Token::Text { value: substring(input, start_index, chars.len()) });
    (chars.len(), true)
}

/// Whether `c` may start inline markup.
pub open spec fn is_markup_char(c: char) -> bool {
    c == '*' || c == '`' || c == '!' || c == '['
}

proof fn lemma_scan_plain(s: Seq<char>, a: int, i: int)
    requires
        0 <= a <= i <= s.len(),
        forall|j: int| i <= j < s.len() ==> !is_markup_char(#[trigger] s[j]),
    ensures
        scan(s, a, i) == text_run(s, a, s.len() as int),
    decreases s.len() - i,
{
    if i < s.len() {
        lemma_scan_plain(s, a, i + 1);
    }
}

/// Law: text without `*`, `` ` ``, `!` and `[` is plain text: it lexes to a
/// single text token that holds all of it, or to nothing where it is empty.
pub proof fn law_plain_text(s: Seq<char>)
    requires
        forall|j: int| 0 <= j < s.len() ==> !is_markup_char(#[trigger] s[j]),
    ensures
        inline_tokens(s) == if s.len() > 0 {
            seq![TokenV::Text { value: s }]
        } else {
            Seq::<TokenV>::empty()
        },
{
    lemma_scan_plain(s, 0, 0);
    assert(s.subrange(0, s.len() as int) =~= s);
}

/// Resolving the inline markup of two token streams one after the other is
/// resolving it in each.
pub proof fn lemma_resolve_inline_append(a: Seq<TokenV>, b: Seq<TokenV>)
    ensures
        resolve_inline(a + b) == resolve_inline(a) + resolve_inline(b),
    decreases b.len(),
{
    if b.len() == 0 {
        assert(a + b =~= a);
        assert(resolve_inline(a) + resolve_inline(b) =~= resolve_inline(a));
    } else {
        assert((a + b).drop_last() =~= a + b.drop_last());
        assert((a + b).last() == b.last());
        lemma_resolve_inline_append(a, b.drop_last());
        assert(resolve_inline(a + b) =~= resolve_inline(a) + resolve_inline(b));
    }
}

} // verus!
