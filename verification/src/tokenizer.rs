//! The lexer's entry point: a document becomes a flat stream of tokens.

use vstd::prelude::*;
use crate::block_parser::{block_is_safe, block_ok, block_tokens, lemma_block_next, process_block};
use crate::lines::{lemma_lines_final_newline, lemma_lines_from_shift, lines, lines_from, strip_cr, LineReader};
use crate::text::{
    char_is_whitespace, find_from, is_blank, lemma_find_from, lemma_trim_nonempty, occurs_at,
    starts_with, trim, trim_end, trim_start, trim_str,
};
use crate::block_parser::{
    bullet_items, bullet_run_end, code_info, code_lines_end, is_fence_end, join_lines,
    lemma_code_lines_end, ordered_items, ordered_run_end,
};
use crate::inline_parser::inline_tokens;
use crate::block_parser::{bullet, fence};
use crate::utils::{decimal_value, digits_end, is_ordered_item, item_content, item_start};
use crate::token::{Token, TokenV, extend_tokens, push_token, tokens_view};

verus! {

/// The tokens of the lines `ls[i..]`: blank lines are skipped; every other
/// line starts a block, and a line break follows each block after which any
/// line is left.
pub open spec fn tokenize_from(ls: Seq<Seq<char>>, i: int) -> Seq<TokenV>
    decreases ls.len() - i,
{
    if !(0 <= i < ls.len()) {
        Seq::empty()
    } else if trim(ls[i]).len() == 0 {
        tokenize_from(ls, i + 1)
    } else {
        let block = block_tokens(ls[i], ls, i + 1);
        proof { lemma_block_next(ls[i], ls, i + 1); }
        block.0 + if block.1 < ls.len() {
            seq![TokenV::Newline]
        } else {
            Seq::empty()
        } + tokenize_from(ls, block.1)
    }
}

/// Whether lexing the lines `ls[i..]` stays on character boundaries.
pub open spec fn tokenize_ok_from(ls: Seq<Seq<char>>, i: int) -> bool
    decreases ls.len() - i,
{
    if !(0 <= i < ls.len()) {
        true
    } else if trim(ls[i]).len() == 0 {
        tokenize_ok_from(ls, i + 1)
    } else {
        let block = block_tokens(ls[i], ls, i + 1);
        proof { lemma_block_next(ls[i], ls, i + 1); }
        block_ok(ls[i], ls, i + 1) && tokenize_ok_from(ls, block.1)
    }
}

/// The tokens of the document `s`.
pub open spec fn tokens_of(s: Seq<char>) -> Seq<TokenV> {
    tokenize_from(lines(s), 0)
}

/// Whether lexing the document `s` stays on character boundaries: the text of
/// an ordered list item is cut one byte after its `.`, so the character after
/// that `.` must take one byte in UTF-8.
pub open spec fn tokenize_ok(s: Seq<char>) -> bool {
    tokenize_ok_from(lines(s), 0)
}

/// Lexes a Markdown document.
pub fn tokenize(input: &str) -> (r: Vec<Token>)
    requires
        tokenize_ok(input@),
    ensures
        tokens_view(r@) == tokens_of(input@),
{
    let mut result_tokens: Vec<Token> = Vec::new();
    let mut lines = LineReader::new(input);
    let ghost ls = lines@.0;
    while lines.peek_line().is_some()
        invariant
            lines.wf(),
            lines@.0 == ls,
            ls == crate::lines::lines(input@),
            tokenize_ok_from(ls, lines@.1),
            tokens_view(result_tokens@) + tokenize_from(ls, lines@.1) == tokens_of(input@),
        decreases ls.len() - lines@.1,
    {
        proof {
            lines.lemma_wf();
        }
        let ghost i = lines@.1;
        let ghost before = tokens_view(result_tokens@);
        let line = lines.next_line().unwrap();
        let trimmed = trim_str(line);
        if trimmed.unicode_len() == 0 {
            continue;
        }
        proof {
            lemma_block_next(ls[i], ls, i + 1);
        }
        let tokens = process_block(line, &mut lines);
        extend_tokens(&mut result_tokens, tokens);
        if lines.peek_line().is_some() {
            push_token(&mut result_tokens, Token::Newline);
        }
        proof {
            lines.lemma_wf();
        }
        assert(tokens_view(result_tokens@) + tokenize_from(ls, lines@.1) =~= before
            + tokenize_from(ls, i));
    }
    proof {
        lines.lemma_wf();
    }
    assert(tokens_view(result_tokens@) =~= tokens_view(result_tokens@) + tokenize_from(ls, lines@.1));
    result_tokens
}

/// Law: a final line ending changes nothing: where `s` does not already end
/// with a line ending, `s` followed by `\n` lexes to the same tokens, and under
/// the same condition.
pub proof fn law_final_newline(s: Seq<char>)
    requires
        s.len() > 0,
        s.last() != '\n',
        s.last() != '\r',
    ensures
        tokens_of(s.push('\n')) == tokens_of(s),
        tokenize_ok(s.push('\n')) == tokenize_ok(s),
{
    lemma_lines_final_newline(s);
}

proof fn lemma_blank_trim(l: Seq<char>)
    requires
        is_blank(l),
    ensures
        trim(l).len() == 0,
    decreases l.len(),
{
    if l.len() > 0 {
        assert(is_blank(l.drop_first())) by {
            assert forall|i: int| 0 <= i < l.drop_first().len() implies char_is_whitespace(
                #[trigger] l.drop_first()[i],
            ) by {
                assert(l.drop_first()[i] == l[i + 1]);
            }
        }
        lemma_blank_trim(l.drop_first());
        assert(trim_start(l) == trim_start(l.drop_first()));
    }
}

proof fn lemma_blank_lines(s: Seq<char>, pos: int)
    requires
        is_blank(s),
    ensures
        forall|i: int| 0 <= i < lines_from(s, pos).len() ==> is_blank(#[trigger] lines_from(s, pos)[i]),
    decreases s.len() - pos,
{
    if 0 <= pos < s.len() {
        crate::text::lemma_find_from(s, seq!['\n'], pos);
        match crate::text::find_from(s, seq!['\n'], pos) {
            Some(k) => {
                lemma_blank_lines(s, k + 1);
                let line = strip_cr(s.subrange(pos, k));
                assert(is_blank(line)) by {
                    assert forall|i: int| 0 <= i < line.len() implies char_is_whitespace(
                        #[trigger] line[i],
                    ) by {
                        assert(line[i] == s[pos + i]);
                    }
                }
                let all = lines_from(s, pos);
                assert(all == seq![line] + lines_from(s, k + 1));
                assert forall|i: int| 0 <= i < all.len() implies is_blank(#[trigger] all[i]) by {
                    if i > 0 {
                        assert(all[i] == lines_from(s, k + 1)[i - 1]);
                    }
                }
            },
            None => {
                let line = s.subrange(pos, s.len() as int);
                assert(is_blank(line)) by {
                    assert forall|i: int| 0 <= i < line.len() implies char_is_whitespace(
                        #[trigger] line[i],
                    ) by {
                        assert(line[i] == s[pos + i]);
                    }
                }
            },
        }
    }
}

proof fn lemma_tokenize_blank(ls: Seq<Seq<char>>, i: int)
    requires
        forall|j: int| 0 <= j < ls.len() ==> is_blank(#[trigger] ls[j]),
    ensures
        tokenize_from(ls, i) == Seq::<TokenV>::empty(),
    decreases ls.len() - i,
{
    if 0 <= i < ls.len() {
        lemma_blank_trim(ls[i]);
        lemma_tokenize_blank(ls, i + 1);
    }
}

/// Law: blank lines are skipped: a document of whitespace only lexes to no
/// tokens at all.
pub proof fn law_blank_document(s: Seq<char>)
    requires
        is_blank(s),
    ensures
        tokens_of(s) == Seq::<TokenV>::empty(),
        tokenize_ok(s),
{
    lemma_blank_lines(s, 0);
    lemma_tokenize_blank(lines(s), 0);
    lemma_tokenize_blank_ok(lines(s), 0);
}

proof fn lemma_tokenize_blank_ok(ls: Seq<Seq<char>>, i: int)
    requires
        forall|j: int| 0 <= j < ls.len() ==> is_blank(#[trigger] ls[j]),
    ensures
        tokenize_ok_from(ls, i),
    decreases ls.len() - i,
{
    if 0 <= i < ls.len() {
        lemma_blank_trim(ls[i]);
        lemma_tokenize_blank_ok(ls, i + 1);
    }
}

/// Lexes a Markdown document where lexing it stays on character boundaries
/// (see [`tokenize_ok`]); `None` where it does not.
pub fn try_tokenize(input: &str) -> (r: Option<Vec<Token>>)
    ensures
        r is Some <==> tokenize_ok(input@),
        r matches Some(v) ==> tokens_view(v@) == tokens_of(input@),
{
    let mut result_tokens: Vec<Token> = Vec::new();
    let mut lines = LineReader::new(input);
    let ghost ls = lines@.0;
    while lines.peek_line().is_some()
        invariant
            lines.wf(),
            lines@.0 == ls,
            ls == crate::lines::lines(input@),
            tokenize_ok(input@) == tokenize_ok_from(ls, lines@.1),
            tokens_view(result_tokens@) + tokenize_from(ls, lines@.1) == tokens_of(input@),
        decreases ls.len() - lines@.1,
    {
        proof {
            lines.lemma_wf();
        }
        let ghost i = lines@.1;
        let ghost before = tokens_view(result_tokens@);
        let line = lines.next_line().unwrap();
        let trimmed = trim_str(line);
        if trimmed.unicode_len() == 0 {
            continue;
        }
        if !block_is_safe(line, &lines) {
            return None;
        }
        proof {
            lemma_block_next(ls[i], ls, i + 1);
        }
        let tokens = process_block(line, &mut lines);
        extend_tokens(&mut result_tokens, tokens);
        if lines.peek_line().is_some() {
            push_token(&mut result_tokens, Token::Newline);
        }
        proof {
            lines.lemma_wf();
        }
        assert(tokens_view(result_tokens@) + tokenize_from(ls, lines@.1) =~= before
            + tokenize_from(ls, i));
    }
    proof {
        lines.lemma_wf();
    }
    assert(tokens_view(result_tokens@) =~= tokens_view(result_tokens@) + tokenize_from(ls, lines@.1));
    Some(result_tokens)
}

/// Whether the line `l` is lexed as a block that reads no following line: a
/// heading, a rule or a paragraph.
pub open spec fn is_single_line_block(l: Seq<char>) -> bool {
    &&& !starts_with(l, bullet())
    &&& !is_ordered_item(l)
    &&& !starts_with(l, fence())
    &&& !starts_with(l, seq!['>'])
}

/// Whether `l` holds no `\n` and no `\r`.
pub open spec fn has_no_line_break(l: Seq<char>) -> bool {
    forall|i: int| 0 <= i < l.len() ==> #[trigger] l[i] != '\n' && l[i] != '\r'
}

proof fn lemma_find_newline(s: Seq<char>, k: int, m: int)
    requires
        0 <= k <= m <= s.len(),
        forall|j: int| k <= j < m ==> #[trigger] s[j] != '\n',
    ensures
        m < s.len() && s[m] == '\n' ==> find_from(s, seq!['\n'], k) == Some(m),
        m == s.len() ==> find_from(s, seq!['\n'], k) is None,
{
    let p = seq!['\n'];
    lemma_find_from(s, p, k);
    if m < s.len() && s[m] == '\n' {
        assert(s.subrange(m, m + 1) =~= p);
        assert(occurs_at(s, p, m));
    }
    match find_from(s, p, k) {
        Some(j) => {
            assert(s.subrange(j, j + 1)[0] == s[j]);
        },
        None => {},
    }
}

proof fn lemma_single_line(l: Seq<char>)
    requires
        has_no_line_break(l),
        l.len() > 0,
    ensures
        lines(l) == seq![l],
{
    lemma_find_newline(l, 0, l.len() as int);
    assert(l.subrange(0, l.len() as int) =~= l);
}

/// Law: two lines that each make a heading, a rule or a paragraph lex, joined
/// by `\n`, to the tokens of the first line, a line break, and the tokens of
/// the second.
pub proof fn law_two_lines(a: Seq<char>, b: Seq<char>)
    requires
        has_no_line_break(a),
        has_no_line_break(b),
        trim(a).len() > 0,
        trim(b).len() > 0,
        is_single_line_block(a),
        is_single_line_block(b),
    ensures
        tokens_of(a + seq!['\n'] + b) == tokens_of(a) + seq![TokenV::Newline] + tokens_of(b),
{
    crate::text::lemma_trim_len(a);
    crate::text::lemma_trim_len(b);
    let s = a + seq!['\n'] + b;
    let n = a.len() as int;
    assert forall|j: int| 0 <= j < n implies #[trigger] s[j] != '\n' by {
        assert(s[j] == a[j]);
    }
    assert(s[n] == '\n');
    lemma_find_newline(s, 0, n);
    assert forall|j: int| n + 1 <= j < s.len() implies #[trigger] s[j] != '\n' by {
        assert(s[j] == b[j - n - 1]);
    }
    lemma_find_newline(s, n + 1, s.len() as int);
    assert(s.subrange(0, n) =~= a);
    assert(a.last() == a[n - 1]);
    assert(strip_cr(a) == a);
    assert(s.subrange(n + 1, s.len() as int) =~= b);
    assert(lines_from(s, s.len() as int) =~= Seq::<Seq<char>>::empty());
    assert(lines_from(s, n + 1) =~= seq![b]);
    assert(lines(s) =~= seq![a, b]);
    lemma_single_line(a);
    lemma_single_line(b);
    let ls = seq![a, b];
    let la = seq![a];
    let lb = seq![b];
    let ta = block_tokens(a, ls, 1).0;
    let tb = block_tokens(b, ls, 2).0;
    assert(block_tokens(a, ls, 1) == (ta, 1int));
    assert(block_tokens(b, ls, 2) == (tb, 2int));
    assert(block_tokens(a, la, 1) == (ta, 1int));
    assert(block_tokens(b, lb, 1) == (tb, 1int));
    assert(tokenize_from(ls, 2) =~= Seq::<TokenV>::empty());
    assert(tokenize_from(ls, 1) =~= tb);
    assert(tokenize_from(ls, 0) =~= ta + seq![TokenV::Newline] + tb);
    assert(tokenize_from(la, 1) =~= Seq::<TokenV>::empty());
    assert(tokenize_from(la, 0) =~= ta);
    assert(tokenize_from(lb, 1) =~= Seq::<TokenV>::empty());
    assert(tokenize_from(lb, 0) =~= tb);
}


/// A line without line breaks, a `\n`, then `r`: the line, then the lines of `r`.
proof fn lemma_lines_cons(l: Seq<char>, r: Seq<char>)
    requires
        has_no_line_break(l),
    ensures
        lines(l + seq!['\n'] + r) == seq![l] + lines(r),
{
    let s = l + seq!['\n'] + r;
    let n = l.len() as int;
    assert forall|j: int| 0 <= j < n implies #[trigger] s[j] != '\n' by {
        assert(s[j] == l[j]);
    }
    assert(s[n] == '\n');
    lemma_find_newline(s, 0, n);
    assert(s.subrange(0, n) =~= l);
    if n > 0 {
        assert(l.last() == l[n - 1]);
    }
    assert(strip_cr(l) == l);
    lemma_lines_from_shift(s, n + 1, 0);
    assert(s.subrange(n + 1, s.len() as int) =~= r);
}

/// The lines `ls`, each followed by a line break, then a closing fence.
pub open spec fn code_lines_then_fence(ls: Seq<Seq<char>>) -> Seq<char>
    decreases ls.len(),
{
    if ls.len() == 0 {
        fence()
    } else {
        ls[0] + seq!['\n'] + code_lines_then_fence(ls.drop_first())
    }
}

proof fn lemma_code_lines_then_fence(ls: Seq<Seq<char>>)
    requires
        forall|i: int| 0 <= i < ls.len() ==> has_no_line_break(#[trigger] ls[i]),
    ensures
        lines(code_lines_then_fence(ls)) == ls + seq![fence()],
        ls.len() > 0 ==> code_lines_then_fence(ls) == join_lines(ls) + seq!['\n'] + fence(),
    decreases ls.len(),
{
    if ls.len() == 0 {
        assert(has_no_line_break(fence()));
        lemma_single_line(fence());
        assert(ls + seq![fence()] =~= seq![fence()]);
    } else {
        let rest = ls.drop_first();
        assert forall|i: int| 0 <= i < rest.len() implies has_no_line_break(#[trigger] rest[i]) by {
            assert(rest[i] == ls[i + 1]);
        }
        lemma_code_lines_then_fence(rest);
        assert(has_no_line_break(ls[0]));
        lemma_lines_cons(ls[0], code_lines_then_fence(rest));
        assert(ls + seq![fence()] =~= seq![ls[0]] + (rest + seq![fence()]));
        if ls.len() > 1 {
            lemma_join_lines_cons(ls);
        }
    }
}

/// Joining lines with `\n` puts the first line, a `\n`, then the others joined.
proof fn lemma_join_lines_cons(ls: Seq<Seq<char>>)
    requires
        ls.len() >= 2,
    ensures
        join_lines(ls) == ls[0] + seq!['\n'] + join_lines(ls.drop_first()),
    decreases ls.len(),
{
    let rest = ls.drop_first();
    if ls.len() == 2 {
        assert(ls.drop_last() =~= seq![ls[0]]);
        assert(rest =~= seq![ls[1]]);
        assert(join_lines(rest) == ls[1]);
        assert(join_lines(ls.drop_last()) == ls[0]);
    } else {
        lemma_join_lines_cons(ls.drop_last());
        assert(ls.drop_last().drop_first() =~= rest.drop_last());
        assert(ls.drop_last()[0] == ls[0]);
        assert(rest.last() == ls.last());
        assert(join_lines(rest) == join_lines(rest.drop_last()) + seq!['\n'] + rest.last());
    }
    assert(join_lines(ls) == join_lines(ls.drop_last()) + seq!['\n'] + ls.last());
    assert(join_lines(ls) =~= ls[0] + seq!['\n'] + join_lines(rest));
}

/// Law: the text of a fenced code block is all of its lines between the
/// fences, empty lines included, with their line breaks: for an opening
/// fence `info` and lines `ls` none of which closes the block, then a
/// closing fence, the code text is exactly what stands between the opening
/// line and the closing fence.
pub proof fn law_code_block_text(info: Seq<char>, ls: Seq<Seq<char>>)
    requires
        has_no_line_break(info),
        ls.len() > 0,
        forall|i: int| 0 <= i < ls.len() ==> has_no_line_break(#[trigger] ls[i]),
        forall|i: int| 0 <= i < ls.len() ==> !is_fence_end(#[trigger] ls[i]),
    ensures
        ({
            let open = fence() + info;
            let doc = open + seq!['\n'] + code_lines_then_fence(ls);
            tokens_of(doc) == seq![
                TokenV::CodeBlockOpen { lang: code_info(info).0, meta: code_info(info).1 },
                TokenV::CodeBlockText { value: doc.subrange(open.len() + 1int, doc.len() - 4int) },
                TokenV::CodeBlockClose,
            ]
        }),
{
    let open = fence() + info;
    let body = code_lines_then_fence(ls);
    let doc = open + seq!['\n'] + body;
    let k = ls.len() as int;
    assert(has_no_line_break(open)) by {
        assert forall|i: int| 0 <= i < open.len() implies #[trigger] open[i] != '\n' && open[i]
            != '\r' by {
            if i >= 3 {
                assert(open[i] == info[i - 3]);
            }
        }
    }
    lemma_lines_cons(open, body);
    lemma_code_lines_then_fence(ls);
    let ll = seq![open] + (ls + seq![fence()]);
    assert(lines(doc) == ll);
    assert(ll[0] == open);
    assert(open[0] == '`');
    lemma_trim_nonempty(open);
    assert(open.subrange(0, 3) =~= fence());
    assert(!starts_with(open, bullet())) by {
        assert(open.subrange(0, 2)[0] == '`');
    }
    assert(crate::utils::digits_end(open, 0) == 0);
    assert(!is_ordered_item(open));
    assert(open.subrange(3, open.len() as int) =~= info);
    lemma_code_run(open, ls);
    assert(ll.subrange(1, k + 1) =~= ls);
    assert(block_tokens(open, ll, 1) == (
        seq![
            TokenV::CodeBlockOpen { lang: code_info(info).0, meta: code_info(info).1 },
            TokenV::CodeBlockText { value: join_lines(ls) },
            TokenV::CodeBlockClose,
        ],
        k + 2,
    ));
    assert(tokenize_from(ll, k + 2) =~= Seq::<TokenV>::empty());
    assert(doc =~= open + seq!['\n'] + join_lines(ls) + seq!['\n'] + fence());
    assert(doc.subrange(open.len() + 1int, doc.len() - 4int) =~= join_lines(ls));
}

/// Law: every item of an ordered list holds the tokens of its own text: the
/// document `1. a`, line break, `2. b` (with `a` and `b` single lines that do
/// not begin with whitespace) is an ordered list from 1 of two items, the
/// first holding the tokens of `a`, the second those of `b`.
pub proof fn law_ordered_items_are_lexed(a: Seq<char>, b: Seq<char>)
    requires
        has_no_line_break(a),
        has_no_line_break(b),
        a.len() == 0 || !char_is_whitespace(a[0]),
        b.len() == 0 || !char_is_whitespace(b[0]),
    ensures
        tokens_of(seq!['1', '.', ' '] + a + seq!['\n'] + seq!['2', '.', ' '] + b) == seq![
            TokenV::OrderedListOpen { start: 1 },
            TokenV::ListItemOpen,
        ] + inline_tokens(a) + seq![
            TokenV::ListItemClose,
            TokenV::Newline,
            TokenV::ListItemOpen,
        ] + inline_tokens(b) + seq![TokenV::ListItemClose, TokenV::OrderedListClose],
{
    let l1 = seq!['1', '.', ' '] + a;
    let l2 = seq!['2', '.', ' '] + b;
    lemma_ordered_line(a, '1');
    lemma_ordered_line(b, '2');
    assert(seq!['1', '.', ' '] + a + seq!['\n'] + seq!['2', '.', ' '] + b =~= l1 + seq!['\n']
        + l2);
    lemma_lines_cons(l1, l2);
    lemma_single_line(l2);
    let ll = seq![l1, l2];
    assert(lines(l1 + seq!['\n'] + l2) =~= ll);
    lemma_trim_nonempty(l1);
    lemma_ordered_block(l1, l2, a, b);
    lemma_two_line_document(ll, block_tokens(l1, ll, 1).0);
}

proof fn lemma_ordered_block(l1: Seq<char>, l2: Seq<char>, a: Seq<char>, b: Seq<char>)
    requires
        !starts_with(l1, bullet()),
        is_ordered_item(l1),
        item_content(l1) == a,
        item_start(l1) == 1u32,
        is_ordered_item(l2),
        item_content(l2) == b,
    ensures
        block_tokens(l1, seq![l1, l2], 1) == (seq![
            TokenV::OrderedListOpen { start: 1 },
            TokenV::ListItemOpen,
        ] + inline_tokens(a) + seq![
            TokenV::ListItemClose,
            TokenV::Newline,
            TokenV::ListItemOpen,
        ] + inline_tokens(b) + seq![TokenV::ListItemClose, TokenV::OrderedListClose], 2int),
{
    let ll = seq![l1, l2];
    assert(ll[1] == l2);
    assert(ordered_run_end(ll, 2) == 2);
    assert(ordered_run_end(ll, 1) == 2);
    assert(ordered_items(ll, 1, 1) =~= Seq::<TokenV>::empty());
    assert(ordered_items(ll, 1, 2) =~= seq![TokenV::Newline] + seq![TokenV::ListItemOpen]
        + inline_tokens(b) + seq![TokenV::ListItemClose]);
}

/// A document of two lines whose first line starts a block that reads the
/// second as well lexes to the tokens of that block.
proof fn lemma_two_line_document(ll: Seq<Seq<char>>, ts: Seq<TokenV>)
    requires
        ll.len() == 2,
        trim(ll[0]).len() > 0,
        block_tokens(ll[0], ll, 1) == (ts, 2int),
    ensures
        tokenize_from(ll, 0) == ts,
{
    assert(tokenize_from(ll, 2) =~= Seq::<TokenV>::empty());
    assert(ts + Seq::<TokenV>::empty() =~= ts);
}

/// The line `d. x`, for a digit `d` and a single line `x` that does not begin
/// with whitespace, is an ordered list item numbered `d` whose text is `x`.
proof fn lemma_ordered_line(x: Seq<char>, d: char)
    requires
        has_no_line_break(x),
        x.len() == 0 || !char_is_whitespace(x[0]),
        d == '1' || d == '2',
    ensures
        ({
            let l = seq![d, '.', ' '] + x;
            &&& has_no_line_break(l)
            &&& l.len() > 0 && !char_is_whitespace(l[0])
            &&& !starts_with(l, bullet())
            &&& is_ordered_item(l)
            &&& item_content(l) == x
            &&& item_start(l) == (if d == '1' { 1u32 } else { 2u32 })
        }),
{
    let l = seq![d, '.', ' '] + x;
    assert forall|i: int| 0 <= i < l.len() implies #[trigger] l[i] != '\n' && l[i] != '\r' by {
        if i >= 3 {
            assert(l[i] == x[i - 3]);
        }
    }
    assert(l[0] == d && l[1] == '.' && l[2] == ' ');
    assert(l.subrange(0, 2)[0] == d);
    assert(digits_end(l, 1) == 1);
    assert(digits_end(l, 0) == 1);
    assert(l.subrange(3, l.len() as int) =~= x);
    assert(trim_start(x) == x);
    assert(l.subrange(0, 1) =~= seq![d]);
    assert(seq![d].drop_last() =~= Seq::<char>::empty());
    assert(decimal_value(Seq::<char>::empty()) == 0);
    assert(seq![d].last() == d);
    assert(decimal_value(seq![d]) == (d as nat - '0' as nat) as nat);
    assert(('1' as nat) == 49nat);
    assert(('2' as nat) == 50nat);
    assert(('0' as nat) == 48nat);
}


/// Law: every item of an unordered list holds the tokens of its own text: the
/// document `- a`, line break, `- b` (with `a` and `b` single lines) is an
/// unordered list of two items, the first holding the tokens of `a`, the
/// second those of `b`.
pub proof fn law_bullet_items_are_lexed(a: Seq<char>, b: Seq<char>)
    requires
        has_no_line_break(a),
        has_no_line_break(b),
    ensures
        tokens_of(seq!['-', ' '] + a + seq!['\n'] + seq!['-', ' '] + b) == seq![
            TokenV::UnorderedListOpen,
            TokenV::ListItemOpen,
        ] + inline_tokens(a) + seq![
            TokenV::ListItemClose,
            TokenV::Newline,
            TokenV::ListItemOpen,
        ] + inline_tokens(b) + seq![TokenV::ListItemClose, TokenV::UnorderedListClose],
{
    let l1 = seq!['-', ' '] + a;
    let l2 = seq!['-', ' '] + b;
    lemma_bullet_line(a);
    lemma_bullet_line(b);
    assert(seq!['-', ' '] + a + seq!['\n'] + seq!['-', ' '] + b =~= l1 + seq!['\n'] + l2);
    lemma_lines_cons(l1, l2);
    lemma_single_line(l2);
    let ll = seq![l1, l2];
    assert(lines(l1 + seq!['\n'] + l2) =~= ll);
    lemma_trim_nonempty(l1);
    lemma_bullet_block(l1, l2, a, b);
    lemma_two_line_document(ll, block_tokens(l1, ll, 1).0);
}

proof fn lemma_bullet_block(l1: Seq<char>, l2: Seq<char>, a: Seq<char>, b: Seq<char>)
    requires
        starts_with(l1, bullet()),
        l1.subrange(2, l1.len() as int) == a,
        starts_with(l2, bullet()),
        l2.subrange(2, l2.len() as int) == b,
    ensures
        block_tokens(l1, seq![l1, l2], 1) == (seq![
            TokenV::UnorderedListOpen,
            TokenV::ListItemOpen,
        ] + inline_tokens(a) + seq![
            TokenV::ListItemClose,
            TokenV::Newline,
            TokenV::ListItemOpen,
        ] + inline_tokens(b) + seq![TokenV::ListItemClose, TokenV::UnorderedListClose], 2int),
{
    let ll = seq![l1, l2];
    assert(ll[1] == l2);
    assert(bullet_run_end(ll, 2) == 2);
    assert(bullet_run_end(ll, 1) == 2);
    assert(bullet_items(ll, 1, 1) =~= Seq::<TokenV>::empty());
    assert(bullet_items(ll, 1, 2) =~= seq![TokenV::Newline] + seq![TokenV::ListItemOpen]
        + inline_tokens(b) + seq![TokenV::ListItemClose]);
}

/// The line `- x`, for a single line `x`, is an unordered list item whose
/// text is `x`.
proof fn lemma_bullet_line(x: Seq<char>)
    requires
        has_no_line_break(x),
    ensures
        ({
            let l = seq!['-', ' '] + x;
            &&& has_no_line_break(l)
            &&& l.len() > 0 && !char_is_whitespace(l[0])
            &&& starts_with(l, bullet())
            &&& l.subrange(2, l.len() as int) == x
        }),
{
    let l = seq!['-', ' '] + x;
    assert forall|i: int| 0 <= i < l.len() implies #[trigger] l[i] != '\n' && l[i] != '\r' by {
        if i >= 2 {
            assert(l[i] == x[i - 2]);
        }
    }
    assert(l[0] == '-');
    assert(l.subrange(0, 2) =~= bullet());
    assert(l.subrange(2, l.len() as int) =~= x);
}


/// The code lines that follow an opening fence end at the closing fence.
proof fn lemma_code_run(open: Seq<char>, ls: Seq<Seq<char>>)
    requires
        forall|i: int| 0 <= i < ls.len() ==> !is_fence_end(#[trigger] ls[i]),
    ensures
        code_lines_end(seq![open] + (ls + seq![fence()]), 1) == ls.len() + 1,
{
    let ll = seq![open] + (ls + seq![fence()]);
    let k = ls.len() as int;
    lemma_code_lines_end(ll, 1);
    let e = code_lines_end(ll, 1);
    assert(ll[k + 1] == fence());
    assert(trim_start(fence()) == fence());
    assert(fence().last() == '`');
    assert(trim_end(fence()) == fence());
    assert(fence().subrange(0, 3) =~= fence());
    assert(is_fence_end(fence()));
    if e <= k {
        assert(ll[e] == ls[e - 1]);
    }
    if e == k + 2 {
        assert(!is_fence_end(ll[k + 1]));
    }
}


/// A document of one line that starts a block lexes to the tokens of that
/// block.
proof fn lemma_one_line_document(l: Seq<char>, ts: Seq<TokenV>)
    requires
        has_no_line_break(l),
        l.len() > 0,
        trim(l).len() > 0,
        block_tokens(l, seq![l], 1) == (ts, 1int),
    ensures
        tokens_of(l) == ts,
{
    lemma_single_line(l);
    let ll = seq![l];
    assert(ll[0] == l);
    assert(tokenize_from(ll, 1) =~= Seq::<TokenV>::empty());
    assert(ts + Seq::<TokenV>::empty() =~= ts);
}

/// A block that starts on the last line reads no other line, whatever that
/// line was.
proof fn lemma_block_last_line(line: Seq<char>, ls1: Seq<Seq<char>>, ls2: Seq<Seq<char>>)
    requires
        ls1.len() == 1,
        ls2.len() == 1,
    ensures
        block_tokens(line, ls1, 1) == block_tokens(line, ls2, 1),
    decreases line.len(),
{
    assert(bullet_run_end(ls1, 1) == 1 && bullet_run_end(ls2, 1) == 1);
    assert(ordered_run_end(ls1, 1) == 1 && ordered_run_end(ls2, 1) == 1);
    assert(code_lines_end(ls1, 1) == 1 && code_lines_end(ls2, 1) == 1);
    assert(ls1.subrange(1, 1) =~= ls2.subrange(1, 1));
    assert(bullet_items(ls1, 1, 1) == bullet_items(ls2, 1, 1));
    assert(ordered_items(ls1, 1, 1) == ordered_items(ls2, 1, 1));
    if !starts_with(line, bullet()) && !is_ordered_item(line) && !starts_with(line, fence())
        && starts_with(line, seq!['>']) {
        crate::text::lemma_trim_len(line.subrange(1, line.len() as int));
        lemma_block_last_line(trim(line.subrange(1, line.len() as int)), ls1, ls2);
    }
}

/// Whether `l` begins with neither `-` nor a digit nor a backtick nor `>`.
spec fn opens_no_list_code_or_quote(l: Seq<char>) -> bool {
    l.len() > 0 && l[0] != '-' && !crate::utils::is_ascii_digit(l[0]) && l[0] != '`' && l[0]
        != '>'
}

proof fn lemma_not_list_code_or_quote(l: Seq<char>)
    requires
        opens_no_list_code_or_quote(l),
    ensures
        !starts_with(l, bullet()),
        !is_ordered_item(l),
        !starts_with(l, fence()),
        !starts_with(l, seq!['>']),
{
    if l.len() >= 2 {
        assert(l.subrange(0, 2)[0] == l[0]);
    }
    if l.len() >= 3 {
        assert(l.subrange(0, 3)[0] == l[0]);
    }
    assert(l.subrange(0, 1)[0] == l[0]);
    assert(digits_end(l, 0) == 0);
}

/// Law: a heading holds the tokens of its text: a line of `n` marks `#` (one
/// or more) and then a text `x` that does not begin with `#` is a heading of
/// level `n` around the tokens of `x` without surrounding whitespace.
pub proof fn law_heading(n: nat, x: Seq<char>)
    requires
        n >= 1,
        has_no_line_break(x),
        x.len() == 0 || x[0] != '#',
    ensures
        tokens_of(crate::text::repeat('#', n as int) + x) == seq![TokenV::HeadingOpen { level: n }]
            + inline_tokens(trim(x)) + seq![TokenV::HeadingClose],
{
    let d = crate::text::repeat('#', n as int);
    let l = d + x;
    assert forall|i: int| 0 <= i < l.len() implies #[trigger] l[i] != '\n' && l[i] != '\r' by {
        if i >= n {
            assert(l[i] == x[i - n]);
        } else {
            assert(l[i] == d[i]);
        }
    }
    assert(l[0] == d[0]);
    lemma_not_list_code_or_quote(l);
    assert(l.subrange(0, 1) =~= seq!['#']);
    assert forall|j: int| 0 <= j < n implies l[j] == '#' by {
        assert(l[j] == d[j]);
    }
    if n < l.len() {
        assert(l[n as int] == x[0]);
    }
    crate::text::lemma_run_end_exact(l, '#', 0, n as int);
    assert(l.subrange(n as int, l.len() as int) =~= x);
    lemma_trim_nonempty(l);
    lemma_one_line_document(l, block_tokens(l, seq![l], 1).0);
}

/// Law: a line that begins with `---` is a rule, whatever follows.
pub proof fn law_rule_line(x: Seq<char>)
    requires
        has_no_line_break(x),
    ensures
        tokens_of(seq!['-', '-', '-'] + x) == seq![TokenV::ThematicBreak],
{
    let l = seq!['-', '-', '-'] + x;
    assert forall|i: int| 0 <= i < l.len() implies #[trigger] l[i] != '\n' && l[i] != '\r' by {
        if i >= 3 {
            assert(l[i] == x[i - 3]);
        }
    }
    assert(l.subrange(0, 2)[1] == '-');
    assert(!starts_with(l, bullet()));
    assert(digits_end(l, 0) == 0);
    assert(l.subrange(0, 3)[0] == '-');
    assert(!starts_with(l, fence()));
    assert(l.subrange(0, 1)[0] == '-');
    assert(!starts_with(l, seq!['>']));
    assert(!starts_with(l, seq!['#']));
    assert(l.subrange(0, 3) =~= crate::block_parser::rule());
    assert(l[0] == '-');
    lemma_trim_nonempty(l);
    lemma_one_line_document(l, seq![TokenV::ThematicBreak]);
}

/// Law: a quoted line holds the tokens that its text has on its own: `> y`,
/// for a single line `y` that begins and ends with other than whitespace, is
/// a block quote around the tokens of the document `y`.
pub proof fn law_quote_line(y: Seq<char>)
    requires
        has_no_line_break(y),
        y.len() > 0,
        !char_is_whitespace(y[0]),
        !char_is_whitespace(y.last()),
    ensures
        tokens_of(seq!['>', ' '] + y) == seq![TokenV::BlockquoteOpen] + tokens_of(y)
            + seq![TokenV::BlockquoteClose],
{
    let l = seq!['>', ' '] + y;
    assert forall|i: int| 0 <= i < l.len() implies #[trigger] l[i] != '\n' && l[i] != '\r' by {
        if i >= 2 {
            assert(l[i] == y[i - 2]);
        }
    }
    assert(l[0] == '>');
    assert(l.subrange(0, 2)[0] == '>');
    assert(!starts_with(l, bullet()));
    assert(digits_end(l, 0) == 0);
    assert(l.subrange(0, 3)[0] == '>');
    assert(!starts_with(l, fence()));
    assert(l.subrange(0, 1) =~= seq!['>']);
    let after = l.subrange(1, l.len() as int);
    assert(after =~= seq![' '] + y);
    assert(after.drop_first() =~= y);
    assert(trim_start(y) == y);
    assert(trim_start(after) == y);
    assert(trim_end(y) == y);
    assert(trim(after) == y);
    lemma_trim_nonempty(l);
    lemma_trim_nonempty(y);
    lemma_block_last_line(y, seq![l], seq![y]);
    crate::block_parser::lemma_block_next(y, seq![y], 1);
    lemma_one_line_document(y, block_tokens(y, seq![y], 1).0);
    lemma_one_line_document(l, block_tokens(l, seq![l], 1).0);
}


proof fn lemma_digits_end_exact(s: Seq<char>, i: int, m: int)
    requires
        0 <= i,
        0 <= m,
        i + m < s.len(),
        forall|j: int| i <= j < i + m ==> crate::utils::is_ascii_digit(#[trigger] s[j]),
        !crate::utils::is_ascii_digit(s[i + m]),
    ensures
        digits_end(s, i) == i + m,
    decreases m,
{
    if m > 0 {
        lemma_digits_end_exact(s, i + 1, m - 1);
    }
}

/// Law: an ordered list starts at the number of its first item: the line of
/// a numeral `ds` (that fits in 32 bits), `.`, a space and a text `a` that does
/// not begin with whitespace is an ordered list from the value of `ds`, of
/// one item holding the tokens of `a`.
pub proof fn law_ordered_list_start(ds: Seq<char>, a: Seq<char>)
    requires
        ds.len() > 0,
        forall|j: int| 0 <= j < ds.len() ==> crate::utils::is_ascii_digit(#[trigger] ds[j]),
        decimal_value(ds) <= u32::MAX,
        has_no_line_break(a),
        a.len() == 0 || !char_is_whitespace(a[0]),
    ensures
        tokens_of(ds + seq!['.', ' '] + a) == seq![
            TokenV::OrderedListOpen { start: decimal_value(ds) as u32 },
            TokenV::ListItemOpen,
        ] + inline_tokens(a) + seq![TokenV::ListItemClose, TokenV::OrderedListClose],
{
    let l = ds + seq!['.', ' '] + a;
    let k = ds.len() as int;
    assert forall|i: int| 0 <= i < l.len() implies #[trigger] l[i] != '\n' && l[i] != '\r' by {
        if i < k {
            assert(l[i] == ds[i]);
        } else if i >= k + 2 {
            assert(l[i] == a[i - k - 2]);
        }
    }
    assert forall|j: int| 0 <= j < k implies crate::utils::is_ascii_digit(#[trigger] l[j]) by {
        assert(l[j] == ds[j]);
    }
    assert(l[k] == '.');
    assert(l[k + 1] == ' ');
    lemma_digits_end_exact(l, 0, k);
    assert(l[0] == ds[0]);
    assert(l.subrange(0, 2)[0] == l[0]);
    assert(!starts_with(l, bullet()));
    assert(is_ordered_item(l));
    assert(l.subrange(0, k) =~= ds);
    assert(l.subrange(k + 2, l.len() as int) =~= a);
    assert(trim_start(a) == a);
    assert(item_content(l) == a);
    assert(item_start(l) == decimal_value(ds) as u32);
    let ll = seq![l];
    assert(ordered_run_end(ll, 1) == 1);
    assert(ordered_items(ll, 1, 1) =~= Seq::<TokenV>::empty());
    lemma_trim_nonempty(l);
    lemma_one_line_document(l, block_tokens(l, ll, 1).0);
}

/// Law: the text after an opening fence names the language and, after its
/// first space, the meta information: for a language `lang` without spaces,
/// `lang` alone gives the language and no meta information, and `lang`, a
/// space and `meta` give both.
pub proof fn law_code_fence_info(lang: Seq<char>, meta: Seq<char>)
    requires
        lang.len() > 0,
        forall|j: int| 0 <= j < lang.len() ==> #[trigger] lang[j] != ' ',
    ensures
        code_info(lang) == (Some(lang), None::<Seq<char>>),
        code_info(lang + seq![' '] + meta) == (Some(lang), Some(meta)),
{
    let sp = seq![' '];
    let info = lang + sp + meta;
    let n = lang.len() as int;
    lemma_find_from(lang, sp, 0);
    assert forall|m: int| 0 <= m implies !occurs_at(lang, sp, m) by {
        if occurs_at(lang, sp, m) {
            assert(lang.subrange(m, m + 1)[0] == lang[m]);
        }
    }
    assert(info.subrange(n, n + 1) =~= sp);
    assert forall|m: int| 0 <= m < n implies !occurs_at(info, sp, m) by {
        if occurs_at(info, sp, m) {
            assert(info.subrange(m, m + 1)[0] == info[m]);
            assert(info[m] == lang[m]);
        }
    }
    crate::text::lemma_find_from_first(info, sp, 0, n);
    assert(info.subrange(0, n) =~= lang);
    assert(info.subrange(n + 1, info.len() as int) =~= meta);
}

} // verus!
