//! The block lexer: lists, fenced code, block quotes, headings, rules and
//! paragraphs, each read from one line and, for lists and code, the lines
//! that follow it.

use vstd::prelude::*;
use crate::inline_parser::{inline_tokens, process_inline, resolve_inline};
use crate::lines::{str_views, LineReader};
use crate::text::{
    chars_of, find_chars, find_from, has_prefix, lemma_find_from, lemma_run_end, lemma_trim_len,
    run_end, skip_run, starts_with, str_has_prefix, substring, trim, trim_str,
};
use crate::token::{Token, TokenV, extend_tokens, push_token, tokens_view};
use crate::utils::{
    extract_ordered_list_item, is_ordered_item, is_ordered_list_item, item_content, item_cut_ok,
    item_cut_is_ok, item_start,
};

verus! {

/// The prefix of an unordered list item.
pub open spec fn bullet() -> Seq<char> {
    seq!['-', ' ']
}

/// The prefix of a fenced code block.
pub open spec fn fence() -> Seq<char> {
    seq!['`', '`', '`']
}

/// The prefix of a horizontal rule.
pub open spec fn rule() -> Seq<char> {
    seq!['-', '-', '-']
}

/// The end of the run of unordered list items among the lines from `j` on.
pub open spec fn bullet_run_end(ls: Seq<Seq<char>>, j: int) -> int
    decreases ls.len() - j,
{
    if 0 <= j < ls.len() && starts_with(ls[j], bullet()) {
        bullet_run_end(ls, j + 1)
    } else {
        j
    }
}

/// The end of the run of ordered list items among the lines from `j` on.
pub open spec fn ordered_run_end(ls: Seq<Seq<char>>, j: int) -> int
    decreases ls.len() - j,
{
    if 0 <= j < ls.len() && is_ordered_item(ls[j]) {
        ordered_run_end(ls, j + 1)
    } else {
        j
    }
}

/// Whether `l` closes a fenced code block: it begins with three backticks
/// once leading and trailing whitespace is removed.
pub open spec fn is_fence_end(l: Seq<char>) -> bool {
    starts_with(trim(l), fence())
}

/// The end of the code lines from `j` on: the first closing fence, or the end.
pub open spec fn code_lines_end(ls: Seq<Seq<char>>, j: int) -> int
    decreases ls.len() - j,
{
    if 0 <= j < ls.len() && !is_fence_end(ls[j]) {
        code_lines_end(ls, j + 1)
    } else {
        j
    }
}

/// The lines `ls` joined with `\n` between them.
pub open spec fn join_lines(ls: Seq<Seq<char>>) -> Seq<char>
    decreases ls.len(),
{
    if ls.len() == 0 {
        Seq::empty()
    } else if ls.len() == 1 {
        ls[0]
    } else {
        join_lines(ls.drop_last()) + seq!['\n'] + ls.last()
    }
}

/// The language and the meta information of a code fence whose text after the
/// backticks is `info`: the parts before and after its first space.
pub open spec fn code_info(info: Seq<char>) -> (Option<Seq<char>>, Option<Seq<char>>) {
    if info.len() == 0 {
        (None, None)
    } else {
        match find_from(info, seq![' '], 0) {
            Some(p) => (Some(info.subrange(0, p)), Some(info.subrange(p + 1, info.len() as int))),
            None => (Some(info), None),
        }
    }
}

/// The tokens of the list item whose text is `content`.
pub open spec fn list_item(content: Seq<char>) -> Seq<TokenV> {
    seq![TokenV::ListItemOpen] + inline_tokens(content) + seq![TokenV::ListItemClose]
}

/// The tokens of the unordered list items `ls[j..e]`, each after a line break.
pub open spec fn bullet_items(ls: Seq<Seq<char>>, j: int, e: int) -> Seq<TokenV>
    decreases e - j,
{
    if e <= j {
        Seq::empty()
    } else {
        bullet_items(ls, j, e - 1) + seq![TokenV::Newline] + list_item(
            ls[e - 1].subrange(2, ls[e - 1].len() as int),
        )
    }
}

/// The tokens of the ordered list items `ls[j..e]`, each after a line break.
pub open spec fn ordered_items(ls: Seq<Seq<char>>, j: int, e: int) -> Seq<TokenV>
    decreases e - j,
{
    if e <= j {
        Seq::empty()
    } else {
        ordered_items(ls, j, e - 1) + seq![TokenV::Newline] + list_item(item_content(ls[e - 1]))
    }
}

/// The tokens of the block that starts with `line`, where the lines that
/// follow it are `ls[next..]`; and the position of the first line after the
/// block.
pub open spec fn block_tokens(line: Seq<char>, ls: Seq<Seq<char>>, next: int) -> (
    Seq<TokenV>,
    int,
)
    decreases line.len(),
{
    if starts_with(line, bullet()) {
        let e = bullet_run_end(ls, next);
        (
            seq![TokenV::UnorderedListOpen] + list_item(line.subrange(2, line.len() as int))
                + bullet_items(ls, next, e) + seq![TokenV::UnorderedListClose],
            e,
        )
    } else if is_ordered_item(line) {
        let e = ordered_run_end(ls, next);
        (
            seq![TokenV::OrderedListOpen { start: item_start(line) }] + list_item(
                item_content(line),
            ) + ordered_items(ls, next, e) + seq![TokenV::OrderedListClose],
            e,
        )
    } else if starts_with(line, fence()) {
        let info = code_info(line.subrange(3, line.len() as int));
        let e = code_lines_end(ls, next);
        (
            seq![
                TokenV::CodeBlockOpen { lang: info.0, meta: info.1 },
                TokenV::CodeBlockText { value: join_lines(ls.subrange(next, e)) },
                TokenV::CodeBlockClose,
            ],
            if e < ls.len() {
                e + 1
            } else {
                e
            },
        )
    } else if starts_with(line, seq!['>']) {
        let rest = trim(line.subrange(1, line.len() as int));
        proof { lemma_trim_len(line.subrange(1, line.len() as int)); }
        let inner = block_tokens(rest, ls, next);
        (seq![TokenV::BlockquoteOpen] + inner.0 + seq![TokenV::BlockquoteClose], inner.1)
    } else if starts_with(line, seq!['#']) {
        let level = run_end(line, '#', 0);
        (
            seq![TokenV::HeadingOpen { level: level as nat }] + inline_tokens(
                trim(line.subrange(level, line.len() as int)),
            ) + seq![TokenV::HeadingClose],
            next,
        )
    } else if starts_with(line, rule()) {
        (seq![TokenV::ThematicBreak], next)
    } else {
        (seq![TokenV::ParagraphOpen] + inline_tokens(line) + seq![TokenV::ParagraphClose], next)
    }
}

/// Whether lexing the block that starts with `line` stays on character
/// boundaries: every ordered list item it reads has a one-byte character after
/// its `.`.
pub open spec fn block_ok(line: Seq<char>, ls: Seq<Seq<char>>, next: int) -> bool
    decreases line.len(),
{
    if starts_with(line, bullet()) {
        true
    } else if is_ordered_item(line) {
        item_cut_ok(line) && forall|j: int|
            next <= j < ordered_run_end(ls, next) ==> item_cut_ok(#[trigger] ls[j])
    } else if starts_with(line, fence()) {
        true
    } else if starts_with(line, seq!['>']) {
        proof { lemma_trim_len(line.subrange(1, line.len() as int)); }
        block_ok(trim(line.subrange(1, line.len() as int)), ls, next)
    } else {
        true
    }
}

pub proof fn lemma_bullet_run_end(ls: Seq<Seq<char>>, j: int)
    requires
        0 <= j <= ls.len(),
    ensures
        j <= bullet_run_end(ls, j) <= ls.len(),
        forall|m: int| j <= m < bullet_run_end(ls, j) ==> starts_with(#[trigger] ls[m], bullet()),
        bullet_run_end(ls, j) < ls.len() ==> !starts_with(ls[bullet_run_end(ls, j)], bullet()),
    decreases ls.len() - j,
{
    if j < ls.len() && starts_with(ls[j], bullet()) {
        lemma_bullet_run_end(ls, j + 1);
    }
}

pub proof fn lemma_ordered_run_end(ls: Seq<Seq<char>>, j: int)
    requires
        0 <= j <= ls.len(),
    ensures
        j <= ordered_run_end(ls, j) <= ls.len(),
        forall|m: int| j <= m < ordered_run_end(ls, j) ==> is_ordered_item(#[trigger] ls[m]),
        ordered_run_end(ls, j) < ls.len() ==> !is_ordered_item(ls[ordered_run_end(ls, j)]),
    decreases ls.len() - j,
{
    if j < ls.len() && is_ordered_item(ls[j]) {
        lemma_ordered_run_end(ls, j + 1);
    }
}

pub proof fn lemma_code_lines_end(ls: Seq<Seq<char>>, j: int)
    requires
        0 <= j <= ls.len(),
    ensures
        j <= code_lines_end(ls, j) <= ls.len(),
        forall|m: int| j <= m < code_lines_end(ls, j) ==> !is_fence_end(#[trigger] ls[m]),
        code_lines_end(ls, j) < ls.len() ==> is_fence_end(ls[code_lines_end(ls, j)]),
    decreases ls.len() - j,
{
    if j < ls.len() && !is_fence_end(ls[j]) {
        lemma_code_lines_end(ls, j + 1);
    }
}

/// A block reads no line before `next`, and none past the end.
pub proof fn lemma_block_next(line: Seq<char>, ls: Seq<Seq<char>>, next: int)
    requires
        0 <= next <= ls.len(),
    ensures
        next <= block_tokens(line, ls, next).1 <= ls.len(),
    decreases line.len(),
{
    lemma_bullet_run_end(ls, next);
    lemma_ordered_run_end(ls, next);
    lemma_code_lines_end(ls, next);
    if !starts_with(line, bullet()) && !is_ordered_item(line) && !starts_with(line, fence())
        && starts_with(line, seq!['>']) {
        lemma_trim_len(line.subrange(1, line.len() as int));
        lemma_block_next(trim(line.subrange(1, line.len() as int)), ls, next);
    }
}

/// The tokens of the inline markup of `content`.
fn inline_of(content: &str) -> (r: Vec<Token>)
    ensures
        tokens_view(r@) == inline_tokens(content@),
{
    let block = vec![Token::UnResolvedText { value: String::from_str(content) }];
    let ghost bv = tokens_view(block@);
    assert(bv =~= seq![TokenV::UnResolvedText { value: content@ }]);
    assert(bv.drop_last() =~= Seq::empty());
    assert(resolve_inline(bv.drop_last()) == Seq::<TokenV>::empty());
    assert(resolve_inline(bv) =~= inline_tokens(content@));
    process_inline(block)
}

/// Whether the next line of `lines` is an unordered list item.
fn next_is_bullet(lines: &LineReader) -> (r: bool)
    requires
        lines.wf(),
    ensures
        r == (lines@.1 < lines@.0.len() && starts_with(lines@.0[lines@.1], bullet())),
{
    let dash = vec!['-', ' '];
    assert(dash@ =~= bullet());
    match lines.peek_line() {
        Some(line) => str_has_prefix(line, &dash),
        None => false,
    }
}

/// Whether the next line of `lines` is an ordered list item.
fn next_is_ordered(lines: &LineReader) -> (r: bool)
    requires
        lines.wf(),
    ensures
        r == (lines@.1 < lines@.0.len() && is_ordered_item(lines@.0[lines@.1])),
{
    match lines.peek_line() {
        Some(line) => is_ordered_list_item(line),
        None => false,
    }
}

/// Whether the next line of `lines` belongs to an open code block.
fn next_is_code_line(lines: &LineReader) -> (r: bool)
    requires
        lines.wf(),
    ensures
        r == (lines@.1 < lines@.0.len() && !is_fence_end(lines@.0[lines@.1])),
{
    let ticks = vec!['`', '`', '`'];
    assert(ticks@ =~= fence());
    match lines.peek_line() {
        Some(line) => !str_has_prefix(trim_str(line), &ticks),
        None => false,
    }
}

/// Lexes the block that starts with the line `input`; list items and code
/// lines that follow it are read from `lines`.
pub fn process_block(input: &str, lines: &mut LineReader) -> (r: Vec<Token>)
    requires
        old(lines).wf(),
        block_ok(input@, old(lines)@.0, old(lines)@.1),
    ensures
        final(lines).wf(),
        final(lines)@.0 == old(lines)@.0,
        tokens_view(r@) == block_tokens(input@, old(lines)@.0, old(lines)@.1).0,
        final(lines)@.1 == block_tokens(input@, old(lines)@.0, old(lines)@.1).1,
    decreases input@.len(), 1int,
{
    let mut result_tokens: Vec<Token> = Vec::new();
    let chars = chars_of(input);
    let dash = vec!['-', ' '];
    let ticks = vec!['`', '`', '`'];
    let quote = vec!['>'];
    let hash = vec!['#'];
    let rule_prefix = vec!['-', '-', '-'];
    assert(dash@ =~= bullet());
    assert(ticks@ =~= fence());
    assert(quote@ =~= seq!['>']);
    assert(hash@ =~= seq!['#']);
    assert(rule_prefix@ =~= rule());
    if has_prefix(&chars, &dash) {
        process_unordered_list(input, lines, &mut result_tokens);
    } else if is_ordered_list_item(input) {
        process_ordered_list(input, lines, &mut result_tokens);
    } else if has_prefix(&chars, &ticks) {
        process_code_block(input, lines, &mut result_tokens);
    } else if has_prefix(&chars, &quote) {
        process_blockquote(input, lines, &mut result_tokens);
    } else if has_prefix(&chars, &hash) {
        process_heading(input, &mut result_tokens);
    } else if has_prefix(&chars, &rule_prefix) {
        push_token(&mut result_tokens, Token::ThematicBreak);
    } else {
        process_paragraph(input, &mut result_tokens);
    }
    result_tokens
}

/// Lexes an unordered list whose first item is `input`, with the items that
/// follow it directly.
fn process_unordered_list(input: &str, lines: &mut LineReader, result_tokens: &mut Vec<Token>)
    requires
        old(lines).wf(),
        starts_with(input@, bullet()),
    ensures
        final(lines).wf(),
        final(lines)@.0 == old(lines)@.0,
        final(lines)@.1 == bullet_run_end(old(lines)@.0, old(lines)@.1),
        tokens_view(final(result_tokens)@) == tokens_view(old(result_tokens)@) + seq![
            TokenV::UnorderedListOpen,
        ] + list_item(input@.subrange(2, input@.len() as int)) + bullet_items(
            old(lines)@.0,
            old(lines)@.1,
            bullet_run_end(old(lines)@.0, old(lines)@.1),
        ) + seq![TokenV::UnorderedListClose],
{
    let ghost ls = lines@.0;
    let ghost start = lines@.1;
    let ghost base = tokens_view(result_tokens@);
    proof {
        lines.lemma_wf();
        lemma_bullet_run_end(ls, start);
    }
    let content = input.substring_char(2, input.unicode_len());
    push_token(result_tokens, Token::UnorderedListOpen);
    push_token(result_tokens, Token::ListItemOpen);
    let inline_tokens = inline_of(content);
    extend_tokens(result_tokens, inline_tokens);
    push_token(result_tokens, Token::ListItemClose);
    let ghost first = tokens_view(result_tokens@);
    assert(first =~= base + seq![TokenV::UnorderedListOpen] + list_item(
        input@.subrange(2, input@.len() as int),
    ));
    while next_is_bullet(lines)
        invariant
            lines.wf(),
            lines@.0 == ls,
            start <= lines@.1 <= bullet_run_end(ls, start),
            bullet_run_end(ls, lines@.1) == bullet_run_end(ls, start),
            tokens_view(result_tokens@) == first + bullet_items(ls, start, lines@.1),
        decreases ls.len() - lines@.1,
    {
        proof {
            lines.lemma_wf();
        }
        let ghost j = lines@.1;
        proof { lemma_bullet_run_end(ls, j + 1); }
        let line = lines.next_line().unwrap();
        let item_content = line.substring_char(2, line.unicode_len());
        push_token(result_tokens, Token::Newline);
        push_token(result_tokens, Token::ListItemOpen);
        let item_tokens = inline_of(item_content);
        extend_tokens(result_tokens, item_tokens);
        push_token(result_tokens, Token::ListItemClose);
        assert(tokens_view(result_tokens@) =~= first + bullet_items(ls, start, j + 1));
    }
    proof {
        lines.lemma_wf();
    }
    push_token(result_tokens, Token::UnorderedListClose);
}

/// Lexes an ordered list whose first item is `input`, with the items that
/// follow it directly.
fn process_ordered_list(input: &str, lines: &mut LineReader, result_tokens: &mut Vec<Token>)
    requires
        old(lines).wf(),
        is_ordered_item(input@),
        item_cut_ok(input@),
        forall|j: int|
            old(lines)@.1 <= j < ordered_run_end(old(lines)@.0, old(lines)@.1) ==> item_cut_ok(
                #[trigger] old(lines)@.0[j],
            ),
    ensures
        final(lines).wf(),
        final(lines)@.0 == old(lines)@.0,
        final(lines)@.1 == ordered_run_end(old(lines)@.0, old(lines)@.1),
        tokens_view(final(result_tokens)@) == tokens_view(old(result_tokens)@) + seq![
            TokenV::OrderedListOpen { start: item_start(input@) },
        ] + list_item(item_content(input@)) + ordered_items(
            old(lines)@.0,
            old(lines)@.1,
            ordered_run_end(old(lines)@.0, old(lines)@.1),
        ) + seq![TokenV::OrderedListClose],
{
    let ghost ls = lines@.0;
    let ghost first_line = lines@.1;
    let ghost base = tokens_view(result_tokens@);
    proof {
        lines.lemma_wf();
        lemma_ordered_run_end(ls, first_line);
    }
    let (start, content) = extract_ordered_list_item(input);
    push_token(result_tokens, Token::OrderedListOpen { start });
    push_token(result_tokens, Token::ListItemOpen);
    let inline_tokens = inline_of(content);
    extend_tokens(result_tokens, inline_tokens);
    push_token(result_tokens, Token::ListItemClose);
    let ghost first = tokens_view(result_tokens@);
    assert(first =~= base + seq![TokenV::OrderedListOpen { start: item_start(input@) }]
        + list_item(item_content(input@)));
    while next_is_ordered(lines)
        invariant
            lines.wf(),
            lines@.0 == ls,
            first_line <= lines@.1 <= ordered_run_end(ls, first_line),
            ordered_run_end(ls, lines@.1) == ordered_run_end(ls, first_line),
            forall|j: int|
                first_line <= j < ordered_run_end(ls, first_line) ==> item_cut_ok(#[trigger] ls[j]),
            tokens_view(result_tokens@) == first + ordered_items(ls, first_line, lines@.1),
        decreases ls.len() - lines@.1,
    {
        proof {
            lines.lemma_wf();
        }
        let ghost j = lines@.1;
        proof { lemma_ordered_run_end(ls, j + 1); }
        let line = lines.next_line().unwrap();
        assert(item_cut_ok(ls[j]));
        let (_, item_content) = extract_ordered_list_item(line);
        push_token(result_tokens, Token::Newline);
        push_token(result_tokens, Token::ListItemOpen);
        let item_tokens = inline_of(item_content);
        extend_tokens(result_tokens, item_tokens);
        push_token(result_tokens, Token::ListItemClose);
        assert(tokens_view(result_tokens@) =~= first + ordered_items(ls, first_line, j + 1));
    }
    proof {
        lines.lemma_wf();
    }
    push_token(result_tokens, Token::OrderedListClose);
}

/// The lines `code_lines` joined with `\n` between them.
fn join_code_lines(code_lines: &Vec<&str>) -> (r: String)
    ensures
        r@ == join_lines(str_views(code_lines@)),
{
    let mut out = String::new();
    let mut i: usize = 0;
    let ghost all = str_views(code_lines@);
    let newline = "\n";
    proof {
        reveal_strlit("\n");
    }
    assert(all.subrange(0, 0) =~= Seq::<Seq<char>>::empty());
    while i < code_lines.len()
        invariant
            all == str_views(code_lines@),
            i <= code_lines@.len(),
            newline@ == seq!['\n'],
            out@ == join_lines(all.subrange(0, i as int)),
        decreases code_lines@.len() - i,
    {
        let ghost prev = all.subrange(0, i as int);
        let ghost next = all.subrange(0, i + 1);
        assert(next.drop_last() =~= prev);
        if i > 0 {
            out.append(newline);
        } else {
            assert(out@ =~= Seq::<char>::empty());
        }
        out.append(code_lines[i]);
        assert(out@ =~= join_lines(next));
        i = i + 1;
    }
    assert(all.subrange(0, code_lines@.len() as int) =~= all);
    out
}

/// Lexes a fenced code block opened by `input`: its lines run up to the next
/// line that begins with three backticks (which is read too), or to the end.
fn process_code_block(input: &str, lines: &mut LineReader, result_tokens: &mut Vec<Token>)
    requires
        old(lines).wf(),
        starts_with(input@, fence()),
    ensures
        final(lines).wf(),
        final(lines)@.0 == old(lines)@.0,
        final(lines)@.1 == block_tokens(input@, old(lines)@.0, old(lines)@.1).1,
        tokens_view(final(result_tokens)@) == tokens_view(old(result_tokens)@) + block_tokens(
            input@,
            old(lines)@.0,
            old(lines)@.1,
        ).0,
{
    let ghost ls = lines@.0;
    let ghost first_line = lines@.1;
    proof {
        lines.lemma_wf();
        lemma_code_lines_end(ls, first_line);
    }
    let mut code_lines: Vec<&str> = Vec::new();
    let sliced = input.substring_char(3, input.unicode_len());
    let info = chars_of(sliced);
    let space = vec![' '];
    assert(space@ =~= seq![' ']);
    let (lang, meta) = if info.len() == 0 {
        (None, None)
    } else {
        match find_chars(&info, &space, 0) {
            Some(p) => {
                proof { lemma_find_from(info@, space@, 0); }
                (Some(substring(sliced, 0, p)), Some(substring(sliced, p + 1, info.len())))
            },
            None => (Some(String::from_str(sliced)), None),
        }
    };
    while next_is_code_line(lines)
        invariant
            lines.wf(),
            lines@.0 == ls,
            first_line <= lines@.1 <= code_lines_end(ls, first_line),
            code_lines_end(ls, lines@.1) == code_lines_end(ls, first_line),
            str_views(code_lines@) == ls.subrange(first_line, lines@.1),
        decreases ls.len() - lines@.1,
    {
        proof {
            lines.lemma_wf();
        }
        let ghost j = lines@.1;
        let ghost before = str_views(code_lines@);
        proof { lemma_code_lines_end(ls, j + 1); }
        let line = lines.next_line().unwrap();
        code_lines.push(line);
        assert(str_views(code_lines@) =~= before.push(line@));
        assert(ls.subrange(first_line, j + 1) =~= ls.subrange(first_line, j).push(ls[j]));
    }
    proof {
        lines.lemma_wf();
    }
    let _closing_fence = lines.next_line();
    let value = join_code_lines(&code_lines);
    push_token(result_tokens, Token::CodeBlockOpen { lang, meta });
    push_token(result_tokens, Token::CodeBlockText { value });
    push_token(result_tokens, Token::CodeBlockClose);
}

/// Lexes a block quote: the rest of `input` after the `>`, trimmed, is lexed
/// as a block of its own.
fn process_blockquote(input: &str, lines: &mut LineReader, result_tokens: &mut Vec<Token>)
    requires
        old(lines).wf(),
        starts_with(input@, seq!['>']),
        block_ok(trim(input@.subrange(1, input@.len() as int)), old(lines)@.0, old(lines)@.1),
    ensures
        final(lines).wf(),
        final(lines)@.0 == old(lines)@.0,
        final(lines)@.1 == block_tokens(
            trim(input@.subrange(1, input@.len() as int)),
            old(lines)@.0,
            old(lines)@.1,
        ).1,
        tokens_view(final(result_tokens)@) == tokens_view(old(result_tokens)@) + seq![
            TokenV::BlockquoteOpen,
        ] + block_tokens(
            trim(input@.subrange(1, input@.len() as int)),
            old(lines)@.0,
            old(lines)@.1,
        ).0 + seq![TokenV::BlockquoteClose],
    decreases input@.len(), 0int,
{
    proof {
        lemma_trim_len(input@.subrange(1, input@.len() as int));
    }
    let remaining = trim_str(input.substring_char(1, input.unicode_len()));
    let inner_tokens = process_block(remaining, lines);
    push_token(result_tokens, Token::BlockquoteOpen);
    extend_tokens(result_tokens, inner_tokens);
    push_token(result_tokens, Token::BlockquoteClose);
}

/// Lexes a heading: its level is the number of leading `#`, its text the rest
/// of the line, trimmed.
fn process_heading(input: &str, result_tokens: &mut Vec<Token>)
    requires
        starts_with(input@, seq!['#']),
    ensures
        tokens_view(final(result_tokens)@) == tokens_view(old(result_tokens)@) + seq![
            TokenV::HeadingOpen { level: run_end(input@, '#', 0) as nat },
        ] + inline_tokens(
            trim(input@.subrange(run_end(input@, '#', 0), input@.len() as int)),
        ) + seq![TokenV::HeadingClose],
{
    let chars = chars_of(input);
    let level = skip_run(&chars, '#', 0);
    proof {
        lemma_run_end(input@, '#', 0);
    }
    let remaining = trim_str(input.substring_char(level, chars.len()));
    let inline_tokens = inline_of(remaining);
    push_token(result_tokens, Token::HeadingOpen { level });
    extend_tokens(result_tokens, inline_tokens);
    push_token(result_tokens, Token::HeadingClose);
}

/// Lexes a paragraph: the whole line is inline text.
fn process_paragraph(input: &str, result_tokens: &mut Vec<Token>)
    ensures
        tokens_view(final(result_tokens)@) == tokens_view(old(result_tokens)@) + seq![
            TokenV::ParagraphOpen,
        ] + inline_tokens(input@) + seq![TokenV::ParagraphClose],
{
    let inline_tokens = inline_of(input);
    push_token(result_tokens, Token::ParagraphOpen);
    extend_tokens(result_tokens, inline_tokens);
    push_token(result_tokens, Token::ParagraphClose);
}

/// Whether lexing the block that starts with the line `input` stays on
/// character boundaries, where the lines that follow it are those of `lines`
/// from its next line on.
pub fn block_is_safe(input: &str, lines: &LineReader) -> (r: bool)
    requires
        lines.wf(),
    ensures
        r == block_ok(input@, lines@.0, lines@.1),
    decreases input@.len(),
{
    let chars = chars_of(input);
    let dash = vec!['-', ' '];
    let ticks = vec!['`', '`', '`'];
    let quote = vec!['>'];
    assert(dash@ =~= bullet());
    assert(ticks@ =~= fence());
    assert(quote@ =~= seq!['>']);
    if has_prefix(&chars, &dash) {
        true
    } else if is_ordered_list_item(input) {
        if !item_cut_is_ok(input) {
            return false;
        }
        let ghost ls = lines@.0;
        let ghost start = lines@.1;
        proof {
            lines.lemma_wf();
            lemma_ordered_run_end(ls, start);
        }
        let mut n: usize = 0;
        assert(block_ok(input@, ls, start) == forall|j: int|
            start <= j < ordered_run_end(ls, start) ==> item_cut_ok(#[trigger] ls[j]));
        loop
            invariant
                block_ok(input@, ls, start) == forall|j: int|
                    start <= j < ordered_run_end(ls, start) ==> item_cut_ok(#[trigger] ls[j]),
                ls.len() <= usize::MAX,
                lines.wf(),
                ls == lines@.0,
                start == lines@.1,
                0 <= start <= ls.len(),
                start + n <= ordered_run_end(ls, start),
                ordered_run_end(ls, start + n) == ordered_run_end(ls, start),
                forall|j: int| start <= j < start + n ==> item_cut_ok(#[trigger] ls[j]),
            decreases ls.len() - start - n,
        {
            match lines.peek_nth(n) {
                Some(line) => {
                    let ghost j = start + n;
                    if !is_ordered_list_item(line) {
                        assert(ordered_run_end(ls, j) == j);
                        assert(block_ok(input@, ls, start));
                        return true;
                    }
                    proof {
                        lemma_ordered_run_end(ls, j + 1);
                    }
                    if !item_cut_is_ok(line) {
                        assert(!item_cut_ok(ls[j]));
                        assert(j < ordered_run_end(ls, start));
                        assert(!block_ok(input@, ls, start));
                        return false;
                    }
                    n = n + 1;
                },
                None => {
                    assert(ordered_run_end(ls, start + n) == start + n);
                    assert(block_ok(input@, ls, start));
                    return true;
                },
            }
        }
    } else if has_prefix(&chars, &ticks) {
        true
    } else if has_prefix(&chars, &quote) {
        proof {
            lemma_trim_len(input@.subrange(1, input@.len() as int));
        }
        block_is_safe(trim_str(input.substring_char(1, chars.len())), lines)
    } else {
        true
    }
}

} // verus!
