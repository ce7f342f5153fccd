//! Well-nestedness of token streams: every opening token is closed by its own
//! closing token, in the reverse order of opening. The lexer produces only
//! well-nested streams.

use vstd::prelude::*;
use crate::inline_parser::{
    code_tokens, emphasis_end, emphasis_tokens, image_match, image_tokens, inline_tokens,
    lemma_code_end, lemma_emphasis_end, link_match, link_tokens, scan, scan_measure, tail_text,
    text_run, code_end,
};
use crate::text::{find_from, lemma_find_from, lemma_run_end, repeat, run_end};
use crate::block_parser::{
    block_tokens, bullet, bullet_items, fence, lemma_block_next, list_item, ordered_items,
};
use crate::text::{lemma_trim_len, starts_with, trim};
use crate::token::TokenV;
use crate::tokenizer::{tokenize_from, tokens_of};
use crate::lines::lines;
use crate::utils::{is_ordered_item, item_content};

verus! {

/// The token that closes `t`, where `t` opens something.
pub open spec fn closer_of(t: TokenV) -> Option<TokenV> {
    match t {
        TokenV::HeadingOpen { .. } => Some(TokenV::HeadingClose),
        TokenV::ParagraphOpen => Some(TokenV::ParagraphClose),
        TokenV::EmphasisOpen => Some(TokenV::EmphasisClose),
        TokenV::StrongOpen => Some(TokenV::StrongClose),
        TokenV::CodeInlineOpen => Some(TokenV::CodeInlineClose),
        TokenV::CodeBlockOpen { .. } => Some(TokenV::CodeBlockClose),
        TokenV::OrderedListOpen { .. } => Some(TokenV::OrderedListClose),
        TokenV::UnorderedListOpen => Some(TokenV::UnorderedListClose),
        TokenV::ListItemOpen => Some(TokenV::ListItemClose),
        TokenV::BlockquoteOpen => Some(TokenV::BlockquoteClose),
        TokenV::LinkOpen { .. } => Some(TokenV::LinkClose),
        _ => None,
    }
}

/// Whether `t` closes something.
pub open spec fn is_closer(t: TokenV) -> bool {
    match t {
        TokenV::HeadingClose | TokenV::ParagraphClose | TokenV::EmphasisClose
        | TokenV::StrongClose | TokenV::CodeInlineClose | TokenV::CodeBlockClose
        | TokenV::OrderedListClose | TokenV::UnorderedListClose | TokenV::ListItemClose
        | TokenV::BlockquoteClose | TokenV::LinkClose => true,
        _ => false,
    }
}

/// Reads `ts` with `stack` holding the closing tokens still expected, the
/// innermost last: the stack left at the end, or `None` where a closing token
/// is not the one expected.
pub open spec fn nest_run(ts: Seq<TokenV>, stack: Seq<TokenV>) -> Option<Seq<TokenV>>
    decreases ts.len(),
{
    if ts.len() == 0 {
        Some(stack)
    } else {
        let t = ts[0];
        match closer_of(t) {
            Some(c) => nest_run(ts.drop_first(), stack.push(c)),
            None => if is_closer(t) {
                if stack.len() > 0 && stack.last() == t {
                    nest_run(ts.drop_first(), stack.drop_last())
                } else {
                    None
                }
            } else {
                nest_run(ts.drop_first(), stack)
            },
        }
    }
}

/// Whether every opening token of `ts` is closed by its own closing token, in
/// the reverse order of opening, and no closing token is left over.
pub open spec fn well_nested(ts: Seq<TokenV>) -> bool {
    nest_run(ts, Seq::empty()) == Some(Seq::<TokenV>::empty())
}

/// Reading `a + b` is reading `a`, then `b` from where `a` left the stack.
pub proof fn lemma_nest_run_append(a: Seq<TokenV>, b: Seq<TokenV>, stack: Seq<TokenV>)
    ensures
        nest_run(a + b, stack) == match nest_run(a, stack) {
            Some(s2) => nest_run(b, s2),
            None => None,
        },
    decreases a.len(),
{
    if a.len() == 0 {
        assert(a + b =~= b);
    } else {
        assert((a + b).drop_first() =~= a.drop_first() + b);
        assert((a + b)[0] == a[0]);
        let t = a[0];
        match closer_of(t) {
            Some(c) => lemma_nest_run_append(a.drop_first(), b, stack.push(c)),
            None => if is_closer(t) {
                if stack.len() > 0 && stack.last() == t {
                    lemma_nest_run_append(a.drop_first(), b, stack.drop_last());
                }
            } else {
                lemma_nest_run_append(a.drop_first(), b, stack);
            },
        }
    }
}

/// What is already on the stack below does not change a successful reading.
pub proof fn lemma_nest_run_frame(a: Seq<TokenV>, below: Seq<TokenV>, x: Seq<TokenV>)
    ensures
        nest_run(a, x) is Some ==> nest_run(a, below + x) == Some(
            below + nest_run(a, x)->0,
        ),
    decreases a.len(),
{
    if a.len() > 0 {
        let t = a[0];
        match closer_of(t) {
            Some(c) => {
                assert(below + x.push(c) =~= (below + x).push(c));
                lemma_nest_run_frame(a.drop_first(), below, x.push(c));
            },
            None => if is_closer(t) {
                if x.len() > 0 && x.last() == t {
                    assert((below + x).last() == t);
                    assert(below + x.drop_last() =~= (below + x).drop_last());
                    lemma_nest_run_frame(a.drop_first(), below, x.drop_last());
                }
            } else {
                lemma_nest_run_frame(a.drop_first(), below, x);
            },
        }
    }
}

/// A well-nested stream leaves any stack as it found it.
pub proof fn lemma_well_nested_frame(a: Seq<TokenV>, stack: Seq<TokenV>)
    requires
        well_nested(a),
    ensures
        nest_run(a, stack) == Some(stack),
{
    lemma_nest_run_frame(a, stack, Seq::empty());
    assert(stack + Seq::<TokenV>::empty() =~= stack);
}

/// The concatenation of well-nested streams is well-nested.
pub proof fn lemma_well_nested_concat(a: Seq<TokenV>, b: Seq<TokenV>)
    requires
        well_nested(a),
        well_nested(b),
    ensures
        well_nested(a + b),
{
    lemma_nest_run_append(a, b, Seq::empty());
}

/// A well-nested stream between an opening token and its closing token is
/// well-nested.
pub proof fn lemma_well_nested_wrap(o: TokenV, x: Seq<TokenV>)
    requires
        closer_of(o) is Some,
        well_nested(x),
    ensures
        well_nested(seq![o] + x + seq![closer_of(o)->0]),
{
    let c = closer_of(o)->0;
    let e = Seq::<TokenV>::empty();
    let whole = seq![o] + x + seq![c];
    assert(whole.drop_first() =~= x + seq![c]);
    assert(whole[0] == o);
    lemma_nest_run_append(x, seq![c], e.push(c));
    lemma_well_nested_frame(x, e.push(c));
    let last = seq![c];
    assert(last.drop_first() =~= e);
    assert(!(closer_of(c) is Some));
    assert(is_closer(c));
    assert(e.push(c).drop_last() =~= e);
    assert(nest_run(e, e) == Some(e));
    assert(nest_run(last, e.push(c)) == nest_run(last.drop_first(), e.push(c).drop_last()));
    assert(nest_run(last, e.push(c)) == Some(e));
    assert(nest_run(x + last, e.push(c)) == Some(e));
    assert(nest_run(whole, e) == nest_run(whole.drop_first(), e.push(c)));
}

/// The empty stream is well-nested.
pub proof fn lemma_well_nested_empty()
    ensures
        well_nested(Seq::<TokenV>::empty()),
{
}

/// A single token that neither opens nor closes anything is well-nested.
pub proof fn lemma_well_nested_leaf(t: TokenV)
    requires
        closer_of(t) is None,
        !is_closer(t),
    ensures
        well_nested(seq![t]),
{
    let e = Seq::<TokenV>::empty();
    assert(seq![t].drop_first() =~= e);
    assert(nest_run(e, e) == Some(e));
    assert(nest_run(seq![t], e) == nest_run(seq![t].drop_first(), e));
}

proof fn lemma_text_run_nested(s: Seq<char>, a: int, i: int)
    ensures
        well_nested(text_run(s, a, i)),
        well_nested(tail_text(s, i)),
{
    if a < i {
        lemma_well_nested_leaf(TokenV::Text { value: s.subrange(a, i) });
    }
    if i < s.len() {
        lemma_well_nested_leaf(TokenV::Text { value: s.subrange(i, s.len() as int) });
    }
}

/// The inline tokens of any text are well-nested.
pub proof fn lemma_inline_nested(s: Seq<char>)
    ensures
        well_nested(inline_tokens(s)),
    decreases s.len(), s.len() + 1,
{
    lemma_scan_nested(s, 0, 0);
}

proof fn lemma_scan_nested(s: Seq<char>, a: int, i: int)
    ensures
        well_nested(scan(s, a, i)),
    decreases s.len(), scan_measure(s, i),
{
    lemma_text_run_nested(s, a, i);
    if !(0 <= i < s.len()) {
    } else if s[i] == '*' {
        let e = emphasis_end(s, i);
        lemma_emphasis_end(s, i);
        lemma_emphasis_nested(s, i);
        lemma_scan_nested(s, e, e);
        lemma_well_nested_concat(text_run(s, a, i), emphasis_tokens(s, i));
        lemma_well_nested_concat(text_run(s, a, i) + emphasis_tokens(s, i), scan(s, e, e));
    } else if s[i] == '`' {
        let e = code_end(s, i);
        lemma_code_end(s, i);
        lemma_code_nested(s, i);
        lemma_scan_nested(s, e, e);
        lemma_well_nested_concat(text_run(s, a, i), code_tokens(s, i));
        lemma_well_nested_concat(text_run(s, a, i) + code_tokens(s, i), scan(s, e, e));
    } else if s[i] == '!' {
        let rest = if image_match(s, i) is Some {
            Seq::empty()
        } else if i + 1 < s.len() && s[i + 1] == '[' {
            lemma_scan_nested(s, i + 1, i + 1);
            scan(s, i + 1, i + 1)
        } else {
            lemma_scan_nested(s, i, i + 1);
            scan(s, i, i + 1)
        };
        lemma_image_nested(s, i);
        lemma_well_nested_concat(text_run(s, a, i), image_tokens(s, i));
        lemma_well_nested_concat(text_run(s, a, i) + image_tokens(s, i), rest);
    } else if s[i] == '[' {
        lemma_link_nested(s, i);
        lemma_well_nested_concat(text_run(s, a, i), link_tokens(s, i));
    } else {
        lemma_scan_nested(s, a, i + 1);
    }
}

proof fn lemma_emphasis_nested(s: Seq<char>, i: int)
    ensures
        well_nested(emphasis_tokens(s, i)),
    decreases s.len(), 0int,
{
    let n = run_end(s, '*', i);
    let count = n - i;
    lemma_well_nested_leaf(TokenV::Text { value: repeat('*', count) });
    if count == 1 || count == 2 {
        match find_from(s, repeat('*', count), n) {
            Some(f) => {
                lemma_run_end(s, '*', i);
                lemma_find_from(s, repeat('*', count), n);
                lemma_inline_nested(s.subrange(n, f));
                if count == 1 {
                    lemma_well_nested_wrap(TokenV::EmphasisOpen, inline_tokens(s.subrange(n, f)));
                } else {
                    lemma_well_nested_wrap(TokenV::StrongOpen, inline_tokens(s.subrange(n, f)));
                }
            },
            None => {},
        }
    }
}

proof fn lemma_link_nested(s: Seq<char>, i: int)
    ensures
        well_nested(link_tokens(s, i)),
    decreases s.len(), 0int,
{
    match link_match(s, i) {
        Some((f, g)) => {
            lemma_find_from(s, seq![']', '('], i + 1);
            let open = TokenV::LinkOpen { url: s.subrange(f + 2, g), title: None };
            let inner = inline_tokens(s.subrange(i + 1, f));
            lemma_inline_nested(s.subrange(i + 1, f));
            lemma_well_nested_wrap(open, inner);
            lemma_text_run_nested(s, 0, g + 1);
            lemma_well_nested_concat(seq![open] + inner + seq![TokenV::LinkClose], tail_text(s, g + 1));
        },
        None => {
            lemma_well_nested_leaf(TokenV::Text { value: s.subrange(i, s.len() as int) });
        },
    }
}

proof fn lemma_code_nested(s: Seq<char>, i: int)
    ensures
        well_nested(code_tokens(s, i)),
{
    let n = run_end(s, '`', i);
    match find_from(s, seq!['`'], n) {
        Some(f) => lemma_well_nested_leaf(TokenV::CodeInline { value: s.subrange(n, f) }),
        None => {},
    }
    lemma_well_nested_leaf(TokenV::Text { value: seq!['`'] });
    lemma_well_nested_leaf(TokenV::Text { value: repeat('`', n - i) });
}

proof fn lemma_image_nested(s: Seq<char>, i: int)
    ensures
        well_nested(image_tokens(s, i)),
{
    match image_match(s, i) {
        Some((f, g)) => {
            let image = TokenV::Image {
                url: s.subrange(f + 2, g),
                title: None,
                alt: Some(s.subrange(i + 2, f)),
            };
            lemma_well_nested_leaf(image);
            lemma_text_run_nested(s, 0, g + 1);
            lemma_well_nested_concat(seq![image], tail_text(s, g + 1));
        },
        None => {
            lemma_well_nested_leaf(TokenV::Text { value: seq!['!'] });
            lemma_well_nested_empty();
        },
    }
}

proof fn lemma_list_item_nested(content: Seq<char>)
    ensures
        well_nested(list_item(content)),
{
    lemma_inline_nested(content);
    lemma_well_nested_wrap(TokenV::ListItemOpen, inline_tokens(content));
}

proof fn lemma_items_nested(ls: Seq<Seq<char>>, j: int, e: int)
    ensures
        well_nested(bullet_items(ls, j, e)),
        well_nested(ordered_items(ls, j, e)),
    decreases e - j,
{
    if e > j {
        lemma_items_nested(ls, j, e - 1);
        lemma_well_nested_leaf(TokenV::Newline);
        let b = ls[e - 1].subrange(2, ls[e - 1].len() as int);
        let o = item_content(ls[e - 1]);
        lemma_list_item_nested(b);
        lemma_list_item_nested(o);
        lemma_well_nested_concat(bullet_items(ls, j, e - 1), seq![TokenV::Newline]);
        lemma_well_nested_concat(bullet_items(ls, j, e - 1) + seq![TokenV::Newline], list_item(b));
        lemma_well_nested_concat(ordered_items(ls, j, e - 1), seq![TokenV::Newline]);
        lemma_well_nested_concat(ordered_items(ls, j, e - 1) + seq![TokenV::Newline], list_item(o));
    }
}

/// The tokens of any block are well-nested.
pub proof fn lemma_block_nested(line: Seq<char>, ls: Seq<Seq<char>>, next: int)
    ensures
        well_nested(block_tokens(line, ls, next).0),
    decreases line.len(),
{
    if starts_with(line, bullet()) {
        let first = line.subrange(2, line.len() as int);
        let e = crate::block_parser::bullet_run_end(ls, next);
        lemma_list_item_nested(first);
        lemma_items_nested(ls, next, e);
        lemma_well_nested_concat(list_item(first), bullet_items(ls, next, e));
        lemma_well_nested_wrap(
            TokenV::UnorderedListOpen,
            list_item(first) + bullet_items(ls, next, e),
        );
        assert(block_tokens(line, ls, next).0 =~= seq![TokenV::UnorderedListOpen] + (list_item(
            first,
        ) + bullet_items(ls, next, e)) + seq![TokenV::UnorderedListClose]);
    } else if is_ordered_item(line) {
        let first = item_content(line);
        let e = crate::block_parser::ordered_run_end(ls, next);
        let open = TokenV::OrderedListOpen { start: crate::utils::item_start(line) };
        lemma_list_item_nested(first);
        lemma_items_nested(ls, next, e);
        lemma_well_nested_concat(list_item(first), ordered_items(ls, next, e));
        lemma_well_nested_wrap(open, list_item(first) + ordered_items(ls, next, e));
        assert(block_tokens(line, ls, next).0 =~= seq![open] + (list_item(first) + ordered_items(
            ls,
            next,
            e,
        )) + seq![TokenV::OrderedListClose]);
    } else if starts_with(line, fence()) {
        let block = block_tokens(line, ls, next).0;
        let open = block[0];
        let text = block[1];
        lemma_well_nested_leaf(text);
        lemma_well_nested_wrap(open, seq![text]);
        assert(block =~= seq![open] + seq![text] + seq![TokenV::CodeBlockClose]);
    } else if starts_with(line, seq!['>']) {
        let rest = trim(line.subrange(1, line.len() as int));
        lemma_trim_len(line.subrange(1, line.len() as int));
        lemma_block_nested(rest, ls, next);
        lemma_well_nested_wrap(TokenV::BlockquoteOpen, block_tokens(rest, ls, next).0);
    } else if starts_with(line, seq!['#']) {
        let level = run_end(line, '#', 0);
        let content = trim(line.subrange(level, line.len() as int));
        lemma_inline_nested(content);
        lemma_well_nested_wrap(TokenV::HeadingOpen { level: level as nat }, inline_tokens(content));
    } else if starts_with(line, seq!['-', '-', '-']) {
        lemma_well_nested_leaf(TokenV::ThematicBreak);
    } else {
        lemma_inline_nested(line);
        lemma_well_nested_wrap(TokenV::ParagraphOpen, inline_tokens(line));
    }
}

proof fn lemma_tokenize_from_nested(ls: Seq<Seq<char>>, i: int)
    ensures
        well_nested(tokenize_from(ls, i)),
    decreases ls.len() - i,
{
    if !(0 <= i < ls.len()) {
    } else if trim(ls[i]).len() == 0 {
        lemma_tokenize_from_nested(ls, i + 1);
    } else {
        let block = block_tokens(ls[i], ls, i + 1);
        lemma_block_next(ls[i], ls, i + 1);
        lemma_block_nested(ls[i], ls, i + 1);
        lemma_tokenize_from_nested(ls, block.1);
        let sep = if block.1 < ls.len() {
            seq![TokenV::Newline]
        } else {
            Seq::empty()
        };
        lemma_well_nested_leaf(TokenV::Newline);
        lemma_well_nested_concat(block.0, sep);
        lemma_well_nested_concat(block.0 + sep, tokenize_from(ls, block.1));
    }
}

/// Law: the lexer produces only well-nested token streams. Every opening
/// token it emits is closed by its own closing token, in the reverse order of
/// opening, and it emits no closing token that nothing opened.
pub proof fn law_tokens_well_nested(s: Seq<char>)
    ensures
        well_nested(tokens_of(s)),
{
    lemma_tokenize_from_nested(lines(s), 0);
}

} // verus!
