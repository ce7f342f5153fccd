//! Readers for the single kinds of node: each starts at the token that opens
//! the node and moves the position past what the node takes.

use vstd::prelude::*;
use crate::ast::{Node, NodeV, opt_view};
use crate::parser::{
    after_close, blockquote_close, children_of, code_after, code_block_close, code_text_index,
    code_value, emphasis_close, heading_close, lemma_code_text_index, link_close,
    list_item_close, ordered_list_close, paragraph_close, parse_nodes, skip_one, strong_close,
    unordered_list_close,
};
use crate::token::{Token, TokenV, copy_opt_string, copy_token, tokens_view};

verus! {

/// The position of the first token at or after `j` that `is_close` accepts
/// (the length of `ts` if there is none).
pub open spec fn close_index(ts: Seq<TokenV>, j: int, is_close: spec_fn(TokenV) -> bool) -> int
    decreases ts.len() - j,
{
    if 0 <= j < ts.len() && !is_close(ts[j]) {
        close_index(ts, j + 1, is_close)
    } else {
        j
    }
}

pub proof fn lemma_close_index(ts: Seq<TokenV>, j: int, is_close: spec_fn(TokenV) -> bool)
    ensures
        !(0 <= j <= ts.len()) ==> close_index(ts, j, is_close) == j,
        0 <= j <= ts.len() ==> j <= close_index(ts, j, is_close) <= ts.len(),
        0 <= j <= ts.len() ==> forall|m: int|
            j <= m < close_index(ts, j, is_close) ==> !is_close(#[trigger] ts[m]),
        0 <= j <= ts.len() && close_index(ts, j, is_close) < ts.len() ==> is_close(
            ts[close_index(ts, j, is_close)],
        ),
    decreases ts.len() - j,
{
    if 0 <= j < ts.len() && !is_close(ts[j]) {
        lemma_close_index(ts, j + 1, is_close);
    }
}

/// Collects the tokens from `*pos` up to the first one that `is_close_token`
/// accepts, and leaves `*pos` there. `is_close` states what `is_close_token`
/// answers.
pub fn collect_tokens_until<F: Fn(&Token) -> bool>(
    tokens: &[Token],
    pos: &mut usize,
    is_close_token: F,
    Ghost(is_close): Ghost<spec_fn(TokenV) -> bool>,
) -> (r: Vec<Token>)
    requires
        *old(pos) <= tokens@.len(),
        forall|t: &Token| is_close_token.requires((t,)),
        forall|t: &Token, b: bool| is_close_token.ensures((t,), b) ==> b == is_close(t@),
    ensures
        *final(pos) == close_index(tokens_view(tokens@), *old(pos) as int, is_close),
        tokens_view(r@) == tokens_view(tokens@).subrange(*old(pos) as int, *final(pos) as int),
{
    let ghost ts = tokens_view(tokens@);
    let ghost start = *pos;
    let mut acc_tokens: Vec<Token> = Vec::new();
    while *pos < tokens.len() && !is_close_token(&tokens[*pos])
        invariant
            ts == tokens_view(tokens@),
            start <= *pos <= tokens@.len(),
            forall|t: &Token| is_close_token.requires((t,)),
            forall|t: &Token, b: bool| is_close_token.ensures((t,), b) ==> b == is_close(t@),
            close_index(ts, start as int, is_close) == close_index(ts, *pos as int, is_close),
            tokens_view(acc_tokens@) == ts.subrange(start as int, *pos as int),
        decreases tokens@.len() - *pos,
    {
        let ghost before = tokens_view(acc_tokens@);
        let t = copy_token(&tokens[*pos]);
        assert(ts[*pos as int] == t@);
        acc_tokens.push(t);
        assert(tokens_view(acc_tokens@) =~= before.push(ts[*pos as int]));
        assert(ts.subrange(start as int, *pos + 1) =~= ts.subrange(start as int, *pos as int).push(
            ts[*pos as int],
        ));
        *pos = *pos + 1;
    }
    acc_tokens
}

/// Moves `*pos` past the token there where `is_close_token` accepts it.
/// `is_close` states what `is_close_token` answers.
pub fn skip_close_token<F: Fn(&Token) -> bool>(
    tokens: &[Token],
    pos: &mut usize,
    is_close_token: F,
    Ghost(is_close): Ghost<spec_fn(TokenV) -> bool>,
)
    requires
        *old(pos) <= tokens@.len(),
        forall|t: &Token| is_close_token.requires((t,)),
        forall|t: &Token, b: bool| is_close_token.ensures((t,), b) ==> b == is_close(t@),
    ensures
        *final(pos) == if *old(pos) < tokens@.len() && is_close(tokens@[*old(pos) as int]@) {
            *old(pos) + 1
        } else {
            *old(pos) as int
        },
{
    if *pos < tokens.len() && is_close_token(&tokens[*pos]) {
        *pos = *pos + 1;
    }
}

/// Moves `*pos` past the token there, if any.
fn next_token(tokens: &[Token], pos: &mut usize)
    requires
        *old(pos) <= tokens@.len(),
    ensures
        *final(pos) == skip_one(tokens_view(tokens@), *old(pos) as int),
        *final(pos) <= tokens@.len(),
{
    if *pos < tokens.len() {
        *pos = *pos + 1;
    }
}

/// The children of a node whose tokens start at `*pos` and run up to the
/// first token that `is_close_token` accepts; `*pos` moves past that token.
fn parse_children<F: Fn(&Token) -> bool>(
    tokens: &[Token],
    pos: &mut usize,
    is_close_token: F,
    Ghost(is_close): Ghost<spec_fn(TokenV) -> bool>,
) -> (r: Vec<Node>)
    requires
        *old(pos) <= tokens@.len(),
        0 < *old(pos) || tokens@.len() == 0,
        forall|t: &Token| is_close_token.requires((t,)),
        forall|t: &Token, b: bool| is_close_token.ensures((t,), b) ==> b == is_close(t@),
    ensures
        crate::ast::nodes_view(r@) == children_of(tokens_view(tokens@), *old(pos) as int, is_close),
        *final(pos) == after_close(tokens_view(tokens@), *old(pos) as int, is_close),
    decreases tokens@.len(), 0int,
{
    let ghost ts = tokens_view(tokens@);
    let ghost j = *pos as int;
    proof {
        lemma_close_index(ts, j, is_close);
    }
    if tokens.len() == 0 {
        assert(crate::parser::parse_nodes_spec(ts.subrange(j, j)) =~= Seq::<NodeV>::empty());
        return Vec::new();
    }
    let acc_tokens = collect_tokens_until(tokens, pos, &is_close_token, Ghost(is_close));
    assert(acc_tokens@.len() < tokens@.len()) by {
        assert(tokens_view(acc_tokens@).len() == acc_tokens@.len());
    }
    let children = parse_nodes(acc_tokens.as_slice());
    skip_close_token(tokens, pos, &is_close_token, Ghost(is_close));
    children
}

/// Reads a text node.
pub fn parse_text(tokens: &[Token], pos: &mut usize, value: &str) -> (r: Node)
    requires
        *old(pos) <= tokens@.len(),
    ensures
        r@ == (NodeV::Text { value: value@ }),
        *final(pos) == skip_one(tokens_view(tokens@), *old(pos) as int),
{
    next_token(tokens, pos);
    Node::Text { value: String::from_str(value) }
}

/// Reads a paragraph.
pub fn parse_paragraph(tokens: &[Token], pos: &mut usize) -> (r: Node)
    requires
        *old(pos) <= tokens@.len(),
    ensures
        ({
            let ts = tokens_view(tokens@);
            let j = skip_one(ts, *old(pos) as int);
            &&& r@ == (NodeV::Paragraph { children: children_of(ts, j, paragraph_close()) })
            &&& *final(pos) == after_close(ts, j, paragraph_close())
        }),
    decreases tokens@.len(), 1int,
{
    next_token(tokens, pos);
    let children = parse_children(tokens, pos, is_paragraph_close, Ghost(paragraph_close()));
    Node::Paragraph { children }
}

/// Whether `t` closes a paragraph.
fn is_paragraph_close(t: &Token) -> (b: bool)
    ensures
        b == paragraph_close()(t@),
{
    matches!(t, Token::ParagraphClose)
}

/// Reads a heading of the given level.
pub fn parse_heading(tokens: &[Token], pos: &mut usize, level: usize) -> (r: Node)
    requires
        *old(pos) <= tokens@.len(),
    ensures
        ({
            let ts = tokens_view(tokens@);
            let j = skip_one(ts, *old(pos) as int);
            &&& r@ == (NodeV::Heading { depth: level as nat, children: children_of(ts, j, heading_close()) })
            &&& *final(pos) == after_close(ts, j, heading_close())
        }),
    decreases tokens@.len(), 1int,
{
    next_token(tokens, pos);
    let children = parse_children(tokens, pos, is_heading_close, Ghost(heading_close()));
    Node::Heading { depth: level, children }
}

/// Whether `t` closes a heading.
fn is_heading_close(t: &Token) -> (b: bool)
    ensures
        b == heading_close()(t@),
{
    matches!(t, Token::HeadingClose)
}

/// Reads emphasis.
pub fn parse_emphasis(tokens: &[Token], pos: &mut usize) -> (r: Node)
    requires
        *old(pos) <= tokens@.len(),
    ensures
        ({
            let ts = tokens_view(tokens@);
            let j = skip_one(ts, *old(pos) as int);
            &&& r@ == (NodeV::Emphasis { children: children_of(ts, j, emphasis_close()) })
            &&& *final(pos) == after_close(ts, j, emphasis_close())
        }),
    decreases tokens@.len(), 1int,
{
    next_token(tokens, pos);
    let children = parse_children(tokens, pos, is_emphasis_close, Ghost(emphasis_close()));
    Node::Emphasis { children }
}

/// Whether `t` closes emphasis.
fn is_emphasis_close(t: &Token) -> (b: bool)
    ensures
        b == emphasis_close()(t@),
{
    matches!(t, Token::EmphasisClose)
}

/// Reads strong emphasis.
pub fn parse_strong(tokens: &[Token], pos: &mut usize) -> (r: Node)
    requires
        *old(pos) <= tokens@.len(),
    ensures
        ({
            let ts = tokens_view(tokens@);
            let j = skip_one(ts, *old(pos) as int);
            &&& r@ == (NodeV::Strong { children: children_of(ts, j, strong_close()) })
            &&& *final(pos) == after_close(ts, j, strong_close())
        }),
    decreases tokens@.len(), 1int,
{
    next_token(tokens, pos);
    let children = parse_children(tokens, pos, is_strong_close, Ghost(strong_close()));
    Node::Strong { children }
}

/// Whether `t` closes strong emphasis.
fn is_strong_close(t: &Token) -> (b: bool)
    ensures
        b == strong_close()(t@),
{
    matches!(t, Token::StrongClose)
}

/// Reads a block quote.
pub fn parse_blockquote(tokens: &[Token], pos: &mut usize) -> (r: Node)
    requires
        *old(pos) <= tokens@.len(),
    ensures
        ({
            let ts = tokens_view(tokens@);
            let j = skip_one(ts, *old(pos) as int);
            &&& r@ == (NodeV::Blockquote { children: children_of(ts, j, blockquote_close()) })
            &&& *final(pos) == after_close(ts, j, blockquote_close())
        }),
    decreases tokens@.len(), 1int,
{
    next_token(tokens, pos);
    let children = parse_children(tokens, pos, is_blockquote_close, Ghost(blockquote_close()));
    Node::Blockquote { children }
}

/// Whether `t` closes a block quote.
fn is_blockquote_close(t: &Token) -> (b: bool)
    ensures
        b == blockquote_close()(t@),
{
    matches!(t, Token::BlockquoteClose)
}

/// Reads an unordered list.
pub fn parse_unordered_list(tokens: &[Token], pos: &mut usize) -> (r: Node)
    requires
        *old(pos) <= tokens@.len(),
    ensures
        ({
            let ts = tokens_view(tokens@);
            let j = skip_one(ts, *old(pos) as int);
            &&& r@ == (NodeV::List { ordered: false, start: None, children: children_of(ts, j, unordered_list_close()) })
            &&& *final(pos) == after_close(ts, j, unordered_list_close())
        }),
    decreases tokens@.len(), 1int,
{
    next_token(tokens, pos);
    let children = parse_children(tokens, pos, is_unordered_list_close, Ghost(unordered_list_close()));
    Node::List { ordered: false, start: None, children }
}

/// Whether `t` closes an unordered list.
fn is_unordered_list_close(t: &Token) -> (b: bool)
    ensures
        b == unordered_list_close()(t@),
{
    matches!(t, Token::UnorderedListClose)
}

/// Reads an ordered list that starts at `start`.
pub fn parse_ordered_list(tokens: &[Token], pos: &mut usize, start: u32) -> (r: Node)
    requires
        *old(pos) <= tokens@.len(),
    ensures
        ({
            let ts = tokens_view(tokens@);
            let j = skip_one(ts, *old(pos) as int);
            &&& r@ == (NodeV::List { ordered: true, start: Some(start), children: children_of(ts, j, ordered_list_close()) })
            &&& *final(pos) == after_close(ts, j, ordered_list_close())
        }),
    decreases tokens@.len(), 1int,
{
    next_token(tokens, pos);
    let children = parse_children(tokens, pos, is_ordered_list_close, Ghost(ordered_list_close()));
    Node::List { ordered: true, start: Some(start), children }
}

/// Whether `t` closes an ordered list.
fn is_ordered_list_close(t: &Token) -> (b: bool)
    ensures
        b == ordered_list_close()(t@),
{
    matches!(t, Token::OrderedListClose)
}

/// Reads a list item.
pub fn parse_list_item(tokens: &[Token], pos: &mut usize) -> (r: Node)
    requires
        *old(pos) <= tokens@.len(),
    ensures
        ({
            let ts = tokens_view(tokens@);
            let j = skip_one(ts, *old(pos) as int);
            &&& r@ == (NodeV::ListItem { children: children_of(ts, j, list_item_close()) })
            &&& *final(pos) == after_close(ts, j, list_item_close())
        }),
    decreases tokens@.len(), 1int,
{
    next_token(tokens, pos);
    let children = parse_children(tokens, pos, is_list_item_close, Ghost(list_item_close()));
    Node::ListItem { children }
}

/// Whether `t` closes a list item.
fn is_list_item_close(t: &Token) -> (b: bool)
    ensures
        b == list_item_close()(t@),
{
    matches!(t, Token::ListItemClose)
}

/// Reads a link to `url`.
pub fn parse_link(tokens: &[Token], pos: &mut usize, url: &str, title: &Option<String>) -> (r: Node)
    requires
        *old(pos) <= tokens@.len(),
    ensures
        ({
            let ts = tokens_view(tokens@);
            let j = skip_one(ts, *old(pos) as int);
            &&& r@ == (NodeV::Link { url: url@, title: opt_view(*title), children: children_of(ts, j, link_close()) })
            &&& *final(pos) == after_close(ts, j, link_close())
        }),
    decreases tokens@.len(), 1int,
{
    next_token(tokens, pos);
    let children = parse_children(tokens, pos, is_link_close, Ghost(link_close()));
    Node::Link { url: String::from_str(url), title: copy_opt_string(title), children }
}

/// Whether `t` closes a link.
fn is_link_close(t: &Token) -> (b: bool)
    ensures
        b == link_close()(t@),
{
    matches!(t, Token::LinkClose)
}

/// Reads inline code.
pub fn parse_code_inline(tokens: &[Token], pos: &mut usize, value: &str) -> (r: Node)
    requires
        *old(pos) <= tokens@.len(),
    ensures
        r@ == (NodeV::InlineCode { value: value@ }),
        *final(pos) == skip_one(tokens_view(tokens@), *old(pos) as int),
{
    next_token(tokens, pos);
    Node::InlineCode { value: String::from_str(value) }
}

/// Reads a code block: its text is the first code text before the block is
/// closed.
pub fn parse_code_block(
    tokens: &[Token],
    pos: &mut usize,
    lang: &Option<String>,
    meta: &Option<String>,
) -> (r: Node)
    requires
        *old(pos) <= tokens@.len(),
    ensures
        ({
            let ts = tokens_view(tokens@);
            let j = skip_one(ts, *old(pos) as int);
            &&& r@ == (NodeV::Code {
                lang: opt_view(*lang),
                meta: opt_view(*meta),
                value: code_value(ts, j),
            })
            &&& *final(pos) == code_after(ts, j)
        }),
{
    let ghost ts = tokens_view(tokens@);
    next_token(tokens, pos);
    let ghost j = *pos as int;
    let mut acc_text = String::new();
    let mut stop = false;
    while *pos < tokens.len() && !stop
        invariant
            ts == tokens_view(tokens@),
            j <= *pos <= tokens@.len(),
            !stop ==> code_text_index(ts, j) == code_text_index(ts, *pos as int) && acc_text@
                == Seq::<char>::empty(),
            stop ==> acc_text@ == code_value(ts, j) && (if code_text_index(ts, j) == *pos as int {
                *pos < tokens@.len() && ts[*pos as int] is CodeBlockClose
            } else {
                *pos > 0 && code_text_index(ts, j) == *pos - 1 && ts[*pos - 1] is CodeBlockText
            }),
        decreases tokens@.len() - *pos + if stop {
            0int
        } else {
            1int
        },
    {
        assert(ts[*pos as int] == tokens@[*pos as int]@);
        match &tokens[*pos] {
            Token::CodeBlockText { value } => {
                acc_text.append(value.as_str());
                *pos = *pos + 1;
                stop = true;
            },
            Token::CodeBlockClose => {
                stop = true;
            },
            _ => {
                *pos = *pos + 1;
            },
        }
    }
    proof {
        lemma_code_text_index(ts, j);
    }
    skip_close_token(tokens, pos, is_code_block_close, Ghost(code_block_close()));
    Node::Code { lang: copy_opt_string(lang), meta: copy_opt_string(meta), value: acc_text }
}

/// Whether `t` closes a code block.
fn is_code_block_close(t: &Token) -> (b: bool)
    ensures
        b == code_block_close()(t@),
{
    matches!(t, Token::CodeBlockClose)
}

/// Reads an image.
pub fn parse_image(
    tokens: &[Token],
    pos: &mut usize,
    url: &str,
    title: &Option<String>,
    alt: &Option<String>,
) -> (r: Node)
    requires
        *old(pos) <= tokens@.len(),
    ensures
        r@ == (NodeV::Image { url: url@, title: opt_view(*title), alt: opt_view(*alt) }),
        *final(pos) == skip_one(tokens_view(tokens@), *old(pos) as int),
{
    next_token(tokens, pos);
    Node::Image {
        url: String::from_str(url),
        title: copy_opt_string(title),
        alt: copy_opt_string(alt),
    }
}

} // verus!
