//! The parser: a token stream becomes a document tree.

use vstd::prelude::*;
use crate::ast::{Node, NodeV, Root, nodes_view, push_node};
use crate::node_parser::{
    close_index, lemma_close_index, parse_blockquote, parse_code_block, parse_code_inline,
    parse_emphasis, parse_heading, parse_image, parse_link, parse_list_item, parse_ordered_list,
    parse_paragraph, parse_strong, parse_text, parse_unordered_list,
};
use crate::token::{Token, TokenV, tokens_view};
use crate::tokenizer::{tokenize, tokenize_ok, tokens_of, try_tokenize};

verus! {

/// Accepts the token that closes a paragraph.
pub open spec fn paragraph_close() -> spec_fn(TokenV) -> bool {
    |t: TokenV| t is ParagraphClose
}

/// Accepts the token that closes a heading.
pub open spec fn heading_close() -> spec_fn(TokenV) -> bool {
    |t: TokenV| t is HeadingClose
}

/// Accepts the token that closes emphasis.
pub open spec fn emphasis_close() -> spec_fn(TokenV) -> bool {
    |t: TokenV| t is EmphasisClose
}

/// Accepts the token that closes strong emphasis.
pub open spec fn strong_close() -> spec_fn(TokenV) -> bool {
    |t: TokenV| t is StrongClose
}

/// Accepts the token that closes a block quote.
pub open spec fn blockquote_close() -> spec_fn(TokenV) -> bool {
    |t: TokenV| t is BlockquoteClose
}

/// Accepts the token that closes an unordered list.
pub open spec fn unordered_list_close() -> spec_fn(TokenV) -> bool {
    |t: TokenV| t is UnorderedListClose
}

/// Accepts the token that closes an ordered list.
pub open spec fn ordered_list_close() -> spec_fn(TokenV) -> bool {
    |t: TokenV| t is OrderedListClose
}

/// Accepts the token that closes a list item.
pub open spec fn list_item_close() -> spec_fn(TokenV) -> bool {
    |t: TokenV| t is ListItemClose
}

/// Accepts the token that closes a link.
pub open spec fn link_close() -> spec_fn(TokenV) -> bool {
    |t: TokenV| t is LinkClose
}

/// Accepts the token that closes a code block.
pub open spec fn code_block_close() -> spec_fn(TokenV) -> bool {
    |t: TokenV| t is CodeBlockClose
}

/// The position after a node whose tokens start at `j` and run up to the
/// first token that `is_close` accepts: after that token, or the end.
pub open spec fn after_close(ts: Seq<TokenV>, j: int, is_close: spec_fn(TokenV) -> bool) -> int {
    let k = close_index(ts, j, is_close);
    if k < ts.len() {
        k + 1
    } else {
        k
    }
}

/// The position of the first code text or code block close at or after `j`.
pub open spec fn code_text_index(ts: Seq<TokenV>, j: int) -> int
    decreases ts.len() - j,
{
    if 0 <= j < ts.len() && !(ts[j] is CodeBlockText) && !(ts[j] is CodeBlockClose) {
        code_text_index(ts, j + 1)
    } else {
        j
    }
}

/// The text of a code block whose tokens start at `j`: the first code text
/// before the block is closed, or nothing.
pub open spec fn code_value(ts: Seq<TokenV>, j: int) -> Seq<char> {
    let m = code_text_index(ts, j);
    if 0 <= m < ts.len() {
        match ts[m] {
            TokenV::CodeBlockText { value } => value,
            _ => Seq::empty(),
        }
    } else {
        Seq::empty()
    }
}

/// The position after a code block whose tokens start at `j`.
pub open spec fn code_after(ts: Seq<TokenV>, j: int) -> int {
    let m = code_text_index(ts, j);
    let p = if 0 <= m < ts.len() && ts[m] is CodeBlockText {
        m + 1
    } else {
        m
    };
    if 0 <= p < ts.len() && ts[p] is CodeBlockClose {
        p + 1
    } else {
        p
    }
}

/// The measure of parsing `ts` from position `i` on.
pub open spec fn parse_measure(ts: Seq<TokenV>, i: int) -> int {
    if 0 <= i <= ts.len() {
        ts.len() - i
    } else {
        0
    }
}

/// The nodes of the token stream `ts`.
pub open spec fn parse_nodes_spec(ts: Seq<TokenV>) -> Seq<NodeV>
    decreases ts.len(), ts.len() + 1,
{
    parse_from(ts, 0)
}

/// The children of a node whose tokens start at `j`: the nodes of the tokens
/// from `j` up to the first token that `is_close` accepts.
pub open spec fn children_of(ts: Seq<TokenV>, j: int, is_close: spec_fn(TokenV) -> bool) -> Seq<
    NodeV,
>
    decreases ts.len(), 0int,
{
    let k = close_index(ts, j, is_close);
    if 0 < j <= ts.len() {
        proof { lemma_close_index(ts, j, is_close); }
        parse_nodes_spec(ts.subrange(j, k))
    } else {
        Seq::empty()
    }
}

/// The position after the token at `i`, or `i` at the end.
pub open spec fn skip_one(ts: Seq<TokenV>, i: int) -> int {
    if i < ts.len() {
        i + 1
    } else {
        i
    }
}

/// The nodes of `ts` from position `i` on. A token that opens a node takes
/// the tokens up to the first one that may close it; text, inline code,
/// images and rules become leaves; a line break becomes a break; every other
/// token is skipped.
pub open spec fn parse_from(ts: Seq<TokenV>, i: int) -> Seq<NodeV>
    decreases ts.len(), parse_measure(ts, i),
{
    if !(0 <= i < ts.len()) {
        Seq::empty()
    } else {
        proof {
            lemma_after_close(ts, i);
            lemma_code_after(ts, i);
        }
        match ts[i] {
            TokenV::Text { value } => seq![NodeV::Text { value }] + parse_from(ts, i + 1),
            TokenV::ParagraphOpen => seq![
                NodeV::Paragraph { children: children_of(ts, i + 1, paragraph_close()) },
            ] + parse_from(ts, after_close(ts, i + 1, paragraph_close())),
            TokenV::HeadingOpen { level } => seq![
                NodeV::Heading { depth: level, children: children_of(ts, i + 1, heading_close()) },
            ] + parse_from(ts, after_close(ts, i + 1, heading_close())),
            TokenV::EmphasisOpen => seq![
                NodeV::Emphasis { children: children_of(ts, i + 1, emphasis_close()) },
            ] + parse_from(ts, after_close(ts, i + 1, emphasis_close())),
            TokenV::StrongOpen => seq![
                NodeV::Strong { children: children_of(ts, i + 1, strong_close()) },
            ] + parse_from(ts, after_close(ts, i + 1, strong_close())),
            TokenV::CodeInline { value } => seq![NodeV::InlineCode { value }] + parse_from(
                ts,
                i + 1,
            ),
            TokenV::CodeBlockOpen { lang, meta } => seq![
                NodeV::Code { lang, meta, value: code_value(ts, i + 1) },
            ] + parse_from(ts, code_after(ts, i + 1)),
            TokenV::ThematicBreak => seq![NodeV::ThematicBreak] + parse_from(ts, i + 1),
            TokenV::BlockquoteOpen => seq![
                NodeV::Blockquote { children: children_of(ts, i + 1, blockquote_close()) },
            ] + parse_from(ts, after_close(ts, i + 1, blockquote_close())),
            TokenV::UnorderedListOpen => seq![
                NodeV::List {
                    ordered: false,
                    start: None,
                    children: children_of(ts, i + 1, unordered_list_close()),
                },
            ] + parse_from(ts, after_close(ts, i + 1, unordered_list_close())),
            TokenV::OrderedListOpen { start } => seq![
                NodeV::List {
                    ordered: true,
                    start: Some(start),
                    children: children_of(ts, i + 1, ordered_list_close()),
                },
            ] + parse_from(ts, after_close(ts, i + 1, ordered_list_close())),
            TokenV::ListItemOpen => seq![
                NodeV::ListItem { children: children_of(ts, i + 1, list_item_close()) },
            ] + parse_from(ts, after_close(ts, i + 1, list_item_close())),
            TokenV::Image { url, title, alt } => seq![NodeV::Image { url, title, alt }]
                + parse_from(ts, i + 1),
            TokenV::LinkOpen { url, title } => seq![
                NodeV::Link { url, title, children: children_of(ts, i + 1, link_close()) },
            ] + parse_from(ts, after_close(ts, i + 1, link_close())),
            TokenV::Newline => seq![NodeV::Break] + parse_from(ts, i + 1),
            _ => parse_from(ts, i + 1),
        }
    }
}

/// A node that opens at `i` ends after `i` and within `ts`.
pub proof fn lemma_after_close(ts: Seq<TokenV>, i: int)
    ensures
        0 <= i < ts.len() ==> forall|c: spec_fn(TokenV) -> bool|
            i < #[trigger] after_close(ts, i + 1, c) <= ts.len(),
{
    if 0 <= i < ts.len() {
        assert forall|c: spec_fn(TokenV) -> bool|
            i < #[trigger] after_close(ts, i + 1, c) <= ts.len() by {
            lemma_close_index(ts, i + 1, c);
        }
    }
}

pub proof fn lemma_code_text_index(ts: Seq<TokenV>, j: int)
    ensures
        0 <= j <= ts.len() ==> j <= code_text_index(ts, j) <= ts.len(),
    decreases ts.len() - j,
{
    if 0 <= j < ts.len() && !(ts[j] is CodeBlockText) && !(ts[j] is CodeBlockClose) {
        lemma_code_text_index(ts, j + 1);
    }
}

/// A code block that opens at `i` ends after `i` and within `ts`.
pub proof fn lemma_code_after(ts: Seq<TokenV>, i: int)
    ensures
        0 <= i < ts.len() ==> i < code_after(ts, i + 1) <= ts.len(),
{
    lemma_code_text_index(ts, i + 1);
}

/// Parses a token stream into a list of nodes.
pub fn parse_nodes(tokens: &[Token]) -> (r: Vec<Node>)
    ensures
        nodes_view(r@) == parse_nodes_spec(tokens_view(tokens@)),
    decreases tokens@.len(), 2int,
{
    let ghost ts = tokens_view(tokens@);
    let mut nodes: Vec<Node> = Vec::new();
    let mut pos: usize = 0;
    while pos < tokens.len()
        invariant
            ts == tokens_view(tokens@),
            pos <= tokens@.len(),
            nodes_view(nodes@) + parse_from(ts, pos as int) == parse_nodes_spec(ts),
        decreases tokens@.len() - pos,
    {
        let ghost i = pos as int;
        let ghost before = nodes_view(nodes@);
        proof {
            lemma_after_close(ts, i);
            lemma_code_after(ts, i);
        }
        assert(ts[i] == tokens@[i]@);
        match &tokens[pos] {
            Token::Text { value } => {
                let node = parse_text(tokens, &mut pos, value.as_str());
                push_node(&mut nodes, node);
            },
            Token::ParagraphOpen => {
                let node = parse_paragraph(tokens, &mut pos);
                push_node(&mut nodes, node);
            },
            Token::HeadingOpen { level } => {
                let node = parse_heading(tokens, &mut pos, *level);
                push_node(&mut nodes, node);
            },
            Token::EmphasisOpen => {
                let node = parse_emphasis(tokens, &mut pos);
                push_node(&mut nodes, node);
            },
            Token::StrongOpen => {
                let node = parse_strong(tokens, &mut pos);
                push_node(&mut nodes, node);
            },
            Token::CodeInline { value } => {
                let node = parse_code_inline(tokens, &mut pos, value.as_str());
                push_node(&mut nodes, node);
            },
            Token::CodeBlockOpen { lang, meta } => {
                let node = parse_code_block(tokens, &mut pos, lang, meta);
                push_node(&mut nodes, node);
            },
            Token::ThematicBreak => {
                pos = pos + 1;
                push_node(&mut nodes, Node::ThematicBreak);
            },
            Token::BlockquoteOpen => {
                let node = parse_blockquote(tokens, &mut pos);
                push_node(&mut nodes, node);
            },
            Token::UnorderedListOpen => {
                let node = parse_unordered_list(tokens, &mut pos);
                push_node(&mut nodes, node);
            },
            Token::OrderedListOpen { start } => {
                let node = parse_ordered_list(tokens, &mut pos, *start);
                push_node(&mut nodes, node);
            },
            Token::ListItemOpen => {
                let node = parse_list_item(tokens, &mut pos);
                push_node(&mut nodes, node);
            },
            Token::Image { url, title, alt } => {
                let node = parse_image(tokens, &mut pos, url.as_str(), title, alt);
                push_node(&mut nodes, node);
            },
            Token::LinkOpen { url, title } => {
                let node = parse_link(tokens, &mut pos, url.as_str(), title);
                push_node(&mut nodes, node);
            },
            Token::Newline => {
                pos = pos + 1;
                push_node(&mut nodes, Node::Break);
            },
            _ => {
                pos = pos + 1;
            },
        }
        assert(nodes_view(nodes@) + parse_from(ts, pos as int) =~= before + parse_from(ts, i));
    }
    assert(nodes_view(nodes@) + parse_from(ts, pos as int) =~= nodes_view(nodes@));
    nodes
}

/// Parses a token stream into a document.
pub fn parse(tokens: &[Token]) -> (r: Root)
    ensures
        r@ == parse_nodes_spec(tokens_view(tokens@)),
{
    let children = parse_nodes(tokens);
    Root { children }
}

/// The document tree of the Markdown text `s`.
pub open spec fn ast_of(s: Seq<char>) -> Seq<NodeV> {
    parse_nodes_spec(tokens_of(s))
}

/// Lexes and parses a Markdown document.
pub fn markdown_to_ast(input: &str) -> (r: Root)
    requires
        tokenize_ok(input@),
    ensures
        r@ == ast_of(input@),
{
    let tokens = tokenize(input);
    parse(tokens.as_slice())
}

/// Lexes and parses a Markdown document where lexing it stays on character
/// boundaries (see [`tokenize_ok`]); `None` where it does not.
pub fn try_markdown_to_ast(input: &str) -> (r: Option<Root>)
    ensures
        r is Some <==> tokenize_ok(input@),
        r matches Some(root) ==> root@ == ast_of(input@),
{
    match try_tokenize(input) {
        Some(tokens) => Some(parse(tokens.as_slice())),
        None => None,
    }
}

} // verus!
