//! The parser undoes the lexer: writing the nodes that the parser builds back
//! out as tokens gives exactly the tokens that the lexer produced.

use vstd::prelude::*;
use crate::ast::NodeV;
use crate::node_parser::{close_index, lemma_close_index};
use crate::parser::{
    after_close, blockquote_close, children_of, code_after, code_block_close, code_text_index,
    code_value, emphasis_close, heading_close, lemma_after_close, lemma_code_after, link_close,
    list_item_close, ordered_list_close, paragraph_close, parse_from,
    parse_nodes_spec, strong_close, unordered_list_close,
};
use crate::token::TokenV;
use crate::nesting::closer_of;
use crate::inline_parser::{
    code_end, code_tokens, emphasis_end, emphasis_tokens, image_match, image_tokens,
    inline_tokens, lemma_code_end, lemma_emphasis_end, link_match, link_tokens, scan, scan_measure,
    tail_text, text_run,
};
use crate::text::{
    find_from, lemma_find_from, lemma_run_end, lemma_trim_len, occurs_at, repeat, run_end,
    starts_with, trim,
};
use crate::block_parser::{
    block_tokens, bullet, bullet_items, bullet_run_end, code_info, code_lines_end, fence,
    join_lines, lemma_block_next, list_item, ordered_items, ordered_run_end,
};
use crate::tokenizer::{tokenize_from, tokens_of};
use crate::lines::lines;
use crate::utils::{is_ordered_item, item_content, item_start};

verus! {

/// The tokens that a node is written out as.
pub open spec fn node_tokens(n: NodeV) -> Seq<TokenV>
    decreases n,
{
    match n {
        NodeV::Paragraph { children } => seq![TokenV::ParagraphOpen] + nodes_tokens(children)
            + seq![TokenV::ParagraphClose],
        NodeV::Heading { depth, children } => seq![TokenV::HeadingOpen { level: depth }]
            + nodes_tokens(children) + seq![TokenV::HeadingClose],
        NodeV::Text { value } => seq![TokenV::Text { value }],
        NodeV::Emphasis { children } => seq![TokenV::EmphasisOpen] + nodes_tokens(children)
            + seq![TokenV::EmphasisClose],
        NodeV::Strong { children } => seq![TokenV::StrongOpen] + nodes_tokens(children) + seq![
            TokenV::StrongClose,
        ],
        NodeV::InlineCode { value } => seq![TokenV::CodeInline { value }],
        NodeV::Code { lang, meta, value } => seq![
            TokenV::CodeBlockOpen { lang, meta },
            TokenV::CodeBlockText { value },
            TokenV::CodeBlockClose,
        ],
        NodeV::Blockquote { children } => seq![TokenV::BlockquoteOpen] + nodes_tokens(children)
            + seq![TokenV::BlockquoteClose],
        NodeV::List { ordered, start, children } => if ordered {
            seq![
                TokenV::OrderedListOpen {
                    start: match start {
                        Some(s) => s,
                        None => 1,
                    },
                },
            ] + nodes_tokens(children) + seq![TokenV::OrderedListClose]
        } else {
            seq![TokenV::UnorderedListOpen] + nodes_tokens(children) + seq![
                TokenV::UnorderedListClose,
            ]
        },
        NodeV::ListItem { children } => seq![TokenV::ListItemOpen] + nodes_tokens(children)
            + seq![TokenV::ListItemClose],
        NodeV::ThematicBreak => seq![TokenV::ThematicBreak],
        NodeV::Link { url, title, children } => seq![TokenV::LinkOpen { url, title }]
            + nodes_tokens(children) + seq![TokenV::LinkClose],
        NodeV::Image { url, title, alt } => seq![TokenV::Image { url, title, alt }],
        NodeV::Break => seq![TokenV::Newline],
    }
}

/// The tokens that a sequence of nodes is written out as.
pub open spec fn nodes_tokens(ns: Seq<NodeV>) -> Seq<TokenV>
    decreases ns,
{
    if ns.len() == 0 {
        Seq::empty()
    } else {
        node_tokens(ns[0]) + nodes_tokens(ns.subrange(1, ns.len() as int))
    }
}

pub proof fn lemma_nodes_tokens_append(a: Seq<NodeV>, b: Seq<NodeV>)
    ensures
        nodes_tokens(a + b) == nodes_tokens(a) + nodes_tokens(b),
    decreases a.len(),
{
    if a.len() == 0 {
        assert(a + b =~= b);
        assert(nodes_tokens(a) =~= Seq::<TokenV>::empty());
        assert(nodes_tokens(a + b) =~= nodes_tokens(a) + nodes_tokens(b));
    } else {
        let tail = a.subrange(1, a.len() as int);
        assert((a + b).subrange(1, (a + b).len() as int) =~= tail + b);
        assert((a + b)[0] == a[0]);
        lemma_nodes_tokens_append(tail, b);
        assert(nodes_tokens(a + b) =~= nodes_tokens(a) + nodes_tokens(b));
    }
}

pub proof fn lemma_nodes_tokens_single(n: NodeV)
    ensures
        nodes_tokens(seq![n]) == node_tokens(n),
{
    assert(seq![n].subrange(1, 1) =~= Seq::<NodeV>::empty());
    assert(nodes_tokens(Seq::<NodeV>::empty()) =~= Seq::<TokenV>::empty());
    assert(nodes_tokens(seq![n]) =~= node_tokens(n));
}

/// Whether the tokens `a` parse on their own: whatever follows them, they
/// give the same nodes, and those nodes are written out as `a` again.
pub open spec fn parses_alone(a: Seq<TokenV>) -> bool {
    &&& forall|rest: Seq<TokenV>| #[trigger]
        parse_from(a + rest, 0) == parse_nodes_spec(a) + parse_from(rest, 0)
    &&& nodes_tokens(parse_nodes_spec(a)) == a
}

proof fn lemma_close_index_shift(
    a: Seq<TokenV>,
    b: Seq<TokenV>,
    j: int,
    c: spec_fn(TokenV) -> bool,
)
    requires
        0 <= j,
    ensures
        close_index(a + b, a.len() + j, c) == a.len() + close_index(b, j, c),
    decreases b.len() - j,
{
    if j < b.len() {
        assert((a + b)[a.len() + j] == b[j]);
        if !c(b[j]) {
            lemma_close_index_shift(a, b, j + 1, c);
        }
    }
}

proof fn lemma_code_text_index_shift(a: Seq<TokenV>, b: Seq<TokenV>, j: int)
    requires
        0 <= j,
    ensures
        code_text_index(a + b, a.len() + j) == a.len() + code_text_index(b, j),
    decreases b.len() - j,
{
    if j < b.len() {
        assert((a + b)[a.len() + j] == b[j]);
        if !(b[j] is CodeBlockText) && !(b[j] is CodeBlockClose) {
            lemma_code_text_index_shift(a, b, j + 1);
        }
    }
}

proof fn lemma_after_close_shift(a: Seq<TokenV>, b: Seq<TokenV>, j: int, c: spec_fn(TokenV) -> bool)
    requires
        0 < j,
    ensures
        after_close(a + b, a.len() + j, c) == a.len() + after_close(b, j, c),
        children_of(a + b, a.len() + j, c) == children_of(b, j, c),
{
    lemma_close_index_shift(a, b, j, c);
    lemma_close_index(b, j, c);
    let k = close_index(b, j, c);
    if j <= b.len() {
        assert((a + b).subrange(a.len() + j, a.len() + k) =~= b.subrange(j, k));
    }
}

proof fn lemma_code_shift(a: Seq<TokenV>, b: Seq<TokenV>, j: int)
    requires
        0 < j,
    ensures
        code_after(a + b, a.len() + j) == a.len() + code_after(b, j),
        code_value(a + b, a.len() + j) == code_value(b, j),
{
    lemma_code_text_index_shift(a, b, j);
    crate::parser::lemma_code_text_index(b, j);
    let m = code_text_index(b, j);
    if 0 <= m < b.len() {
        assert((a + b)[a.len() + m] == b[m]);
    }
    if 0 <= m + 1 < b.len() {
        assert((a + b)[a.len() + m + 1] == b[m + 1]);
    }
}

/// Parsing does not look back: the nodes from a position within `b` are the
/// same whatever stands before `b`.
#[verifier::rlimit(50)]
#[verifier::spinoff_prover]
pub proof fn lemma_parse_from_shift(a: Seq<TokenV>, b: Seq<TokenV>, i: int)
    requires
        0 <= i,
    ensures
        parse_from(a + b, a.len() + i) == parse_from(b, i),
    decreases b.len() - i,
{
    if i < b.len() {
        let ts = a + b;
        assert(ts[a.len() + i] == b[i]);
        lemma_after_close(b, i);
        lemma_code_after(b, i);
        lemma_parse_from_shift(a, b, i + 1);
        lemma_code_shift(a, b, i + 1);
        lemma_parse_from_shift(a, b, code_after(b, i + 1));
        lemma_after_close_shift(a, b, i + 1, paragraph_close());
        lemma_parse_from_shift(a, b, after_close(b, i + 1, paragraph_close()));
        lemma_after_close_shift(a, b, i + 1, heading_close());
        lemma_parse_from_shift(a, b, after_close(b, i + 1, heading_close()));
        lemma_after_close_shift(a, b, i + 1, emphasis_close());
        lemma_parse_from_shift(a, b, after_close(b, i + 1, emphasis_close()));
        lemma_after_close_shift(a, b, i + 1, strong_close());
        lemma_parse_from_shift(a, b, after_close(b, i + 1, strong_close()));
        lemma_after_close_shift(a, b, i + 1, blockquote_close());
        lemma_parse_from_shift(a, b, after_close(b, i + 1, blockquote_close()));
        lemma_after_close_shift(a, b, i + 1, unordered_list_close());
        lemma_parse_from_shift(a, b, after_close(b, i + 1, unordered_list_close()));
        lemma_after_close_shift(a, b, i + 1, ordered_list_close());
        lemma_parse_from_shift(a, b, after_close(b, i + 1, ordered_list_close()));
        lemma_after_close_shift(a, b, i + 1, list_item_close());
        lemma_parse_from_shift(a, b, after_close(b, i + 1, list_item_close()));
        lemma_after_close_shift(a, b, i + 1, link_close());
        lemma_parse_from_shift(a, b, after_close(b, i + 1, link_close()));
        lemma_after_close(ts, a.len() + i);
        lemma_code_after(ts, a.len() + i);
    }
}

/// The predicate by which the parser finds the end of what `o` opens.
pub open spec fn close_pred(o: TokenV) -> spec_fn(TokenV) -> bool {
    match o {
        TokenV::HeadingOpen { .. } => heading_close(),
        TokenV::ParagraphOpen => paragraph_close(),
        TokenV::EmphasisOpen => emphasis_close(),
        TokenV::StrongOpen => strong_close(),
        TokenV::OrderedListOpen { .. } => ordered_list_close(),
        TokenV::UnorderedListOpen => unordered_list_close(),
        TokenV::ListItemOpen => list_item_close(),
        TokenV::BlockquoteOpen => blockquote_close(),
        TokenV::LinkOpen { .. } => link_close(),
        _ => code_block_close(),
    }
}

/// Whether `o` opens a node whose children the parser reads up to a closing
/// token (every opening token but those of code).
pub open spec fn is_container_open(o: TokenV) -> bool {
    match o {
        TokenV::HeadingOpen { .. } | TokenV::ParagraphOpen | TokenV::EmphasisOpen
        | TokenV::StrongOpen | TokenV::OrderedListOpen { .. } | TokenV::UnorderedListOpen
        | TokenV::ListItemOpen | TokenV::BlockquoteOpen | TokenV::LinkOpen { .. } => true,
        _ => false,
    }
}

/// Whether no token of `ts` satisfies `p`.
pub open spec fn none_satisfy(ts: Seq<TokenV>, p: spec_fn(TokenV) -> bool) -> bool {
    forall|i: int| 0 <= i < ts.len() ==> !p(#[trigger] ts[i])
}

pub proof fn lemma_parses_alone_empty()
    ensures
        parses_alone(Seq::<TokenV>::empty()),
{
    let e = Seq::<TokenV>::empty();
    assert forall|rest: Seq<TokenV>| #[trigger]
        parse_from(e + rest, 0) == parse_nodes_spec(e) + parse_from(rest, 0) by {
        assert(e + rest =~= rest);
        assert(parse_nodes_spec(e) =~= Seq::<NodeV>::empty());
        assert(parse_nodes_spec(e) + parse_from(rest, 0) =~= parse_from(rest, 0));
    }
    assert(parse_nodes_spec(e) =~= Seq::<NodeV>::empty());
    assert(nodes_tokens(Seq::<NodeV>::empty()) =~= e);
}

pub proof fn lemma_parses_alone_concat(a: Seq<TokenV>, b: Seq<TokenV>)
    requires
        parses_alone(a),
        parses_alone(b),
    ensures
        parses_alone(a + b),
        parse_nodes_spec(a + b) == parse_nodes_spec(a) + parse_nodes_spec(b),
{
    let e = Seq::<TokenV>::empty();
    assert forall|rest: Seq<TokenV>| #[trigger]
        parse_from((a + b) + rest, 0) == parse_nodes_spec(a) + parse_nodes_spec(b) + parse_from(rest, 0) by {
        assert((a + b) + rest =~= a + (b + rest));
        assert(parse_from(a + (b + rest), 0) == parse_nodes_spec(a) + parse_from(b + rest, 0));
        assert(parse_from(b + rest, 0) == parse_nodes_spec(b) + parse_from(rest, 0));
        assert(parse_nodes_spec(a) + (parse_nodes_spec(b) + parse_from(rest, 0)) =~= parse_nodes_spec(a)
            + parse_nodes_spec(b) + parse_from(rest, 0));
    }
    assert(parse_from((a + b) + e, 0) == parse_nodes_spec(a) + parse_nodes_spec(b) + parse_from(e, 0));
    assert((a + b) + e =~= a + b);
    assert(parse_from(e, 0) =~= Seq::<NodeV>::empty());
    assert(parse_nodes_spec(a + b) =~= parse_nodes_spec(a) + parse_nodes_spec(b));
    lemma_nodes_tokens_append(parse_nodes_spec(a), parse_nodes_spec(b));
}

/// A token that the parser turns into one node of its own parses alone.
pub proof fn lemma_parses_alone_leaf(t: TokenV)
    requires
        t is Text || t is CodeInline || t is Image || t is ThematicBreak || t is Newline,
    ensures
        parses_alone(seq![t]),
{
    let w = seq![t];
    assert forall|rest: Seq<TokenV>| #[trigger]
        parse_from(w + rest, 0) == parse_nodes_spec(w) + parse_from(rest, 0) by {
        lemma_parse_from_shift(w, rest, 0);
        lemma_parse_from_shift(w, Seq::<TokenV>::empty(), 0);
        assert((w + rest)[0] == t);
        assert((w + Seq::<TokenV>::empty()) =~= w);
        assert(parse_from(Seq::<TokenV>::empty(), 0) =~= Seq::<NodeV>::empty());
    }
    lemma_parse_from_shift(w, Seq::<TokenV>::empty(), 0);
    assert((w + Seq::<TokenV>::empty()) =~= w);
    assert(parse_from(Seq::<TokenV>::empty(), 0) =~= Seq::<NodeV>::empty());
    let n = parse_nodes_spec(w)[0];
    assert(parse_nodes_spec(w) =~= seq![n]);
    lemma_nodes_tokens_single(n);
}

/// Where `x` holds no token that ends what `o` opens, the children of `o` in
/// `[o] + x + [closer] + rest` are the nodes of `x`, and parsing goes on with
/// `rest`.
proof fn lemma_container(o: TokenV, x: Seq<TokenV>, cl: TokenV, rest: Seq<TokenV>)
    requires
        close_pred(o)(cl),
        none_satisfy(x, close_pred(o)),
    ensures
        ({
            let ts = seq![o] + x + seq![cl] + rest;
            &&& children_of(ts, 1, close_pred(o)) == parse_nodes_spec(x)
            &&& after_close(ts, 1, close_pred(o)) == x.len() + 2
            &&& parse_from(ts, (x.len() + 2) as int) == parse_from(rest, 0)
        }),
{
    let c = close_pred(o);
    let w = seq![o] + x + seq![cl];
    let ts = w + rest;
    lemma_close_index(ts, 1, c);
    let k = close_index(ts, 1, c);
    assert(ts[x.len() as int + 1] == cl);
    assert forall|m: int| 1 <= m < x.len() + 1 implies ts[m] == x[m - 1] by {}
    if k < x.len() + 1 {
        assert(ts[k] == x[k - 1]);
    }
    assert(k == x.len() + 1);
    assert(ts.subrange(1, k) =~= x);
    lemma_parse_from_shift(w, rest, 0);
}

/// What `o` opens, closed by its own closing token around tokens `x` that
/// parse alone and hold no token that ends it, parses alone.
pub proof fn lemma_parses_alone_wrap(o: TokenV, x: Seq<TokenV>)
    requires
        is_container_open(o),
        parses_alone(x),
        none_satisfy(x, close_pred(o)),
    ensures
        parses_alone(seq![o] + x + seq![closer_of(o)->0]),
{
    let cl = closer_of(o)->0;
    let w = seq![o] + x + seq![cl];
    let e = Seq::<TokenV>::empty();
    assert(close_pred(o)(cl));
    assert forall|rest: Seq<TokenV>| #[trigger]
        parse_from(w + rest, 0) == parse_nodes_spec(w) + parse_from(rest, 0) by {
        lemma_container(o, x, cl, rest);
        lemma_container(o, x, cl, e);
        assert(w + e =~= w);
        assert((w + rest)[0] == o);
        assert(w[0] == o);
        assert(parse_from(e, 0) =~= Seq::<NodeV>::empty());
        lemma_after_close(w + rest, 0);
        lemma_after_close(w, 0);
    }
    lemma_container(o, x, cl, e);
    assert(w + e =~= w);
    assert(w[0] == o);
    assert(parse_from(e, 0) =~= Seq::<NodeV>::empty());
    lemma_after_close(w, 0);
    let n = parse_nodes_spec(w)[0];
    assert(parse_nodes_spec(w) =~= seq![n]);
    lemma_nodes_tokens_single(n);
    assert(node_tokens(n) =~= w);
}

/// A code block's three tokens parse alone.
pub proof fn lemma_parses_alone_code(
    lang: Option<Seq<char>>,
    meta: Option<Seq<char>>,
    value: Seq<char>,
)
    ensures
        parses_alone(
            seq![
                TokenV::CodeBlockOpen { lang, meta },
                TokenV::CodeBlockText { value },
                TokenV::CodeBlockClose,
            ],
        ),
{
    let w = seq![
        TokenV::CodeBlockOpen { lang, meta },
        TokenV::CodeBlockText { value },
        TokenV::CodeBlockClose,
    ];
    let e = Seq::<TokenV>::empty();
    assert forall|rest: Seq<TokenV>| #[trigger]
        parse_from(w + rest, 0) == parse_nodes_spec(w) + parse_from(rest, 0) by {
        let ts = w + rest;
        assert(ts[0] == w[0] && ts[1] == w[1] && ts[2] == w[2]);
        assert(code_text_index(ts, 1) == 1);
        assert(code_text_index(w, 1) == 1);
        lemma_parse_from_shift(w, rest, 0);
        lemma_parse_from_shift(w, e, 0);
        assert(w + e =~= w);
        assert(parse_from(e, 0) =~= Seq::<NodeV>::empty());
    }
    let ts = w + e;
    assert(w + e =~= w);
    assert(code_text_index(w, 1) == 1);
    lemma_parse_from_shift(w, e, 0);
    assert(parse_from(e, 0) =~= Seq::<NodeV>::empty());
    let n = parse_nodes_spec(w)[0];
    assert(parse_nodes_spec(w) =~= seq![n]);
    lemma_nodes_tokens_single(n);
    assert(node_tokens(n) =~= w);
}

/// Whether the inline lexer may emit `t`.
pub open spec fn is_inline_token(t: TokenV) -> bool {
    match t {
        TokenV::Text { .. } | TokenV::CodeInline { .. } | TokenV::Image { .. }
        | TokenV::EmphasisOpen | TokenV::EmphasisClose | TokenV::StrongOpen
        | TokenV::StrongClose | TokenV::LinkOpen { .. } | TokenV::LinkClose => true,
        _ => false,
    }
}

/// Whether `a` directly followed by `b` occurs nowhere in `s`.
pub open spec fn no_pair(s: Seq<char>, a: char, b: char) -> bool {
    forall|k: int| 0 <= k && k + 1 < s.len() ==> !(#[trigger] s[k] == a && s[k + 1] == b)
}

/// Whether `c` occurs nowhere in `s`.
pub open spec fn no_char(s: Seq<char>, c: char) -> bool {
    forall|k: int| 0 <= k < s.len() ==> #[trigger] s[k] != c
}

pub open spec fn is_emphasis_token(t: TokenV) -> bool {
    t is EmphasisOpen || t is EmphasisClose
}

pub open spec fn is_strong_token(t: TokenV) -> bool {
    t is StrongOpen || t is StrongClose
}

pub open spec fn is_link_token(t: TokenV) -> bool {
    t is LinkOpen || t is LinkClose
}

/// What holds of the inline tokens `ts` of a part of `s`: they parse alone,
/// are inline tokens only, and hold emphasis, strong emphasis or links only
/// where `s` has the characters that open them.
pub open spec fn inline_props(s: Seq<char>, ts: Seq<TokenV>) -> bool {
    &&& parses_alone(ts)
    &&& forall|i: int| 0 <= i < ts.len() ==> is_inline_token(#[trigger] ts[i])
    &&& no_char(s, '*') ==> forall|i: int|
        0 <= i < ts.len() ==> !is_emphasis_token(#[trigger] ts[i]) && !is_strong_token(ts[i])
    &&& no_pair(s, '*', '*') ==> forall|i: int|
        0 <= i < ts.len() ==> !is_strong_token(#[trigger] ts[i])
    &&& no_pair(s, ']', '(') ==> forall|i: int| 0 <= i < ts.len() ==> !is_link_token(#[trigger] ts[i])
}

proof fn lemma_inline_props_concat(s: Seq<char>, x: Seq<TokenV>, y: Seq<TokenV>)
    requires
        inline_props(s, x),
        inline_props(s, y),
    ensures
        inline_props(s, x + y),
{
    lemma_parses_alone_concat(x, y);
    assert forall|i: int| 0 <= i < (x + y).len() implies #[trigger] (x + y)[i] == if i < x.len() {
        x[i]
    } else {
        y[i - x.len()]
    } by {}
}

proof fn lemma_inline_props_empty(s: Seq<char>)
    ensures
        inline_props(s, Seq::<TokenV>::empty()),
{
    lemma_parses_alone_empty();
}

proof fn lemma_inline_props_leaf(s: Seq<char>, t: TokenV)
    requires
        t is Text || t is CodeInline || t is Image,
    ensures
        inline_props(s, seq![t]),
{
    lemma_parses_alone_leaf(t);
}

proof fn lemma_inline_props_text(s: Seq<char>, a: int, i: int)
    ensures
        inline_props(s, text_run(s, a, i)),
        inline_props(s, tail_text(s, i)),
{
    lemma_inline_props_empty(s);
    lemma_inline_props_leaf(s, TokenV::Text { value: s.subrange(a, i) });
    lemma_inline_props_leaf(s, TokenV::Text { value: s.subrange(i, s.len() as int) });
}

/// A part of `s` lacks what `s` lacks.
proof fn lemma_sub_props(s: Seq<char>, lo: int, hi: int)
    requires
        0 <= lo <= hi <= s.len(),
    ensures
        no_char(s, '*') ==> no_char(s.subrange(lo, hi), '*'),
        no_pair(s, '*', '*') ==> no_pair(s.subrange(lo, hi), '*', '*'),
        no_pair(s, ']', '(') ==> no_pair(s.subrange(lo, hi), ']', '('),
{
    let t = s.subrange(lo, hi);
    assert forall|k: int| 0 <= k < t.len() implies #[trigger] t[k] == s[lo + k] by {}
    if no_char(s, '*') {
        assert forall|k: int| 0 <= k < t.len() implies #[trigger] t[k] != '*' by {
            assert(t[k] == s[lo + k]);
        }
    }
    if no_pair(s, '*', '*') {
        assert forall|k: int| 0 <= k && k + 1 < t.len() implies !(#[trigger] t[k] == '*' && t[k
            + 1] == '*') by {
            assert(t[k] == s[lo + k]);
            assert(t[k + 1] == s[lo + k + 1]);
        }
    }
    if no_pair(s, ']', '(') {
        assert forall|k: int| 0 <= k && k + 1 < t.len() implies !(#[trigger] t[k] == ']' && t[k
            + 1] == '(') by {
            assert(t[k] == s[lo + k]);
            assert(t[k + 1] == s[lo + k + 1]);
        }
    }
}

/// Inline tokens of a part of `s` keep their properties relative to `s`.
proof fn lemma_inline_props_lift(s: Seq<char>, lo: int, hi: int, ts: Seq<TokenV>)
    requires
        0 <= lo <= hi <= s.len(),
        inline_props(s.subrange(lo, hi), ts),
    ensures
        inline_props(s, ts),
{
    lemma_sub_props(s, lo, hi);
}

/// The inline tokens of any text have [`inline_props`].
pub proof fn lemma_inline_props(s: Seq<char>)
    ensures
        inline_props(s, inline_tokens(s)),
    decreases s.len(), s.len() + 1,
{
    lemma_scan_props(s, 0, 0);
}

proof fn lemma_scan_props(s: Seq<char>, a: int, i: int)
    ensures
        inline_props(s, scan(s, a, i)),
    decreases s.len(), scan_measure(s, i),
{
    lemma_inline_props_text(s, a, i);
    if !(0 <= i < s.len()) {
    } else if s[i] == '*' {
        let e = emphasis_end(s, i);
        lemma_emphasis_end(s, i);
        lemma_emphasis_props(s, i);
        lemma_scan_props(s, e, e);
        lemma_inline_props_concat(s, text_run(s, a, i), emphasis_tokens(s, i));
        lemma_inline_props_concat(s, text_run(s, a, i) + emphasis_tokens(s, i), scan(s, e, e));
    } else if s[i] == '`' {
        let e = code_end(s, i);
        lemma_code_end(s, i);
        lemma_code_props(s, i);
        lemma_scan_props(s, e, e);
        lemma_inline_props_concat(s, text_run(s, a, i), code_tokens(s, i));
        lemma_inline_props_concat(s, text_run(s, a, i) + code_tokens(s, i), scan(s, e, e));
    } else if s[i] == '!' {
        let rest = if image_match(s, i) is Some {
            lemma_inline_props_empty(s);
            Seq::empty()
        } else if i + 1 < s.len() && s[i + 1] == '[' {
            lemma_scan_props(s, i + 1, i + 1);
            scan(s, i + 1, i + 1)
        } else {
            lemma_scan_props(s, i, i + 1);
            scan(s, i, i + 1)
        };
        lemma_image_props(s, i);
        lemma_inline_props_concat(s, text_run(s, a, i), image_tokens(s, i));
        lemma_inline_props_concat(s, text_run(s, a, i) + image_tokens(s, i), rest);
    } else if s[i] == '[' {
        lemma_link_props(s, i);
        lemma_inline_props_concat(s, text_run(s, a, i), link_tokens(s, i));
    } else {
        lemma_scan_props(s, a, i + 1);
    }
}

proof fn lemma_emphasis_props(s: Seq<char>, i: int)
    ensures
        inline_props(s, emphasis_tokens(s, i)),
    decreases s.len(), 0int,
{
    let n = run_end(s, '*', i);
    let count = n - i;
    lemma_run_end(s, '*', i);
    lemma_inline_props_leaf(s, TokenV::Text { value: repeat('*', count) });
    if count == 1 || count == 2 {
        let pat = repeat('*', count);
        match find_from(s, pat, n) {
            Some(f) => {
                lemma_find_from(s, pat, n);
                let inner_s = s.subrange(n, f);
                let inner = inline_tokens(inner_s);
                lemma_inline_props(inner_s);
                lemma_inline_props_lift(s, n, f, inner);
                assert(s[i] == '*');
                if count == 1 {
                    assert(no_char(inner_s, '*')) by {
                        assert forall|k: int| 0 <= k < inner_s.len() implies #[trigger] inner_s[k]
                            != '*' by {
                            if inner_s[k] == '*' {
                                assert(s.subrange(n + k, n + k + 1) =~= pat);
                                assert(occurs_at(s, pat, n + k));
                            }
                        }
                    }
                    assert(none_satisfy(inner, close_pred(TokenV::EmphasisOpen)));
                    lemma_parses_alone_wrap(TokenV::EmphasisOpen, inner);
                } else {
                    assert(s[i + 1] == '*');
                    assert(no_pair(inner_s, '*', '*')) by {
                        assert forall|k: int| 0 <= k && k + 1 < inner_s.len() implies !(
                        #[trigger] inner_s[k] == '*' && inner_s[k + 1] == '*') by {
                            if inner_s[k] == '*' && inner_s[k + 1] == '*' {
                                assert(s.subrange(n + k, n + k + 2) =~= pat);
                                assert(occurs_at(s, pat, n + k));
                            }
                        }
                    }
                    assert(none_satisfy(inner, close_pred(TokenV::StrongOpen)));
                    lemma_parses_alone_wrap(TokenV::StrongOpen, inner);
                }
            },
            None => {},
        }
    }
}

proof fn lemma_link_props(s: Seq<char>, i: int)
    ensures
        inline_props(s, link_tokens(s, i)),
    decreases s.len(), 0int,
{
    match link_match(s, i) {
        Some((f, g)) => {
            let pat = seq![']', '('];
            lemma_find_from(s, pat, i + 1);
            let open = TokenV::LinkOpen { url: s.subrange(f + 2, g), title: None };
            let inner_s = s.subrange(i + 1, f);
            let inner = inline_tokens(inner_s);
            lemma_inline_props(inner_s);
            lemma_inline_props_lift(s, i + 1, f, inner);
            assert(s.subrange(f, f + 2) =~= pat);
            assert(s[f] == ']' && s[f + 1] == '(');
            assert(no_pair(inner_s, ']', '(')) by {
                assert forall|k: int| 0 <= k && k + 1 < inner_s.len() implies !(
                #[trigger] inner_s[k] == ']' && inner_s[k + 1] == '(') by {
                    if inner_s[k] == ']' && inner_s[k + 1] == '(' {
                        assert(s.subrange(i + 1 + k, i + 1 + k + 2) =~= pat);
                        assert(occurs_at(s, pat, i + 1 + k));
                    }
                }
            }
            assert(none_satisfy(inner, close_pred(open)));
            lemma_parses_alone_wrap(open, inner);
            let w = seq![open] + inner + seq![TokenV::LinkClose];
            assert forall|k: int| 0 <= k < w.len() implies is_inline_token(#[trigger] w[k]) by {
                if 0 < k < w.len() - 1 {
                    assert(w[k] == inner[k - 1]);
                }
            }
            assert(no_char(s, '*') ==> forall|k: int|
                0 <= k < w.len() ==> !is_emphasis_token(#[trigger] w[k]) && !is_strong_token(w[k])) by {
                if no_char(s, '*') {
                    assert forall|k: int| 0 <= k < w.len() implies !is_emphasis_token(#[trigger] w[k])
                        && !is_strong_token(w[k]) by {
                        if 0 < k < w.len() - 1 {
                            assert(w[k] == inner[k - 1]);
                        }
                    }
                }
            }
            assert(no_pair(s, '*', '*') ==> forall|k: int|
                0 <= k < w.len() ==> !is_strong_token(#[trigger] w[k])) by {
                if no_pair(s, '*', '*') {
                    assert forall|k: int| 0 <= k < w.len() implies !is_strong_token(#[trigger] w[k]) by {
                        if 0 < k < w.len() - 1 {
                            assert(w[k] == inner[k - 1]);
                        }
                    }
                }
            }
            assert(!no_pair(s, ']', '('));
            assert(inline_props(s, w));
            lemma_inline_props_text(s, 0, g + 1);
            lemma_inline_props_concat(s, w, tail_text(s, g + 1));
        },
        None => {
            lemma_inline_props_leaf(s, TokenV::Text { value: s.subrange(i, s.len() as int) });
        },
    }
}

proof fn lemma_code_props(s: Seq<char>, i: int)
    ensures
        inline_props(s, code_tokens(s, i)),
{
    let n = run_end(s, '`', i);
    match find_from(s, seq!['`'], n) {
        Some(f) => lemma_inline_props_leaf(s, TokenV::CodeInline { value: s.subrange(n, f) }),
        None => {},
    }
    lemma_inline_props_leaf(s, TokenV::Text { value: seq!['`'] });
    lemma_inline_props_leaf(s, TokenV::Text { value: repeat('`', n - i) });
}

proof fn lemma_image_props(s: Seq<char>, i: int)
    ensures
        inline_props(s, image_tokens(s, i)),
{
    match image_match(s, i) {
        Some((f, g)) => {
            let image = TokenV::Image {
                url: s.subrange(f + 2, g),
                title: None,
                alt: Some(s.subrange(i + 2, f)),
            };
            lemma_inline_props_leaf(s, image);
            lemma_inline_props_text(s, 0, g + 1);
            lemma_inline_props_concat(s, seq![image], tail_text(s, g + 1));
        },
        None => {
            lemma_inline_props_leaf(s, TokenV::Text { value: seq!['!'] });
            lemma_inline_props_empty(s);
        },
    }
}

/// `m` tokens that open block quotes.
pub open spec fn quote_opens(m: nat) -> Seq<TokenV> {
    Seq::new(m, |_k: int| TokenV::BlockquoteOpen)
}

/// `m` tokens that close block quotes.
pub open spec fn quote_closes(m: nat) -> Seq<TokenV> {
    Seq::new(m, |_k: int| TokenV::BlockquoteClose)
}

/// `m` block quotes, each inside the one before, around `ns`.
pub open spec fn quote_chain(m: nat, ns: Seq<NodeV>) -> Seq<NodeV>
    decreases m,
{
    if m == 0 {
        ns
    } else {
        seq![NodeV::Blockquote { children: quote_chain((m - 1) as nat, ns) }]
    }
}

/// Closing tokens that nothing opened are skipped.
proof fn lemma_skip_quote_closes(m: nat, rest: Seq<TokenV>)
    ensures
        parse_from(quote_closes(m) + rest, 0) == parse_from(rest, 0),
    decreases m,
{
    if m > 0 {
        let c = seq![TokenV::BlockquoteClose];
        assert(quote_closes(m) + rest =~= c + (quote_closes((m - 1) as nat) + rest));
        lemma_parse_from_shift(c, quote_closes((m - 1) as nat) + rest, 0);
        assert((c + (quote_closes((m - 1) as nat) + rest))[0] == TokenV::BlockquoteClose);
        lemma_skip_quote_closes((m - 1) as nat, rest);
    } else {
        assert(quote_closes(m) + rest =~= rest);
    }
}

/// Block quotes that are opened and never closed each take all that follows.
proof fn lemma_open_chain(m: nat, y: Seq<TokenV>)
    requires
        parses_alone(y),
        none_satisfy(y, blockquote_close()),
    ensures
        parse_nodes_spec(quote_opens(m) + y) == quote_chain(m, parse_nodes_spec(y)),
        nodes_tokens(quote_chain(m, parse_nodes_spec(y))) == quote_opens(m) + y + quote_closes(m),
    decreases m,
{
    let e = Seq::<TokenV>::empty();
    if m == 0 {
        assert(quote_opens(m) + y =~= y);
        assert(quote_opens(m) + y + quote_closes(m) =~= y);
    } else {
        let k = (m - 1) as nat;
        lemma_open_chain(k, y);
        let ts = quote_opens(m) + y;
        let inner = quote_opens(k) + y;
        assert(ts =~= seq![TokenV::BlockquoteOpen] + inner);
        assert(ts[0] == TokenV::BlockquoteOpen);
        lemma_close_index(ts, 1, blockquote_close());
        let ci = close_index(ts, 1, blockquote_close());
        if ci < ts.len() {
            if ci < m {
                assert(ts[ci] == TokenV::BlockquoteOpen);
            } else {
                assert(ts[ci] == y[ci - m]);
            }
        }
        assert(ci == ts.len());
        assert(ts.subrange(1, ts.len() as int) =~= inner);
        lemma_after_close(ts, 0);
        assert(parse_from(ts, ts.len() as int) =~= Seq::<NodeV>::empty());
        let n = NodeV::Blockquote { children: quote_chain(k, parse_nodes_spec(y)) };
        assert(parse_nodes_spec(ts) =~= seq![n]);
        lemma_nodes_tokens_single(n);
        assert(quote_opens(m) + y + quote_closes(m) =~= seq![TokenV::BlockquoteOpen] + (quote_opens(k)
            + y + quote_closes(k)) + seq![TokenV::BlockquoteClose]);
    }
}

/// `m` block quotes around tokens `y` that parse alone and close no block
/// quote parse alone.
proof fn lemma_parses_alone_quotes(m: nat, y: Seq<TokenV>)
    requires
        parses_alone(y),
        none_satisfy(y, blockquote_close()),
    ensures
        parses_alone(quote_opens(m) + y + quote_closes(m)),
{
    let w = quote_opens(m) + y + quote_closes(m);
    let e = Seq::<TokenV>::empty();
    if m == 0 {
        assert(w =~= y);
    } else {
        let k = (m - 1) as nat;
        lemma_open_chain(k, y);
        lemma_open_chain(m, y);
        assert forall|rest: Seq<TokenV>| #[trigger]
            parse_from(w + rest, 0) == quote_chain(m, parse_nodes_spec(y)) + parse_from(rest, 0) by {
            let ts = w + rest;
            assert(ts[0] == TokenV::BlockquoteOpen);
            let at = (m + y.len()) as int;
            assert(ts[at] == w[at]);
            assert(w[at] == quote_closes(m)[0]);
            assert(ts[at] == TokenV::BlockquoteClose);
            lemma_close_index(ts, 1, blockquote_close());
            let ci = close_index(ts, 1, blockquote_close());
            if ci < at {
                assert(ts[ci] == w[ci]);
                if ci < m {
                    assert(w[ci] == quote_opens(m)[ci]);
                } else {
                    assert(w[ci] == y[ci - m]);
                }
            }
            assert(ci == at);
            assert(ts.subrange(1, at) =~= quote_opens(k) + y);
            assert(children_of(ts, 1, blockquote_close()) == quote_chain(k, parse_nodes_spec(y)));
            assert(after_close(ts, 1, blockquote_close()) == at + 1);
            let head = quote_opens(m) + y + seq![TokenV::BlockquoteClose];
            let tail = quote_closes(k) + rest;
            assert(ts =~= head + tail);
            lemma_parse_from_shift(head, tail, 0);
            assert(head.len() == at + 1);
            lemma_skip_quote_closes(k, rest);
            assert(parse_from(ts, at + 1) == parse_from(rest, 0));
            lemma_after_close(ts, 0);
            assert(parse_from(ts, 0) == seq![
                NodeV::Blockquote { children: children_of(ts, 1, blockquote_close()) },
            ] + parse_from(ts, after_close(ts, 1, blockquote_close())));
        }
        let ts = w + e;
        assert(parse_from(w + e, 0) == quote_chain(m, parse_nodes_spec(y)) + parse_from(e, 0));
        assert(ts =~= w);
        assert(parse_from(e, 0) =~= Seq::<NodeV>::empty());
        assert(parse_nodes_spec(w) =~= quote_chain(m, parse_nodes_spec(y)));
    }
}

/// Whether the block lexer reads `line` as a block quote.
pub open spec fn is_quote_line(line: Seq<char>) -> bool {
    !starts_with(line, bullet()) && !is_ordered_item(line) && !starts_with(line, fence())
        && starts_with(line, seq!['>'])
}

/// How deep the block quotes that `line` opens are nested.
pub open spec fn quote_depth(line: Seq<char>) -> nat
    decreases line.len(),
{
    if is_quote_line(line) {
        proof { lemma_trim_len(line.subrange(1, line.len() as int)); }
        1 + quote_depth(trim(line.subrange(1, line.len() as int)))
    } else {
        0
    }
}

/// The text inside all block quotes that `line` opens.
pub open spec fn quote_base(line: Seq<char>) -> Seq<char>
    decreases line.len(),
{
    if is_quote_line(line) {
        proof { lemma_trim_len(line.subrange(1, line.len() as int)); }
        quote_base(trim(line.subrange(1, line.len() as int)))
    } else {
        line
    }
}

proof fn lemma_quote_structure(line: Seq<char>, ls: Seq<Seq<char>>, next: int)
    ensures
        block_tokens(line, ls, next).0 == quote_opens(quote_depth(line)) + block_tokens(
            quote_base(line),
            ls,
            next,
        ).0 + quote_closes(quote_depth(line)),
        !is_quote_line(quote_base(line)),
    decreases line.len(),
{
    if is_quote_line(line) {
        let inner = trim(line.subrange(1, line.len() as int));
        lemma_trim_len(line.subrange(1, line.len() as int));
        lemma_quote_structure(inner, ls, next);
        let d = quote_depth(inner);
        let base = block_tokens(quote_base(line), ls, next).0;
        assert(quote_opens(d + 1) =~= seq![TokenV::BlockquoteOpen] + quote_opens(d));
        assert(quote_closes(d + 1) =~= quote_closes(d) + seq![TokenV::BlockquoteClose]);
        assert(block_tokens(line, ls, next).0 =~= quote_opens(d + 1) + base + quote_closes(d + 1));
    } else {
        assert(quote_opens(0) + block_tokens(line, ls, next).0 + quote_closes(0) =~= block_tokens(
            line,
            ls,
            next,
        ).0);
    }
}

/// Whether `t` may stand in the body of a list.
pub open spec fn is_list_body_token(t: TokenV) -> bool {
    is_inline_token(t) || t is ListItemOpen || t is ListItemClose || t is Newline
}

proof fn lemma_list_item_alone(content: Seq<char>)
    ensures
        parses_alone(list_item(content)),
        forall|i: int|
            0 <= i < list_item(content).len() ==> is_list_body_token(#[trigger] list_item(content)[i]),
{
    let x = inline_tokens(content);
    lemma_inline_props(content);
    assert(none_satisfy(x, close_pred(TokenV::ListItemOpen))) by {
        assert forall|i: int| 0 <= i < x.len() implies !close_pred(TokenV::ListItemOpen)(
            #[trigger] x[i],
        ) by {
            assert(is_inline_token(x[i]));
        }
    }
    lemma_parses_alone_wrap(TokenV::ListItemOpen, x);
    let w = list_item(content);
    assert forall|i: int| 0 <= i < w.len() implies is_list_body_token(#[trigger] w[i]) by {
        if 0 < i < w.len() - 1 {
            assert(w[i] == x[i - 1]);
        }
    }
}

proof fn lemma_body_concat(x: Seq<TokenV>, y: Seq<TokenV>)
    requires
        forall|i: int| 0 <= i < x.len() ==> is_list_body_token(#[trigger] x[i]),
        forall|i: int| 0 <= i < y.len() ==> is_list_body_token(#[trigger] y[i]),
    ensures
        forall|i: int| 0 <= i < (x + y).len() ==> is_list_body_token(#[trigger] (x + y)[i]),
{
    assert forall|i: int| 0 <= i < (x + y).len() implies is_list_body_token(#[trigger] (x + y)[i]) by {
        if i < x.len() {
            assert((x + y)[i] == x[i]);
        } else {
            assert((x + y)[i] == y[i - x.len()]);
        }
    }
}

proof fn lemma_items_alone(ls: Seq<Seq<char>>, j: int, e: int)
    ensures
        parses_alone(bullet_items(ls, j, e)),
        parses_alone(ordered_items(ls, j, e)),
        forall|i: int|
            0 <= i < bullet_items(ls, j, e).len() ==> is_list_body_token(
                #[trigger] bullet_items(ls, j, e)[i],
            ),
        forall|i: int|
            0 <= i < ordered_items(ls, j, e).len() ==> is_list_body_token(
                #[trigger] ordered_items(ls, j, e)[i],
            ),
    decreases e - j,
{
    if e > j {
        lemma_items_alone(ls, j, e - 1);
        let nl = seq![TokenV::Newline];
        lemma_parses_alone_leaf(TokenV::Newline);
        let b = ls[e - 1].subrange(2, ls[e - 1].len() as int);
        let o = item_content(ls[e - 1]);
        lemma_list_item_alone(b);
        lemma_list_item_alone(o);
        lemma_parses_alone_concat(bullet_items(ls, j, e - 1), nl);
        lemma_parses_alone_concat(bullet_items(ls, j, e - 1) + nl, list_item(b));
        lemma_parses_alone_concat(ordered_items(ls, j, e - 1), nl);
        lemma_parses_alone_concat(ordered_items(ls, j, e - 1) + nl, list_item(o));
        lemma_body_concat(bullet_items(ls, j, e - 1), nl);
        lemma_body_concat(bullet_items(ls, j, e - 1) + nl, list_item(b));
        lemma_body_concat(ordered_items(ls, j, e - 1), nl);
        lemma_body_concat(ordered_items(ls, j, e - 1) + nl, list_item(o));
    } else {
        lemma_parses_alone_empty();
    }
}

proof fn lemma_wrap_inline(o: TokenV, content: Seq<char>)
    requires
        is_container_open(o),
        !(o is ListItemOpen) && !(o is EmphasisOpen) && !(o is StrongOpen) && !(o is LinkOpen),
    ensures
        parses_alone(seq![o] + inline_tokens(content) + seq![closer_of(o)->0]),
{
    let x = inline_tokens(content);
    lemma_inline_props(content);
    assert(none_satisfy(x, close_pred(o))) by {
        assert forall|i: int| 0 <= i < x.len() implies !close_pred(o)(#[trigger] x[i]) by {
            assert(is_inline_token(x[i]));
        }
    }
    lemma_parses_alone_wrap(o, x);
}

/// The tokens of a block that is no block quote parse alone and close no
/// block quote.
proof fn lemma_base_block_alone(line: Seq<char>, ls: Seq<Seq<char>>, next: int)
    requires
        !is_quote_line(line),
    ensures
        parses_alone(block_tokens(line, ls, next).0),
        none_satisfy(block_tokens(line, ls, next).0, blockquote_close()),
{
    let toks = block_tokens(line, ls, next).0;
    if starts_with(line, bullet()) {
        let first = line.subrange(2, line.len() as int);
        let e = bullet_run_end(ls, next);
        let body = list_item(first) + bullet_items(ls, next, e);
        lemma_list_item_alone(first);
        lemma_items_alone(ls, next, e);
        lemma_parses_alone_concat(list_item(first), bullet_items(ls, next, e));
        lemma_body_concat(list_item(first), bullet_items(ls, next, e));
        assert(none_satisfy(body, close_pred(TokenV::UnorderedListOpen))) by {
            assert forall|i: int| 0 <= i < body.len() implies !close_pred(
                TokenV::UnorderedListOpen,
            )(#[trigger] body[i]) by {
                assert(is_list_body_token(body[i]));
            }
        }
        lemma_parses_alone_wrap(TokenV::UnorderedListOpen, body);
        assert(toks =~= seq![TokenV::UnorderedListOpen] + body + seq![TokenV::UnorderedListClose]);
        assert forall|i: int| 0 <= i < toks.len() implies !blockquote_close()(#[trigger] toks[i]) by {
            if 0 < i < toks.len() - 1 {
                assert(toks[i] == body[i - 1]);
                assert(is_list_body_token(body[i - 1]));
            }
        }
    } else if is_ordered_item(line) {
        let first = item_content(line);
        let e = ordered_run_end(ls, next);
        let open = TokenV::OrderedListOpen { start: item_start(line) };
        let body = list_item(first) + ordered_items(ls, next, e);
        lemma_list_item_alone(first);
        lemma_items_alone(ls, next, e);
        lemma_parses_alone_concat(list_item(first), ordered_items(ls, next, e));
        lemma_body_concat(list_item(first), ordered_items(ls, next, e));
        assert(none_satisfy(body, close_pred(open))) by {
            assert forall|i: int| 0 <= i < body.len() implies !close_pred(open)(#[trigger] body[i]) by {
                assert(is_list_body_token(body[i]));
            }
        }
        lemma_parses_alone_wrap(open, body);
        assert(toks =~= seq![open] + body + seq![TokenV::OrderedListClose]);
        assert forall|i: int| 0 <= i < toks.len() implies !blockquote_close()(#[trigger] toks[i]) by {
            if 0 < i < toks.len() - 1 {
                assert(toks[i] == body[i - 1]);
                assert(is_list_body_token(body[i - 1]));
            }
        }
    } else if starts_with(line, fence()) {
        let info = code_info(line.subrange(3, line.len() as int));
        let e = code_lines_end(ls, next);
        lemma_parses_alone_code(info.0, info.1, join_lines(ls.subrange(next, e)));
    } else if starts_with(line, seq!['#']) {
        let level = run_end(line, '#', 0);
        let content = trim(line.subrange(level, line.len() as int));
        let open = TokenV::HeadingOpen { level: level as nat };
        lemma_wrap_inline(open, content);
        lemma_inline_props(content);
        let x = inline_tokens(content);
        assert forall|i: int| 0 <= i < toks.len() implies !blockquote_close()(#[trigger] toks[i]) by {
            if 0 < i < toks.len() - 1 {
                assert(toks[i] == x[i - 1]);
                assert(is_inline_token(x[i - 1]));
            }
        }
    } else if starts_with(line, seq!['-', '-', '-']) {
        lemma_parses_alone_leaf(TokenV::ThematicBreak);
    } else {
        lemma_wrap_inline(TokenV::ParagraphOpen, line);
        lemma_inline_props(line);
        let x = inline_tokens(line);
        assert forall|i: int| 0 <= i < toks.len() implies !blockquote_close()(#[trigger] toks[i]) by {
            if 0 < i < toks.len() - 1 {
                assert(toks[i] == x[i - 1]);
                assert(is_inline_token(x[i - 1]));
            }
        }
    }
}

/// The tokens of any block parse alone.
pub proof fn lemma_block_alone(line: Seq<char>, ls: Seq<Seq<char>>, next: int)
    ensures
        parses_alone(block_tokens(line, ls, next).0),
{
    lemma_quote_structure(line, ls, next);
    lemma_base_block_alone(quote_base(line), ls, next);
    lemma_parses_alone_quotes(quote_depth(line), block_tokens(quote_base(line), ls, next).0);
}

proof fn lemma_tokenize_from_alone(ls: Seq<Seq<char>>, i: int)
    ensures
        parses_alone(tokenize_from(ls, i)),
    decreases ls.len() - i,
{
    if !(0 <= i < ls.len()) {
        lemma_parses_alone_empty();
    } else if trim(ls[i]).len() == 0 {
        lemma_tokenize_from_alone(ls, i + 1);
    } else {
        let block = block_tokens(ls[i], ls, i + 1);
        lemma_block_next(ls[i], ls, i + 1);
        lemma_block_alone(ls[i], ls, i + 1);
        lemma_tokenize_from_alone(ls, block.1);
        let sep = if block.1 < ls.len() {
            seq![TokenV::Newline]
        } else {
            Seq::empty()
        };
        lemma_parses_alone_leaf(TokenV::Newline);
        lemma_parses_alone_empty();
        lemma_parses_alone_concat(block.0, sep);
        lemma_parses_alone_concat(block.0 + sep, tokenize_from(ls, block.1));
    }
}

/// Law: the parser keeps everything the lexer found. Writing the document
/// tree of any text back out as tokens gives exactly the tokens of the text:
/// each node stands for its own tokens, in order, with nothing lost, added or
/// moved.
pub proof fn law_parse_inverts_lexing(s: Seq<char>)
    ensures
        nodes_tokens(crate::parser::ast_of(s)) == tokens_of(s),
{
    lemma_tokenize_from_alone(lines(s), 0);
}

} // verus!
