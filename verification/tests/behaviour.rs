use leanmd::ast::{Node, Root};
use leanmd::block::BlockProcessor;
use leanmd::inline_parser::{process_inline, process_inline_element};
use leanmd::parser::{markdown_to_ast, parse, try_markdown_to_ast};
use leanmd::text::trim_str;
use leanmd::token::Token;
use leanmd::tokenizer::{tokenize, try_tokenize};
use leanmd::utils::{count_target_chars, extract_ordered_list_item, is_ordered_list_item};

fn text(s: &str) -> Token {
    Token::Text { value: s.to_string() }
}

fn node_text(s: &str) -> Node {
    Node::Text { value: s.to_string() }
}

/// The tokens that a node is written out as.
fn node_tokens(n: &Node, out: &mut Vec<Token>) {
    match n {
        Node::Paragraph { children } => wrap(Token::ParagraphOpen, children, Token::ParagraphClose, out),
        Node::Heading { depth, children } => {
            wrap(Token::HeadingOpen { level: *depth }, children, Token::HeadingClose, out)
        }
        Node::Text { value } => out.push(Token::Text { value: value.clone() }),
        Node::Emphasis { children } => wrap(Token::EmphasisOpen, children, Token::EmphasisClose, out),
        Node::Strong { children } => wrap(Token::StrongOpen, children, Token::StrongClose, out),
        Node::InlineCode { value } => out.push(Token::CodeInline { value: value.clone() }),
        Node::Code { lang, meta, value } => {
            out.push(Token::CodeBlockOpen { lang: lang.clone(), meta: meta.clone() });
            out.push(Token::CodeBlockText { value: value.clone() });
            out.push(Token::CodeBlockClose);
        }
        Node::Blockquote { children } => {
            wrap(Token::BlockquoteOpen, children, Token::BlockquoteClose, out)
        }
        Node::List { ordered: true, start, children } => wrap(
            Token::OrderedListOpen { start: start.unwrap_or(1) },
            children,
            Token::OrderedListClose,
            out,
        ),
        Node::List { ordered: false, children, .. } => {
            wrap(Token::UnorderedListOpen, children, Token::UnorderedListClose, out)
        }
        Node::ListItem { children } => wrap(Token::ListItemOpen, children, Token::ListItemClose, out),
        Node::ThematicBreak => out.push(Token::ThematicBreak),
        Node::Link { url, title, children } => wrap(
            Token::LinkOpen { url: url.clone(), title: title.clone() },
            children,
            Token::LinkClose,
            out,
        ),
        Node::Image { url, title, alt } => out.push(Token::Image {
            url: url.clone(),
            title: title.clone(),
            alt: alt.clone(),
        }),
        Node::Break => out.push(Token::Newline),
    }
}

fn wrap(open: Token, children: &[Node], close: Token, out: &mut Vec<Token>) {
    out.push(open);
    for c in children {
        node_tokens(c, out);
    }
    out.push(close);
}

fn root_tokens(root: &Root) -> Vec<Token> {
    let mut out = Vec::new();
    for c in &root.children {
        node_tokens(c, &mut out);
    }
    out
}

/// The closing token of an opening token.
fn closer(t: &Token) -> Option<Token> {
    match t {
        Token::HeadingOpen { .. } => Some(Token::HeadingClose),
        Token::ParagraphOpen => Some(Token::ParagraphClose),
        Token::EmphasisOpen => Some(Token::EmphasisClose),
        Token::StrongOpen => Some(Token::StrongClose),
        Token::CodeInlineOpen => Some(Token::CodeInlineClose),
        Token::CodeBlockOpen { .. } => Some(Token::CodeBlockClose),
        Token::OrderedListOpen { .. } => Some(Token::OrderedListClose),
        Token::UnorderedListOpen => Some(Token::UnorderedListClose),
        Token::ListItemOpen => Some(Token::ListItemClose),
        Token::BlockquoteOpen => Some(Token::BlockquoteClose),
        Token::LinkOpen { .. } => Some(Token::LinkClose),
        _ => None,
    }
}

fn is_closer(t: &Token) -> bool {
    matches!(
        t,
        Token::HeadingClose
            | Token::ParagraphClose
            | Token::EmphasisClose
            | Token::StrongClose
            | Token::CodeInlineClose
            | Token::CodeBlockClose
            | Token::OrderedListClose
            | Token::UnorderedListClose
            | Token::ListItemClose
            | Token::BlockquoteClose
            | Token::LinkClose
    )
}

fn well_nested(ts: &[Token]) -> bool {
    let mut stack: Vec<Token> = Vec::new();
    for t in ts {
        if let Some(c) = closer(t) {
            stack.push(c);
        } else if is_closer(t) {
            if stack.last() != Some(t) {
                return false;
            }
            stack.pop();
        }
    }
    stack.is_empty()
}

const SAMPLES: [&str; 12] = [
    "# Title\n\nSome *emphasis* and **strong** text.",
    "- a\n- b *c*\n\n1. x\n2. y",
    "> > nested `code` quote\n> - item\n- more",
    "```rust meta\nfn main() {}\n```\n---",
    "This is [a *link*](url) and ![img](src) after.",
    "**outer *inner* outer** tail",
    "a!b and ![alt and [text",
    "***three*** and ``two``",
    "```\nunclosed\ncode",
    "3. three\n4. four\n\n\n# end\r\nline",
    "> # heading in quote\n\n> plain",
    "   indented # not heading",
];

#[test]
fn law_tokens_are_well_nested_on_samples() {
    for s in SAMPLES {
        assert!(well_nested(&tokenize(s)), "not well nested: {:?}", s);
    }
}

#[test]
fn law_parse_keeps_the_tokens_on_samples() {
    for s in SAMPLES {
        let tokens = tokenize(s);
        assert_eq!(root_tokens(&parse(&tokens)), tokens, "for {:?}", s);
    }
}

#[test]
fn law_final_newline_changes_nothing() {
    for s in SAMPLES {
        let mut with_newline = s.to_string();
        with_newline.push('\n');
        assert_eq!(tokenize(&with_newline), tokenize(s), "for {:?}", s);
    }
}

#[test]
fn law_blank_document_has_no_tokens() {
    assert_eq!(tokenize(""), vec![]);
    assert_eq!(tokenize("   \n\t\n\u{3000}\r\n"), vec![]);
}

#[test]
fn law_plain_text_is_one_text_token() {
    assert_eq!(process_inline_element("just words, no markup"), vec![text("just words, no markup")]);
    assert_eq!(process_inline_element(""), vec![]);
}

#[test]
fn markdown_to_ast_is_parse_of_tokenize() {
    for s in SAMPLES {
        assert_eq!(markdown_to_ast(s), parse(&tokenize(s)));
    }
}

#[test]
fn bang_without_bracket_gives_bang_then_pending_text() {
    assert_eq!(
        tokenize("a!b"),
        vec![Token::ParagraphOpen, text("a"), text("!"), text("!b"), Token::ParagraphClose]
    );
    assert_eq!(process_inline_element("Hi!"), vec![text("Hi"), text("!"), text("!")]);
}

#[test]
fn link_swallows_rest_as_raw_text() {
    assert_eq!(
        process_inline_element("[a](b) *c*"),
        vec![
            Token::LinkOpen { url: "b".to_string(), title: None },
            text("a"),
            Token::LinkClose,
            text(" *c*"),
        ]
    );
}

#[test]
fn image_without_closing_paren_falls_back_to_link_text() {
    assert_eq!(process_inline_element("x ![a](b"), vec![text("x "), text("!"), text("[a](b")]);
}

#[test]
fn nested_blockquotes_parse_as_a_chain() {
    assert_eq!(
        markdown_to_ast("> > deep"),
        Root {
            children: vec![Node::Blockquote {
                children: vec![Node::Blockquote {
                    children: vec![Node::Paragraph { children: vec![node_text("deep")] }]
                }]
            }]
        }
    );
}

#[test]
fn blockquote_list_reads_following_items() {
    assert_eq!(
        tokenize("> - a\n- b"),
        vec![
            Token::BlockquoteOpen,
            Token::UnorderedListOpen,
            Token::ListItemOpen,
            text("a"),
            Token::ListItemClose,
            Token::Newline,
            Token::ListItemOpen,
            text("b"),
            Token::ListItemClose,
            Token::UnorderedListClose,
            Token::BlockquoteClose,
        ]
    );
}

#[test]
fn blank_line_ends_a_list() {
    assert_eq!(
        tokenize("- a\n\n- b"),
        vec![
            Token::UnorderedListOpen,
            Token::ListItemOpen,
            text("a"),
            Token::ListItemClose,
            Token::UnorderedListClose,
            Token::Newline,
            Token::UnorderedListOpen,
            Token::ListItemOpen,
            text("b"),
            Token::ListItemClose,
            Token::UnorderedListClose,
        ]
    );
}

#[test]
fn trailing_blank_line_still_gives_a_line_break() {
    assert_eq!(
        tokenize("a\n\n"),
        vec![Token::ParagraphOpen, text("a"), Token::ParagraphClose, Token::Newline]
    );
}

#[test]
fn crlf_lines_lose_the_carriage_return() {
    assert_eq!(
        tokenize("a\r\nb"),
        vec![
            Token::ParagraphOpen,
            text("a"),
            Token::ParagraphClose,
            Token::Newline,
            Token::ParagraphOpen,
            text("b"),
            Token::ParagraphClose,
        ]
    );
}

#[test]
fn heading_level_counts_hashes_and_trims() {
    assert_eq!(
        tokenize("###   deep  "),
        vec![Token::HeadingOpen { level: 3 }, text("deep"), Token::HeadingClose]
    );
    assert_eq!(tokenize("#"), vec![Token::HeadingOpen { level: 1 }, Token::HeadingClose]);
}

#[test]
fn code_fence_with_leading_space_has_empty_language() {
    assert_eq!(
        tokenize("``` rust\nx\n```"),
        vec![
            Token::CodeBlockOpen { lang: Some(String::new()), meta: Some("rust".to_string()) },
            Token::CodeBlockText { value: "x".to_string() },
            Token::CodeBlockClose,
        ]
    );
}

#[test]
fn empty_code_block_has_empty_text() {
    assert_eq!(
        tokenize("```\n```"),
        vec![
            Token::CodeBlockOpen { lang: None, meta: None },
            Token::CodeBlockText { value: String::new() },
            Token::CodeBlockClose,
        ]
    );
}

#[test]
fn rule_needs_three_dashes_and_no_space() {
    assert_eq!(tokenize("----"), vec![Token::ThematicBreak]);
    assert_eq!(
        tokenize("- -"),
        vec![
            Token::UnorderedListOpen,
            Token::ListItemOpen,
            text("-"),
            Token::ListItemClose,
            Token::UnorderedListClose,
        ]
    );
}

#[test]
fn ordered_item_start_number() {
    assert_eq!(extract_ordered_list_item("42. answer"), (42, "answer"));
    assert_eq!(extract_ordered_list_item("007.  bond"), (7, "bond"));
    assert_eq!(extract_ordered_list_item("4294967295. max"), (4294967295, "max"));
    assert_eq!(extract_ordered_list_item("4294967296. over"), (1, "over"));
    assert_eq!(extract_ordered_list_item(". none"), (1, ""));
    assert_eq!(extract_ordered_list_item("12"), (1, ""));
    assert_eq!(extract_ordered_list_item("5."), (5, ""));
}

#[test]
fn ordered_item_detection() {
    assert!(is_ordered_list_item("1. a"));
    assert!(is_ordered_list_item("10.\tb"));
    assert!(!is_ordered_list_item("1."));
    assert!(!is_ordered_list_item(". a"));
    assert!(!is_ordered_list_item("1.a"));
    assert!(!is_ordered_list_item("a. b"));
}

#[test]
fn ordered_item_with_wide_space_is_refused() {
    assert_eq!(try_tokenize("1.\u{a0}x"), None);
    assert_eq!(try_markdown_to_ast("ok\n2.\u{3000}y"), None);
    assert_eq!(try_tokenize("1. x"), Some(tokenize("1. x")));
    assert_eq!(try_markdown_to_ast("- a"), Some(markdown_to_ast("- a")));
}

#[test]
fn counting_runs() {
    let chars: Vec<char> = "**a***".chars().collect();
    assert_eq!(count_target_chars('*', &chars, 0), (2, 2));
    assert_eq!(count_target_chars('*', &chars, 2), (0, 2));
    assert_eq!(count_target_chars('*', &chars, 3), (3, 6));
    assert_eq!(count_target_chars('*', &chars, 9), (0, 9));
}

#[test]
fn trimming_uses_unicode_whitespace() {
    assert_eq!(trim_str("\u{3000} x y \t"), "x y");
    assert_eq!(trim_str("   "), "");
}

#[test]
fn resolving_only_touches_unresolved_text() {
    assert_eq!(
        process_inline(vec![
            Token::ParagraphOpen,
            Token::UnResolvedText { value: "a `b`".to_string() },
            Token::ParagraphClose,
        ]),
        vec![
            Token::ParagraphOpen,
            text("a "),
            Token::CodeInline { value: "b".to_string() },
            Token::ParagraphClose,
        ]
    );
}

#[test]
fn stray_tokens_are_skipped_by_the_parser() {
    let tokens = vec![
        Token::ParagraphClose,
        Token::UnResolvedText { value: "x".to_string() },
        Token::CodeBlockText { value: "y".to_string() },
        text("z"),
    ];
    assert_eq!(parse(&tokens), Root { children: vec![node_text("z")] });
}

#[test]
fn unclosed_node_takes_the_rest() {
    let tokens = vec![Token::StrongOpen, text("a"), Token::EmphasisClose];
    assert_eq!(
        parse(&tokens),
        Root { children: vec![Node::Strong { children: vec![node_text("a")] }] }
    );
}

#[test]
fn code_node_takes_first_text_only() {
    let tokens = vec![
        Token::CodeBlockOpen { lang: None, meta: None },
        Token::Newline,
        Token::CodeBlockText { value: "one".to_string() },
        Token::CodeBlockText { value: "two".to_string() },
        Token::CodeBlockClose,
    ];
    assert_eq!(
        parse(&tokens),
        Root { children: vec![Node::Code { lang: None, meta: None, value: "one".to_string() }] }
    );
}

#[test]
fn block_processor_scopes() {
    let p = BlockProcessor::new();
    assert_eq!(p.next_block_scope("```rust", ""), "code");
    assert_eq!(p.next_block_scope("```", "code"), "");
    assert_eq!(p.next_block_scope("text", "code"), "code");
    assert_eq!(p.process_block("  ```  ", "code"), vec![Token::CodeBlockClose]);
    assert_eq!(
        p.process_block("  let x = 1;  ", "code"),
        vec![Token::CodeBlockText { value: "let x = 1;".to_string() }]
    );
}

#[test]
fn block_processor_lines() {
    let p = BlockProcessor::new();
    assert_eq!(
        p.process_block("```rust a b", ""),
        vec![Token::CodeBlockOpen { lang: Some("rust".to_string()), meta: Some("a".to_string()) }]
    );
    assert_eq!(p.process_block("```", ""), vec![Token::CodeBlockOpen { lang: None, meta: None }]);
    assert_eq!(
        p.process_block("## Title ", ""),
        vec![
            Token::HeadingOpen { level: 2 },
            Token::UnResolvedText { value: "Title".to_string() },
            Token::HeadingClose,
        ]
    );
    assert_eq!(p.process_block("---", ""), vec![Token::ThematicBreak]);
    assert_eq!(
        p.process_block(" plain ", ""),
        vec![
            Token::ParagraphOpen,
            Token::UnResolvedText { value: "plain".to_string() },
            Token::ParagraphClose,
        ]
    );
}

#[test]
fn block_processor_quotes() {
    let p = BlockProcessor::new();
    assert_eq!(
        p.process_block("> quoted", ""),
        vec![
            Token::BlockquoteOpen,
            Token::ParagraphOpen,
            Token::UnResolvedText { value: "quoted".to_string() },
            Token::ParagraphClose,
            Token::BlockquoteClose,
        ]
    );
    assert_eq!(
        p.process_block("> # head", ""),
        vec![
            Token::BlockquoteOpen,
            Token::HeadingOpen { level: 1 },
            Token::UnResolvedText { value: "head".to_string() },
            Token::HeadingClose,
            Token::BlockquoteClose,
        ]
    );
    assert_eq!(p.process_block(">", ""), vec![Token::BlockquoteOpen, Token::BlockquoteClose]);
}

#[test]
fn block_processor_closes_open_code() {
    let p = BlockProcessor::new();
    let mut tokens = vec![Token::CodeBlockOpen { lang: None, meta: None }, Token::Newline];
    p.close_tokens(&mut tokens);
    assert_eq!(tokens.last(), Some(&Token::CodeBlockClose));
    let mut others = vec![Token::ParagraphOpen];
    p.close_tokens(&mut others);
    assert_eq!(others, vec![Token::ParagraphOpen]);
}

#[test]
fn law_two_lines_join_with_a_line_break() {
    for (a, b) in [("# a", "---"), ("plain *x*", "## h"), ("one", "two")] {
        let mut expected = tokenize(a);
        expected.push(Token::Newline);
        expected.extend(tokenize(b));
        assert_eq!(tokenize(&format!("{}\n{}", a, b)), expected);
    }
}

#[test]
fn trees_clone_to_equal_trees() {
    let root = markdown_to_ast("> - a [b](c)\n```x y\nz\n```");
    assert_eq!(root.clone(), root);
    assert_eq!(root.children[0].clone(), root.children[0]);
}

#[test]
fn trimming_agrees_with_std_whitespace() {
    for u in 0u32..0x3100 {
        if let Some(c) = char::from_u32(u) {
            let s = format!("{}a{}", c, c);
            assert_eq!(trim_str(&s), s.trim(), "code point {:#x}", u);
        }
    }
}
