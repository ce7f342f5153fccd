//! The tokens that the lexer produces.

use vstd::prelude::*;
use crate::ast::opt_view;

verus! {

/// A lexical token of a Markdown document.
#[derive(Debug, Clone, PartialEq)]
pub enum Token {
    /// A line break between two blocks or two list items.
    Newline,
    /// Plain text.
    Text { value: String },
    /// Opens a heading of the given level (the number of leading `#`).
    HeadingOpen { level: usize },
    HeadingClose,
    ParagraphOpen,
    ParagraphClose,
    /// Emphasis (italic).
    EmphasisOpen,
    EmphasisClose,
    /// Strong emphasis (bold).
    StrongOpen,
    StrongClose,
    CodeInlineOpen,
    CodeInlineClose,
    /// A complete inline code span.
    CodeInline { value: String },
    /// Opens a fenced code block with its language and meta information.
    CodeBlockOpen { lang: Option<String>, meta: Option<String> },
    CodeBlockClose,
    /// The text of a fenced code block.
    CodeBlockText { value: String },
    OrderedListOpen { start: u32 },
    OrderedListClose,
    UnorderedListOpen,
    UnorderedListClose,
    ListItemOpen,
    ListItemClose,
    BlockquoteOpen,
    BlockquoteClose,
    /// A horizontal rule.
    ThematicBreak,
    LinkOpen { url: String, title: Option<String> },
    LinkClose,
    Image { url: String, title: Option<String>, alt: Option<String> },
    /// Text whose inline markup has not been resolved yet.
    UnResolvedText { value: String },
}

/// The mathematical value of a [`Token`]: strings become character sequences.
pub enum TokenV {
    Newline,
    Text { value: Seq<char> },
    HeadingOpen { level: nat },
    HeadingClose,
    ParagraphOpen,
    ParagraphClose,
    EmphasisOpen,
    EmphasisClose,
    StrongOpen,
    StrongClose,
    CodeInlineOpen,
    CodeInlineClose,
    CodeInline { value: Seq<char> },
    CodeBlockOpen { lang: Option<Seq<char>>, meta: Option<Seq<char>> },
    CodeBlockClose,
    CodeBlockText { value: Seq<char> },
    OrderedListOpen { start: u32 },
    OrderedListClose,
    UnorderedListOpen,
    UnorderedListClose,
    ListItemOpen,
    ListItemClose,
    BlockquoteOpen,
    BlockquoteClose,
    ThematicBreak,
    LinkOpen { url: Seq<char>, title: Option<Seq<char>> },
    LinkClose,
    Image { url: Seq<char>, title: Option<Seq<char>>, alt: Option<Seq<char>> },
    UnResolvedText { value: Seq<char> },
}

impl View for Token {
    type V = TokenV;

    open spec fn view(&self) -> TokenV {
        match self {
            Token::Newline => TokenV::Newline,
            Token::Text { value } => TokenV::Text { value: value@ },
            Token::HeadingOpen { level } => TokenV::HeadingOpen { level: *level as nat },
            Token::HeadingClose => TokenV::HeadingClose,
            Token::ParagraphOpen => TokenV::ParagraphOpen,
            Token::ParagraphClose => TokenV::ParagraphClose,
            Token::EmphasisOpen => TokenV::EmphasisOpen,
            Token::EmphasisClose => TokenV::EmphasisClose,
            Token::StrongOpen => TokenV::StrongOpen,
            Token::StrongClose => TokenV::StrongClose,
            Token::CodeInlineOpen => TokenV::CodeInlineOpen,
            Token::CodeInlineClose => TokenV::CodeInlineClose,
            Token::CodeInline { value } => TokenV::CodeInline { value: value@ },
            Token::CodeBlockOpen { lang, meta } => TokenV::CodeBlockOpen {
                lang: opt_view(*lang),
                meta: opt_view(*meta),
            },
            Token::CodeBlockClose => TokenV::CodeBlockClose,
            Token::CodeBlockText { value } => TokenV::CodeBlockText { value: value@ },
            Token::OrderedListOpen { start } => TokenV::OrderedListOpen { start: *start },
            Token::OrderedListClose => TokenV::OrderedListClose,
            Token::UnorderedListOpen => TokenV::UnorderedListOpen,
            Token::UnorderedListClose => TokenV::UnorderedListClose,
            Token::ListItemOpen => TokenV::ListItemOpen,
            Token::ListItemClose => TokenV::ListItemClose,
            Token::BlockquoteOpen => TokenV::BlockquoteOpen,
            Token::BlockquoteClose => TokenV::BlockquoteClose,
            Token::ThematicBreak => TokenV::ThematicBreak,
            Token::LinkOpen { url, title } => TokenV::LinkOpen { url: url@, title: opt_view(*title) },
            Token::LinkClose => TokenV::LinkClose,
            Token::Image { url, title, alt } => TokenV::Image {
                url: url@,
                title: opt_view(*title),
                alt: opt_view(*alt),
            },
            Token::UnResolvedText { value } => TokenV::UnResolvedText { value: value@ },
        }
    }
}

/// The values of a sequence of tokens.
pub open spec fn tokens_view(ts: Seq<Token>) -> Seq<TokenV> {
    ts.map_values(|t: Token| t@)
}

/// A copy of an optional string.
pub fn copy_opt_string(o: &Option<String>) -> (r: Option<String>)
    ensures
        opt_view(r) == opt_view(*o),
{
    match o {
        Some(s) => Some(s.clone()),
        None => None,
    }
}

/// A copy of a token, with the same value.
pub fn copy_token(t: &Token) -> (r: Token)
    ensures
        r@ == t@,
{
    match t {
        Token::Newline => Token::Newline,
        Token::Text { value } => Token::Text { value: value.clone() },
        Token::HeadingOpen { level } => Token::HeadingOpen { level: *level },
        Token::HeadingClose => Token::HeadingClose,
        Token::ParagraphOpen => Token::ParagraphOpen,
        Token::ParagraphClose => Token::ParagraphClose,
        Token::EmphasisOpen => Token::EmphasisOpen,
        Token::EmphasisClose => Token::EmphasisClose,
        Token::StrongOpen => Token::StrongOpen,
        Token::StrongClose => Token::StrongClose,
        Token::CodeInlineOpen => Token::CodeInlineOpen,
        Token::CodeInlineClose => Token::CodeInlineClose,
        Token::CodeInline { value } => Token::CodeInline { value: value.clone() },
        Token::CodeBlockOpen { lang, meta } => Token::CodeBlockOpen {
            lang: copy_opt_string(lang),
            meta: copy_opt_string(meta),
        },
        Token::CodeBlockClose => Token::CodeBlockClose,
        Token::CodeBlockText { value } => Token::CodeBlockText { value: value.clone() },
        Token::OrderedListOpen { start } => Token::OrderedListOpen { start: *start },
        Token::OrderedListClose => Token::OrderedListClose,
        Token::UnorderedListOpen => Token::UnorderedListOpen,
        Token::UnorderedListClose => Token::UnorderedListClose,
        Token::ListItemOpen => Token::ListItemOpen,
        Token::ListItemClose => Token::ListItemClose,
        Token::BlockquoteOpen => Token::BlockquoteOpen,
        Token::BlockquoteClose => Token::BlockquoteClose,
        Token::ThematicBreak => Token::ThematicBreak,
        Token::LinkOpen { url, title } => Token::LinkOpen {
            url: url.clone(),
            title: copy_opt_string(title),
        },
        Token::LinkClose => Token::LinkClose,
        Token::Image { url, title, alt } => Token::Image {
            url: url.clone(),
            title: copy_opt_string(title),
            alt: copy_opt_string(alt),
        },
        Token::UnResolvedText { value } => Token::UnResolvedText { value: value.clone() },
    }
}


/// Appends `t` to `v`.
pub fn push_token(v: &mut Vec<Token>, t: Token)
    ensures
        tokens_view(final(v)@) == tokens_view(old(v)@).push(t@),
{
    let ghost t_view = t@;
    v.push(t);
    assert(tokens_view(v@) =~= tokens_view(old(v)@).push(t_view));
}

/// Appends all tokens of `other` to `v`, in order.
pub fn extend_tokens(v: &mut Vec<Token>, other: Vec<Token>)
    ensures
        tokens_view(final(v)@) == tokens_view(old(v)@) + tokens_view(other@),
{
    let mut other = other;
    let ghost other_view = tokens_view(other@);
    v.append(&mut other);
    assert(tokens_view(v@) =~= tokens_view(old(v)@) + other_view);
}

} // verus!
