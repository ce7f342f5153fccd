//! A line-at-a-time block lexer: each call sees one line and the scope it is
//! in (inside a fenced code block or not), and the caller moves the scope on.

use vstd::prelude::*;
use crate::block_parser::fence;
use crate::text::{
    chars_of, find_chars, find_from, has_prefix, lemma_find_from, lemma_run_end, lemma_trim_len,
    run_end, skip_run, starts_with, substring, trim, trim_str,
};
use crate::token::{Token, TokenV, copy_token, push_token, tokens_view};

verus! {

/// The name of the scope inside a fenced code block.
pub open spec fn code_scope() -> Seq<char> {
    seq!['c', 'o', 'd', 'e']
}

/// Whether a token is a paragraph tag.
pub open spec fn is_paragraph_tag(t: TokenV) -> bool {
    t is ParagraphOpen || t is ParagraphClose
}

/// Whether every token of `ts` is a paragraph tag or unresolved text.
pub open spec fn is_simple_text(ts: Seq<TokenV>) -> bool {
    forall|i: int|
        0 <= i < ts.len() ==> is_paragraph_tag(#[trigger] ts[i]) || ts[i] is UnResolvedText
}

/// `ts` without its paragraph tags.
pub open spec fn without_paragraph_tags(ts: Seq<TokenV>) -> Seq<TokenV>
    decreases ts.len(),
{
    if ts.len() == 0 {
        Seq::empty()
    } else {
        without_paragraph_tags(ts.drop_last()) + if is_paragraph_tag(ts.last()) {
            Seq::empty()
        } else {
            seq![ts.last()]
        }
    }
}

/// The language and the meta information of a code fence whose text after the
/// backticks is `info`: its first and second space-separated parts.
pub open spec fn fence_info(info: Seq<char>) -> (Option<Seq<char>>, Option<Seq<char>>) {
    if info.len() == 0 {
        (None, None)
    } else {
        match find_from(info, seq![' '], 0) {
            None => (Some(info), None),
            Some(p) => {
                let rest = info.subrange(p + 1, info.len() as int);
                (
                    Some(info.subrange(0, p)),
                    Some(
                        match find_from(rest, seq![' '], 0) {
                            Some(q) => rest.subrange(0, q),
                            None => rest,
                        },
                    ),
                )
            },
        }
    }
}

/// The tokens of the line whose trimmed text is `t`, inside a code block where
/// `in_code` holds.
pub open spec fn line_tokens(t: Seq<char>, in_code: bool) -> Seq<TokenV>
    decreases t.len(),
{
    if in_code {
        if starts_with(t, fence()) {
            seq![TokenV::CodeBlockClose]
        } else {
            seq![TokenV::CodeBlockText { value: t }]
        }
    } else if starts_with(t, fence()) {
        let info = fence_info(t.subrange(3, t.len() as int));
        seq![TokenV::CodeBlockOpen { lang: info.0, meta: info.1 }]
    } else if starts_with(t, seq!['>']) {
        let content = trim(t.subrange(1, t.len() as int));
        proof { lemma_trim_len(t.subrange(1, t.len() as int)); }
        seq![TokenV::BlockquoteOpen] + if content.len() == 0 {
            Seq::empty()
        } else {
            let inner = line_tokens(content, false);
            if is_simple_text(inner) {
                seq![TokenV::ParagraphOpen] + without_paragraph_tags(inner) + seq![
                    TokenV::ParagraphClose,
                ]
            } else {
                without_paragraph_tags(inner)
            }
        } + seq![TokenV::BlockquoteClose]
    } else if starts_with(t, seq!['#']) {
        let level = run_end(t, '#', 0);
        seq![
            TokenV::HeadingOpen { level: level as nat },
            TokenV::UnResolvedText { value: trim(t.subrange(level, t.len() as int)) },
            TokenV::HeadingClose,
        ]
    } else if starts_with(t, seq!['-', '-', '-']) {
        seq![TokenV::ThematicBreak]
    } else {
        seq![
            TokenV::ParagraphOpen,
            TokenV::UnResolvedText { value: t },
            TokenV::ParagraphClose,
        ]
    }
}

/// Lexes Markdown line by line, each line within the scope that the lines
/// before it left open.
pub struct BlockProcessor;

/// Whether the two character sequences are equal.
fn chars_equal(a: &Vec<char>, b: &Vec<char>) -> (r: bool)
    ensures
        r == (a@ == b@),
{
    if a.len() != b.len() {
        return false;
    }
    let mut i: usize = 0;
    while i < a.len()
        invariant
            a@.len() == b@.len(),
            i <= a@.len(),
            forall|j: int| 0 <= j < i ==> a@[j] == b@[j],
        decreases a@.len() - i,
    {
        if a[i] != b[i] {
            return false;
        }
        i = i + 1;
    }
    assert(a@ =~= b@);
    true
}

/// Whether `scope` names the scope inside a code block.
fn is_code_scope(scope: &str) -> (r: bool)
    ensures
        r == (scope@ == code_scope()),
{
    let word = vec!['c', 'o', 'd', 'e'];
    assert(word@ =~= code_scope());
    chars_equal(&chars_of(scope), &word)
}

impl BlockProcessor {
    /// A new block processor.
    pub fn new() -> Self {
        Self
    }

    /// Closes a code block that `tokens` opens.
    pub fn close_tokens(&self, tokens: &mut Vec<Token>)
        ensures
            tokens_view(final(tokens)@) == if old(tokens)@.len() > 0 && old(tokens)@[0]@ is CodeBlockOpen {
                tokens_view(old(tokens)@).push(TokenV::CodeBlockClose)
            } else {
                tokens_view(old(tokens)@)
            },
    {
        if tokens.len() > 0 {
            if let Token::CodeBlockOpen { .. } = &tokens[0] {
                push_token(tokens, Token::CodeBlockClose);
            }
        }
    }

    /// The scope after a line: a line that begins with three backticks enters
    /// a code block, or leaves the one it is in; any other line keeps `scope`.
    pub fn next_block_scope(&self, input: &str, scope: &str) -> (r: String)
        ensures
            r@ == if starts_with(input@, fence()) {
                if scope@ == code_scope() {
                    Seq::empty()
                } else {
                    code_scope()
                }
            } else {
                scope@
            },
    {
        let ticks = vec!['`', '`', '`'];
        assert(ticks@ =~= fence());
        if has_prefix(&chars_of(input), &ticks) {
            if is_code_scope(scope) {
                return String::new();
            } else {
                let code = "code";
                proof {
                    reveal_strlit("code");
                }
                assert(code@ =~= code_scope());
                return String::from_str(code);
            }
        }
        String::from_str(scope)
    }

    /// Lexes one line, trimmed, within `scope`.
    pub fn process_block(&self, input: &str, scope: &str) -> (r: Vec<Token>)
        ensures
            tokens_view(r@) == line_tokens(trim(input@), scope@ == code_scope()),
        decreases trim(input@).len(), 0int,
    {
        let mut tokens: Vec<Token> = Vec::new();
        let input = trim_str(input);
        let chars = chars_of(input);
        let ticks = vec!['`', '`', '`'];
        let quote = vec!['>'];
        let hash = vec!['#'];
        let rule_prefix = vec!['-', '-', '-'];
        assert(ticks@ =~= fence());
        assert(quote@ =~= seq!['>']);
        assert(hash@ =~= seq!['#']);
        assert(rule_prefix@ =~= seq!['-', '-', '-']);
        if is_code_scope(scope) {
            if has_prefix(&chars, &ticks) {
                push_token(&mut tokens, Token::CodeBlockClose);
            } else {
                push_token(&mut tokens, Token::CodeBlockText { value: String::from_str(input) });
            }
            return tokens;
        }
        if has_prefix(&chars, &ticks) {
            let sliced = input.substring_char(3, chars.len());
            let info = chars_of(sliced);
            if info.len() == 0 {
                push_token(&mut tokens, Token::CodeBlockOpen { lang: None, meta: None });
                return tokens;
            }
            let space = vec![' '];
            assert(space@ =~= seq![' ']);
            let (lang, meta) = match find_chars(&info, &space, 0) {
                None => (Some(String::from_str(sliced)), None),
                Some(p) => {
                    proof { lemma_find_from(info@, space@, 0); }
                    let rest = sliced.substring_char(p + 1, info.len());
                    let rest_chars = chars_of(rest);
                    let second = match find_chars(&rest_chars, &space, 0) {
                        Some(q) => {
                            proof { lemma_find_from(rest_chars@, space@, 0); }
                            substring(rest, 0, q)
                        },
                        None => String::from_str(rest),
                    };
                    (Some(substring(sliced, 0, p)), Some(second))
                },
            };
            push_token(&mut tokens, Token::CodeBlockOpen { lang, meta });
            return tokens;
        }
        if has_prefix(&chars, &quote) {
            let content = trim_str(input.substring_char(1, chars.len()));
            let ghost base = tokens_view(tokens@);
            push_token(&mut tokens, Token::BlockquoteOpen);
            if content.unicode_len() > 0 {
                proof {
                    lemma_trim_len(input@.subrange(1, input@.len() as int));
                    crate::text::lemma_trim_idempotent(input@.subrange(1, input@.len() as int));
                }
                let inner_tokens = self.process_inner_block(content);
                let simple = all_simple_text(&inner_tokens);
                if simple {
                    push_token(&mut tokens, Token::ParagraphOpen);
                    push_without_paragraph_tags(&mut tokens, &inner_tokens);
                    push_token(&mut tokens, Token::ParagraphClose);
                } else {
                    push_without_paragraph_tags(&mut tokens, &inner_tokens);
                }
            }
            push_token(&mut tokens, Token::BlockquoteClose);
            return tokens;
        }
        if has_prefix(&chars, &hash) {
            let level = skip_run(&chars, '#', 0);
            proof {
                lemma_run_end(input@, '#', 0);
            }
            let content = trim_str(input.substring_char(level, chars.len()));
            push_token(&mut tokens, Token::HeadingOpen { level });
            push_token(&mut tokens, Token::UnResolvedText { value: String::from_str(content) });
            push_token(&mut tokens, Token::HeadingClose);
            return tokens;
        }
        if has_prefix(&chars, &rule_prefix) {
            push_token(&mut tokens, Token::ThematicBreak);
            return tokens;
        }
        push_token(&mut tokens, Token::ParagraphOpen);
        push_token(&mut tokens, Token::UnResolvedText { value: String::from_str(input) });
        push_token(&mut tokens, Token::ParagraphClose);
        tokens
    }

    /// Lexes the text inside a block quote as a line of its own.
    fn process_inner_block(&self, input: &str) -> (r: Vec<Token>)
        requires
            trim(input@) == input@,
        ensures
            tokens_view(r@) == line_tokens(input@, false),
        decreases input@.len(), 1int,
    {
        let scope = "";
        proof {
            reveal_strlit("");
        }
        assert(scope@ != code_scope()) by {
            assert(scope@.len() == 0);
        }
        self.process_block(input, scope)
    }
}

/// Whether every token of `ts` is a paragraph tag or unresolved text.
fn all_simple_text(ts: &Vec<Token>) -> (r: bool)
    ensures
        r == is_simple_text(tokens_view(ts@)),
{
    let ghost tv = tokens_view(ts@);
    let mut i: usize = 0;
    while i < ts.len()
        invariant
            tv == tokens_view(ts@),
            i <= ts@.len(),
            forall|j: int| 0 <= j < i ==> is_paragraph_tag(#[trigger] tv[j]) || tv[j] is UnResolvedText,
        decreases ts@.len() - i,
    {
        assert(tv[i as int] == ts@[i as int]@);
        match &ts[i] {
            Token::ParagraphOpen | Token::ParagraphClose | Token::UnResolvedText { .. } => {},
            _ => {
                return false;
            },
        }
        i = i + 1;
    }
    true
}

/// Appends the tokens of `ts` that are not paragraph tags to `out`.
fn push_without_paragraph_tags(out: &mut Vec<Token>, ts: &Vec<Token>)
    ensures
        tokens_view(final(out)@) == tokens_view(old(out)@) + without_paragraph_tags(
            tokens_view(ts@),
        ),
{
    let ghost tv = tokens_view(ts@);
    let ghost base = tokens_view(out@);
    let mut i: usize = 0;
    assert(tv.subrange(0, 0) =~= Seq::<TokenV>::empty());
    while i < ts.len()
        invariant
            tv == tokens_view(ts@),
            i <= ts@.len(),
            tokens_view(out@) == base + without_paragraph_tags(tv.subrange(0, i as int)),
        decreases ts@.len() - i,
    {
        let ghost prefix = tv.subrange(0, i + 1);
        assert(prefix.drop_last() =~= tv.subrange(0, i as int));
        assert(prefix.last() == ts@[i as int]@);
        match &ts[i] {
            Token::ParagraphOpen | Token::ParagraphClose => {
                assert(tokens_view(out@) =~= base + without_paragraph_tags(prefix));
            },
            token => {
                push_token(out, copy_token(token));
                assert(tokens_view(out@) =~= base + without_paragraph_tags(prefix));
            },
        }
        i = i + 1;
    }
    assert(tv.subrange(0, ts@.len() as int) =~= tv);
}

} // verus!
