//! A small Markdown front end: a lexer that turns Markdown text into a flat
//! stream of tokens, and a parser that folds the token stream into a tree.

pub mod text;
pub mod ast;
pub mod token;
pub mod utils;
pub mod lines;
pub mod inline_parser;
pub mod inline_laws;
pub mod block_parser;
pub mod tokenizer;
pub mod block;
pub mod nesting;
pub mod roundtrip;
pub mod node_parser;
pub mod parser;

pub use token::Token;
pub use tokenizer::tokenize;
pub use ast::{Node, Root};
pub use parser::{markdown_to_ast, parse};
