//! A front end for a small indentation-sensitive language: a scanner from text to
//! tokens and a precedence-climbing parser from tokens to a syntax tree.
//!
//! [`lex()`] turns a source text into tokens and [`parse()`] turns it into the tree
//! of one expression. What each of them returns is defined mathematically
//! ([`lex::tokens_of`], [`parser::tree_of`]) and proved of the code, which neither
//! panics nor reads outside its input.
//!
//! The scanner is made of [`source`] (characters and their Unicode properties),
//! [`run`], [`indent`], [`literal`], [`word`] and [`lex`](mod@lex); [`stream`] says
//! what a token stream is. The parser is made of [`tree`] and [`parser`].
//!
//! What holds of every source and every run of tokens is stated and proved in
//! [`lex_laws`], [`line_start`], [`float_limit`], [`parser_laws`] and
//! [`parser_inverse`]: the tokens of a source form a stream whose block markers
//! pair up; digits scan as the number they denote; the indentation of a line counts
//! by its width, so that a tab is worth four spaces; a tree spells the tokens it was
//! read from, with tighter operators deeper and operators of one level grouped to
//! the left; and every such tree is read back from its spelling.

pub mod float_limit;
pub mod indent;
pub mod lex;
pub mod lex_laws;
pub mod line_start;
pub mod literal;
pub mod parser;
pub mod parser_inverse;
pub mod parser_laws;
pub mod run;
pub mod source;
pub mod stream;
pub mod token;
pub mod tree;
pub mod word;

pub use crate::lex::{lex, lex_chars};
pub use crate::parser::{parse, parse_chars, parse_expr, parse_tokens, ParseError, MAX_DEPTH};
pub use crate::source::{classify, classify_str, SourceChar};
pub use crate::token::{LexError, Token};
pub use crate::tree::{BinaryOp, Grammar, ParseNode, UnaryOp};
