//! A small arithmetic-expression front end: an error-recovering lexer that
//! turns source text into spanned tokens, and a recursive-descent parser that
//! folds the token stream into a binary-expression tree.
//!
//! Lexical errors never abort a scan: an unclassifiable run of characters
//! becomes a single `Unknown` token and a diagnostic is recorded, so a caller
//! always gets a complete token list. Parsing either consumes the whole token
//! stream or fails with a single syntax-error signal.

pub mod ast;
pub mod error;
pub mod lexer;
pub mod parser;
pub mod state;
pub mod token;
