//! Error records. `ParserError` is a non-fatal lexical diagnostic collected
//! while scanning; `SyntaxError` is the single fatal failure signal of the
//! parser.

use core::ops::Range;
use vstd::prelude::*;

verus! {

/// The class of a recorded diagnostic. Lexical errors are the only class the
/// lexer emits; the parser reports failure through `SyntaxError` instead.
#[derive(Copy, Clone, Debug, PartialEq, Eq, Structural)]
pub enum ParserErrorType {
    Lex,
}

/// A recovered lexical error: its class, a human-readable message, and the
/// half-open byte-offset span of the offending source text.
#[derive(Debug, PartialEq, Eq)]
pub struct ParserError {
    pub error_type: ParserErrorType,
    pub message: String,
    pub offset: Range<usize>,
}

/// The mathematical content of a `ParserError`: the message as a character
/// sequence and the span as plain integers.
pub struct ParserErrorView {
    pub error_type: ParserErrorType,
    pub message: Seq<char>,
    pub offset_start: int,
    pub offset_end: int,
}

impl View for ParserError {
    type V = ParserErrorView;

    open spec fn view(&self) -> ParserErrorView {
        ParserErrorView {
            error_type: self.error_type,
            message: self.message@,
            offset_start: self.offset.start as int,
            offset_end: self.offset.end as int,
        }
    }
}

impl DeepView for ParserError {
    type V = ParserErrorView;

    open spec fn deep_view(&self) -> ParserErrorView {
        self.view()
    }
}

impl ParserError {
    /// Builds a diagnostic record from its class, message and span.
    pub fn new(error_type: ParserErrorType, message: String, offset: Range<usize>) -> (e: Self)
        ensures
            e.error_type == error_type,
            e.message@ == message@,
            e.offset.start == offset.start,
            e.offset.end == offset.end,
    {
        Self { error_type, message, offset }
    }
}

/// The parser's failure signal: the token stream did not match the grammar.
/// Parsing is all-or-nothing, so a single marker value is returned rather
/// than a list of syntax diagnostics.
#[derive(Copy, Clone, Debug, PartialEq, Eq, Structural)]
pub struct SyntaxError;

} // verus!
