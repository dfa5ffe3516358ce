//! The diagnostic channel: an append-only accumulator of lexical error
//! records, owned by the caller for the lifetime of one lex-plus-parse
//! invocation and written by the lexer alone.

use crate::error::ParserError;
use vstd::prelude::*;

verus! {

/// Per-invocation parsing state: the source text and the ordered list of
/// diagnostics recorded so far, in left-to-right source order.
#[derive(Debug)]
pub struct ParserState {
    pub input_text: String,
    pub errors: Vec<ParserError>,
}

impl ParserState {
    /// Creates a state for the given source text with an empty diagnostic
    /// list.
    pub fn new(input_text: &str) -> (s: Self)
        ensures
            s.input_text@ == input_text@,
            s.errors@.len() == 0,
    {
        Self { input_text: input_text.to_owned(), errors: Vec::new() }
    }

    /// Appends one diagnostic; earlier records are never removed or mutated.
    pub fn add_error(&mut self, error: ParserError)
        ensures
            final(self).errors@ == old(self).errors@.push(error),
            final(self).input_text == old(self).input_text,
    {
        self.errors.push(error);
    }
}

} // verus!
