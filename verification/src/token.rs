//! The token model: a classified lexical unit together with the half-open
//! byte-offset range (span) of the source text it was recognized from.

use core::ops::Range;
use vstd::prelude::*;
use vstd::string::StringSliceAdditionalSpecFns;
use vstd::utf8::{is_char_boundary, valid_utf8};

verus! {

/// The classification of a token produced by the lexer.
#[derive(Copy, Clone, Debug, PartialEq, Eq, Structural)]
pub enum TokenType {
    Add,
    Sub,
    Mul,
    Div,
    Number,
    Unknown,
}

/// A token: its kind and the half-open byte-offset span `start_offset
/// .. end_offset` into the source string it was lexed from. A token stores no
/// copied text; the text is recovered by slicing the source with the span.
#[derive(Copy, Clone, Debug, PartialEq, Eq, Structural)]
pub struct Token {
    pub token_type: TokenType,
    pub start_offset: usize,
    pub end_offset: usize,
}

impl Token {
    /// Builds a token from a kind paired with its byte-offset span.
    pub fn new(parts: (TokenType, Range<usize>)) -> (t: Token)
        ensures
            t.token_type == parts.0,
            t.start_offset == parts.1.start,
            t.end_offset == parts.1.end,
    {
        let (token_type, span) = parts;
        Token { token_type, start_offset: span.start, end_offset: span.end }
    }

    /// Recovers the verbatim source text of this token by slicing the source
    /// string with the token's span. The span must lie inside the source and
    /// fall on character boundaries; spans produced by the lexer always do.
    pub fn text<'a>(&self, input: &'a str) -> (r: &'a str)
        requires
            self.start_offset <= self.end_offset,
            self.end_offset <= input.spec_bytes().len(),
            is_char_boundary(input.spec_bytes(), self.start_offset as int),
            is_char_boundary(input.spec_bytes(), self.end_offset as int),
        ensures
            r.spec_bytes() == input.spec_bytes().subrange(
                self.start_offset as int,
                self.end_offset as int,
            ),
    {
        proof {
            vstd::string::is_ascii_spec_bytes(input);
            vstd::utf8::encode_utf8_valid_utf8(input@);
            vstd::utf8::valid_utf8_split(input.spec_bytes(), self.start_offset as int);
        }
        let tail = input.split_at(self.start_offset).1;
        proof {
            lemma_boundary_in_suffix(
                input.spec_bytes(),
                self.start_offset as int,
                self.end_offset as int,
            );
        }
        let r = tail.split_at(self.end_offset - self.start_offset).0;
        proof {
            assert(r.spec_bytes() =~= input.spec_bytes().subrange(
                self.start_offset as int,
                self.end_offset as int,
            ));
        }
        r
    }
}

/// A character boundary of a byte sequence at or past `start` is also a
/// character boundary of the suffix that begins at `start`, relative to it.
proof fn lemma_boundary_in_suffix(bytes: Seq<u8>, start: int, end: int)
    requires
        valid_utf8(bytes),
        0 <= start <= end <= bytes.len(),
        is_char_boundary(bytes, start),
        is_char_boundary(bytes, end),
    ensures
        valid_utf8(bytes.subrange(start, bytes.len() as int)),
        is_char_boundary(bytes.subrange(start, bytes.len() as int), end - start),
{
    vstd::utf8::valid_utf8_split(bytes, start);
    let suffix = bytes.subrange(start, bytes.len() as int);
    if end == bytes.len() {
        vstd::utf8::is_char_boundary_start_end_of_seq(suffix);
    } else {
        vstd::utf8::is_char_boundary_iff_not_is_continuation_byte(bytes, end);
        vstd::utf8::is_char_boundary_iff_not_is_continuation_byte(suffix, end - start);
    }
}

} // verus!
