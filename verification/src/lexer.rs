//! The error-recovering lexer.
//!
//! The scan walks the source bytes left to right. At each step it skips
//! whitespace, then tries to recognize one known token: a number
//! (`digits`, optionally `. digits`) or a single operator character. When
//! neither matches, it enters recovery: it consumes the maximal run of bytes
//! after which no known token (nor the end of input, in both cases after
//! optional whitespace) can yet be recognized, emits that run as one
//! `Unknown` token, and records one diagnostic for it. The lexer is total:
//! every input yields a token list, and only `Unknown` runs add diagnostics.
//!
//! The spec-level scan is `spec_tokens` / `spec_diagnostics`; `lex` returns
//! exactly those sequences.

use crate::error::{ParserError, ParserErrorType, ParserErrorView};
use crate::state::ParserState;
use crate::token::{Token, TokenType};
use vstd::prelude::*;
use vstd::string::StringSliceAdditionalSpecFns;
use vstd::utf8::decode_utf8;
use vstd::utf8::is_continuation_byte;
use vstd::utf8::valid_utf8;

verus! {

/// ASCII whitespace skipped between tokens: space, tab, line feed, carriage
/// return.
pub open spec fn is_space_byte(b: u8) -> bool {
    b == 32 || b == 9 || b == 10 || b == 13
}

/// An ASCII decimal digit.
pub open spec fn is_digit_byte(b: u8) -> bool {
    48 <= b <= 57
}

/// One of the four operator characters `+ - * /`.
pub open spec fn is_operator_byte(b: u8) -> bool {
    b == 43 || b == 45 || b == 42 || b == 47
}

/// The token kind an operator byte maps to.
pub open spec fn operator_token_type(b: u8) -> TokenType
    recommends
        is_operator_byte(b),
{
    if b == 43 {
        TokenType::Add
    } else if b == 45 {
        TokenType::Sub
    } else if b == 42 {
        TokenType::Mul
    } else {
        TokenType::Div
    }
}

/// The first position at or after `i` that holds a non-whitespace byte, or
/// the end of input.
pub open spec fn skip_spaces(s: Seq<u8>, i: int) -> int
    decreases s.len() - i
        when 0 <= i <= s.len()
{
    if i < s.len() && is_space_byte(s[i]) {
        skip_spaces(s, i + 1)
    } else {
        i
    }
}

/// The end of the maximal digit run beginning at `i`.
pub open spec fn digit_run_end(s: Seq<u8>, i: int) -> int
    decreases s.len() - i
        when 0 <= i <= s.len()
{
    if i < s.len() && is_digit_byte(s[i]) {
        digit_run_end(s, i + 1)
    } else {
        i
    }
}

/// True when a known token (number or operator) begins at position `i`.
pub open spec fn known_token_at(s: Seq<u8>, i: int) -> bool {
    0 <= i < s.len() && (is_digit_byte(s[i]) || is_operator_byte(s[i]))
}

/// The end of the number token beginning at digit position `i`: the maximal
/// digit run, extended by `. digits` when a decimal point directly followed
/// by a digit comes next. A bare trailing dot is not part of the number.
pub open spec fn number_token_end(s: Seq<u8>, i: int) -> int
    recommends
        0 <= i <= s.len(),
{
    let d = digit_run_end(s, i);
    if d < s.len() && s[d] == 46 && d + 1 < s.len() && is_digit_byte(s[d + 1]) {
        digit_run_end(s, d + 1)
    } else {
        d
    }
}

/// The end of the known token beginning at position `i`.
pub open spec fn token_end_at(s: Seq<u8>, i: int) -> int
    recommends
        known_token_at(s, i),
{
    if is_digit_byte(s[i]) {
        number_token_end(s, i)
    } else {
        i + 1
    }
}

/// The kind of the known token beginning at position `i`.
pub open spec fn token_type_at(s: Seq<u8>, i: int) -> TokenType
    recommends
        known_token_at(s, i),
{
    if is_digit_byte(s[i]) {
        TokenType::Number
    } else {
        operator_token_type(s[i])
    }
}

/// True when recovery may stop at position `i`: after optional whitespace,
/// either a known token begins or the input ends.
pub open spec fn at_token_boundary(s: Seq<u8>, i: int) -> bool
    recommends
        0 <= i <= s.len(),
{
    let j = skip_spaces(s, i);
    j >= s.len() || known_token_at(s, j)
}

/// The end of an unknown run probed from position `i` on: the first position
/// at or after `i` that is a token boundary.
pub open spec fn unknown_run_end(s: Seq<u8>, i: int) -> int
    decreases s.len() - i
        when 0 <= i <= s.len()
{
    if i < s.len() && !at_token_boundary(s, i) {
        unknown_run_end(s, i + 1)
    } else {
        i
    }
}

pub proof fn lemma_skip_spaces(s: Seq<u8>, i: int)
    requires
        0 <= i <= s.len(),
    ensures
        i <= skip_spaces(s, i) <= s.len(),
        forall|k: int| i <= k < skip_spaces(s, i) ==> is_space_byte(s[k]),
        skip_spaces(s, i) == s.len() || !is_space_byte(s[skip_spaces(s, i)]),
    decreases s.len() - i,
{
    if i < s.len() && is_space_byte(s[i]) {
        lemma_skip_spaces(s, i + 1);
    }
}

pub proof fn lemma_digit_run(s: Seq<u8>, i: int)
    requires
        0 <= i <= s.len(),
    ensures
        i <= digit_run_end(s, i) <= s.len(),
        forall|k: int| i <= k < digit_run_end(s, i) ==> is_digit_byte(s[k]),
        digit_run_end(s, i) == s.len() || !is_digit_byte(s[digit_run_end(s, i)]),
    decreases s.len() - i,
{
    if i < s.len() && is_digit_byte(s[i]) {
        lemma_digit_run(s, i + 1);
    }
}

pub proof fn lemma_token_end(s: Seq<u8>, i: int)
    requires
        known_token_at(s, i),
    ensures
        i < token_end_at(s, i) <= s.len(),
        is_digit_byte(s[token_end_at(s, i) - 1]) || is_operator_byte(s[token_end_at(s, i) - 1]),
{
    if is_digit_byte(s[i]) {
        lemma_digit_run(s, i);
        let d = digit_run_end(s, i);
        if d < s.len() && s[d] == 46 && d + 1 < s.len() && is_digit_byte(s[d + 1]) {
            lemma_digit_run(s, d + 1);
        }
    }
}

pub proof fn lemma_unknown_run(s: Seq<u8>, i: int)
    requires
        0 <= i <= s.len(),
    ensures
        i <= unknown_run_end(s, i) <= s.len(),
        at_token_boundary(s, unknown_run_end(s, i)),
        forall|k: int| i <= k < unknown_run_end(s, i) ==> !at_token_boundary(s, k),
    decreases s.len() - i,
{
    if i < s.len() && !at_token_boundary(s, i) {
        lemma_unknown_run(s, i + 1);
    } else if i == s.len() {
        lemma_skip_spaces(s, i);
    }
}

/// The token sequence the lexer produces for the source bytes `s` from
/// position `i` on.
pub open spec fn spec_tokens(s: Seq<u8>, i: int) -> Seq<Token>
    decreases s.len() - i
        when 0 <= i <= s.len()
{
    let j = skip_spaces(s, i);
    if j >= s.len() {
        Seq::empty()
    } else if known_token_at(s, j) {
        let e = token_end_at(s, j);
        proof {
            lemma_skip_spaces(s, i);
            lemma_token_end(s, j);
        }
        seq![
            Token { token_type: token_type_at(s, j), start_offset: j as usize, end_offset: e as usize },
        ] + spec_tokens(s, e)
    } else {
        let e = unknown_run_end(s, j + 1);
        proof {
            lemma_skip_spaces(s, i);
            lemma_unknown_run(s, j + 1);
        }
        seq![
            Token { token_type: TokenType::Unknown, start_offset: j as usize, end_offset: e as usize },
        ] + spec_tokens(s, e)
    }
}

/// The tokens of `ts` carry non-empty spans in strictly increasing source
/// order: each token starts at or after `lo`, ends after it starts, ends by
/// `bound`, and the next token starts at or after this one's end.
pub open spec fn spans_ordered(ts: Seq<Token>, lo: int, bound: int) -> bool
    decreases ts.len(),
{
    if ts.len() == 0 {
        true
    } else {
        &&& lo <= ts[0].start_offset
        &&& ts[0].start_offset < ts[0].end_offset
        &&& ts[0].end_offset <= bound
        &&& spans_ordered(ts.drop_first(), ts[0].end_offset as int, bound)
    }
}

/// Law: the token sequence the lexer produces from position `i` on has
/// non-empty, non-overlapping spans in strictly increasing source order,
/// all lying between `i` and the end of input.
pub proof fn lemma_spec_tokens_spans(s: Seq<u8>, i: int)
    requires
        s.len() <= usize::MAX,
        0 <= i <= s.len(),
    ensures
        spans_ordered(spec_tokens(s, i), i, s.len() as int),
    decreases s.len() - i,
{
    let j = skip_spaces(s, i);
    lemma_skip_spaces(s, i);
    let ts = spec_tokens(s, i);
    if j >= s.len() {
    } else if known_token_at(s, j) {
        let e = token_end_at(s, j);
        lemma_token_end(s, j);
        lemma_spec_tokens_spans(s, e);
        assert(ts.drop_first() =~= spec_tokens(s, e));
    } else {
        let e = unknown_run_end(s, j + 1);
        lemma_unknown_run(s, j + 1);
        lemma_spec_tokens_spans(s, e);
        assert(ts.drop_first() =~= spec_tokens(s, e));
    }
}

/// The message of the diagnostic recorded for an unknown run with the given
/// verbatim text.
pub open spec fn unexpected_token_message(text: Seq<u8>) -> Seq<char> {
    "Unexpected token: "@ + decode_utf8(text)
}

/// The diagnostics the lexer records for the source bytes `s` from position
/// `i` on: one per unknown run, in source order.
pub open spec fn spec_diagnostics(s: Seq<u8>, i: int) -> Seq<ParserErrorView>
    decreases s.len() - i
        when 0 <= i <= s.len()
{
    let j = skip_spaces(s, i);
    if j >= s.len() {
        Seq::empty()
    } else if known_token_at(s, j) {
        let e = token_end_at(s, j);
        proof {
            lemma_skip_spaces(s, i);
            lemma_token_end(s, j);
        }
        spec_diagnostics(s, e)
    } else {
        let e = unknown_run_end(s, j + 1);
        proof {
            lemma_skip_spaces(s, i);
            lemma_unknown_run(s, j + 1);
        }
        seq![
            ParserErrorView {
                error_type: ParserErrorType::Lex,
                message: unexpected_token_message(s.subrange(j, e)),
                offset_start: j,
                offset_end: e,
            },
        ] + spec_diagnostics(s, e)
    }
}

/// `s` is exactly the text of one known token standing alone: a digit
/// sequence with an optional `. digits` fractional part, or a single
/// operator character.
pub open spec fn standalone_token_text(s: Seq<u8>) -> bool {
    known_token_at(s, 0) && token_end_at(s, 0) == s.len()
}

pub proof fn lemma_skip_spaces_char(s: Seq<u8>, i: int, j: int)
    requires
        0 <= i <= j <= s.len(),
        forall|k: int| i <= k < j ==> is_space_byte(s[k]),
        j == s.len() || !is_space_byte(s[j]),
    ensures
        skip_spaces(s, i) == j,
    decreases j - i,
{
    if i < j {
        lemma_skip_spaces_char(s, i + 1, j);
    }
}

pub proof fn lemma_digit_run_char(s: Seq<u8>, i: int, j: int)
    requires
        0 <= i <= j <= s.len(),
        forall|k: int| i <= k < j ==> is_digit_byte(s[k]),
        j == s.len() || !is_digit_byte(s[j]),
    ensures
        digit_run_end(s, i) == j,
    decreases j - i,
{
    if i < j {
        lemma_digit_run_char(s, i + 1, j);
    }
}

pub proof fn lemma_unknown_run_char(s: Seq<u8>, i: int, j: int)
    requires
        0 <= i <= j <= s.len(),
        forall|k: int| i <= k < j ==> !at_token_boundary(s, k),
        j == s.len() || at_token_boundary(s, j),
    ensures
        unknown_run_end(s, i) == j,
    decreases j - i,
{
    if i < j {
        lemma_unknown_run_char(s, i + 1, j);
    }
}

/// A standalone token text embedded in `s` at position `j`, not followed by
/// a digit or a decimal point, is recognized there with the same kind and
/// with its whole length.
proof fn lemma_standalone_at(s: Seq<u8>, a: Seq<u8>, j: int)
    requires
        standalone_token_text(a),
        0 <= j,
        j + a.len() <= s.len(),
        forall|k: int| j <= k < j + a.len() ==> s[k] == a[k - j],
        j + a.len() == s.len() || (!is_digit_byte(s[j + a.len()]) && s[j + a.len()] != 46),
    ensures
        known_token_at(s, j),
        token_type_at(s, j) == token_type_at(a, 0),
        token_end_at(s, j) == j + a.len(),
{
    let n = a.len() as int;
    assert(s[j] == a[0]);
    if is_digit_byte(a[0]) {
        let d = digit_run_end(a, 0);
        lemma_digit_run(a, 0);
        if d < n {
            // The token carries a fractional part: digits, a point, digits
            // to the end.
            assert(a[d] == 46 && d + 1 < n && is_digit_byte(a[d + 1]));
            lemma_digit_run(a, d + 1);
            assert(digit_run_end(a, d + 1) == n);
            lemma_digit_run_char(s, j, j + d);
            lemma_digit_run_char(s, j + d + 1, j + n);
            assert(number_token_end(s, j) == j + n);
        } else {
            // The token is a bare digit run.
            lemma_digit_run_char(s, j, j + n);
            assert(number_token_end(s, j) == j + n);
        }
    } else {
        assert(n == 1);
    }
}

/// The text of a known token recognized inside `s`, taken by itself, is a
/// standalone token text of the same kind.
proof fn lemma_token_text_standalone(s: Seq<u8>, j: int)
    requires
        known_token_at(s, j),
    ensures
        standalone_token_text(s.subrange(j, token_end_at(s, j))),
        token_type_at(s.subrange(j, token_end_at(s, j)), 0) == token_type_at(s, j),
{
    let e = token_end_at(s, j);
    lemma_token_end(s, j);
    let sub = s.subrange(j, e);
    let n = e - j;
    assert(sub[0] == s[j]);
    if is_digit_byte(s[j]) {
        let d = digit_run_end(s, j);
        lemma_digit_run(s, j);
        if d < e {
            assert(s[d] == 46 && d + 1 < s.len() && is_digit_byte(s[d + 1]));
            lemma_digit_run(s, d + 1);
            assert(digit_run_end(s, d + 1) == e);
            lemma_digit_run_char(sub, 0, d - j);
            lemma_digit_run_char(sub, d - j + 1, n);
            assert(number_token_end(sub, 0) == n);
        } else {
            lemma_digit_run_char(sub, 0, n);
            assert(number_token_end(sub, 0) == n);
        }
    }
}

/// Law: lexing the text of one valid token alone yields exactly that token
/// — a digit sequence (with optional decimal point) becomes one `Number`
/// token, a single operator character becomes its operator token — spanning
/// the whole input, and no diagnostics are recorded.
pub proof fn lemma_lex_standalone(s: Seq<u8>)
    requires
        standalone_token_text(s),
    ensures
        spec_tokens(s, 0) == seq![
            Token { token_type: token_type_at(s, 0), start_offset: 0, end_offset: s.len() as usize },
        ],
        spec_diagnostics(s, 0) == Seq::<ParserErrorView>::empty(),
{
    lemma_skip_spaces_char(s, 0, 0);
    assert(spec_tokens(s, s.len() as int) =~= Seq::<Token>::empty());
    assert(spec_diagnostics(s, s.len() as int) =~= Seq::<ParserErrorView>::empty());
    assert(spec_tokens(s, 0) =~= seq![
        Token { token_type: token_type_at(s, 0), start_offset: 0, end_offset: s.len() as usize },
    ]);
    assert(spec_diagnostics(s, 0) =~= Seq::<ParserErrorView>::empty());
}

/// Law: concatenation. Lexing the text of one valid token, a single space,
/// and a second valid token yields exactly the two tokens, with
/// non-overlapping spans separated by the one-byte gap of the whitespace,
/// and no diagnostics.
pub proof fn lemma_lex_concatenation(a: Seq<u8>, b: Seq<u8>)
    requires
        standalone_token_text(a),
        standalone_token_text(b),
    ensures
        spec_tokens(a + seq![32u8] + b, 0) == seq![
            Token { token_type: token_type_at(a, 0), start_offset: 0, end_offset: a.len() as usize },
            Token {
                token_type: token_type_at(b, 0),
                start_offset: (a.len() + 1) as usize,
                end_offset: (a.len() + 1 + b.len()) as usize,
            },
        ],
        spec_diagnostics(a + seq![32u8] + b, 0) == Seq::<ParserErrorView>::empty(),
{
    let s = a + seq![32u8] + b;
    let n = a.len() as int;
    let m = b.len() as int;
    assert(s.len() == n + 1 + m);
    assert(forall|k: int| 0 <= k < n ==> s[k] == a[k - 0]);
    assert(s[n] == 32);
    assert(forall|k: int| n + 1 <= k < n + 1 + m ==> s[k] == b[k - (n + 1)]);
    lemma_standalone_at(s, a, 0);
    lemma_standalone_at(s, b, n + 1);
    lemma_skip_spaces_char(s, 0, 0);
    lemma_skip_spaces_char(s, n, n + 1);
    lemma_skip_spaces_char(s, s.len() as int, s.len() as int);
    let tok_a = Token { token_type: token_type_at(s, 0), start_offset: 0, end_offset: n as usize };
    let tok_b = Token {
        token_type: token_type_at(s, n + 1),
        start_offset: (n + 1) as usize,
        end_offset: (n + 1 + m) as usize,
    };
    assert(spec_tokens(s, s.len() as int) =~= Seq::<Token>::empty());
    assert(spec_tokens(s, n) =~= seq![tok_b]);
    assert(spec_tokens(s, 0) =~= seq![tok_a, tok_b]);
    assert(spec_diagnostics(s, s.len() as int) =~= Seq::<ParserErrorView>::empty());
    assert(spec_diagnostics(s, n) =~= Seq::<ParserErrorView>::empty());
    assert(spec_diagnostics(s, 0) =~= Seq::<ParserErrorView>::empty());
}

/// Re-lexing the text of a known token recognized at `j` reproduces exactly
/// that token at offset zero.
proof fn lemma_relex_known(s: Seq<u8>, j: int)
    requires
        known_token_at(s, j),
    ensures
        spec_tokens(s.subrange(j, token_end_at(s, j)), 0) == seq![
            Token {
                token_type: token_type_at(s, j),
                start_offset: 0,
                end_offset: (token_end_at(s, j) - j) as usize,
            },
        ],
{
    lemma_token_end(s, j);
    lemma_token_text_standalone(s, j);
    lemma_lex_standalone(s.subrange(j, token_end_at(s, j)));
}

/// Re-lexing the text of an unknown run recognized at `j` reproduces exactly
/// the one `Unknown` token at offset zero.
proof fn lemma_relex_unknown(s: Seq<u8>, j: int)
    requires
        0 <= j < s.len(),
        !is_space_byte(s[j]),
        !known_token_at(s, j),
    ensures
        spec_tokens(s.subrange(j, unknown_run_end(s, j + 1)), 0) == seq![
            Token {
                token_type: TokenType::Unknown,
                start_offset: 0,
                end_offset: (unknown_run_end(s, j + 1) - j) as usize,
            },
        ],
{
    let e = unknown_run_end(s, j + 1);
    lemma_unknown_run(s, j + 1);
    let sub = s.subrange(j, e);
    let n = e - j;
    assert(sub[0] == s[j]);
    lemma_skip_spaces_char(sub, 0, 0);
    assert(!known_token_at(sub, 0));
    assert forall|k: int| 1 <= k < n implies !at_token_boundary(sub, k) by {
        assert(!at_token_boundary(s, j + k));
        lemma_skip_spaces(s, j + k);
        let q = skip_spaces(s, j + k);
        assert(q < s.len() && !known_token_at(s, q));
        if q >= e {
            // Then everything from the probe point to the run's end is
            // whitespace, so the run's end would probe to the same
            // non-token position and could not be a boundary.
            lemma_skip_spaces_char(s, e, q);
            assert(at_token_boundary(s, e));
            assert(false);
        }
        assert(forall|x: int| k <= x < q - j ==> sub[x] == s[j + x]);
        lemma_skip_spaces_char(sub, k, q - j);
        assert(sub[q - j] == s[q]);
        assert(!known_token_at(sub, q - j));
    }
    lemma_unknown_run_char(sub, 1, n);
    assert(spec_tokens(sub, n) =~= Seq::<Token>::empty());
    assert(spec_tokens(sub, 0) =~= seq![
        Token { token_type: TokenType::Unknown, start_offset: 0, end_offset: n as usize },
    ]);
}

/// Law: idempotence. For every token the lexer produced, re-lexing the text
/// recovered by slicing the source with the token's span yields exactly one
/// token of the same kind spanning that whole text — so the re-lexed token's
/// text is byte-identical to what was originally matched.
pub proof fn lemma_relex_token(s: Seq<u8>, i: int, t: Token)
    requires
        s.len() <= usize::MAX,
        0 <= i <= s.len(),
        spec_tokens(s, i).contains(t),
    ensures
        t.start_offset < t.end_offset <= s.len(),
        spec_tokens(s.subrange(t.start_offset as int, t.end_offset as int), 0) == seq![
            Token {
                token_type: t.token_type,
                start_offset: 0,
                end_offset: (t.end_offset - t.start_offset) as usize,
            },
        ],
    decreases s.len() - i,
{
    let j = skip_spaces(s, i);
    lemma_skip_spaces(s, i);
    let ts = spec_tokens(s, i);
    let k = choose|k: int| 0 <= k < ts.len() && ts[k] == t;
    if j >= s.len() {
        assert(ts =~= Seq::<Token>::empty());
    } else if known_token_at(s, j) {
        let e = token_end_at(s, j);
        lemma_token_end(s, j);
        let head = Token {
            token_type: token_type_at(s, j),
            start_offset: j as usize,
            end_offset: e as usize,
        };
        assert(ts =~= seq![head] + spec_tokens(s, e));
        if k == 0 {
            lemma_relex_known(s, j);
        } else {
            assert(spec_tokens(s, e)[k - 1] == t);
            assert(spec_tokens(s, e).contains(t));
            lemma_relex_token(s, e, t);
        }
    } else {
        let e = unknown_run_end(s, j + 1);
        lemma_unknown_run(s, j + 1);
        let head = Token {
            token_type: TokenType::Unknown,
            start_offset: j as usize,
            end_offset: e as usize,
        };
        assert(ts =~= seq![head] + spec_tokens(s, e));
        if k == 0 {
            lemma_relex_unknown(s, j);
        } else {
            assert(spec_tokens(s, e)[k - 1] == t);
            assert(spec_tokens(s, e).contains(t));
            lemma_relex_token(s, e, t);
        }
    }
}

/// Law: every token the lexer produces has its span endpoints on character
/// boundaries of the source, so its text is always recoverable by slicing
/// the source string with the span.
pub proof fn lemma_token_offsets_are_char_boundaries(s: Seq<u8>, i: int, t: Token)
    requires
        valid_utf8(s),
        s.len() <= usize::MAX,
        0 <= i <= s.len(),
        i == s.len() || !is_continuation_byte(s[i]),
        spec_tokens(s, i).contains(t),
    ensures
        vstd::utf8::is_char_boundary(s, t.start_offset as int),
        vstd::utf8::is_char_boundary(s, t.end_offset as int),
    decreases s.len() - i,
{
    let j = skip_spaces(s, i);
    lemma_skip_spaces(s, i);
    if j > i {
        lemma_boundary_after_ascii(s, j - 1);
    }
    let ts = spec_tokens(s, i);
    let k = choose|k: int| 0 <= k < ts.len() && ts[k] == t;
    if j >= s.len() {
        assert(ts =~= Seq::<Token>::empty());
    } else {
        let e = if known_token_at(s, j) {
            lemma_token_end(s, j);
            lemma_boundary_after_ascii(s, token_end_at(s, j) - 1);
            token_end_at(s, j)
        } else {
            lemma_unknown_run(s, j + 1);
            let e = unknown_run_end(s, j + 1);
            // The run's end is the end of input or an ASCII byte:
            // whitespace, or the start of a known token.
            lemma_skip_spaces(s, e);
            assert(e == s.len() || !is_continuation_byte(s[e]));
            e
        };
        if k == 0 {
            vstd::utf8::is_char_boundary_start_end_of_seq(s);
            if j < s.len() {
                vstd::utf8::is_char_boundary_iff_not_is_continuation_byte(s, j);
            }
            if e < s.len() {
                vstd::utf8::is_char_boundary_iff_not_is_continuation_byte(s, e);
            }
        } else {
            assert(spec_tokens(s, e)[k - 1] == t);
            assert(spec_tokens(s, e).contains(t));
            lemma_token_offsets_are_char_boundaries(s, e, t);
        }
    }
}

/// In valid UTF-8, the position after an ASCII byte never lands inside a
/// character's multi-byte encoding.
proof fn lemma_boundary_after_ascii(s: Seq<u8>, i: int)
    requires
        valid_utf8(s),
        0 <= i < s.len(),
        s[i] < 128,
    ensures
        i + 1 == s.len() || !is_continuation_byte(s[i + 1]),
{
    vstd::utf8::is_char_boundary_iff_not_is_continuation_byte(s, i);
    vstd::utf8::valid_utf8_split(s, i);
    vstd::utf8::partial_valid_utf8_extend_ascii_block(s, i, i + 1);
    if i + 1 < s.len() {
        let suffix = s.subrange(i + 1, s.len() as int);
        if !valid_utf8(suffix) {
            vstd::utf8::partial_valid_partial_invalid_utf8(s, i + 1);
        }
        vstd::utf8::is_char_boundary_iff_not_is_continuation_byte(suffix, 0);
    }
}

/// A subrange of valid UTF-8 that starts and ends outside any multi-byte
/// encoding is itself valid UTF-8.
proof fn lemma_subrange_valid(s: Seq<u8>, a: int, b: int)
    requires
        valid_utf8(s),
        0 <= a <= b <= s.len(),
        a == s.len() || !is_continuation_byte(s[a]),
        b == s.len() || !is_continuation_byte(s[b]),
    ensures
        valid_utf8(s.subrange(a, b)),
{
    if b == s.len() {
        vstd::utf8::is_char_boundary_start_end_of_seq(s);
    } else {
        vstd::utf8::is_char_boundary_iff_not_is_continuation_byte(s, b);
    }
    vstd::utf8::valid_utf8_split(s, b);
    let prefix = s.subrange(0, b);
    if a == b {
        vstd::utf8::is_char_boundary_start_end_of_seq(prefix);
    } else {
        assert(prefix[a] == s[a]);
        vstd::utf8::is_char_boundary_iff_not_is_continuation_byte(prefix, a);
    }
    vstd::utf8::valid_utf8_split(prefix, a);
    assert(prefix.subrange(a, prefix.len() as int) =~= s.subrange(a, b));
}

/// Relies on `String::from_utf8_lossy` and `format!`: for valid UTF-8 input
/// the lossy conversion is exact, so the result is the fixed prefix
/// `"Unexpected token: "` followed by the decoded text.
#[verifier::external_body]
fn format_unexpected_token(text: &[u8]) -> (r: String)
    requires
        valid_utf8(text@),
    ensures
        r@ == unexpected_token_message(text@),
{
    format!("Unexpected token: {}", String::from_utf8_lossy(text))
}

/// The first position at or after `from` holding a non-whitespace byte.
fn whitespace_end(s: &[u8], from: usize) -> (r: usize)
    requires
        from <= s@.len(),
    ensures
        r == skip_spaces(s@, from as int),
        from <= r <= s@.len(),
    decreases s@.len() - from,
{
    let mut i = from;
    while i < s.len() && (s[i] == 32 || s[i] == 9 || s[i] == 10 || s[i] == 13)
        invariant
            from <= i <= s@.len(),
            skip_spaces(s@, from as int) == skip_spaces(s@, i as int),
        decreases s@.len() - i,
    {
        i = i + 1;
    }
    proof {
        lemma_skip_spaces(s@, i as int);
    }
    i
}

/// The end of the maximal digit run beginning at `from`.
fn digit_end(s: &[u8], from: usize) -> (r: usize)
    requires
        from <= s@.len(),
    ensures
        r == digit_run_end(s@, from as int),
        from <= r <= s@.len(),
{
    let mut i = from;
    while i < s.len() && 48 <= s[i] && s[i] <= 57
        invariant
            from <= i <= s@.len(),
            digit_run_end(s@, from as int) == digit_run_end(s@, i as int),
        decreases s@.len() - i,
    {
        i = i + 1;
    }
    proof {
        lemma_digit_run(s@, i as int);
    }
    i
}

/// The end of the known token beginning at `at`.
fn known_token_end(s: &[u8], at: usize) -> (r: usize)
    requires
        known_token_at(s@, at as int),
    ensures
        r == token_end_at(s@, at as int),
{
    if 48 <= s[at] && s[at] <= 57 {
        let d = digit_end(s, at);
        if d < s.len() && s[d] == 46 && d + 1 < s.len() && 48 <= s[d + 1] && s[d + 1] <= 57 {
            digit_end(s, d + 1)
        } else {
            d
        }
    } else {
        at + 1
    }
}

/// The kind of the known token beginning at `at`.
fn known_token_type(s: &[u8], at: usize) -> (k: TokenType)
    requires
        known_token_at(s@, at as int),
    ensures
        k == token_type_at(s@, at as int),
{
    let b = s[at];
    if 48 <= b && b <= 57 {
        TokenType::Number
    } else if b == 43 {
        TokenType::Add
    } else if b == 45 {
        TokenType::Sub
    } else if b == 42 {
        TokenType::Mul
    } else {
        TokenType::Div
    }
}

/// True when recovery may stop at `at`: after optional whitespace a known
/// token begins, or the input ends.
fn boundary_here(s: &[u8], at: usize) -> (r: bool)
    requires
        at <= s@.len(),
    ensures
        r == at_token_boundary(s@, at as int),
{
    let j = whitespace_end(s, at);
    if j == s.len() {
        true
    } else {
        let b = s[j];
        (48 <= b && b <= 57) || b == 43 || b == 45 || b == 42 || b == 47
    }
}

/// The end of the unknown run probed from `from` on.
fn unknown_end(s: &[u8], from: usize) -> (r: usize)
    requires
        from <= s@.len(),
    ensures
        r == unknown_run_end(s@, from as int),
        from <= r <= s@.len(),
{
    let mut i = from;
    while i < s.len() && !boundary_here(s, i)
        invariant
            from <= i <= s@.len(),
            unknown_run_end(s@, from as int) == unknown_run_end(s@, i as int),
        decreases s@.len() - i,
    {
        i = i + 1;
    }
    i
}

/// Scans the whole source string into tokens, recording one diagnostic per
/// unknown run in `state`. The lexer never fails: the result is the complete
/// token sequence `spec_tokens` of the source bytes, and exactly the
/// diagnostics `spec_diagnostics` are appended, in source order.
pub fn lex(input: &str, state: &mut ParserState) -> (tokens: Vec<Token>)
    ensures
        tokens@ == spec_tokens(input.spec_bytes(), 0),
        final(state).errors.deep_view() == old(state).errors.deep_view() + spec_diagnostics(
            input.spec_bytes(),
            0,
        ),
        final(state).input_text == old(state).input_text,
{
    let s = input.as_bytes();
    let ghost sq = input.spec_bytes();
    proof {
        vstd::utf8::encode_utf8_valid_utf8(input@);
    }
    let mut tokens: Vec<Token> = Vec::new();
    let mut pos: usize = 0;
    let ghost errors0 = state.errors.deep_view();
    let ghost text0 = state.input_text;
    while pos < s.len()
        invariant
            pos <= s@.len(),
            s@ == sq,
            sq == input.spec_bytes(),
            valid_utf8(sq),
            spec_tokens(sq, 0) == tokens@ + spec_tokens(sq, pos as int),
            errors0 + spec_diagnostics(sq, 0) == state.errors.deep_view() + spec_diagnostics(
                sq,
                pos as int,
            ),
            state.input_text == text0,
            pos == s@.len() || !is_continuation_byte(sq[pos as int]),
        decreases s@.len() - pos,
    {
        let j = whitespace_end(s, pos);
        proof {
            lemma_skip_spaces(sq, pos as int);
            if j > pos {
                lemma_boundary_after_ascii(sq, j - 1);
            }
        }
        if j == s.len() {
            proof {
                assert(spec_tokens(sq, pos as int) =~= Seq::<Token>::empty());
                assert(spec_diagnostics(sq, pos as int) =~= Seq::<ParserErrorView>::empty());
                assert(tokens@ + spec_tokens(sq, pos as int) =~= tokens@ + spec_tokens(
                    sq,
                    j as int,
                ));
                assert(state.errors.deep_view() + spec_diagnostics(sq, pos as int)
                    =~= state.errors.deep_view() + spec_diagnostics(sq, j as int));
            }
            pos = j;
        } else {
            let b = s[j];
            if (48 <= b && b <= 57) || b == 43 || b == 45 || b == 42 || b == 47 {
                let e = known_token_end(s, j);
                let k = known_token_type(s, j);
                let ghost tokens_before = tokens@;
                tokens.push(Token { token_type: k, start_offset: j, end_offset: e });
                proof {
                    lemma_token_end(sq, j as int);
                    let tok = Token {
                        token_type: token_type_at(sq, j as int),
                        start_offset: j as usize,
                        end_offset: token_end_at(sq, j as int) as usize,
                    };
                    assert(spec_tokens(sq, pos as int) =~= seq![tok] + spec_tokens(sq, e as int));
                    assert(tokens_before + spec_tokens(sq, pos as int) =~= tokens@ + spec_tokens(
                        sq,
                        e as int,
                    ));
                    assert(spec_diagnostics(sq, pos as int) =~= spec_diagnostics(sq, e as int));
                    lemma_boundary_after_ascii(sq, e - 1);
                }
                pos = e;
            } else {
                let e = unknown_end(s, j + 1);
                proof {
                    lemma_unknown_run(sq, j as int + 1);
                    lemma_skip_spaces(sq, e as int);
                    // The run's end either is the end of input or holds an
                    // ASCII byte: whitespace, or the start of a known token.
                    assert(e == s@.len() || sq[e as int] < 128);
                    lemma_subrange_valid(sq, j as int, e as int);
                }
                let text: &[u8] = &s[j..e];
                let msg = format_unexpected_token(text);
                let ghost errors_before = state.errors.deep_view();
                let ghost tokens_before = tokens@;
                let err = ParserError::new(ParserErrorType::Lex, msg, j..e);
                state.add_error(err);
                tokens.push(Token { token_type: TokenType::Unknown, start_offset: j, end_offset: e });
                proof {
                    let tok = Token {
                        token_type: TokenType::Unknown,
                        start_offset: j as usize,
                        end_offset: e as usize,
                    };
                    let diag = ParserErrorView {
                        error_type: ParserErrorType::Lex,
                        message: unexpected_token_message(sq.subrange(j as int, e as int)),
                        offset_start: j as int,
                        offset_end: e as int,
                    };
                    assert(spec_tokens(sq, pos as int) =~= seq![tok] + spec_tokens(sq, e as int));
                    assert(spec_diagnostics(sq, pos as int) =~= seq![diag] + spec_diagnostics(
                        sq,
                        e as int,
                    ));
                    assert(err@ == diag);
                    assert(state.errors.deep_view() =~= errors_before.push(diag));
                    assert(tokens_before + spec_tokens(sq, pos as int) =~= tokens@ + spec_tokens(
                        sq,
                        e as int,
                    ));
                    assert(errors_before + spec_diagnostics(sq, pos as int) =~= state
                        .errors
                        .deep_view() + spec_diagnostics(sq, e as int));
                    assert(e == s@.len() || !is_continuation_byte(sq[e as int]));
                }
                pos = e;
            }
        }
    }
    proof {
        assert(spec_tokens(sq, pos as int) =~= Seq::<Token>::empty());
        assert(spec_diagnostics(sq, pos as int) =~= Seq::<ParserErrorView>::empty());
        assert(tokens@ =~= tokens@ + spec_tokens(sq, pos as int));
        assert(state.errors.deep_view() =~= state.errors.deep_view() + spec_diagnostics(
            sq,
            pos as int,
        ));
        assert(errors0 + spec_diagnostics(sq, 0) =~= state.errors.deep_view());
    }
    tokens
}

} // verus!
