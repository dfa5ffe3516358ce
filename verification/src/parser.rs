//! The recursive-descent parser.
//!
//! The grammar has four binary levels, one per operator, each left-
//! associative, from loosest to tightest binding:
//!
//! ```text
//! expression     := addition
//! addition       := subtraction    (Add subtraction)*
//! subtraction    := multiplication (Sub multiplication)*
//! multiplication := division       (Mul division)*
//! division       := number         (Div number)*
//! number         := NUMBER token
//! ```
//!
//! The levels are numbered 0 (addition) to 3 (division); level 4 is the
//! number leaf. `parses_at` is the grammar stated as a relation between a
//! token range and a tree; `parse` returns a tree related to the whole token
//! sequence, and succeeds exactly on well-formed streams: a `Number` token
//! alternating with operator tokens, beginning and ending with a `Number`.
//! `Unknown` tokens match no rule, so their presence always fails the parse.

use crate::ast::{AST, ASTMetadata};
use crate::error::SyntaxError;
use crate::token::{Token, TokenType};
use vstd::prelude::*;

verus! {

/// The operator consumed by grammar level `level`.
pub open spec fn level_operator(level: int) -> TokenType {
    if level == 0 {
        TokenType::Add
    } else if level == 1 {
        TokenType::Sub
    } else if level == 2 {
        TokenType::Mul
    } else {
        TokenType::Div
    }
}

/// The grammar level that consumes a token kind; non-operator kinds get the
/// leaf level 4, which consumes `Number` only.
pub open spec fn op_rank(k: TokenType) -> int {
    match k {
        TokenType::Add => 0,
        TokenType::Sub => 1,
        TokenType::Mul => 2,
        TokenType::Div => 3,
        TokenType::Number => 4,
        TokenType::Unknown => 4,
    }
}

/// True for the four operator kinds.
pub open spec fn is_binary_operator(k: TokenType) -> bool {
    match k {
        TokenType::Add | TokenType::Sub | TokenType::Mul | TokenType::Div => true,
        TokenType::Number | TokenType::Unknown => false,
    }
}

/// The number of tokens a tree consumes: one per leaf and one per operator.
pub open spec fn token_count(ast: AST) -> int
    decreases ast,
{
    match ast {
        AST::Number { .. } => 1,
        AST::BinaryExpression { lhs, rhs, .. } => token_count(*lhs) + 1 + token_count(*rhs),
    }
}

/// The grammar as a relation: `ast` is the parse of `tokens[lo..hi]` at the
/// given level, consuming exactly that range. At the leaf level the range is
/// one `Number` token and the node carries its span. At a binary level the
/// tree either comes whole from the next-tighter level, or it is a
/// `BinaryExpression` of this level's operator whose left subtree is a chain
/// of this level ending right before the operator token and whose right
/// subtree is a next-tighter parse of the rest; the node's span runs from
/// the start of the left child to the end of the right child.
pub open spec fn parses_at(tokens: Seq<Token>, lo: int, hi: int, level: int, ast: AST) -> bool
    decreases ast, 4 - level
        when level <= 4
{
    if level == 4 {
        match ast {
            AST::Number { metadata } => {
                &&& hi == lo + 1
                &&& 0 <= lo < tokens.len()
                &&& tokens[lo].token_type == TokenType::Number
                &&& metadata.start_offset == tokens[lo].start_offset
                &&& metadata.end_offset == tokens[lo].end_offset
            },
            _ => false,
        }
    } else {
        ||| parses_at(tokens, lo, hi, level + 1, ast)
        ||| match ast {
            AST::BinaryExpression { metadata, lhs, token_type, rhs } => {
                let mid = lo + token_count(*lhs);
                &&& token_type == level_operator(level)
                &&& mid < hi <= tokens.len()
                &&& tokens[mid].token_type == level_operator(level)
                &&& parses_at(tokens, lo, mid, level, *lhs)
                &&& parses_at(tokens, mid + 1, hi, level + 1, *rhs)
                &&& metadata.start_offset == lhs.spec_metadata().start_offset
                &&& metadata.end_offset == rhs.spec_metadata().end_offset
            },
            _ => false,
        }
    }
}

/// The suffix `tokens[pos..]` is a well-formed operand stream: it has odd
/// length, `Number` tokens at even distances from `pos`, and operator tokens
/// at odd distances.
pub open spec fn wf_from(tokens: Seq<Token>, pos: int) -> bool {
    &&& 0 <= pos <= tokens.len()
    &&& (tokens.len() - pos) % 2 == 1
    &&& forall|i: int|
        pos <= i < tokens.len() && (i - pos) % 2 == 0 ==> (#[trigger] tokens[i]).token_type
            == TokenType::Number
    &&& forall|i: int|
        pos <= i < tokens.len() && (i - pos) % 2 == 1 ==> is_binary_operator(
            (#[trigger] tokens[i]).token_type,
        )
}

/// The whole token stream matches the grammar: `Number (operator Number)*`.
/// This is exactly the condition under which `parse` succeeds.
pub open spec fn well_formed_stream(tokens: Seq<Token>) -> bool {
    wf_from(tokens, 0)
}

/// Everything a parse relation pins down about its token range: the range is
/// non-empty of odd length, the tree's span runs from the first to the last
/// token of the range, and the range alternates `Number` and operator
/// tokens.
pub proof fn lemma_parses_at_facts(tokens: Seq<Token>, lo: int, hi: int, level: int, ast: AST)
    requires
        0 <= level <= 4,
        parses_at(tokens, lo, hi, level, ast),
    ensures
        0 <= lo < hi <= tokens.len(),
        hi - lo == token_count(ast),
        (hi - lo) % 2 == 1,
        ast.spec_metadata().start_offset == tokens[lo].start_offset,
        ast.spec_metadata().end_offset == tokens[hi - 1].end_offset,
        forall|i: int|
            lo <= i < hi && (i - lo) % 2 == 0 ==> (#[trigger] tokens[i]).token_type
                == TokenType::Number,
        forall|i: int|
            lo <= i < hi && (i - lo) % 2 == 1 ==> is_binary_operator(
                (#[trigger] tokens[i]).token_type,
            ),
    decreases ast, 4 - level,
{
    if level < 4 {
        if parses_at(tokens, lo, hi, level + 1, ast) {
            lemma_parses_at_facts(tokens, lo, hi, level + 1, ast);
        } else {
            match ast {
                AST::BinaryExpression { metadata, lhs, token_type, rhs } => {
                    let mid = lo + token_count(*lhs);
                    lemma_parses_at_facts(tokens, lo, mid, level, *lhs);
                    lemma_parses_at_facts(tokens, mid + 1, hi, level + 1, *rhs);
                },
                _ => {},
            }
        }
    }
}

/// Inside a parsed range, every operator token binds at this level or a
/// tighter one: its rank is at least the level of the parse.
proof fn lemma_parses_at_op_ranks(tokens: Seq<Token>, lo: int, hi: int, level: int, ast: AST)
    requires
        0 <= level <= 4,
        parses_at(tokens, lo, hi, level, ast),
    ensures
        forall|p: int|
            lo < p < hi && (p - lo) % 2 == 1 ==> op_rank((#[trigger] tokens[p]).token_type)
                >= level,
    decreases ast, 4 - level,
{
    if level < 4 {
        if parses_at(tokens, lo, hi, level + 1, ast) {
            lemma_parses_at_op_ranks(tokens, lo, hi, level + 1, ast);
        } else {
            match ast {
                AST::BinaryExpression { metadata, lhs, token_type, rhs } => {
                    let mid = lo + token_count(*lhs);
                    lemma_parses_at_facts(tokens, lo, mid, level, *lhs);
                    lemma_parses_at_op_ranks(tokens, lo, mid, level, *lhs);
                    lemma_parses_at_op_ranks(tokens, mid + 1, hi, level + 1, *rhs);
                },
                _ => {},
            }
        }
    }
}

/// Law: the grammar is unambiguous. At most one tree parses a given token
/// range at a given level, so `parse`'s relation to the token stream pins
/// the resulting tree down completely.
pub proof fn lemma_parse_unique(tokens: Seq<Token>, lo: int, hi: int, level: int, a: AST, b: AST)
    requires
        0 <= level <= 4,
        parses_at(tokens, lo, hi, level, a),
        parses_at(tokens, lo, hi, level, b),
    ensures
        a == b,
    decreases a, 4 - level,
{
    if level == 4 {
    } else {
        let a_deep = parses_at(tokens, lo, hi, level + 1, a);
        let b_deep = parses_at(tokens, lo, hi, level + 1, b);
        if a_deep && b_deep {
            lemma_parse_unique(tokens, lo, hi, level + 1, a, b);
        } else if a_deep && !b_deep {
            // `b` splits at an operator of exactly this level, which a
            // parse at the next level cannot contain.
            match b {
                AST::BinaryExpression { metadata, lhs, token_type, rhs } => {
                    let mid = lo + token_count(*lhs);
                    lemma_parses_at_facts(tokens, lo, mid, level, *lhs);
                    lemma_parses_at_op_ranks(tokens, lo, hi, level + 1, a);
                    assert(op_rank(tokens[mid].token_type) == level);
                    assert(false);
                },
                _ => {},
            }
        } else if !a_deep && b_deep {
            match a {
                AST::BinaryExpression { metadata, lhs, token_type, rhs } => {
                    let mid = lo + token_count(*lhs);
                    lemma_parses_at_facts(tokens, lo, mid, level, *lhs);
                    lemma_parses_at_op_ranks(tokens, lo, hi, level + 1, b);
                    assert(op_rank(tokens[mid].token_type) == level);
                    assert(false);
                },
                _ => {},
            }
        } else {
            match a {
                AST::BinaryExpression {
                    metadata: m_a,
                    lhs: lhs_a,
                    token_type: op_a,
                    rhs: rhs_a,
                } => {
                    match b {
                        AST::BinaryExpression {
                            metadata: m_b,
                            lhs: lhs_b,
                            token_type: op_b,
                            rhs: rhs_b,
                        } => {
                            let mid_a = lo + token_count(*lhs_a);
                            let mid_b = lo + token_count(*lhs_b);
                            lemma_parses_at_facts(tokens, lo, mid_a, level, *lhs_a);
                            lemma_parses_at_facts(tokens, lo, mid_b, level, *lhs_b);
                            if mid_a < mid_b {
                                // `b`'s operator would sit inside `a`'s
                                // right operand, which parses at the next
                                // level and so holds no operator of this
                                // level.
                                lemma_parses_at_op_ranks(
                                    tokens,
                                    mid_a + 1,
                                    hi,
                                    level + 1,
                                    *rhs_a,
                                );
                                assert(op_rank(tokens[mid_b].token_type) == level);
                                assert(false);
                            } else if mid_b < mid_a {
                                lemma_parses_at_op_ranks(
                                    tokens,
                                    mid_b + 1,
                                    hi,
                                    level + 1,
                                    *rhs_b,
                                );
                                assert(op_rank(tokens[mid_a].token_type) == level);
                                assert(false);
                            } else {
                                lemma_parse_unique(tokens, lo, mid_a, level, *lhs_a, *lhs_b);
                                lemma_parse_unique(tokens, mid_a + 1, hi, level + 1, *rhs_a, *rhs_b);
                            }
                        },
                        _ => {},
                    }
                },
                _ => {},
            }
        }
    }
}

/// The spans of a tree's `Number` leaves, in source order.
pub open spec fn leaf_spans(ast: AST) -> Seq<ASTMetadata>
    decreases ast,
{
    match ast {
        AST::Number { metadata } => seq![metadata],
        AST::BinaryExpression { lhs, rhs, .. } => leaf_spans(*lhs) + leaf_spans(*rhs),
    }
}

/// The spans of the `Number` tokens among `tokens[lo..hi]`, in order.
pub open spec fn number_token_spans(tokens: Seq<Token>, lo: int, hi: int) -> Seq<ASTMetadata>
    decreases hi - lo,
{
    if lo >= hi {
        Seq::empty()
    } else {
        let rest = number_token_spans(tokens, lo + 1, hi);
        if tokens[lo].token_type == TokenType::Number {
            seq![
                ASTMetadata {
                    start_offset: tokens[lo].start_offset,
                    end_offset: tokens[lo].end_offset,
                },
            ] + rest
        } else {
            rest
        }
    }
}

proof fn lemma_number_spans_split(tokens: Seq<Token>, lo: int, mid: int, hi: int)
    requires
        lo <= mid <= hi,
    ensures
        number_token_spans(tokens, lo, hi) == number_token_spans(tokens, lo, mid)
            + number_token_spans(tokens, mid, hi),
    decreases mid - lo,
{
    if lo < mid {
        lemma_number_spans_split(tokens, lo + 1, mid, hi);
        assert(number_token_spans(tokens, lo, hi) =~= number_token_spans(tokens, lo, mid)
            + number_token_spans(tokens, mid, hi));
    } else {
        assert(number_token_spans(tokens, lo, hi) =~= number_token_spans(tokens, lo, mid)
            + number_token_spans(tokens, mid, hi));
    }
}

proof fn lemma_parses_at_leaf_spans(tokens: Seq<Token>, lo: int, hi: int, level: int, ast: AST)
    requires
        0 <= level <= 4,
        parses_at(tokens, lo, hi, level, ast),
    ensures
        leaf_spans(ast) == number_token_spans(tokens, lo, hi),
    decreases ast, 4 - level,
{
    if level == 4 {
        assert(number_token_spans(tokens, lo + 1, hi) =~= Seq::<ASTMetadata>::empty());
        assert(leaf_spans(ast) =~= number_token_spans(tokens, lo, hi));
    } else if parses_at(tokens, lo, hi, level + 1, ast) {
        lemma_parses_at_leaf_spans(tokens, lo, hi, level + 1, ast);
    } else {
        match ast {
            AST::BinaryExpression { metadata, lhs, token_type, rhs } => {
                let mid = lo + token_count(*lhs);
                lemma_parses_at_facts(tokens, lo, mid, level, *lhs);
                lemma_parses_at_leaf_spans(tokens, lo, mid, level, *lhs);
                lemma_parses_at_leaf_spans(tokens, mid + 1, hi, level + 1, *rhs);
                lemma_number_spans_split(tokens, lo, mid, hi);
                assert(tokens[mid].token_type == level_operator(level));
                assert(tokens[mid].token_type != TokenType::Number);
                assert(number_token_spans(tokens, mid, hi) =~= number_token_spans(
                    tokens,
                    mid + 1,
                    hi,
                ));
                assert(leaf_spans(ast) =~= number_token_spans(tokens, lo, hi));
            },
            _ => {},
        }
    }
}

/// Law: round-trip span coverage. A tree that parses a whole token stream
/// covers it exactly: the tree's leaf spans are precisely the spans of the
/// stream's `Number` tokens in order, every other token of the stream is an
/// operator token, and the root's span runs from the first token's start to
/// the last token's end. Since the lexer's tokens cover all non-whitespace
/// source text between those offsets, the leaf and operator spans together
/// cover the consumed portion of the source up to interior whitespace.
pub proof fn lemma_span_coverage(tokens: Seq<Token>, ast: AST)
    requires
        parses_at(tokens, 0, tokens.len() as int, 0, ast),
    ensures
        tokens.len() > 0,
        leaf_spans(ast) == number_token_spans(tokens, 0, tokens.len() as int),
        ast.spec_metadata().start_offset == tokens[0].start_offset,
        ast.spec_metadata().end_offset == tokens[tokens.len() - 1].end_offset,
        forall|i: int|
            0 <= i < tokens.len() && i % 2 == 0 ==> (#[trigger] tokens[i]).token_type
                == TokenType::Number,
        forall|i: int|
            0 <= i < tokens.len() && i % 2 == 1 ==> is_binary_operator(
                (#[trigger] tokens[i]).token_type,
            ),
{
    lemma_parses_at_facts(tokens, 0, tokens.len() as int, 0, ast);
    lemma_parses_at_leaf_spans(tokens, 0, tokens.len() as int, 0, ast);
}

/// The executable twin of `level_operator`.
fn level_operator_exec(level: u8) -> (k: TokenType)
    requires
        level <= 3,
    ensures
        k == level_operator(level as int),
{
    if level == 0 {
        TokenType::Add
    } else if level == 1 {
        TokenType::Sub
    } else if level == 2 {
        TokenType::Mul
    } else {
        TokenType::Div
    }
}

/// Parses the `number` rule: one `Number` token, whose span becomes the
/// leaf's span. Succeeds exactly when the cursor stands on a `Number` token.
fn number(tokens: &[Token], pos: &mut usize) -> (r: Result<AST, SyntaxError>)
    requires
        *old(pos) <= tokens@.len(),
    ensures
        *old(pos) <= *final(pos) <= tokens@.len(),
        r.is_ok() <==> (*old(pos) < tokens@.len() && tokens@[*old(pos) as int].token_type
            == TokenType::Number),
        r matches Ok(ast) ==> {
            &&& *final(pos) == *old(pos) + 1
            &&& parses_at(tokens@, *old(pos) as int, *final(pos) as int, 4, ast)
        },
        r.is_err() ==> *final(pos) == *old(pos),
{
    if *pos < tokens.len() {
        let tok = tokens[*pos];
        if tok.token_type == TokenType::Number {
            let metadata = ASTMetadata {
                start_offset: tok.start_offset,
                end_offset: tok.end_offset,
            };
            *pos = *pos + 1;
            return Ok(AST::Number { metadata });
        }
    }
    Err(SyntaxError)
}

/// Parses one grammar level: one operand of the next-tighter level, then a
/// left-fold of `(operator operand)` pairs for this level's operator. On
/// success the consumed range is related to the result by `parses_at`, and
/// the next token (if any) belongs to no level at or above this one. On a
/// well-formed operand stream this never fails.
#[verifier::loop_isolation(false)]
pub fn binary_expression(tokens: &[Token], pos: &mut usize, level: u8) -> (r: Result<
    AST,
    SyntaxError,
>)
    requires
        level <= 3,
        *old(pos) <= tokens@.len(),
    ensures
        *old(pos) <= *final(pos) <= tokens@.len(),
        r matches Ok(ast) ==> {
            &&& *old(pos) < *final(pos)
            &&& parses_at(tokens@, *old(pos) as int, *final(pos) as int, level as int, ast)
            &&& (*final(pos) == tokens@.len() || !(level as int <= op_rank(
                tokens@[*final(pos) as int].token_type,
            ) <= 3))
        },
        wf_from(tokens@, *old(pos) as int) ==> r.is_ok(),
    decreases 3 - level,
{
    let ghost start = *pos;
    let operand = if level == 3 {
        number(tokens, pos)
    } else {
        binary_expression(tokens, pos, level + 1)
    };
    let mut lhs = match operand {
        Ok(ast) => ast,
        Err(e) => {
            return Err(e);
        },
    };
    let op = level_operator_exec(level);
    while *pos < tokens.len() && tokens[*pos].token_type == op
        invariant
            level <= 3,
            op == level_operator(level as int),
            start < *pos <= tokens@.len(),
            parses_at(tokens@, start as int, *pos as int, level as int, lhs),
            *pos == tokens@.len() || !(level as int + 1 <= op_rank(
                tokens@[*pos as int].token_type,
            ) <= 3),
        decreases tokens@.len() - *pos,
    {
        let ghost mid = *pos;
        proof {
            lemma_parses_at_facts(tokens@, start as int, mid as int, level as int, lhs);
        }
        *pos = *pos + 1;
        let next = if level == 3 {
            number(tokens, pos)
        } else {
            binary_expression(tokens, pos, level + 1)
        };
        let rhs = match next {
            Ok(ast) => ast,
            Err(e) => {
                proof {
                    // On a well-formed operand stream the operand after an
                    // operator starts another well-formed stream, so the
                    // recursive call cannot have failed.
                    if wf_from(tokens@, start as int) {
                        assert(wf_from(tokens@, mid as int + 1));
                        assert(false);
                    }
                }
                return Err(e);
            },
        };
        let lhs_start = lhs.metadata().start_offset;
        let rhs_end = rhs.metadata().end_offset;
        let ghost prev = lhs;
        lhs = AST::BinaryExpression {
            metadata: ASTMetadata { start_offset: lhs_start, end_offset: rhs_end },
            lhs: Box::new(lhs),
            token_type: op,
            rhs: Box::new(rhs),
        };
        proof {
            assert(start as int + token_count(prev) == mid as int);
            assert(parses_at(tokens@, start as int, *pos as int, level as int, lhs));
        }
    }
    proof {
        if wf_from(tokens@, start as int) {
            // At loop exit under well-formedness the cursor stands at the
            // end of input or on an operator of a looser level, never on a
            // `Number` or this level's operator.
            lemma_parses_at_facts(tokens@, start as int, *pos as int, level as int, lhs);
        }
    }
    Ok(lhs)
}

/// Parses a complete token stream into one expression tree. Succeeds if and
/// only if the stream is well formed — non-empty, alternating `Number` and
/// operator tokens, ending with a `Number` — and the resulting tree is the
/// grammar's parse of the whole stream. Any `Unknown` token, a dangling
/// operator, an empty stream, or a trailing unconsumed token fails.
pub fn parse(tokens: &[Token]) -> (r: Result<AST, SyntaxError>)
    ensures
        r.is_ok() <==> well_formed_stream(tokens@),
        r matches Ok(ast) ==> parses_at(tokens@, 0, tokens@.len() as int, 0, ast),
{
    let mut pos: usize = 0;
    let parsed = binary_expression(tokens, &mut pos, 0);
    match parsed {
        Ok(ast) => {
            if pos == tokens.len() {
                proof {
                    lemma_parses_at_facts(tokens@, 0, pos as int, 0, ast);
                }
                Ok(ast)
            } else {
                proof {
                    if well_formed_stream(tokens@) {
                        // A well-formed stream is consumed whole: the exit
                        // token would have to be an operator of a level
                        // below 0, which does not exist.
                        lemma_parses_at_facts(tokens@, 0, pos as int, 0, ast);
                        assert(false);
                    }
                }
                Err(SyntaxError)
            }
        },
        Err(e) => Err(e),
    }
}

} // verus!
