use arith_parser::ast::{AST, ASTMetadata};
use arith_parser::lexer::lex;
use arith_parser::parser::parse;
use arith_parser::state::ParserState;
use arith_parser::token::{Token, TokenType};

fn lex_all(input: &str) -> Vec<Token> {
    let mut state = ParserState::new(input);
    lex(input, &mut state)
}

fn number(start: usize, end: usize) -> AST {
    AST::Number { metadata: ASTMetadata { start_offset: start, end_offset: end } }
}

fn binary(token_type: TokenType, lhs: AST, rhs: AST) -> AST {
    let metadata = ASTMetadata {
        start_offset: lhs.metadata().start_offset,
        end_offset: rhs.metadata().end_offset,
    };
    AST::BinaryExpression { metadata, lhs: Box::new(lhs), token_type, rhs: Box::new(rhs) }
}

#[test]
fn test_precedence_levels() {
    // "1 * 2 + 3" parses as Add(Mul(1, 2), 3): multiplication is a tighter
    // grammar level than addition.
    let tokens = lex_all("1 * 2 + 3");
    let ast = parse(&tokens).unwrap();
    let expected = binary(
        TokenType::Add,
        binary(TokenType::Mul, number(0, 1), number(4, 5)),
        number(8, 9),
    );
    assert_eq!(ast, expected);
    assert_eq!(*ast.metadata(), ASTMetadata { start_offset: 0, end_offset: 9 });
}

#[test]
fn test_left_associativity() {
    // Same-level operators fold left: "1 + 2 + 3" is Add(Add(1, 2), 3).
    let tokens = lex_all("1 + 2 + 3");
    let ast = parse(&tokens).unwrap();
    let expected = binary(
        TokenType::Add,
        binary(TokenType::Add, number(0, 1), number(4, 5)),
        number(8, 9),
    );
    assert_eq!(ast, expected);
}

#[test]
fn test_ladder_precedence() {
    // Each operator binds looser than the next: "2 - 3 * 4" nests the
    // multiplication under the subtraction's right operand.
    let tokens = lex_all("2 - 3 * 4");
    let ast = parse(&tokens).unwrap();
    let expected = binary(
        TokenType::Sub,
        number(0, 1),
        binary(TokenType::Mul, number(4, 5), number(8, 9)),
    );
    assert_eq!(ast, expected);
}

#[test]
fn test_single_number_parse() {
    let tokens = lex_all("1.5");
    let ast = parse(&tokens).unwrap();
    assert_eq!(ast, number(0, 3));
}

#[test]
fn test_parse_failures() {
    // An empty token list fails.
    let tokens = lex_all("");
    assert!(parse(&tokens).is_err());

    // A dangling operator fails: the mandatory right operand is missing.
    let tokens = lex_all("1 +");
    assert!(parse(&tokens).is_err());

    // A trailing unconsumed token fails.
    let tokens = lex_all("1 2");
    assert!(parse(&tokens).is_err());

    // Unknown tokens are never consumable by any grammar rule.
    let tokens = lex_all("1 & 2");
    assert!(parse(&tokens).is_err());

    // A lone operator has no operands at all.
    let tokens = lex_all("*");
    assert!(parse(&tokens).is_err());
}

#[test]
fn test_span_coverage() {
    // The leaf spans of a successful parse are exactly the Number token
    // spans, and the root span runs from the first token's start to the
    // last token's end.
    let input = "4.5 / 0.5 - 2";
    let tokens = lex_all(input);
    let ast = parse(&tokens).unwrap();

    let mut leaves: Vec<ASTMetadata> = Vec::new();
    let mut stack: Vec<&AST> = vec![&ast];
    while let Some(node) = stack.pop() {
        match node {
            AST::Number { metadata } => leaves.push(*metadata),
            AST::BinaryExpression { lhs, rhs, .. } => {
                stack.push(rhs);
                stack.push(lhs);
            }
        }
    }
    let number_spans: Vec<ASTMetadata> = tokens
        .iter()
        .filter(|t| t.token_type == TokenType::Number)
        .map(|t| ASTMetadata { start_offset: t.start_offset, end_offset: t.end_offset })
        .collect();
    assert_eq!(leaves, number_spans);
    assert_eq!(ast.metadata().start_offset, tokens[0].start_offset);
    assert_eq!(ast.metadata().end_offset, tokens[tokens.len() - 1].end_offset);
}

#[test]
fn test_token_text() {
    let input = "2.5 - 1";
    let tokens = lex_all(input);
    assert_eq!(tokens[0].text(input), "2.5");
    assert_eq!(tokens[1].text(input), "-");
    assert_eq!(tokens[2].text(input), "1");
}
