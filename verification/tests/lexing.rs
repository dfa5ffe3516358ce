use arith_parser::error::{ParserError, ParserErrorType};
use arith_parser::lexer::lex;
use arith_parser::state::ParserState;
use arith_parser::token::{Token, TokenType};

fn assert_lex(input: &str, tokens: Vec<Token>) {
    let mut state = ParserState::new(input);
    let result = lex(input, &mut state);
    assert_eq!(result, tokens);
}

fn assert_error(input: &str, message: &str, offset: std::ops::Range<usize>) {
    let mut state = ParserState::new(input);
    let _ = lex(input, &mut state);
    let expected = ParserError::new(ParserErrorType::Lex, String::from(message), offset);
    let actual = &state.errors;
    assert!(
        actual.contains(&expected),
        "expected {:?} to contain {:?}",
        actual,
        expected
    );
}

#[test]
fn test_addition() {
    assert_lex(
        "2 + 1",
        vec![
            Token::new((TokenType::Number, 0..1)),
            Token::new((TokenType::Add, 2..3)),
            Token::new((TokenType::Number, 4..5)),
        ],
    );
}

#[test]
fn test_subtraction() {
    assert_lex(
        "2.5 - 1",
        vec![
            Token::new((TokenType::Number, 0..3)),
            Token::new((TokenType::Sub, 4..5)),
            Token::new((TokenType::Number, 6..7)),
        ],
    );
}

#[test]
fn test_multiplication() {
    assert_lex(
        "3 * 0.5",
        vec![
            Token::new((TokenType::Number, 0..1)),
            Token::new((TokenType::Mul, 2..3)),
            Token::new((TokenType::Number, 4..7)),
        ],
    );
}

#[test]
fn test_division() {
    assert_lex(
        "4.5 / 0.5",
        vec![
            Token::new((TokenType::Number, 0..3)),
            Token::new((TokenType::Div, 4..5)),
            Token::new((TokenType::Number, 6..9)),
        ],
    );
}

#[test]
fn test_unknown_token() {
    assert_lex(
        "1 + a",
        vec![
            Token::new((TokenType::Number, 0..1)),
            Token::new((TokenType::Add, 2..3)),
            Token::new((TokenType::Unknown, 4..5)),
        ],
    );
    assert_lex(
        "1 & 2",
        vec![
            Token::new((TokenType::Number, 0..1)),
            Token::new((TokenType::Unknown, 2..3)),
            Token::new((TokenType::Number, 4..5)),
        ],
    );
    assert_lex(
        "1.5 || 2",
        vec![
            Token::new((TokenType::Number, 0..3)),
            Token::new((TokenType::Unknown, 4..6)),
            Token::new((TokenType::Number, 7..8)),
        ],
    );
    assert_lex(
        "0.5 %% ",
        vec![
            Token::new((TokenType::Number, 0..3)),
            Token::new((TokenType::Unknown, 4..6)),
        ],
    );
    assert_lex("%", vec![Token::new((TokenType::Unknown, 0..1))]);
}

#[test]
fn test_error_message() {
    assert_error("1 + a", "Unexpected token: a", 4..5);
    assert_error("1 & 2", "Unexpected token: &", 2..3);
    assert_error("1.5 || 2", "Unexpected token: ||", 4..6);
    assert_error("0.5 %% ", "Unexpected token: %%", 4..6);
    assert_error("%", "Unexpected token: %", 0..1);
}

#[test]
fn test_unary() {
    assert_lex("1", vec![Token::new((TokenType::Number, 0..1))]);
    assert_lex("+", vec![Token::new((TokenType::Add, 0..1))]);
    assert_lex("1.5", vec![Token::new((TokenType::Number, 0..3))]);
}

#[test]
fn test_number_alone() {
    // A valid digit sequence lexes to one Number token spanning the whole
    // input, with no diagnostics.
    let mut state = ParserState::new("42");
    let tokens = lex("42", &mut state);
    assert_eq!(tokens, vec![Token::new((TokenType::Number, 0..2))]);
    assert_eq!(state.errors.len(), 0);

    let mut state = ParserState::new("10.25");
    let tokens = lex("10.25", &mut state);
    assert_eq!(tokens, vec![Token::new((TokenType::Number, 0..5))]);
    assert_eq!(state.errors.len(), 0);
}

#[test]
fn test_single_operators() {
    // Each operator character alone lexes to exactly its token, with no
    // diagnostics.
    let cases = vec![
        ("+", TokenType::Add),
        ("-", TokenType::Sub),
        ("*", TokenType::Mul),
        ("/", TokenType::Div),
    ];
    for (text, kind) in cases {
        let mut state = ParserState::new(text);
        let tokens = lex(text, &mut state);
        assert_eq!(tokens, vec![Token::new((kind, 0..1))]);
        assert_eq!(state.errors.len(), 0);
    }
}

#[test]
fn test_concatenation() {
    // Two standalone tokens joined by one space lex to the two tokens with
    // a one-byte gap between the spans.
    let mut state = ParserState::new("0.5 /");
    let tokens = lex("0.5 /", &mut state);
    assert_eq!(
        tokens,
        vec![
            Token::new((TokenType::Number, 0..3)),
            Token::new((TokenType::Div, 4..5)),
        ]
    );
    assert_eq!(state.errors.len(), 0);
}

#[test]
fn test_unknown_run_maximality() {
    // The garbage run is reported as one maximal Unknown token with exactly
    // one diagnostic; the trailing space is excluded from its span.
    let mut state = ParserState::new("0.5 %% ");
    let tokens = lex("0.5 %% ", &mut state);
    assert_eq!(
        tokens,
        vec![
            Token::new((TokenType::Number, 0..3)),
            Token::new((TokenType::Unknown, 4..6)),
        ]
    );
    assert_eq!(state.errors.len(), 1);
    assert_eq!(
        state.errors[0],
        ParserError::new(ParserErrorType::Lex, String::from("Unexpected token: %%"), 4..6)
    );
}

#[test]
fn test_relex_token_text() {
    // Re-lexing the text recovered by span-slicing reproduces each token,
    // byte-identically, including the Unknown run.
    let input = "1.5 || 2";
    let mut state = ParserState::new(input);
    let tokens = lex(input, &mut state);
    for token in &tokens {
        let text = token.text(input);
        assert_eq!(text.as_bytes(), &input.as_bytes()[token.start_offset..token.end_offset]);
        let mut relex_state = ParserState::new(text);
        let relexed = lex(text, &mut relex_state);
        assert_eq!(relexed.len(), 1);
        assert_eq!(relexed[0].token_type, token.token_type);
        assert_eq!(relexed[0].start_offset, 0);
        assert_eq!(relexed[0].end_offset, token.end_offset - token.start_offset);
        assert_eq!(relexed[0].text(text), text);
    }
}

#[test]
fn test_non_ascii_unknown() {
    // A multi-byte character becomes one Unknown run with byte-offset span
    // and a verbatim message.
    let input = "1 \u{e9} 2";
    let mut state = ParserState::new(input);
    let tokens = lex(input, &mut state);
    assert_eq!(
        tokens,
        vec![
            Token::new((TokenType::Number, 0..1)),
            Token::new((TokenType::Unknown, 2..4)),
            Token::new((TokenType::Number, 5..6)),
        ]
    );
    assert_eq!(state.errors.len(), 1);
    assert_eq!(
        state.errors[0],
        ParserError::new(ParserErrorType::Lex, String::from("Unexpected token: \u{e9}"), 2..4)
    );
}

#[test]
fn test_empty_input() {
    // Lexing the empty string yields no tokens and no diagnostics.
    let mut state = ParserState::new("");
    let tokens = lex("", &mut state);
    assert_eq!(tokens.len(), 0);
    assert_eq!(state.errors.len(), 0);
}

#[test]
fn test_whitespace_only() {
    // Whitespace is never tokenized: reaching the end of input is not an
    // error and produces no trailing empty token.
    let mut state = ParserState::new("   ");
    let tokens = lex("   ", &mut state);
    assert_eq!(tokens.len(), 0);
    assert_eq!(state.errors.len(), 0);
}

#[test]
fn test_interior_whitespace_in_unknown_run() {
    // Recovery does not skip whitespace inside a garbage run: the run ends
    // only at the next known-token boundary.
    let mut state = ParserState::new("% % 1");
    let tokens = lex("% % 1", &mut state);
    assert_eq!(
        tokens,
        vec![
            Token::new((TokenType::Unknown, 0..3)),
            Token::new((TokenType::Number, 4..5)),
        ]
    );
    assert_eq!(state.errors.len(), 1);
    assert_eq!(
        state.errors[0],
        ParserError::new(ParserErrorType::Lex, String::from("Unexpected token: % %"), 0..3)
    );
}
