use rlx::parser::{grammar_dictionary, CombinatorKind, ParseError, Parser, TokenType};
use rlx::scanner::{Scanner, Token};

fn scan(src: &str) -> Vec<Token<TokenType>> {
    Scanner::new(grammar_dictionary()).scan(src.to_string(), TokenType::EOF).unwrap()
}

fn parser(src: &str) -> Parser {
    Parser::new(src.to_string()).unwrap()
}

fn current_kind(p: &Parser) -> Option<TokenType> {
    p.current().map(|t| t.token_type)
}

#[test]
fn consume_returns_matching_token_without_any_cursor() {
    // `consume` takes the stream and a position; there is no cursor it could
    // move, and the same call gives the same answer twice.
    let tokens = scan("x := y");
    let first = Parser::consume(TokenType::Identifier, &tokens, 0).unwrap();
    let again = Parser::consume(TokenType::Identifier, &tokens, 0).unwrap();
    assert_eq!(first, again);
    assert_eq!(first.value, "x");
}

#[test]
fn consume_reports_mismatch_and_end_of_stream() {
    let tokens = scan("x := y");
    assert_eq!(
        Parser::consume(TokenType::Var, &tokens, 0),
        Err(ParseError::Mismatch { expected: TokenType::Var, found: TokenType::Identifier })
    );
    assert_eq!(
        Parser::consume(TokenType::Var, &tokens, 100),
        Err(ParseError::UnexpectedEof)
    );
}

#[test]
fn or_takes_first_kind_at_cursor_and_advances_by_one() {
    let mut p = parser("x := y");
    let t = p.or(TokenType::Identifier, TokenType::Var).unwrap();
    assert_eq!(t.token_type, TokenType::Identifier);
    assert_eq!(t.value, "x");
    // the cursor moved by exactly one: it now stands on the whitespace token
    assert_eq!(current_kind(&p), Some(TokenType::WS));
}

#[test]
fn or_takes_second_kind_one_slot_ahead_and_advances_by_one() {
    // stream: Identifier WS Assign ... — the second alternative is tried at
    // cursor + 1, per the fixed one-slot lookahead.
    let mut p = parser("x := y");
    let t = p.or(TokenType::Var, TokenType::WS).unwrap();
    assert_eq!(t.token_type, TokenType::WS);
    assert_eq!(current_kind(&p), Some(TokenType::WS));
}

#[test]
fn or_failure_leaves_cursor_alone() {
    let mut p = parser("x := y");
    let e = p.or(TokenType::Var, TokenType::Assign).unwrap_err();
    assert_eq!(e, ParseError::Mismatch { expected: TokenType::Assign, found: TokenType::WS });
    assert_eq!(current_kind(&p), Some(TokenType::Identifier));
}

#[test]
fn and_requires_both_kinds_and_advances_by_two() {
    let mut p = parser("x:=y");
    let (a, b) = p.and(TokenType::Identifier, TokenType::Assign).unwrap();
    assert_eq!(a.value, "x");
    assert_eq!(b.value, ":=");
    assert_eq!(current_kind(&p), Some(TokenType::Identifier));
}

#[test]
fn and_failure_commits_nothing() {
    let mut p = parser("x:=y");
    let e = p.and(TokenType::Identifier, TokenType::Identifier).unwrap_err();
    assert_eq!(
        e,
        ParseError::Mismatch { expected: TokenType::Identifier, found: TokenType::Assign }
    );
    assert_eq!(current_kind(&p), Some(TokenType::Identifier));
}

#[test]
fn sequence_returns_all_tokens_in_order_and_stops_before_eof() {
    // stream: Identifier Assign Identifier EOF
    let mut p = parser("x:=y");
    let tokens = p
        .sequence(vec![TokenType::Identifier, TokenType::Assign, TokenType::Identifier])
        .unwrap();
    let values: Vec<&str> = tokens.iter().map(|t| t.value.as_str()).collect();
    assert_eq!(values, vec!["x", ":=", "y"]);
    // the cursor stands at position 3, pointing at the end-of-input token
    assert_eq!(current_kind(&p), Some(TokenType::EOF));
}

#[test]
fn sequence_failure_restores_cursor_and_names_all_members() {
    let mut p = parser("x:=y");
    let e = p
        .sequence(vec![TokenType::Identifier, TokenType::Assign, TokenType::Var])
        .unwrap_err();
    assert_eq!(
        e,
        ParseError::SequenceMismatch {
            expected: vec![TokenType::Identifier, TokenType::Assign, TokenType::Var],
            found: TokenType::Identifier,
        }
    );
    assert_eq!(
        e.message(),
        "Expecting: Identifier followed by Assign followed by Var, found: Identifier"
    );
    assert_eq!(current_kind(&p), Some(TokenType::Identifier));
}

#[test]
fn sequence_needs_at_least_two_kinds() {
    let mut p = parser("x:=y");
    assert_eq!(
        p.sequence(vec![TokenType::Identifier]),
        Err(ParseError::NotEnoughOptions { combinator: CombinatorKind::Sequence })
    );
}

#[test]
fn choice_over_single_token_stream_names_both_labels_and_found_kind() {
    // the stream of an empty input is a single end-of-input token
    let mut p = parser("");
    let e = p.choice(vec![TokenType::Identifier, TokenType::Var]).unwrap_err();
    assert_eq!(
        e,
        ParseError::NoAlternative {
            expected: vec![TokenType::Identifier, TokenType::Var],
            found: TokenType::EOF,
        }
    );
    assert_eq!(e.message(), "Expecting: Identifier or Var, found: EOF");
}

#[test]
fn choice_success_commits_exactly_one_token() {
    // stream: Identifier WS Identifier EOF; the accepted `or` moved the
    // cursor by one, and `choice` adds nothing on top
    let mut p = parser("x y");
    let t = p.choice(vec![TokenType::Identifier, TokenType::WS]).unwrap();
    assert_eq!(t.value, "x");
    assert_eq!(current_kind(&p), Some(TokenType::WS));
}

#[test]
fn choice_needs_at_least_one_option() {
    let mut p = parser("x:=y");
    assert_eq!(
        p.choice(vec![]),
        Err(ParseError::NotEnoughOptions { combinator: CombinatorKind::Choice })
    );
}

#[test]
fn choice_with_one_option_is_a_plain_lookup_without_commit() {
    let mut p = parser("x:=y");
    let t = p.choice(vec![TokenType::Identifier]).unwrap();
    assert_eq!(t.value, "x");
    // a single-option choice is a direct consume: no commit happened
    assert_eq!(current_kind(&p), Some(TokenType::Identifier));
}

#[test]
fn parse_terminal_wraps_variable_token() {
    let mut p = parser("$v x");
    let e = p.parse_terminal().unwrap();
    match e {
        rlx::ast::Expression::Val(t) => {
            assert_eq!(t.token_type, TokenType::Var);
            assert_eq!(t.value, "$v");
        },
        other => panic!("expected a Val leaf, got {:?}", other),
    }
}

#[test]
fn parse_terminal_fails_without_terminal_in_window() {
    let mut p = parser(":= y");
    let e = p.parse_terminal().unwrap_err();
    assert_eq!(
        e,
        ParseError::NoAlternative {
            expected: vec![TokenType::Var, TokenType::Identifier],
            found: TokenType::Assign,
        }
    );
}

#[test]
fn find_token_label_gives_variant_name() {
    let p = parser("x:=y");
    assert_eq!(p.find_token_label(&TokenType::InlineComment), "InlineComment");
    assert_eq!(p.find_token_label(&TokenType::LeftParen), "LeftParen");
}

#[test]
fn is_eof_after_consuming_everything() {
    let mut p = parser("");
    assert!(!p.is_eof());
    let _ = p.choice(vec![TokenType::EOF]);
    assert!(!p.is_eof());
    // a consumed end-of-input token moves the cursor past the stream
    let t = p.or(TokenType::EOF, TokenType::EOF).unwrap();
    assert_eq!(t.token_type, TokenType::EOF);
    assert!(p.is_eof());
}

#[test]
fn error_messages_render_each_variant() {
    assert_eq!(ParseError::UnexpectedEof.message(), "Unexpected EOF");
    assert_eq!(
        ParseError::Mismatch { expected: TokenType::Assign, found: TokenType::Star }.message(),
        "Expected Assign, got Star"
    );
    assert_eq!(
        ParseError::NotEnoughOptions { combinator: CombinatorKind::Choice }.message(),
        "ParserError [choice]: Not enough options"
    );
    assert_eq!(
        ParseError::NotEnoughOptions { combinator: CombinatorKind::Sequence }.message(),
        "ParserError [sequence]: Not enough options"
    );
    assert_eq!(
        ParseError::NoAlternative { expected: vec![TokenType::Var], found: TokenType::NL }
            .message(),
        "Expecting: Var, found: NL"
    );
}

#[test]
fn lexical_error_surfaces_from_parser_construction() {
    let err = Parser::new("x := @".to_string()).unwrap_err();
    assert_eq!(err.message(), "Unexpected character '@' at line 1 col 6");
}
