use rlx::parser::{grammar_dictionary, TokenType};
use rlx::scanner::{safe_char, LexError, Pattern, Scanner, Token};
use rlx::textops::u64_string;

fn grammar_scanner() -> Scanner<TokenType> {
    Scanner::new(grammar_dictionary())
}

fn tok(kind: TokenType, value: &str, line: u64, col: u64) -> Token<TokenType> {
    Token { token_type: kind, value: value.to_string(), line, col }
}

#[test]
fn empty_input_yields_one_eof_token() {
    let s = grammar_scanner();
    let tokens = s.scan(String::new(), TokenType::EOF).unwrap();
    assert_eq!(tokens, vec![tok(TokenType::EOF, "", 1, 1)]);
}

#[test]
fn scan_simple_rule_tokens_and_columns() {
    let s = grammar_scanner();
    let tokens = s.scan("x := y".to_string(), TokenType::EOF).unwrap();
    assert_eq!(
        tokens,
        vec![
            tok(TokenType::Identifier, "x", 1, 1),
            tok(TokenType::WS, " ", 1, 2),
            tok(TokenType::Assign, ":=", 1, 3),
            tok(TokenType::WS, " ", 1, 5),
            tok(TokenType::Identifier, "y", 1, 6),
            tok(TokenType::EOF, "", 1, 7),
        ]
    );
}

#[test]
fn scan_rule_vocabulary() {
    let s = grammar_scanner();
    let tokens = s.scan("(a|$b)*+? // c".to_string(), TokenType::EOF).unwrap();
    let kinds: Vec<TokenType> = tokens.iter().map(|t| t.token_type).collect();
    assert_eq!(
        kinds,
        vec![
            TokenType::LeftParen,
            TokenType::Identifier,
            TokenType::Or,
            TokenType::Var,
            TokenType::RightParen,
            TokenType::Star,
            TokenType::Plus,
            TokenType::Question,
            TokenType::WS,
            TokenType::InlineComment,
            TokenType::EOF,
        ]
    );
    assert_eq!(tokens[3].value, "$b");
    assert_eq!(tokens[9].value, "// c");
}

#[test]
fn unmatched_character_reports_position() {
    let s = grammar_scanner();
    let err = s.scan("x := @".to_string(), TokenType::EOF).unwrap_err();
    assert_eq!(err, LexError::UnexpectedChar { ch: '@', line: 1, col: 6 });
    assert_eq!(err.message(), "Unexpected character '@' at line 1 col 6");
}

#[test]
fn newline_resets_column_and_clears_token_text() {
    let s = grammar_scanner();
    let tokens = s.scan("a\nb".to_string(), TokenType::EOF).unwrap();
    assert_eq!(
        tokens,
        vec![
            tok(TokenType::Identifier, "a", 1, 1),
            tok(TokenType::NL, "", 1, 2),
            tok(TokenType::Identifier, "b", 2, 1),
            tok(TokenType::EOF, "", 2, 2),
        ]
    );
}

#[test]
fn line_advances_by_every_line_break_in_one_match() {
    let s = grammar_scanner();
    let tokens = s.scan("a\n\n\nb".to_string(), TokenType::EOF).unwrap();
    assert_eq!(tokens[1], tok(TokenType::NL, "", 1, 2));
    assert_eq!(tokens[2], tok(TokenType::Identifier, "b", 4, 1));
}

#[test]
fn first_match_wins_over_later_entries() {
    // Both entries match at the start; the first one in table order is taken.
    let table = vec![
        Pattern { kind: 0u8, pattern: "^ab".to_string(), label: "AB".to_string() },
        Pattern { kind: 1u8, pattern: "^a".to_string(), label: "A".to_string() },
    ];
    let s = Scanner::new(table);
    let tokens = s.scan("ab".to_string(), 9u8).unwrap();
    assert_eq!(tokens.len(), 2);
    assert_eq!(tokens[0].token_type, 0u8);
    assert_eq!(tokens[0].value, "ab");
}

#[test]
fn zero_length_match_is_a_configuration_error() {
    let table = vec![Pattern { kind: 0u8, pattern: "^a*".to_string(), label: "A".to_string() }];
    let s = Scanner::new(table);
    let err = s.scan("b".to_string(), 9u8).unwrap_err();
    assert_eq!(err, LexError::EmptyMatch { line: 1, col: 1 });
    assert_eq!(err.message(), "Empty match at line 1 col 1");
}

#[test]
fn multi_line_match_clears_its_text_and_resets_the_column() {
    // one single match spanning a line break: the token keeps its starting
    // position, stores no text, and scanning resumes at column 1
    let table = vec![
        Pattern { kind: 0u8, pattern: "^a\nb".to_string(), label: "AB".to_string() },
        Pattern { kind: 1u8, pattern: "^c".to_string(), label: "C".to_string() },
    ];
    let s = Scanner::new(table);
    let tokens = s.scan("a\nbc".to_string(), 9u8).unwrap();
    assert_eq!(tokens.len(), 3);
    assert_eq!((tokens[0].token_type, tokens[0].value.as_str()), (0u8, ""));
    assert_eq!((tokens[0].line, tokens[0].col), (1, 1));
    assert_eq!((tokens[1].token_type, tokens[1].value.as_str()), (1u8, "c"));
    assert_eq!((tokens[1].line, tokens[1].col), (2, 1));
    assert_eq!((tokens[2].line, tokens[2].col), (2, 2));
}

#[test]
fn zero_length_match_mid_input_reports_the_position_reached() {
    let table = vec![
        Pattern { kind: 0u8, pattern: "^a".to_string(), label: "A".to_string() },
        Pattern { kind: 1u8, pattern: "^x*".to_string(), label: "X".to_string() },
    ];
    let s = Scanner::new(table);
    let err = s.scan("ab".to_string(), 9u8).unwrap_err();
    assert_eq!(err, LexError::EmptyMatch { line: 1, col: 2 });
}

#[test]
fn count_char_counts_occurrences() {
    assert_eq!(Scanner::<TokenType>::count_char("a\nb\n", '\n'), 2);
    assert_eq!(Scanner::<TokenType>::count_char("", 'x'), 0);
    assert_eq!(Scanner::<TokenType>::count_char("xxx", 'x'), 3);
}

#[test]
fn safe_char_escapes_control_characters() {
    assert_eq!(safe_char('\n'), "\\n");
    assert_eq!(safe_char('\t'), "\\t");
    assert_eq!(safe_char('\r'), "\\r");
    assert_eq!(safe_char('\0'), "\\0");
    assert_eq!(safe_char('a'), "a");
    assert_eq!(safe_char('@'), "@");
}

#[test]
fn token_to_string_renders_kind_text_and_position() {
    let t = tok(TokenType::Identifier, "x", 1, 6);
    assert_eq!(t.to_string(), "Identifier x - 1:6");
}

#[test]
fn u64_string_renders_decimal() {
    assert_eq!(u64_string(0), "0");
    assert_eq!(u64_string(7), "7");
    assert_eq!(u64_string(1234567890), "1234567890");
    assert_eq!(u64_string(u64::MAX), "18446744073709551615");
}
