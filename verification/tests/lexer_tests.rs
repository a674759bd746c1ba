use transpiler::lexer::Lexer;
use transpiler::token::LexErrorKind;
use transpiler::token::Token;
use transpiler::token::TokenKind;

fn kinds(tokens: &[Token]) -> Vec<TokenKind> {
    tokens.iter().map(|t| t.kind).collect()
}

fn texts(tokens: &[Token]) -> Vec<String> {
    tokens.iter().map(|t| t.text.clone()).collect()
}

#[test]
fn let_statement() {
    let tokens = Lexer::run(String::from("let x = 5;")).unwrap();
    assert_eq!(
        kinds(&tokens),
        vec![
            TokenKind::Let,
            TokenKind::Identifier,
            TokenKind::Assign,
            TokenKind::Integer,
            TokenKind::Semicolon,
        ]
    );
    assert_eq!(texts(&tokens), vec!["let", "x", "=", "5", ";"]);
    let positions: Vec<usize> = tokens.iter().map(|t| t.position).collect();
    assert_eq!(positions, vec![0, 4, 6, 8, 9]);
}

#[test]
fn function_declaration() {
    let tokens = Lexer::run(String::from("function f(a: int) -> int { return a; }")).unwrap();
    assert_eq!(
        kinds(&tokens),
        vec![
            TokenKind::Function,
            TokenKind::Identifier,
            TokenKind::LeftParenthesis,
            TokenKind::Identifier,
            TokenKind::Colon,
            TokenKind::Identifier,
            TokenKind::RightParenthesis,
            TokenKind::Arrow,
            TokenKind::Identifier,
            TokenKind::LeftBrace,
            TokenKind::Return,
            TokenKind::Identifier,
            TokenKind::Semicolon,
            TokenKind::RightBrace,
        ]
    );
    assert_eq!(
        texts(&tokens),
        vec![
            "function", "f", "(", "a", ":", "int", ")", "->", "int", "{", "return", "a", ";", "}",
        ]
    );
}

#[test]
fn import_string_literal() {
    let tokens = Lexer::run(String::from("import \"std\"")).unwrap();
    assert_eq!(kinds(&tokens), vec![TokenKind::Import, TokenKind::String]);
    assert_eq!(texts(&tokens), vec!["import", "\"std\""]);
}

#[test]
fn unterminated_string() {
    let err = Lexer::run(String::from("\"unterminated")).unwrap_err();
    assert_eq!(err.kind, LexErrorKind::UnterminatedString);
    assert_eq!(err.position, 0);
}

#[test]
fn unexpected_character() {
    let err = Lexer::run(String::from("@")).unwrap_err();
    assert_eq!(err.kind, LexErrorKind::UnexpectedCharacter);
    assert_eq!(err.position, 0);
}

#[test]
fn empty_input() {
    let tokens = Lexer::run(String::new()).unwrap();
    assert!(tokens.is_empty());
}

#[test]
fn whitespace_only_input() {
    let tokens = Lexer::run(String::from(" \t\r\n  ")).unwrap();
    assert!(tokens.is_empty());
}

#[test]
fn every_keyword() {
    let tokens = Lexer::run(String::from("function return import let const")).unwrap();
    assert_eq!(
        kinds(&tokens),
        vec![
            TokenKind::Function,
            TokenKind::Return,
            TokenKind::Import,
            TokenKind::Let,
            TokenKind::Const,
        ]
    );
}

#[test]
fn keyword_prefix_is_identifier() {
    let tokens = Lexer::run(String::from("lets letx let_ let1 Let")).unwrap();
    assert_eq!(kinds(&tokens), vec![TokenKind::Identifier; 5]);
    let tokens = Lexer::run(String::from("let")).unwrap();
    assert_eq!(kinds(&tokens), vec![TokenKind::Let]);
}

#[test]
fn identifier_runs_are_maximal() {
    let tokens = Lexer::run(String::from("_a1b2 x_9")).unwrap();
    assert_eq!(texts(&tokens), vec!["_a1b2", "x_9"]);
    assert_eq!(kinds(&tokens), vec![TokenKind::Identifier, TokenKind::Identifier]);
}

#[test]
fn every_punctuation() {
    let tokens = Lexer::run(String::from("( ) [ ] { } . , ; + - =")).unwrap();
    assert_eq!(
        kinds(&tokens),
        vec![
            TokenKind::LeftParenthesis,
            TokenKind::RightParenthesis,
            TokenKind::LeftSquareBracket,
            TokenKind::RightSquareBracket,
            TokenKind::LeftBrace,
            TokenKind::RightBrace,
            TokenKind::Period,
            TokenKind::Comma,
            TokenKind::Semicolon,
            TokenKind::Plus,
            TokenKind::Minus,
            TokenKind::Assign,
        ]
    );
}

#[test]
fn arrow_is_one_token() {
    let tokens = Lexer::run(String::from("a->b")).unwrap();
    assert_eq!(
        kinds(&tokens),
        vec![TokenKind::Identifier, TokenKind::Arrow, TokenKind::Identifier]
    );
    assert_eq!(texts(&tokens), vec!["a", "->", "b"]);
}

#[test]
fn minus_without_angle_is_minus() {
    let tokens = Lexer::run(String::from("a - b -")).unwrap();
    assert_eq!(
        kinds(&tokens),
        vec![
            TokenKind::Identifier,
            TokenKind::Minus,
            TokenKind::Identifier,
            TokenKind::Minus,
        ]
    );
}

#[test]
fn split_arrow_is_not_an_arrow() {
    let err = Lexer::run(String::from("- >")).unwrap_err();
    assert_eq!(err.kind, LexErrorKind::UnexpectedCharacter);
    assert_eq!(err.position, 2);
}

#[test]
fn colon_equals_is_one_assign() {
    let tokens = Lexer::run(String::from("x := 5")).unwrap();
    assert_eq!(
        kinds(&tokens),
        vec![TokenKind::Identifier, TokenKind::Assign, TokenKind::Integer]
    );
    assert_eq!(texts(&tokens), vec!["x", ":=", "5"]);
}

#[test]
fn lone_colon_is_colon() {
    let tokens = Lexer::run(String::from("x : =")).unwrap();
    assert_eq!(
        kinds(&tokens),
        vec![TokenKind::Identifier, TokenKind::Colon, TokenKind::Assign]
    );
}

#[test]
fn integer_then_period() {
    let tokens = Lexer::run(String::from("12.")).unwrap();
    assert_eq!(kinds(&tokens), vec![TokenKind::Integer, TokenKind::Period]);
    assert_eq!(texts(&tokens), vec!["12", "."]);
}

#[test]
fn digit_runs_are_maximal() {
    let tokens = Lexer::run(String::from("1234567890 5")).unwrap();
    assert_eq!(texts(&tokens), vec!["1234567890", "5"]);
    assert_eq!(kinds(&tokens), vec![TokenKind::Integer, TokenKind::Integer]);
}

#[test]
fn leading_minus_is_separate_token() {
    let tokens = Lexer::run(String::from("-5")).unwrap();
    assert_eq!(kinds(&tokens), vec![TokenKind::Minus, TokenKind::Integer]);
}

#[test]
fn string_keeps_quotes_and_whitespace() {
    let tokens = Lexer::run(String::from("\"a b\tc\"")).unwrap();
    assert_eq!(kinds(&tokens), vec![TokenKind::String]);
    assert_eq!(tokens[0].text, "\"a b\tc\"");
    assert_eq!(tokens[0].position, 0);
}

#[test]
fn backslash_does_not_escape_a_quote() {
    let err = Lexer::run(String::from("\"\\\"\"")).unwrap_err();
    assert_eq!(err.kind, LexErrorKind::UnterminatedString);
    assert_eq!(err.position, 3);
}

#[test]
fn unterminated_string_after_tokens() {
    let err = Lexer::run(String::from("let \"abc")).unwrap_err();
    assert_eq!(err.kind, LexErrorKind::UnterminatedString);
    assert_eq!(err.position, 4);
}

#[test]
fn error_position_after_identifier() {
    let err = Lexer::run(String::from("ab @")).unwrap_err();
    assert_eq!(err.kind, LexErrorKind::UnexpectedCharacter);
    assert_eq!(err.position, 3);
}

#[test]
fn rerun_yields_identical_sequence() {
    let input = "function f(a: int) -> int { return a + 1; }";
    let first = Lexer::run(String::from(input)).unwrap();
    let second = Lexer::run(String::from(input)).unwrap();
    assert_eq!(first, second);
}

#[test]
fn whitespace_between_tokens_changes_only_positions() {
    let tight = Lexer::run(String::from("let x=5;")).unwrap();
    let spread = Lexer::run(String::from("let \t x\n=  5 ;\r\n")).unwrap();
    assert_eq!(kinds(&tight), kinds(&spread));
    assert_eq!(texts(&tight), texts(&spread));
}

#[test]
fn positions_count_characters_from_zero() {
    let tokens = Lexer::run(String::from("  const k := \"v\"")).unwrap();
    let positions: Vec<usize> = tokens.iter().map(|t| t.position).collect();
    assert_eq!(positions, vec![2, 8, 10, 13]);
}

#[test]
fn error_messages() {
    let err = Lexer::run(String::from("\"")).unwrap_err();
    assert_eq!(err.message(), "unterminated string literal");
    let err = Lexer::run(String::from("#")).unwrap_err();
    assert_eq!(err.message(), "unexpected character");
}
