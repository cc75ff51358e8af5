use json::Lexer;
use json::Token;
use json::TokenType::Colon;
use json::TokenType::Comma;
use json::TokenType::LeftBrace;
use json::TokenType::LeftBracket;
use json::TokenType::Literal;
use json::TokenType::Number;
use json::TokenType::RightBrace;
use json::TokenType::RightBracket;
use json::TokenType::String;

fn lex(input: &str, expected_tokens: Vec<Token>) {
    let mut lexer = Lexer::new(input);
    let mut tokens: Vec<Token> = Vec::new();
    loop {
        match lexer.next() {
            Ok(Some(token)) => tokens.push(token),
            Ok(None) => break,
            Err(e) => panic!("lexer error: {:?}", e),
        }
    }
    assert_eq!(tokens, expected_tokens, "input: {}", input);
}

#[test]
fn symbols() {
    lex(
        "{}[]:,",
        vec![
            Token::from_args(LeftBrace, "{", 1, 1),
            Token::from_args(RightBrace, "}", 1, 2),
            Token::from_args(LeftBracket, "[", 1, 3),
            Token::from_args(RightBracket, "]", 1, 4),
            Token::from_args(Colon, ":", 1, 5),
            Token::from_args(Comma, ",", 1, 6),
        ],
    );
}

#[test]
fn number() {
    lex("123", vec![Token::from_args(Number, "123", 1, 1)]);
}

#[test]
fn str() {
    lex("\"hello\"", vec![Token::from_args(String, "hello", 1, 2)]);
    lex("\"world\"", vec![Token::from_args(String, "world", 1, 2)]);
}

#[test]
fn one_item() {
    lex(
        r#"{ "id": 25 }"#,
        vec![
            Token::from_args(LeftBrace, "{", 1, 1),
            Token::from_args(String, "id", 1, 4),
            Token::from_args(Colon, ":", 1, 7),
            Token::from_args(Number, "25", 1, 9),
            Token::from_args(RightBrace, "}", 1, 12),
        ],
    );
}

#[test]
fn two_items() {
    lex(
        r#"{ "id": 25, "name": "bob" }"#,
        vec![
            Token::from_args(LeftBrace, "{", 1, 1),
            Token::from_args(String, "id", 1, 4),
            Token::from_args(Colon, ":", 1, 7),
            Token::from_args(Number, "25", 1, 9),
            Token::from_args(Comma, ",", 1, 11),
            Token::from_args(String, "name", 1, 14),
            Token::from_args(Colon, ":", 1, 19),
            Token::from_args(String, "bob", 1, 22),
            Token::from_args(RightBrace, "}", 1, 27),
        ],
    );
}

#[test]
fn empty_string() {
    lex(
        r#"{ "id": "", "name": 23423 }"#,
        vec![
            Token::from_args(LeftBrace, "{", 1, 1),
            Token::from_args(String, "id", 1, 4),
            Token::from_args(Colon, ":", 1, 7),
            Token::from_args(String, "", 1, 10),
            Token::from_args(Comma, ",", 1, 11),
            Token::from_args(String, "name", 1, 14),
            Token::from_args(Colon, ":", 1, 19),
            Token::from_args(Number, "23423", 1, 21),
            Token::from_args(RightBrace, "}", 1, 27),
        ],
    );
}

#[test]
fn literal() {
    lex("true", vec![Token::from_args(Literal, "true", 1, 1)]);
    lex("false", vec![Token::from_args(Literal, "false", 1, 1)]);
    lex("null", vec![Token::from_args(Literal, "null", 1, 1)]);

    lex(
        r#"{ "id": true }"#,
        vec![
            Token::from_args(LeftBrace, "{", 1, 1),
            Token::from_args(String, "id", 1, 4),
            Token::from_args(Colon, ":", 1, 7),
            Token::from_args(Literal, "true", 1, 9),
            Token::from_args(RightBrace, "}", 1, 14),
        ],
    );

    lex(
        r#"{ "id": false }"#,
        vec![
            Token::from_args(LeftBrace, "{", 1, 1),
            Token::from_args(String, "id", 1, 4),
            Token::from_args(Colon, ":", 1, 7),
            Token::from_args(Literal, "false", 1, 9),
            Token::from_args(RightBrace, "}", 1, 15),
        ],
    );

    lex(
        r#"{ "id": null }"#,
        vec![
            Token::from_args(LeftBrace, "{", 1, 1),
            Token::from_args(String, "id", 1, 4),
            Token::from_args(Colon, ":", 1, 7),
            Token::from_args(Literal, "null", 1, 9),
            Token::from_args(RightBrace, "}", 1, 14),
        ],
    );
}

#[test]
fn llist() {
    lex(
        r#"{ "id": 25, "users": ["bob", "alice"] }"#,
        vec![
            Token::from_args(LeftBrace, "{", 1, 1),
            Token::from_args(String, "id", 1, 4),
            Token::from_args(Colon, ":", 1, 7),
            Token::from_args(Number, "25", 1, 9),
            Token::from_args(Comma, ",", 1, 11),
            Token::from_args(String, "users", 1, 14),
            Token::from_args(Colon, ":", 1, 20),
            Token::from_args(LeftBracket, "[", 1, 22),
            Token::from_args(String, "bob", 1, 24),
            Token::from_args(Comma, ",", 1, 28),
            Token::from_args(String, "alice", 1, 31),
            Token::from_args(RightBracket, "]", 1, 37),
            Token::from_args(RightBrace, "}", 1, 39),
        ],
    );
}

#[test]
fn lobj() {
    lex(
        r#"{ "a": false, "b": 2, "c": null }"#,
        vec![
            Token::from_args(LeftBrace, "{", 1, 1),
            Token::from_args(String, "a", 1, 4),
            Token::from_args(Colon, ":", 1, 6),
            Token::from_args(Literal, "false", 1, 8),
            Token::from_args(Comma, ",", 1, 13),
            Token::from_args(String, "b", 1, 16),
            Token::from_args(Colon, ":", 1, 18),
            Token::from_args(Number, "2", 1, 20),
            Token::from_args(Comma, ",", 1, 21),
            Token::from_args(String, "c", 1, 24),
            Token::from_args(Colon, ":", 1, 26),
            Token::from_args(Literal, "null", 1, 28),
            Token::from_args(RightBrace, "}", 1, 33),
        ],
    );
}

#[test]
fn newline_starts_a_fresh_line() {
    lex(
        "1\n22",
        vec![
            Token::from_args(Number, "1", 1, 1),
            Token::from_args(Number, "22", 2, 1),
        ],
    );
}

#[test]
fn string_closed_by_whitespace() {
    lex(
        "\"ab 12\"",
        vec![
            Token::from_args(String, "ab", 1, 2),
            Token::from_args(Number, "12", 1, 5),
            Token::from_args(String, "", 1, 8),
        ],
    );
}

#[test]
fn string_closed_by_end_of_input() {
    lex("\"abc", vec![Token::from_args(String, "abc", 1, 2)]);
}

#[test]
fn invalid_character_is_reported() {
    let mut lexer = Lexer::new("  @");
    match lexer.next() {
        Err(json::LexError::InvalidChar { ch, row, col }) => {
            assert_eq!(ch, '@');
            assert_eq!(row, 1);
            assert_eq!(col, 3);
        }
        other => panic!("expected an invalid-character error, got {:?}", other),
    }
}

#[test]
fn dot_never_starts_a_token() {
    let mut lexer = Lexer::new("1.5");
    match lexer.next() {
        Ok(Some(token)) => assert_eq!(token, Token::from_args(Number, "1", 1, 1)),
        other => panic!("expected the number token, got {:?}", other),
    }
    match lexer.next() {
        Err(json::LexError::InvalidChar { ch, row, col }) => {
            assert_eq!((ch, row, col), ('.', 1, 2));
        }
        other => panic!("expected an invalid-character error, got {:?}", other),
    }
}

#[test]
fn invalid_literal_is_reported() {
    let mut lexer = Lexer::new("tru");
    match lexer.next() {
        Err(json::LexError::InvalidLiteral { text, row, col }) => {
            assert_eq!(text, "tru");
            assert_eq!(row, 1);
            assert_eq!(col, 1);
        }
        other => panic!("expected an invalid-literal error, got {:?}", other),
    }
}
