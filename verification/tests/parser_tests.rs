use json::LexError;
use json::ParseError;
use json::Parser;
use json::Value;

fn parse(input: &str) -> Value<'_> {
    let mut parser = Parser::new(input).expect("lexing the first token failed");
    parser.parse().expect("parse failed")
}

fn parse_err(input: &str) -> ParseError<'_> {
    let mut parser = Parser::new(input).expect("lexing the first token failed");
    match parser.parse() {
        Ok(v) => panic!("expected a parse error, got {:?}", v),
        Err(e) => e,
    }
}

#[test]
fn primitives() {
    assert_eq!(parse("123"), Value::Primitive("123"));
    assert_eq!(parse("\"123\""), Value::Primitive("123"));
    assert_eq!(parse("false"), Value::Primitive("false"));
    assert_eq!(parse("true"), Value::Primitive("true"));
    assert_eq!(parse("null"), Value::Primitive("null"));
}

#[test]
fn plist() {
    assert_eq!(
        parse("[1, 2, 3]"),
        Value::List {
            slice: "[1, 2, 3]",
            items: vec![
                Value::Primitive("1"),
                Value::Primitive("2"),
                Value::Primitive("3")
            ]
        }
    );
}

#[test]
fn pobj() {
    assert_eq!(
        parse("{ \"a\": false, \"b\": 2, \"c\": null }"),
        Value::Obj {
            slice: "{ \"a\": false, \"b\": 2, \"c\": null }",
            map: vec![
                ("a", Value::Primitive("false")),
                ("b", Value::Primitive("2")),
                ("c", Value::Primitive("null")),
            ]
            .into_iter()
            .collect()
        },
    );
}

#[test]
fn object_with_one_entry() {
    let input = "{ \"id\": 25 }";
    let value = parse(input);
    assert_eq!(
        value,
        Value::Obj {
            slice: "{ \"id\": 25 }",
            map: vec![("id", Value::Primitive("25"))],
        }
    );
    assert_eq!(value.as_text(), input);
}

#[test]
fn object_with_two_entries_in_order() {
    let input = "{ \"id\": 25, \"name\": \"bob\" }";
    let value = parse(input);
    assert_eq!(
        value,
        Value::Obj {
            slice: input,
            map: vec![("id", Value::Primitive("25")), ("name", Value::Primitive("bob"))],
        }
    );
}

#[test]
fn list_span_runs_bracket_to_bracket() {
    let value = parse("  [1, 2, 3]  ");
    assert_eq!(value.as_text(), "[1, 2, 3]");
}

#[test]
fn object_span_runs_brace_to_brace() {
    let value = parse("\n{ \"a\": 1 }\n");
    assert_eq!(value.as_text(), "{ \"a\": 1 }");
}

#[test]
fn nested_spans_are_verbatim_substrings() {
    let input = "{ \"id\": 25, \"users\": [\"bob\",  \"alice\"] }";
    let value = parse(input);
    assert_eq!(value.as_text(), input);
    match &value {
        Value::Obj { map, .. } => {
            assert_eq!(map[1].0, "users");
            assert_eq!(map[1].1.as_text(), "[\"bob\",  \"alice\"]");
        }
        other => panic!("expected an object, got {:?}", other),
    }
}

#[test]
fn empty_document_yields_null() {
    assert_eq!(parse(""), Value::Primitive("null"));
    assert_eq!(parse("   \n\t "), Value::Primitive("null"));
}

#[test]
fn empty_object_and_empty_list() {
    assert_eq!(parse("{}"), Value::Obj { slice: "{}", map: vec![] });
    assert_eq!(parse("[]"), Value::List { slice: "[]", items: vec![] });
}

#[test]
fn duplicate_key_keeps_last_value_and_first_position() {
    let value = parse("{ \"a\": 1, \"b\": 2, \"a\": 3 }");
    assert_eq!(
        value,
        Value::Obj {
            slice: "{ \"a\": 1, \"b\": 2, \"a\": 3 }",
            map: vec![("a", Value::Primitive("3")), ("b", Value::Primitive("2"))],
        }
    );
}

#[test]
fn integer_only_numbers() {
    // the lexer reads a maximal digit run, so the dot ends the number
    assert_eq!(parse("1.5"), Value::Primitive("1"));
}

#[test]
fn dot_is_an_invalid_character() {
    match Parser::new(".") {
        Err(LexError::InvalidChar { ch, row, col }) => {
            assert_eq!((ch, row, col), ('.', 1, 1));
        }
        Err(other) => panic!("expected an invalid-character error, got {:?}", other),
        Ok(_) => panic!("expected an invalid-character error, got a parser"),
    }
    assert_eq!(
        parse_err("[1, .5]"),
        ParseError::Lex(LexError::InvalidChar { ch: '.', row: 1, col: 5 })
    );
}

#[test]
fn invalid_literal_aborts_the_parse() {
    assert_eq!(
        parse_err("{ \"x\": tru }"),
        ParseError::Lex(LexError::InvalidLiteral { text: "tru", row: 1, col: 8 })
    );
}

#[test]
fn missing_comma_is_a_structural_error() {
    assert_eq!(
        parse_err("{ \"a\": 1 \"b\": 2 }"),
        ParseError::ExpectedCommaOrClose { found: "b", row: 1, col: 11 }
    );
}

#[test]
fn invalid_character_aborts_at_once() {
    match Parser::new("@") {
        Err(LexError::InvalidChar { ch, row, col }) => {
            assert_eq!((ch, row, col), ('@', 1, 1));
        }
        Err(other) => panic!("expected an invalid-character error, got {:?}", other),
        Ok(_) => panic!("expected an invalid-character error, got a parser"),
    }
}

#[test]
fn non_string_key_is_an_error() {
    assert_eq!(
        parse_err("{ 1: 2 }"),
        ParseError::NonStringKey { found: "1", row: 1, col: 3 }
    );
}

#[test]
fn missing_colon_is_an_error() {
    assert_eq!(
        parse_err("{ \"a\" 1 }"),
        ParseError::ExpectedColon { found: "1", row: 1, col: 7 }
    );
}

#[test]
fn value_expected_error() {
    assert_eq!(
        parse_err("[ : ]"),
        ParseError::ExpectedValue { found: ":", row: 1, col: 3 }
    );
}

#[test]
fn unterminated_composite_is_an_error() {
    assert_eq!(parse_err("{ \"a\": 1"), ParseError::UnexpectedEnd);
    assert_eq!(parse_err("[1, 2"), ParseError::UnexpectedEnd);
    assert_eq!(parse_err("{"), ParseError::UnexpectedEnd);
}

#[test]
fn trailing_comma_is_an_error() {
    assert_eq!(
        parse_err("[1,]"),
        ParseError::ExpectedValue { found: "]", row: 1, col: 4 }
    );
    assert_eq!(
        parse_err("{ \"a\": 1, }"),
        ParseError::NonStringKey { found: "}", row: 1, col: 11 }
    );
}

#[test]
fn errors_report_line_and_column() {
    assert_eq!(
        parse_err("{\n  \"a\" 1\n}"),
        ParseError::ExpectedColon { found: "1", row: 2, col: 7 }
    );
}

#[test]
fn unterminated_string_closes_early() {
    assert_eq!(parse("\"abc"), Value::Primitive("abc"));
}
