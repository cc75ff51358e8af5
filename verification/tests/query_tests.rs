use json::Parser;
use json::QueryError;
use json::Value;

fn parse(input: &str) -> Value<'_> {
    let mut parser = Parser::new(input).expect("lexing the first token failed");
    parser.parse().expect("parse failed")
}

const DOC: &str = "{ \"id\": 25, \"users\": [\"bob\", \"alice\"], \"empty\": {} }";

#[test]
fn query_key_on_object() {
    let value = parse(DOC);
    let found = value.query("id").expect("key should be found");
    assert_eq!(*found, Value::Primitive("25"));
}

#[test]
fn query_index_on_list() {
    let value = parse(DOC);
    assert_eq!(*value.query("users.0").unwrap(), Value::Primitive("bob"));
    assert_eq!(*value.query("users.1").unwrap(), Value::Primitive("alice"));
}

#[test]
fn query_empty_path_names_the_root() {
    let value = parse(DOC);
    let root = value.query("").unwrap();
    assert_eq!(root.as_text(), DOC);
}

#[test]
fn query_missing_key() {
    let value = parse(DOC);
    assert_eq!(value.query("nope"), Err(QueryError::KeyNotFound));
    assert_eq!(value.query("empty.x"), Err(QueryError::KeyNotFound));
}

#[test]
fn query_index_out_of_range() {
    let value = parse(DOC);
    assert_eq!(value.query("users.2"), Err(QueryError::IndexOutOfRange));
    assert_eq!(
        value.query("users.99999999999999999999999999"),
        Err(QueryError::IndexOutOfRange)
    );
}

#[test]
fn query_non_numeric_list_component() {
    let value = parse(DOC);
    assert_eq!(value.query("users.first"), Err(QueryError::InvalidIndex));
}

#[test]
fn query_into_a_primitive_fails() {
    let value = parse(DOC);
    assert_eq!(value.query("id.x"), Err(QueryError::NotAContainer));
    let prim = parse("42");
    assert_eq!(prim.query("x"), Err(QueryError::NotAContainer));
}

#[test]
fn query_primitive_text_is_verbatim() {
    let value = parse(DOC);
    assert_eq!(value.query("users.1").unwrap().as_text(), "alice");
    assert_eq!(value.query("users").unwrap().as_text(), "[\"bob\", \"alice\"]");
}
