use std::collections::HashMap;

use json_parser::parse::{parse, ParseError};
use json_parser::tokenize::{tokenize, Token};
use json_parser::value::{ObjectMap, Value};

/// A value with its numbers read as `f64` and its objects as maps, to
/// compare with expected values.
#[derive(Debug, PartialEq)]
enum V {
    Null,
    Boolean(bool),
    Number(f64),
    String(String),
    Array(Vec<V>),
    Object(HashMap<String, V>),
}

fn v(value: &Value) -> V {
    match value {
        Value::Null => V::Null,
        Value::Boolean(b) => V::Boolean(*b),
        Value::Number(text) => V::Number(text.parse::<f64>().unwrap()),
        Value::String(s) => V::String(s.clone()),
        Value::Array(items) => V::Array(items.iter().map(v).collect()),
        Value::Object(map) => {
            let mut out = HashMap::new();
            for i in 0..map.len() {
                let (k, x) = map.get_index(i).unwrap();
                out.insert(k.clone(), v(x));
            }
            V::Object(out)
        }
    }
}

#[test]
fn test_parse_primitive_arrays() {
    let tokens = tokenize(r#"[null, true, [42.0]]"#).unwrap();
    let parsed = parse(&tokens).unwrap();

    let expected = V::Array(vec![
        V::Null,
        V::Boolean(true),
        V::Array(vec![V::Number(42.0)]),
    ]);

    assert_eq!(v(&parsed), expected);
}

#[test]
fn test_illegal_trailing_comma() {
    let tokens = tokenize(r#"[1, 2, ]"#).unwrap();
    assert_eq!(
        parse(&tokens),
        Err(ParseError::UnexpectedToken(Token::RightBracket))
    );
}

#[test]
fn test_parse_complex_object() {
    let input = r#"{
            "user": "Bob",
            "age": 30.0,
            "skills": ["Rust", "Python"]
        }"#;

    let tokens = tokenize(input).unwrap();
    let parsed = parse(&tokens).unwrap();

    let mut expected_map = HashMap::new();
    expected_map.insert("user".to_string(), V::String("Bob".to_string()));
    expected_map.insert("age".to_string(), V::Number(30.0));
    expected_map.insert(
        "skills".to_string(),
        V::Array(vec![
            V::String("Rust".to_string()),
            V::String("Python".to_string()),
        ]),
    );

    assert_eq!(v(&parsed), V::Object(expected_map));
}

#[test]
fn test_deeply_nested_arrays() {
    let tokens = tokenize(r#"[[[[1.0]]]]"#).unwrap();
    let parsed = parse(&tokens).unwrap();

    let expected = V::Array(vec![V::Array(vec![V::Array(vec![V::Array(vec![
        V::Number(1.0),
    ])])])]);

    assert_eq!(v(&parsed), expected);
}

// ---------------------------------------------------------------------------
// Further cases
// ---------------------------------------------------------------------------

fn parse_text(s: &str) -> Result<Value, ParseError> {
    parse(&tokenize(s).unwrap())
}

#[test]
fn object_keeps_insertion_order() {
    let parsed = parse_text(r#"{"b": 1, "a": 2, "c": 3}"#).unwrap();
    match parsed {
        Value::Object(map) => {
            let keys: Vec<String> = (0..map.len())
                .map(|i| map.get_index(i).unwrap().0.clone())
                .collect();
            assert_eq!(keys, vec!["b", "a", "c"]);
        }
        _ => panic!("not an object"),
    }
}

#[test]
fn repeated_key_keeps_place_takes_last_value() {
    let parsed = parse_text(r#"{"a": 1, "b": 2, "a": 3}"#).unwrap();
    match parsed {
        Value::Object(map) => {
            assert_eq!(map.len(), 2);
            let (k0, v0) = map.get_index(0).unwrap();
            assert_eq!(k0, "a");
            assert_eq!(v0, &Value::Number("3".to_string()));
            assert_eq!(map.get("b"), Some(&Value::Number("2".to_string())));
            assert_eq!(map.get("z"), None);
        }
        _ => panic!("not an object"),
    }
}

#[test]
fn trailing_comma_in_object() {
    assert_eq!(
        parse_text(r#"{"a": 1,}"#),
        Err(ParseError::UnexpectedToken(Token::RightBrace))
    );
}

#[test]
fn non_string_key() {
    assert_eq!(
        parse_text(r#"{1: 2}"#),
        Err(ParseError::UnexpectedToken(Token::Number("1".to_string())))
    );
}

#[test]
fn missing_colon() {
    assert_eq!(parse_text(r#"{"a" 1}"#), Err(ParseError::ExpectedColon));
}

#[test]
fn missing_separator() {
    assert_eq!(
        parse_text(r#"[1 2]"#),
        Err(ParseError::UnexpectedToken(Token::Number("2".to_string())))
    );
    assert_eq!(
        parse_text(r#"{"a": 1 "b": 2}"#),
        Err(ParseError::UnexpectedToken(Token::String("b".to_string())))
    );
}

#[test]
fn unexpected_end() {
    assert_eq!(parse_text(""), Err(ParseError::UnexpectedEof));
    assert_eq!(parse_text("["), Err(ParseError::UnexpectedEof));
    assert_eq!(parse_text("[1"), Err(ParseError::UnexpectedEof));
    assert_eq!(parse_text("{\"a\""), Err(ParseError::UnexpectedEof));
    assert_eq!(parse_text("{\"a\":"), Err(ParseError::UnexpectedEof));
}

#[test]
fn leftover_tokens() {
    assert_eq!(
        parse_text("1 2"),
        Err(ParseError::UnexpectedToken(Token::Number("2".to_string())))
    );
    assert_eq!(parse_text("[] ]"), Err(ParseError::UnexpectedToken(Token::RightBracket)));
}

#[test]
fn stray_punctuation() {
    assert_eq!(parse_text(":"), Err(ParseError::UnexpectedToken(Token::Colon)));
    assert_eq!(parse_text("[,1]"), Err(ParseError::UnexpectedToken(Token::Comma)));
    assert_eq!(parse_text("[1,}"), Err(ParseError::UnexpectedToken(Token::RightBrace)));
}

#[test]
fn empty_containers() {
    assert_eq!(parse_text("[]"), Ok(Value::Array(Vec::new())));
    assert_eq!(parse_text("{}"), Ok(Value::Object(ObjectMap::new())));
}

#[test]
fn parse_error_messages() {
    assert_eq!(ParseError::UnexpectedEof.to_string(), "unexpected end of file");
    assert_eq!(
        ParseError::UnexpectedToken(Token::RightBracket).to_string(),
        "unexpected token: ]"
    );
    assert_eq!(ParseError::ExpectedColon.to_string(), "expected ':'");
    assert_eq!(ParseError::ExpectedComma.to_string(), "expected ','");
}

#[test]
fn tokens_after_a_complete_value_are_rejected() {
    let first = tokenize("[1, {\"a\": null}]").unwrap();
    assert!(parse(&first).is_ok());
    let extra = tokenize("true ]").unwrap();
    let all = [first, extra].concat();
    assert_eq!(parse(&all), Err(ParseError::UnexpectedToken(Token::True)));
    // The tokens of "1-2".
    assert_eq!(
        parse(&tokenize("1-2").unwrap()),
        Err(ParseError::UnexpectedToken(Token::Number("-2".to_string())))
    );
}

#[test]
fn clone_is_equal_and_independent() {
    let parsed = parse_text(r#"{"b": [1, "x"], "a": {"c": true}}"#).unwrap();
    let copy = parsed.clone();
    assert_eq!(copy, parsed);
    assert_eq!(copy.to_string(), parsed.to_string());
    if let (Value::Object(mut m), Value::Object(orig)) = (copy, parsed) {
        m.insert("z".to_string(), Value::Null);
        assert_eq!(m.len(), 3);
        assert_eq!(orig.len(), 2);
        let m2 = orig.clone();
        assert_eq!(m2.get_index(0).unwrap().0, "b");
    } else {
        panic!("not an object");
    }
}
