use indexmap::IndexMap;

use json_parser::{from_str, JsonError, ParseError, TokenizeError, Value};
use json_parser::value::escape_string;

/// A value with its numbers read as `f64`, to compare with expected values.
#[derive(Debug, PartialEq)]
enum V {
    Null,
    Boolean(bool),
    Number(f64),
    String(String),
    Array(Vec<V>),
    Object(IndexMap<String, V>),
}

fn v(value: &Value) -> V {
    match value {
        Value::Null => V::Null,
        Value::Boolean(b) => V::Boolean(*b),
        Value::Number(text) => V::Number(text.parse::<f64>().unwrap()),
        Value::String(s) => V::String(s.clone()),
        Value::Array(items) => V::Array(items.iter().map(v).collect()),
        Value::Object(map) => {
            let mut out = IndexMap::new();
            for i in 0..map.len() {
                let (k, x) = map.get_index(i).unwrap();
                out.insert(k.clone(), v(x));
            }
            V::Object(out)
        }
    }
}

#[test]
fn test_end_to_end_pipeline() {
    let json_input = r#"{
            "project": "Custom JSON Parser",
            "complete": true,
            "version": 1.0,
            "contributors": [null, "You"]
        }"#;

    let result = from_str(json_input).unwrap();

    let mut expected_map = IndexMap::new();
    expected_map.insert(
        "project".to_string(),
        V::String("Custom JSON Parser".to_string()),
    );
    expected_map.insert("complete".to_string(), V::Boolean(true));
    expected_map.insert("version".to_string(), V::Number(1.0));
    expected_map.insert(
        "contributors".to_string(),
        V::Array(vec![V::Null, V::String("You".to_string())]),
    );

    assert_eq!(v(&result), V::Object(expected_map));
}

#[test]
fn test_pipeline_error_forwarding() {
    // Missing a closing quote should trigger a tokenizer error wrapped in JsonError
    let broken_json = r#"{"name": "Alice}"#;
    assert_eq!(
        from_str(broken_json),
        Err(JsonError::Tokenizer(TokenizeError::UnclosedQuotes))
    );
}

#[test]
fn lib_test_error_display() {
    assert_eq!(
        JsonError::Tokenizer(TokenizeError::UnclosedQuotes).to_string(),
        "tokenizer error: unclosed quotes"
    );
    assert_eq!(
        JsonError::Parser(ParseError::UnexpectedEof).to_string(),
        "parser error: unexpected end of file"
    )
}

#[test]
fn test_display_round_trip() {
    let json = r#"{"name":"alice","scores":[1,2],"active":true}"#;
    let parsed = from_str(json).unwrap();
    let serialized = parsed.to_string();
    let reparsed = from_str(&serialized).unwrap();
    println!("{parsed:?}");
    assert_eq!(parsed, reparsed);
}

// ---------------------------------------------------------------------------
// Further cases
// ---------------------------------------------------------------------------

#[test]
fn serialization_is_compact() {
    let parsed = from_str(" { \"a\" : [ 1 , -2.5e3 , \"x\\ty\" ] , \"b\" : { } , \"c\" : null } ")
        .unwrap();
    assert_eq!(
        parsed.to_string(),
        r#"{"a":[1,-2.5e3,"x\ty"],"b":{},"c":null}"#
    );
}

#[test]
fn round_trip_with_escapes_and_nesting() {
    let json = r#"[{"k\"ey":"line\nbreak\\ \u00e9 \/"}, [], [[false]], -0.5e-7, "\b\f\r"]"#;
    let parsed = from_str(json).unwrap();
    let reparsed = from_str(&parsed.to_string()).unwrap();
    assert_eq!(parsed, reparsed);
    assert_eq!(reparsed.to_string(), parsed.to_string());
}

#[test]
fn escape_string_examples() {
    assert_eq!(escape_string("plain"), "plain");
    assert_eq!(escape_string("a\"b\\c"), "a\\\"b\\\\c");
    assert_eq!(escape_string("\n\r\t\u{8}\u{c}"), "\\n\\r\\t\\b\\f");
    assert_eq!(escape_string("/ é"), "/ é");
}

#[test]
fn parser_error_is_forwarded() {
    assert_eq!(
        from_str("[1,]"),
        Err(JsonError::Parser(ParseError::UnexpectedToken(
            json_parser::Token::RightBracket
        )))
    );
    assert_eq!(
        JsonError::from(ParseError::ExpectedColon),
        JsonError::Parser(ParseError::ExpectedColon)
    );
    assert_eq!(
        JsonError::from(TokenizeError::UnclosedQuotes).to_string(),
        "tokenizer error: unclosed quotes"
    );
}

#[test]
fn built_value_reads_back_as_itself() {
    let mut inner = json_parser::ObjectMap::new();
    inner.insert("k".to_string(), Value::Number("-1.5e3".to_string()));
    inner.insert("q\"uote".to_string(), Value::Boolean(false));
    inner.insert("k".to_string(), Value::Number("7".to_string()));
    let v = Value::Array(vec![
        Value::Object(inner),
        Value::Null,
        Value::String("tab\there".to_string()),
        Value::Array(Vec::new()),
    ]);
    let text = v.to_string();
    assert_eq!(text, r#"[{"k":7,"q\"uote":false},null,"tab\there",[]]"#);
    assert_eq!(from_str(&text), Ok(v));
}
