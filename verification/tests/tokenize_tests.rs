use json_parser::tokenize::{tokenize, Token, TokenizeError};

/// A token with its number read as `f64`, to compare with expected values.
#[derive(Debug, PartialEq)]
enum Tok {
    LeftBrace,
    RightBrace,
    LeftBracket,
    RightBracket,
    Comma,
    Colon,
    Number(f64),
    String(String),
    True,
    False,
    Null,
}

fn tok(t: &Token) -> Tok {
    match t {
        Token::LeftBrace => Tok::LeftBrace,
        Token::RightBrace => Tok::RightBrace,
        Token::LeftBracket => Tok::LeftBracket,
        Token::RightBracket => Tok::RightBracket,
        Token::Comma => Tok::Comma,
        Token::Colon => Tok::Colon,
        Token::Number(text) => Tok::Number(text.parse::<f64>().unwrap()),
        Token::String(s) => Tok::String(s.clone()),
        Token::True => Tok::True,
        Token::False => Tok::False,
        Token::Null => Tok::Null,
    }
}

fn toks(tokens: &[Token]) -> Vec<Tok> {
    tokens.iter().map(tok).collect()
}

#[test]
fn test_complete_tokenizer_pipeline() {
    let input = r#"{
            "id": 101,
            "balance": -45.5,
            "verified": true,
            "tags": [null, "user"]
        }"#;

    let expected = vec![
        Tok::LeftBrace,
        Tok::String("id".to_string()),
        Tok::Colon,
        Tok::Number(101.0),
        Tok::Comma,
        Tok::String("balance".to_string()),
        Tok::Colon,
        Tok::Number(-45.5),
        Tok::Comma,
        Tok::String("verified".to_string()),
        Tok::Colon,
        Tok::True,
        Tok::Comma,
        Tok::String("tags".to_string()),
        Tok::Colon,
        Tok::LeftBracket,
        Tok::Null,
        Tok::Comma,
        Tok::String("user".to_string()),
        Tok::RightBracket,
        Tok::RightBrace,
    ];

    assert_eq!(toks(&tokenize(input).unwrap()), expected);
}

#[test]
fn test_escapes_and_scientific_notations() {
    let input = r#"[ "line\nbreak", 6.022e+23, -0e-5 ]"#;
    let tokens = tokenize(input).unwrap();

    let expected = vec![
        Tok::LeftBracket,
        Tok::String("line\nbreak".to_string()),
        Tok::Comma,
        Tok::Number(6.022e23),
        Tok::Comma,
        Tok::Number(-0.0),
        Tok::RightBracket,
    ];

    assert_eq!(toks(&tokens), expected);
}

#[test]
fn test_mid_number_dash_is_error() {
    // A dash mid-number should NOT be consumed as part of the token
    let tokens = tokenize("1-2").unwrap();
    assert_eq!(tokens.len(), 2);
    assert_eq!(tok(&tokens[0]), Tok::Number(1.0));
}

#[test]
fn test_unclosed_string() {
    let input = r#""missing quote"#;
    assert_eq!(tokenize(input), Err(TokenizeError::UnclosedQuotes));
}

#[test]
fn test_bad_escape_sequence() {
    let input = r#""bad \x escape""#;
    assert_eq!(tokenize(input), Err(TokenizeError::InvalidEscapeSequence('x')));
}

#[test]
fn test_valid_unicode_escapes() {
    let input = r#"[ "Copyright \u00A9", "\u231B" ]"#;
    let tokens = tokenize(input).unwrap();

    let expected = vec![
        Tok::LeftBracket,
        Tok::String("Copyright ©".to_string()),
        Tok::Comma,
        Tok::String("⌛".to_string()),
        Tok::RightBracket,
    ];

    assert_eq!(toks(&tokens), expected);
}

#[test]
fn test_invalid_unicode_hex() {
    let input = r#""\u12z4""#;
    assert_eq!(tokenize(input), Err(TokenizeError::InvalidEscapeSequence('u')));
}

#[test]
fn test_short_unicode_escape() {
    let input = r#""\u00A""#;
    assert_eq!(tokenize(input), Err(TokenizeError::InvalidEscapeSequence('u')));
}

#[test]
fn tokenize_test_error_display() {
    assert_eq!(TokenizeError::UnclosedQuotes.to_string(), "unclosed quotes");
    assert_eq!(
        TokenizeError::CharNotRecognized('!').to_string(),
        "character not recognized: '!'"
    );
    assert_eq!(
        TokenizeError::InvalidEscapeSequence('x').to_string(),
        "invalid escape sequence: '\\x'"
    );
}

// ---------------------------------------------------------------------------
// Further cases
// ---------------------------------------------------------------------------

#[test]
fn numbers_keep_their_text() {
    let tokens = tokenize("[6.022e+23, -0e-5, 1.0, 1E5, -.5]").unwrap();
    let texts: Vec<String> = tokens
        .iter()
        .filter_map(|t| match t {
            Token::Number(s) => Some(s.clone()),
            _ => None,
        })
        .collect();
    assert_eq!(texts, vec!["6.022e+23", "-0e-5", "1.0", "1E5", "-.5"]);
}

#[test]
fn invalid_number_formats() {
    assert_eq!(
        tokenize("-"),
        Err(TokenizeError::InvalidNumberFormat("-".to_string()))
    );
    assert_eq!(
        tokenize("[1e]"),
        Err(TokenizeError::InvalidNumberFormat("1e".to_string()))
    );
    assert_eq!(
        tokenize("1e+"),
        Err(TokenizeError::InvalidNumberFormat("1e+".to_string()))
    );
    assert_eq!(
        tokenize("-e5"),
        Err(TokenizeError::InvalidNumberFormat("-e5".to_string()))
    );
    // A trailing point is accepted, as f64's grammar accepts it.
    assert_eq!(toks(&tokenize("1.").unwrap()), vec![Tok::Number(1.0)]);
}

#[test]
fn second_decimal_point_is_not_recognized() {
    assert_eq!(tokenize("1.5.3"), Err(TokenizeError::CharNotRecognized('.')));
}

#[test]
fn unknown_words() {
    assert_eq!(tokenize("nul"), Err(TokenizeError::CharNotRecognized('n')));
    assert_eq!(tokenize("truefalse"), Err(TokenizeError::CharNotRecognized('t')));
    assert_eq!(tokenize("[x]"), Err(TokenizeError::CharNotRecognized('x')));
    assert_eq!(tokenize("@"), Err(TokenizeError::CharNotRecognized('@')));
}

#[test]
fn keywords_and_punctuation() {
    let tokens = tokenize("{}[],:true false null").unwrap();
    assert_eq!(
        toks(&tokens),
        vec![
            Tok::LeftBrace,
            Tok::RightBrace,
            Tok::LeftBracket,
            Tok::RightBracket,
            Tok::Comma,
            Tok::Colon,
            Tok::True,
            Tok::False,
            Tok::Null,
        ]
    );
}

#[test]
fn all_simple_escapes() {
    let tokens = tokenize(r#""\"\\\/\b\f\n\r\t""#).unwrap();
    assert_eq!(
        toks(&tokens),
        vec![Tok::String("\"\\/\u{8}\u{c}\n\r\t".to_string())]
    );
}

#[test]
fn escape_at_end_of_input() {
    assert_eq!(tokenize("\"abc\\"), Err(TokenizeError::UnexpectedEof));
    assert_eq!(tokenize("\"\\u12"), Err(TokenizeError::UnexpectedEof));
}

#[test]
fn surrogate_escape_is_rejected() {
    assert_eq!(
        tokenize(r#""\uD800""#),
        Err(TokenizeError::InvalidEscapeSequence('u'))
    );
}

#[test]
fn unicode_whitespace_is_skipped() {
    let tokens = tokenize("\u{3000}[\u{A0}1\u{2028}]\u{85}").unwrap();
    assert_eq!(
        toks(&tokens),
        vec![Tok::LeftBracket, Tok::Number(1.0), Tok::RightBracket]
    );
}

#[test]
fn whitespace_matches_char_is_whitespace() {
    for code in 0u32..0x11000 {
        if let Some(c) = char::from_u32(code) {
            assert_eq!(json_parser::tokenize::whitespace(c), c.is_whitespace(), "{:?}", c);
        }
    }
}

#[test]
fn raw_characters_inside_strings() {
    let tokens = tokenize("\"a\nb\u{1F600}\"").unwrap();
    assert_eq!(toks(&tokens), vec![Tok::String("a\nb\u{1F600}".to_string())]);
}

#[test]
fn tokenize_error_messages() {
    assert_eq!(TokenizeError::UnexpectedEof.to_string(), "unexpected end of file");
    assert_eq!(
        TokenizeError::InvalidNumberFormat("1e".to_string()).to_string(),
        "invalid number format: 1e"
    );
}

#[test]
fn token_text() {
    assert_eq!(Token::String("a\"b".to_string()).to_string(), "\"a\\\"b\"");
    assert_eq!(Token::Number("-1.5e3".to_string()).to_string(), "-1.5e3");
    assert_eq!(Token::RightBracket.to_string(), "]");
    assert_eq!(Token::Null.to_string(), "null");
}

#[test]
fn empty_and_blank_input() {
    assert_eq!(tokenize("").unwrap().len(), 0);
    assert_eq!(tokenize(" \t\n ").unwrap().len(), 0);
}

#[test]
fn whitespace_between_tokens_changes_nothing() {
    let a = "[1, \"x\"";
    let b = "true]";
    let w = " \u{3000}\n\t";
    let mut joined = tokenize(a).unwrap();
    joined.extend(tokenize(b).unwrap());
    assert_eq!(tokenize(&format!("{}{}{}", a, w, b)).unwrap(), joined);
    assert_eq!(tokenize(&format!("{}{}", w, a)).unwrap(), tokenize(a).unwrap());
    assert_eq!(tokenize(&format!("{}{}", b, w)).unwrap(), tokenize(b).unwrap());
}
