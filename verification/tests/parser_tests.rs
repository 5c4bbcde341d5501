use json_parser::parser::{parse_string, parse_tokens, TokenParseError};
use json_parser::tokenize::{tokenize, Number, Token};
use json_parser::Value;

fn num_token(negative: bool, digits: &str) -> Token {
    Token::Number(Number { negative, digits: String::from(digits) })
}

fn num_value(negative: bool, digits: &str) -> Value {
    Value::Number(Number { negative, digits: String::from(digits) })
}

fn check(input: &Vec<Token>, expected: Value) {
    let actual = parse_tokens(input, &mut 0).unwrap();

    assert_eq!(actual, expected);
}

#[test]
fn parses_null() {
    let input = vec![Token::Null];
    let expected = Value::Null;

    check(&input, expected);
}

#[test]
fn parse_false() {
    let input = vec![Token::False];
    let expected = Value::Boolean(false);

    check(&input, expected);
}

#[test]
fn parse_true() {
    let input = vec![Token::True];
    let expected = Value::Boolean(true);

    check(&input, expected);
}

#[test]
fn parse_number() {
    let input = vec![num_token(false, "1.2")];
    let expected = num_value(false, "1.2");

    check(&input, expected);
}

#[test]
fn parse_string_no_escape() {
    let input = vec![Token::String("hello world".into())];
    let expected = Value::String("hello world".into());

    check(&input, expected);
}

#[test]
fn parse_string_non_ascii() {
    let input = vec![Token::String("ol√°_„Åì„Çì„Å´„Å°„ÅØ_‡§®‡§Æ‡§∏‡•ç‡§§‡•á_–ø—Ä–∏–≤—ñ—Ç".into())];
    let expected = Value::String("ol√°_„Åì„Çì„Å´„Å°„ÅØ_‡§®‡§Æ‡§∏‡•ç‡§§‡•á_–ø—Ä–∏–≤—ñ—Ç".into());

    check(&input, expected);
}

#[test]
fn parse_string_with_emoji() {
    let input = vec![Token::String("hello üí© world".into())];
    let expected = Value::String("hello üí© world".into());

    check(&input, expected);
}

#[test]
fn parse_string_unescape_backslash() {
    let input = vec![Token::String(r#"hello\\world"#.into())];
    let expected = Value::String(r#"hello\world"#.into());

    check(&input, expected);
}

#[test]
fn parses_array_one_element() {
    // [true]
    let input = vec![
        Token::LeftSquareBracket,
        Token::True,
        Token::RightSquareBracket,
    ];
    let expected = Value::Array(vec![Value::Boolean(true)]);

    check(&input, expected);
}

#[test]
fn parses_array_two_elements() {
    // [null, 16]
    let input = vec![
        Token::LeftSquareBracket,
        Token::Null,
        Token::Comma,
        num_token(false, "16"),
        Token::RightSquareBracket,
    ];
    let expected = Value::Array(vec![Value::Null, num_value(false, "16")]);

    check(&input, expected);
}

#[test]
fn parse_empty_array() {
    // []
    let input = vec![Token::LeftSquareBracket, Token::RightSquareBracket];
    let expected = Value::Array(vec![]);

    check(&input, expected);
}

#[test]
fn parse_nested_array() {
    // [null, [null]]
    let input = vec![
        Token::LeftSquareBracket,
        Token::Null,
        Token::Comma,
        Token::LeftSquareBracket,
        Token::Null,
        Token::RightSquareBracket,
        Token::RightSquareBracket,
    ];
    let expected = Value::Array(vec![Value::Null, Value::Array(vec![Value::Null])]);

    check(&input, expected);
}

#[test]
fn parse_empty_object() {
    // {}
    let input = vec![Token::LeftCurlyBracket, Token::RightCurlyBracket];
    let expected = Value::Object(Vec::new());

    check(&input, expected);
}

#[test]
fn parse_object_one_item() {
    // {"a": "A"}
    let entries = vec![(String::from("a"), Value::String(String::from("A")))];
    let input = vec![
        Token::LeftCurlyBracket,
        Token::String("a".into()),
        Token::Colon,
        Token::String("A".into()),
        Token::RightCurlyBracket,
    ];
    let expected = Value::Object(entries);

    check(&input, expected);
}

#[test]
fn parse_object_two_items() {
    // {"a": "A", "b": null}
    let entries = vec![
        (String::from("a"), Value::String(String::from("A"))),
        (String::from("b"), Value::Null),
    ];
    let input = vec![
        Token::LeftCurlyBracket,
        Token::String("a".into()),
        Token::Colon,
        Token::String("A".into()),
        Token::Comma,
        Token::String("b".into()),
        Token::Colon,
        Token::Null,
        Token::RightCurlyBracket,
    ];
    let expected = Value::Object(entries);

    check(&input, expected);
}

#[test]
fn parse_object_nested_with_array() {
    // {"a": [null, 6]}
    let entries = vec![(
        String::from("a"),
        Value::Array(vec![Value::Null, num_value(false, "6")]),
    )];
    let input = vec![
        Token::LeftCurlyBracket,
        Token::String("a".into()),
        Token::Colon,
        Token::LeftSquareBracket,
        Token::Null,
        Token::Comma,
        num_token(false, "6"),
        Token::RightSquareBracket,
        Token::RightCurlyBracket,
    ];
    let expected = Value::Object(entries);

    check(&input, expected);
}

#[test]
fn parse_object_nested_with_object() {
    // {"a": {"b": 6}}
    let inner = vec![(String::from("b"), num_value(false, "6"))];
    let entries = vec![(String::from("a"), Value::Object(inner))];
    let input = vec![
        Token::LeftCurlyBracket,
        Token::String("a".into()),
        Token::Colon,
        Token::LeftCurlyBracket,
        Token::String("b".into()),
        Token::Colon,
        num_token(false, "6"),
        Token::RightCurlyBracket,
        Token::RightCurlyBracket,
    ];
    let expected = Value::Object(entries);

    check(&input, expected);
}

#[test]
fn parse_unicode_escape() {
    let input = vec![Token::String(r#"\u0041"#.into())];
    let expected = Value::String("A".into());

    check(&input, expected);
}

#[test]
fn parse_standard_escapes() {
    let input = vec![Token::String(r#"a\nb\tc\rd\be\ff\"g\qh"#.into())];
    let expected = Value::String("a\nb\tc\rd\u{0008}e\u{000C}f\"gqh".into());

    check(&input, expected);
}

#[test]
fn parse_invalid_hex_escape() {
    assert_eq!(
        parse_string(r#"\uZZZZ"#).unwrap_err(),
        TokenParseError::InvalidHexValue
    );
}

#[test]
fn parse_unfinished_escape() {
    assert_eq!(
        parse_string(r#"\u00"#).unwrap_err(),
        TokenParseError::UnfinishedEscape
    );
}

#[test]
fn parse_lone_surrogate_escape() {
    assert_eq!(
        parse_string(r#"\uD800"#).unwrap_err(),
        TokenParseError::InvalidCodePointValue
    );
}

#[test]
fn parse_unterminated_object_fails() {
    // {"a": "A"  — exhausted where , or } was due
    let input = vec![
        Token::LeftCurlyBracket,
        Token::String("a".into()),
        Token::Colon,
        Token::String("A".into()),
    ];
    assert_eq!(
        parse_tokens(&input, &mut 0).unwrap_err(),
        TokenParseError::ExpectedComma
    );
}

#[test]
fn parse_duplicate_keys_keep_last_value() {
    // {"a": 1, "a": 2}
    let input = vec![
        Token::LeftCurlyBracket,
        Token::String("a".into()),
        Token::Colon,
        num_token(false, "1"),
        Token::Comma,
        Token::String("a".into()),
        Token::Colon,
        num_token(false, "2"),
        Token::RightCurlyBracket,
    ];
    let expected = Value::Object(vec![(String::from("a"), num_value(false, "2"))]);

    check(&input, expected);
}

#[test]
fn parse_unexpected_token_at_value_position() {
    let input = vec![Token::Comma];
    assert_eq!(
        parse_tokens(&input, &mut 0).unwrap_err(),
        TokenParseError::UnexpectedToken
    );
}

#[test]
fn parse_missing_colon() {
    let input = vec![
        Token::LeftCurlyBracket,
        Token::String("a".into()),
        Token::Null,
        Token::RightCurlyBracket,
    ];
    assert_eq!(
        parse_tokens(&input, &mut 0).unwrap_err(),
        TokenParseError::ExpectedColon
    );
}

#[test]
fn parse_missing_property_name() {
    let input = vec![
        Token::LeftCurlyBracket,
        Token::Null,
        Token::RightCurlyBracket,
    ];
    assert_eq!(
        parse_tokens(&input, &mut 0).unwrap_err(),
        TokenParseError::ExpectedProperty
    );
}

#[test]
fn parse_missing_comma_in_array() {
    let input = vec![
        Token::LeftSquareBracket,
        Token::Null,
        Token::Null,
        Token::RightSquareBracket,
    ];
    assert_eq!(
        parse_tokens(&input, &mut 0).unwrap_err(),
        TokenParseError::ExpectedComma
    );
}

#[test]
fn parse_empty_token_sequence_fails() {
    let input: Vec<Token> = Vec::new();
    assert_eq!(
        parse_tokens(&input, &mut 0).unwrap_err(),
        TokenParseError::UnexpectedToken
    );
}

#[test]
fn reparse_scalars_is_deterministic() {
    for text in ["null", "true", "false", "123.9", "-42", "\"he\\\\llo\""] {
        let tokens = tokenize(String::from(text)).unwrap();
        let first = parse_tokens(&tokens, &mut 0).unwrap();
        let second = parse_tokens(&tokens, &mut 0).unwrap();
        assert_eq!(first, second);
    }
}

#[test]
fn tokenize_and_parse_nested_document() {
    let text = String::from("{\"a\": [null, 6], \"b\": {\"c\": true}}");
    let tokens = tokenize(text).unwrap();
    let value = parse_tokens(&tokens, &mut 0).unwrap();
    let expected = Value::Object(vec![
        (
            String::from("a"),
            Value::Array(vec![Value::Null, num_value(false, "6")]),
        ),
        (
            String::from("b"),
            Value::Object(vec![(String::from("c"), Value::Boolean(true))]),
        ),
    ]);
    assert_eq!(value, expected);
}
