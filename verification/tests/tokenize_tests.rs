use json_parser::tokenize::{tokenize, Number, Token, TokenizeError};

fn num(negative: bool, digits: &str) -> Token {
    Token::Number(Number { negative, digits: String::from(digits) })
}

#[test]
fn test_broken_literal_tokens_return_error() {
    let bad_null = String::from("nolll");
    assert!(tokenize(bad_null).is_err());
}

#[test]
fn test_punctuation_literals() {
    assert_eq!(
        tokenize(String::from(",{}[]:")).unwrap(),
        vec![
            Token::Comma,
            Token::LeftCurlyBracket,
            Token::RightCurlyBracket,
            Token::LeftSquareBracket,
            Token::RightSquareBracket,
            Token::Colon,
        ]
    );
}

#[test]
fn test_null() {
    assert_eq!(tokenize(String::from("null")).unwrap(), vec![Token::Null]);
}

#[test]
fn test_false() {
    assert_eq!(tokenize(String::from("false")).unwrap(), vec![Token::False]);
}

#[test]
fn test_true() {
    assert_eq!(tokenize(String::from("true")).unwrap(), vec![Token::True]);
}

#[test]
fn test_true_comma() {
    assert_eq!(
        tokenize(String::from("true,")).unwrap(),
        vec![Token::True, Token::Comma]
    );
}

#[test]
fn test_integer() {
    let tokens = tokenize(String::from("123")).unwrap();
    assert_eq!(tokens, vec![num(false, "123")]);
    match &tokens[0] {
        Token::Number(n) => {
            assert!(!n.negative);
            assert_eq!(n.digits.parse::<f64>().unwrap(), 123.0);
        }
        other => panic!("expected a number token, got {:?}", other),
    }
}

#[test]
fn test_float() {
    let tokens = tokenize(String::from("123.9")).unwrap();
    assert_eq!(tokens, vec![num(false, "123.9")]);
    match &tokens[0] {
        Token::Number(n) => {
            assert!(!n.negative);
            assert_eq!(n.digits.parse::<f64>().unwrap(), 123.9);
        }
        other => panic!("expected a number token, got {:?}", other),
    }
}

#[test]
fn test_negative_float() {
    let tokens = tokenize(String::from("-123.9")).unwrap();
    assert_eq!(tokens, vec![num(true, "123.9")]);
    match &tokens[0] {
        Token::Number(n) => {
            assert!(n.negative);
            assert_eq!(-1.0 * n.digits.parse::<f64>().unwrap(), -123.9);
        }
        other => panic!("expected a number token, got {:?}", other),
    }
}

#[test]
fn test_string() {
    assert_eq!(
        tokenize(String::from("\"gabe\"")).unwrap(),
        vec![Token::String(String::from("gabe"))]
    );
}

#[test]
fn test_string_keeps_escapes_raw() {
    assert_eq!(
        tokenize(String::from("\"a\\\"b\"")).unwrap(),
        vec![Token::String(String::from("a\\\"b"))]
    );
}

#[test]
fn test_empty_input() {
    assert_eq!(tokenize(String::new()).unwrap(), Vec::<Token>::new());
}

#[test]
fn test_trailing_whitespace_ends_scan() {
    assert_eq!(tokenize(String::from("null  \n")).unwrap(), vec![Token::Null]);
}

#[test]
fn test_unexpected_eof_in_literal() {
    assert_eq!(
        tokenize(String::from("nul")).unwrap_err(),
        TokenizeError::UnexpectedEof
    );
}

#[test]
fn test_unfinished_literal_value() {
    assert_eq!(
        tokenize(String::from("nolll")).unwrap_err(),
        TokenizeError::UnfinishedLiteralValue
    );
}

#[test]
fn test_unclosed_quotes() {
    assert_eq!(
        tokenize(String::from("\"abc")).unwrap_err(),
        TokenizeError::UnclosedQuotes
    );
}

#[test]
fn test_char_not_recognized() {
    assert_eq!(
        tokenize(String::from("@")).unwrap_err(),
        TokenizeError::CharNotRecognized('@')
    );
}

#[test]
fn test_lone_minus_is_not_a_number() {
    assert_eq!(
        tokenize(String::from("-")).unwrap_err(),
        TokenizeError::CharNotRecognized('-')
    );
}

#[test]
fn test_number_followed_by_comma() {
    assert_eq!(
        tokenize(String::from("123,")).unwrap(),
        vec![num(false, "123"), Token::Comma]
    );
}

#[test]
fn test_second_decimal_point_ends_number() {
    // the second `.` ends the number; the cursor then stands on it
    assert_eq!(
        tokenize(String::from("1.2.3")).unwrap_err(),
        TokenizeError::CharNotRecognized('.')
    );
}
