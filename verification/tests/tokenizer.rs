use json::error::JsonError;
use json::token::Token;
use json::tokenizer::Tokenizer;

#[test]
pub fn test_tokenizer_creatable() {
    let _tokenizer = Tokenizer::new("{}");
}

#[test]
pub fn should_parse_brackets() {
    let mut tokenizer = Tokenizer::new("{}");

    assert_eq!(tokenizer.next(), Ok(Some(Token::BraceOn)));
    assert_eq!(tokenizer.next(), Ok(Some(Token::BraceOff)));
    assert_eq!(tokenizer.next(), Ok(None));
}

#[test]
pub fn should_parse_braces() {
    let mut tokenizer = Tokenizer::new("[]");

    assert_eq!(tokenizer.next(), Ok(Some(Token::BracketOn)));
    assert_eq!(tokenizer.next(), Ok(Some(Token::BracketOff)));
    assert_eq!(tokenizer.next(), Ok(None));
}

#[test]
pub fn should_parse_null() {
    let mut tokenizer = Tokenizer::new("null");

    assert_eq!(tokenizer.next(), Ok(Some(Token::Null)));
    assert_eq!(tokenizer.next(), Ok(None));
}

#[test]
pub fn should_parse_boolean_value() {
    let mut tokenizer = Tokenizer::new("true");
    assert_eq!(tokenizer.next(), Ok(Some(Token::Boolean(true))));
    assert_eq!(tokenizer.next(), Ok(None));

    let mut tokenizer = Tokenizer::new("false");
    assert_eq!(tokenizer.next(), Ok(Some(Token::Boolean(false))));
    assert_eq!(tokenizer.next(), Ok(None));
}

#[test]
pub fn should_parse_number_value() {
    let mut tokenizer = Tokenizer::new("123");
    assert_eq!(tokenizer.next(), Ok(Some(Token::Number(String::from("123")))));

    let mut tokenizer = Tokenizer::new("1.23");
    assert_eq!(tokenizer.next(), Ok(Some(Token::Number(String::from("1.23")))));

    let mut tokenizer = Tokenizer::new("-1.23");
    assert_eq!(tokenizer.next(), Ok(Some(Token::Number(String::from("-1.23")))));
}

#[test]
pub fn should_parse_object() {
    let mut tokenizer = Tokenizer::new(r#"{ "key": "value" }"#);

    assert_eq!(tokenizer.next(), Ok(Some(Token::BraceOn)));
    assert_eq!(tokenizer.next(), Ok(Some(Token::String("key".to_owned()))));
    assert_eq!(tokenizer.next(), Ok(Some(Token::Colon)));
    assert_eq!(tokenizer.next(), Ok(Some(Token::String("value".to_owned()))));
    assert_eq!(tokenizer.next(), Ok(Some(Token::BraceOff)));
    assert_eq!(tokenizer.next(), Ok(None));
}

#[test]
pub fn should_parse_array() {
    let mut tokenizer = Tokenizer::new(r#"{ "key": [1, 2, "v1"] }"#);

    assert_eq!(tokenizer.next(), Ok(Some(Token::BraceOn)));
    assert_eq!(tokenizer.next(), Ok(Some(Token::String("key".to_owned()))));
    assert_eq!(tokenizer.next(), Ok(Some(Token::Colon)));
    assert_eq!(tokenizer.next(), Ok(Some(Token::BracketOn)));
    assert_eq!(tokenizer.next(), Ok(Some(Token::Number(String::from("1")))));
    assert_eq!(tokenizer.next(), Ok(Some(Token::Comma)));
    assert_eq!(tokenizer.next(), Ok(Some(Token::Number(String::from("2")))));
    assert_eq!(tokenizer.next(), Ok(Some(Token::Comma)));
    assert_eq!(tokenizer.next(), Ok(Some(Token::String("v1".to_owned()))));
    assert_eq!(tokenizer.next(), Ok(Some(Token::BracketOff)));
    assert_eq!(tokenizer.next(), Ok(Some(Token::BraceOff)));
    assert_eq!(tokenizer.next(), Ok(None));
}

#[test]
pub fn tokenizer_reports_invalid_character() {
    let mut tokenizer = Tokenizer::new("@");
    assert_eq!(tokenizer.next(), Err(JsonError::InvalidCharacter('@')));
}

#[test]
pub fn tokenizer_reports_invalid_label() {
    let mut tokenizer = Tokenizer::new("truex");
    assert_eq!(tokenizer.next(), Err(JsonError::InvalidLabel(String::from("truex"))));
}

#[test]
pub fn tokenizer_reports_malformed_number() {
    let mut tokenizer = Tokenizer::new("-");
    assert_eq!(tokenizer.next(), Err(JsonError::MalformedNumber(String::from("-"))));

    let mut tokenizer = Tokenizer::new("1-2");
    assert_eq!(tokenizer.next(), Err(JsonError::MalformedNumber(String::from("1-"))));
}

#[test]
pub fn tokenizer_reports_unterminated_string() {
    let mut tokenizer = Tokenizer::new("\"abc");
    assert_eq!(tokenizer.next(), Err(JsonError::UnexpectedEndOfInput));
}

#[test]
pub fn tokenizer_passes_escaped_characters_through() {
    let mut tokenizer = Tokenizer::new(r#""a\"b\\c\nd""#);
    assert_eq!(
        tokenizer.next(),
        Ok(Some(Token::String(String::from("a\"b\\cnd"))))
    );
    assert_eq!(tokenizer.next(), Ok(None));
}

#[test]
pub fn tokenizer_accepts_trailing_decimal_point() {
    let mut tokenizer = Tokenizer::new("1.");
    assert_eq!(tokenizer.next(), Ok(Some(Token::Number(String::from("1.")))));
}
