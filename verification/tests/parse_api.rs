use json::error::JsonError;
use json::token::Token;
use json::value::Json;
use json::parse;

#[test]
fn parse_null_document() {
    assert_eq!(parse("null"), Ok(Json::Null));
}

#[test]
fn parse_boolean_documents() {
    assert_eq!(parse("true"), Ok(Json::Boolean(true)));
    assert_eq!(parse("false"), Ok(Json::Boolean(false)));
}

#[test]
fn parse_number_documents() {
    assert_eq!(parse("1.23"), Ok(Json::Number(String::from("1.23"))));
    assert_eq!(parse("-1.23"), Ok(Json::Number(String::from("-1.23"))));
}

#[test]
fn parse_string_document() {
    assert_eq!(
        parse("\"Hello world\""),
        Ok(Json::String(String::from("Hello world")))
    );
}

#[test]
fn parse_array_document() {
    assert_eq!(
        parse("[1,2,3,4]"),
        Ok(Json::Array(vec![
            Json::Number(String::from("1")),
            Json::Number(String::from("2")),
            Json::Number(String::from("3")),
            Json::Number(String::from("4")),
        ]))
    );
}

#[test]
fn parse_object_document() {
    assert_eq!(
        parse(r#"{"k1":"v1"}"#),
        Ok(Json::Object(vec![(
            String::from("k1"),
            Json::String(String::from("v1"))
        )]))
    );
}

#[test]
fn parse_nested_document() {
    let document = r#"{"id":1,"owner":{"login":"a"}}"#;
    let expected = Json::Object(vec![
        (String::from("id"), Json::Number(String::from("1"))),
        (
            String::from("owner"),
            Json::Object(vec![(
                String::from("login"),
                Json::String(String::from("a")),
            )]),
        ),
    ]);
    assert_eq!(parse(document), Ok(expected));
}

#[test]
fn parse_duplicate_keys_last_write_wins() {
    assert_eq!(
        parse(r#"{"a":1,"a":2}"#),
        Ok(Json::Object(vec![(
            String::from("a"),
            Json::Number(String::from("2"))
        )]))
    );
}

#[test]
fn parse_deeply_nested_arrays() {
    let nested = |t: &str| Json::Array(vec![Json::Array(vec![Json::Array(vec![Json::Number(
        String::from(t),
    )])])]);
    let parsed = parse("[[[1]]]").unwrap();
    assert_eq!(parsed, nested("1"));
    assert_eq!(parse(&json::stringify(&parsed)), Ok(nested("1")));
}

#[test]
fn parse_duplicate_key_overwrites_in_place() {
    assert_eq!(
        parse(r#"{"a":1,"b":2,"a":3}"#),
        Ok(Json::Object(vec![
            (String::from("a"), Json::Number(String::from("3"))),
            (String::from("b"), Json::Number(String::from("2"))),
        ]))
    );
}

#[test]
fn parse_empty_containers() {
    assert_eq!(parse("[]"), Ok(Json::Array(vec![])));
    assert_eq!(parse("{}"), Ok(Json::Object(vec![])));
}

#[test]
fn parse_unterminated_array_fails_cleanly() {
    assert_eq!(parse("[1,2,"), Err(JsonError::UnexpectedEndOfInput));
}

#[test]
fn parse_invalid_label_fails_cleanly() {
    assert_eq!(
        parse("truex"),
        Err(JsonError::InvalidLabel(String::from("truex")))
    );
}

#[test]
fn parse_trailing_content_is_ignored() {
    assert_eq!(parse("1 2"), Ok(Json::Number(String::from("1"))));
}

#[test]
fn parse_invalid_character_fails_cleanly() {
    assert_eq!(parse("@"), Err(JsonError::InvalidCharacter('@')));
}

#[test]
fn parse_malformed_number_fails_cleanly() {
    assert_eq!(
        parse("-"),
        Err(JsonError::MalformedNumber(String::from("-")))
    );
}

#[test]
fn parse_unexpected_token_fails_cleanly() {
    assert_eq!(
        parse("]"),
        Err(JsonError::UnexpectedToken(Token::BracketOff))
    );
    assert_eq!(
        parse(r#"{"k" 1}"#),
        Err(JsonError::UnexpectedToken(Token::Number(String::from("1"))))
    );
    assert_eq!(
        parse("[1 2]"),
        Err(JsonError::UnexpectedToken(Token::Number(String::from("2"))))
    );
}

#[test]
fn parse_empty_input_fails_cleanly() {
    assert_eq!(parse(""), Err(JsonError::UnexpectedEndOfInput));
}

#[test]
fn parse_skips_whitespace() {
    assert_eq!(parse(" \t\r\n null \t"), Ok(Json::Null));
}

#[test]
fn parse_skips_unicode_whitespace() {
    assert_eq!(parse("\u{00A0}\u{2003}null\u{3000}"), Ok(Json::Null));
}

#[test]
fn parse_escaped_characters_pass_through() {
    assert_eq!(
        parse(r#""a\"b\\c\nd""#),
        Ok(Json::String(String::from("a\"b\\cnd")))
    );
}

#[test]
fn stringify_then_parse_round_trips() {
    let document = r#"{"id":262804062,"name":"a\"b\\c","flags":[true,false,null,-1.25],"owner":{"login":"ltoddy"},"empty":[],"none":{}}"#;
    let value = parse(document).unwrap();
    let text = json::stringify(&value);
    assert_eq!(parse(&text), Ok(value));
}

#[test]
fn stringify_emits_minimal_whitespace_form() {
    let value = parse(r#" { "k" : [ 1 , true , "v" ] } "#).unwrap();
    assert_eq!(json::stringify(&value), r#"{"k":[1,true,"v"]}"#);
}

#[test]
fn value_kind_predicates() {
    assert!(Json::Null.is_null());
    assert!(!Json::Null.is_string());
    assert!(Json::String(String::from("x")).is_string());
    assert!(Json::Number(String::from("1")).is_number());
    assert!(!Json::Number(String::from("1")).is_boolean());
    assert!(Json::Boolean(true).is_boolean());
    assert!(Json::Array(vec![]).is_array());
    assert!(!Json::Array(vec![]).is_object());
    assert!(Json::Object(vec![]).is_object());
    assert!(!Json::Object(vec![]).is_null());
}
