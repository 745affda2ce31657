use json::parser::Parser;
use json::value::Json;

#[test]
pub fn test_parser_creatable() {
    let _parser = Parser::new("");
}

#[test]
pub fn should_parse_null_type() {
    let mut parser = Parser::new("null");
    let json = parser.parse();

    assert_eq!(json, Ok(Json::Null));
}

#[test]
pub fn should_parse_bool_type() {
    let mut parser = Parser::new("false");
    let json = parser.parse();
    assert_eq!(json, Ok(Json::Boolean(false)));

    let mut parser = Parser::new("true");
    let json = parser.parse();
    assert_eq!(json, Ok(Json::Boolean(true)));
}

#[test]
pub fn should_parse_number_type() {
    let mut parser = Parser::new("1.23");
    let json = parser.parse();
    assert_eq!(json, Ok(Json::Number(String::from("1.23"))));
}

#[test]
pub fn should_parse_string_type() {
    let mut parser = Parser::new(r#""Hello world""#);
    let json = parser.parse();
    assert_eq!(json, Ok(Json::String(String::from("Hello world"))));
}

#[test]
pub fn should_parse_array_type() {
    let mut parser = Parser::new(r#"[1, 2, 3, 4]"#);
    let json = parser.parse();
    assert_eq!(
        json,
        Ok(Json::Array(vec![
            Json::Number(String::from("1")),
            Json::Number(String::from("2")),
            Json::Number(String::from("3")),
            Json::Number(String::from("4")),
        ]))
    )
}

#[test]
pub fn should_parse_object_type() {
    let mut parser = Parser::new(r#"{ "k1": "v1" }"#);
    let json = parser.parse();
    assert_eq!(
        json,
        Ok(Json::Object(vec![(
            String::from("k1"),
            Json::String(String::from("v1"))
        )]))
    );
}

#[test]
pub fn should_parse_complex_object() {
    let mut parser = Parser::new(
        r#"
        {
          "id": 262804062,
          "full_name": "ltoddy/parser-tutorial",
          "private": false,
          "owner": {
            "login": "ltoddy",
            "id": 20920763
          }
        }
    "#,
    );
    let json = parser.parse();

    assert_eq!(
        json,
        Ok(Json::Object(vec![
            (String::from("id"), Json::Number(String::from("262804062"))),
            (
                String::from("full_name"),
                Json::String(String::from("ltoddy/parser-tutorial"))
            ),
            (String::from("private"), Json::Boolean(false)),
            (
                String::from("owner"),
                Json::Object(vec![
                    (String::from("login"), Json::String(String::from("ltoddy"))),
                    (String::from("id"), Json::Number(String::from("20920763"))),
                ])
            ),
        ]))
    );
}
