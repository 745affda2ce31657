use json::code_generator::CodeGenerator;
use json::value::Json;

#[test]
pub fn test_code_generator_creatable() {
    let _generator = CodeGenerator::new();
}

#[test]
pub fn should_generate_null() {
    let mut generator = CodeGenerator::new();
    generator.gather(&Json::Null);
    assert_eq!("null", generator.product())
}

#[test]
pub fn should_generate_bool() {
    let mut generator = CodeGenerator::new();
    generator.gather(&Json::Boolean(true));
    assert_eq!("true", generator.product());

    let mut generator = CodeGenerator::new();
    generator.gather(&Json::Boolean(false));
    assert_eq!("false", generator.product());
}

#[test]
pub fn should_generate_number() {
    let mut generator = CodeGenerator::new();
    generator.gather(&Json::Number(String::from("1.23")));
    assert_eq!("1.23", generator.product());
}

#[test]
pub fn should_generate_string() {
    let mut generator = CodeGenerator::new();
    generator.gather(&Json::String(String::from("Hello world")));
    assert_eq!("\"Hello world\"", generator.product());
}

#[test]
pub fn should_generate_array() {
    let mut generator = CodeGenerator::new();
    generator.gather(&Json::Array(vec![
        Json::Number(String::from("1")),
        Json::Number(String::from("2")),
        Json::Number(String::from("3")),
        Json::Number(String::from("4")),
    ]));
    assert_eq!("[1,2,3,4]", generator.product());
}

#[test]
pub fn should_generate_object() {
    let mut generator = CodeGenerator::new();
    generator.gather(&Json::Object(vec![(
        String::from("k1"),
        Json::String(String::from("v1")),
    )]));
    assert_eq!(r#"{"k1":"v1"}"#, generator.product());
}

#[test]
pub fn should_escape_quotes_and_backslashes() {
    let mut generator = CodeGenerator::new();
    generator.gather(&Json::String(String::from("a\"b\\c")));
    assert_eq!(r#""a\"b\\c""#, generator.product());
}

#[test]
pub fn should_generate_empty_containers() {
    let mut generator = CodeGenerator::new();
    generator.gather(&Json::Array(vec![]));
    assert_eq!("[]", generator.product());

    let mut generator = CodeGenerator::new();
    generator.gather(&Json::Object(vec![]));
    assert_eq!("{}", generator.product());
}
