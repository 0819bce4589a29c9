use picojson::{number_tokens, parse_string, Input, Number, NumberTable, Value};

fn number(x: f64) -> Number {
    Number::new(x.to_bits(), &x.to_string()).unwrap()
}

fn num(x: f64) -> Value {
    Value::from(number(x))
}

fn table_for(text: &str) -> NumberTable {
    let mut table = NumberTable::new();
    for token in number_tokens(text) {
        if let Ok(x) = token.parse::<f64>() {
            if let Ok(n) = Number::new(x.to_bits(), &x.to_string()) {
                table.insert(&token, n);
            }
        }
    }
    table
}

fn parse(text: &str) -> Result<Value, String> {
    parse_string(text, &table_for(text))
}

#[test]
fn lib_test_value_from() {
    assert_eq!(Value::from(true), Value::Boolean(true));
    assert_eq!(Value::from(42), Value::Number(number(42.0)));
    assert_eq!(Value::from(number(3.14)), Value::Number(number(3.14)));
}

#[test]
fn lib_test_input_getc() {
    let source = "12";
    let mut input = Input::new(source);
    assert_eq!(input.getc(), Some('1'));
    assert_eq!(input.getc(), Some('2'));
    assert_eq!(input.getc(), None);
}

#[test]
fn lib_test_parse_number() {
    assert_eq!(parse("1"), Ok(Value::Number(number(1.0))));
    assert_eq!(parse("-3.14"), Ok(Value::Number(number(-3.14))));
    assert_eq!(parse("1e-9"), Ok(Value::Number(number(1e-9))));
}

#[test]
fn lib_test_parse_string() {
    assert_eq!(parse(r#""hello""#), Ok(Value::String("hello".to_string())));

    // Empty.
    assert_eq!(parse(r#""""#), Ok(Value::String("".to_string())));

    // Escape sequences.
    assert_eq!(
        parse(r#" "Hello,\r\n\tworld!" "#),
        Ok(Value::String("Hello,\r\n\tworld!".to_string()))
    );

    // Unknown escape sequence.
    assert!(parse(r#" "\q" "#).is_err());

    // Not closed.
    assert!(parse(r#" "hello-- "#).is_err());
}

#[test]
fn lib_test_parse_string_as_array() {
    assert_eq!(parse("[]"), Ok(Value::Array(Vec::new())));
    assert_eq!(
        parse("[true, false, true]"),
        Ok(Value::Array(vec![
            Value::from(true),
            Value::from(false),
            Value::from(true)
        ]))
    );
}

#[test]
fn lib_test_parse_object_empty() {
    assert_eq!(parse("{}"), Ok(Value::Object(picojson::Object::new())));
}

#[test]
fn lib_test_parse_object_simple() {
    let json = r#"{
            "user_id": 42,
            "name": "John Doe"
        }"#;
    let expected = Value::from(vec![
        ("user_id", Value::from(42)),
        ("name", Value::String("John Doe".to_string())),
    ]);
    assert_eq!(parse(json), Ok(expected));
}

#[test]
fn lib_test_parse_object_nested() {
    let json = r#"{
            "array": [1, 2, 3],
            "object": { "foo": true }
        }"#;
    let expected = Value::from(vec![
        ("array", Value::Array(vec![num(1.0), num(2.0), num(3.0)])),
        ("object", Value::from(vec![("foo", Value::from(true))])),
    ]);
    assert_eq!(parse(json), Ok(expected));
}

#[test]
fn lib_test_parse_object_rejects_dangling_comma() {
    assert!(parse(r#"{ "foo": true, }"#).is_err());
}

#[test]
fn lib_test_parse_bool_ok() {
    assert_eq!(parse("true"), Ok(Value::Boolean(true)));
    assert_eq!(parse("false"), Ok(Value::Boolean(false)));

    // Ignore leading whitespaces.
    assert_eq!(parse("\t\n\r  true"), Ok(Value::Boolean(true)));
}

#[test]
fn lib_test_parse_bool_err() {
    // Typo.
    assert!(parse("ture").is_err());

    // Case sensitive.
    assert!(parse("TRUE").is_err());
}
