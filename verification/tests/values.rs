use picojson::{number_tokens, parse_string, Input, Number, NumberTable, Object, Value};
use std::cmp::Ordering;

fn number(x: f64) -> Number {
    Number::new(x.to_bits(), &x.to_string()).unwrap()
}

fn num(x: f64) -> Value {
    Value::from(number(x))
}

fn table_for(text: &str) -> NumberTable {
    let mut table = NumberTable::new();
    for token in number_tokens(text) {
        if let Ok(x) = token.parse::<f64>() {
            if let Ok(n) = Number::new(x.to_bits(), &x.to_string()) {
                table.insert(&token, n);
            }
        }
    }
    table
}

fn parse(text: &str) -> Result<Value, String> {
    parse_string(text, &table_for(text))
}

fn object_of(value: Value) -> Object {
    match value {
        Value::Object(object) => object,
        _ => unreachable!(),
    }
}

#[test]
fn test_object_comparison() {
    let obj1 = object_of(Value::from(vec![("a", 1)]));
    let obj2 = object_of(Value::from(vec![("a", Value::Null)]));

    assert_eq!(obj1, obj1);
    assert_eq!(obj1.partial_cmp(&obj2), Some(Ordering::Greater));
}

#[test]
fn test_value_from() {
    assert_eq!(Value::from(true), Value::Boolean(true));
    assert_eq!(Value::from(42), Value::Number(number(42.0)));
    assert_eq!(Value::from(number(3.14)), Value::Number(number(3.14)));
}

#[test]
fn test_value_is_empty() {
    assert_eq!(Value::from("").is_empty(), false);
}

#[test]
fn test_value_has() {
    assert_eq!(Value::Null.has(0), false);
    assert_eq!(Value::Null.has("unknown"), false);

    assert_eq!(Value::from(vec!["a", "b", "c"]).has(2), true);
}

#[test]
fn test_input_getc() {
    let source = "12";
    let mut input = Input::new(source);
    assert_eq!(input.getc(), Some('1'));
    assert_eq!(input.getc(), Some('2'));
    assert_eq!(input.getc(), None);
}

#[test]
fn test_parse_number() {
    assert_eq!(parse("1"), Ok(num(1.0)));
    assert_eq!(parse("-3.14"), Ok(num(-3.14)));
    assert_eq!(parse("1e-9"), Ok(num(1e-9)));
}

#[test]
fn test_parse_string() {
    assert_eq!(parse(r#""hello""#), Ok(Value::String("hello".to_string())));

    // Empty.
    assert_eq!(parse(r#""""#), Ok(Value::String("".to_string())));

    // Escape sequences.
    assert_eq!(
        parse(r#" "Hello,\r\n\tworld!" "#),
        Ok(Value::String("Hello,\r\n\tworld!".to_string()))
    );

    // Unknown escape sequence.
    assert!(parse(r#" "\q" "#).is_err());

    // Not closed.
    assert!(parse(r#" "hello-- "#).is_err());
}

#[test]
fn test_parse_string_as_array() {
    assert_eq!(parse("[]"), Ok(Value::array()));
    assert_eq!(
        parse("[true, false, true]"),
        Ok(Value::from(vec![true, false, true]))
    );
}

#[test]
fn test_parse_object_empty() {
    assert_eq!(parse("{}"), Ok(Value::object()));
}

#[test]
fn test_parse_object_simple() {
    let json = r#"{
            "user_id": 42,
            "name": "John Doe"
        }"#;
    let expected = Value::from(vec![
        ("user_id", Value::from(42)),
        ("name", Value::from("John Doe")),
    ]);
    assert_eq!(parse(json), Ok(expected));
}

#[test]
fn test_parse_object_nested() {
    let json = r#"{
            "array": [1, 2, 3],
            "object": { "foo": true }
        }"#;
    let expected = Value::from(vec![
        ("array", Value::from(vec![1, 2, 3])),
        ("object", Value::from(vec![("foo", true)])),
    ]);
    assert_eq!(parse(json), Ok(expected));
}

#[test]
fn test_parse_object_rejects_dangling_comma() {
    assert!(parse(r#"{ "foo": true, }"#).is_err());
}

#[test]
fn test_parse_bool_ok() {
    assert_eq!(parse("true"), Ok(Value::Boolean(true)));
    assert_eq!(parse("false"), Ok(Value::Boolean(false)));

    // Ignore leading whitespaces.
    assert_eq!(parse("\t\n\r  true"), Ok(Value::Boolean(true)));
}

#[test]
fn test_parse_bool_err() {
    // Typo.
    assert!(parse("ture").is_err());

    // Case sensitive.
    assert!(parse("TRUE").is_err());
}

#[test]
#[should_panic]
fn test_serialize_number_nan() {
    let _ = num(std::f64::NAN).serialize();
}

#[test]
#[should_panic]
fn test_serialize_number_infinity() {
    let _ = num(std::f64::INFINITY).serialize();
}

#[test]
fn test_serialize_string_simple() {
    assert_eq!(Value::from("hello").serialize().unwrap(), r#""hello""#);
}

#[test]
fn test_serialize_string_escaped() {
    let source = "\"\"\"\n\tHello!\n\"\"\"";
    let expected = r#""\"\"\"\n\tHello!\n\"\"\"""#;
    assert_eq!(Value::from(source).serialize().unwrap(), expected);
}

#[test]
fn test_pretty_print_array() {
    let expected = r#"[
  42,
  "hello",
  [
    "nested",
    "items"
  ]
]
"#;
    let actual = Value::from(vec![
        Value::from(42),
        Value::from("hello"),
        Value::from(vec!["nested", "items"]),
    ]);
    assert_eq!(actual.pretty_print().unwrap(), expected);
}

#[test]
fn test_constructor() {
    let table = vec![
        (Value::from(true), "true"),
        (Value::from(false), "false"),
        (num(42.0), "42"),
        (Value::from("hello"), "\"hello\""),
    ];
    for (value, json) in table {
        let actual = value.serialize().unwrap();
        assert_eq!(actual, json);
    }
}

#[test]
fn test_double_reserialization() {
    /// Serialize and deserialize a number.
    fn f(r: f64) -> f64 {
        let json = num(r).serialize().unwrap();
        let value = parse(&json).unwrap();
        f64::from_bits(value.as_number().cloned().unwrap().bits())
    }

    for n in 1..53 {
        let x = (1_i64 << n) as f64;
        assert_eq!(f(x), x);
    }

    for n in 53..1024 {
        let x = 1_f64.powf(n as f64);
        let y = f(x);
        assert!((x - y).abs() / y <= 1e-8);
    }
}

#[test]
fn test_correct_output() {
    assert!(parse("false").unwrap().is_of::<bool>());
    assert!(parse("true").unwrap().is_of::<bool>());
    assert!(parse("90.5").unwrap().is_of::<Number>());
    assert!(parse("1.7976931348623157e+308").unwrap().is_of::<Number>());
    assert!(parse("\"hello\"").unwrap().is_of::<String>());
    assert!(parse("\"\\\"\\\\\\/\\n\\r\\t\"").unwrap().is_of::<String>());

    assert_eq!(parse("90.5"), Ok(num(90.5_f64)));
    assert_eq!(
        parse("1.7976931348623157e+308"),
        Ok(num(1.7976931348623157e+308_f64))
    );
    assert_eq!(
        parse("\"\\\"\\\\\\/\\n\\r\\t\""),
        Ok(Value::from("\"\\/\n\r\t".to_string()))
    );
}

#[test]
fn lib_test_value_is_empty() {
    assert!(parse("[]").expect("Parse success").is_empty());
    assert!(parse("{}").expect("Parse success").is_empty());
}

#[test]
fn test_value_array() {
    let a = parse("[1,true,\"hello\"]").expect("Should parse an array");

    assert_eq!(a.as_array().unwrap().len(), 3);

    assert_eq!(a.has(0), true, "First element should exist.");
    assert_eq!(a.get(0).unwrap().as_number().unwrap(), &number(1.0));

    assert_eq!(a.has(1), true, "Second element should exist.");
    assert_eq!(a.get(1).unwrap().as_bool().unwrap(), &true);

    assert_eq!(a.has(2), true, "Third element should exist.");
    assert_eq!(a.get(2).unwrap().as_string().unwrap(), "hello");

    assert!(!a.has(3));
}

#[test]
fn test_value_object() {
    let v = parse(r#"{ "a": true }"#).expect("Should parse an object");

    assert_eq!(v.as_object().unwrap().len(), 1);
    assert_eq!(v.has("a"), true, "Should has a as key.");
    assert_eq!(v.get("a"), Some(&Value::from(true)));

    assert!(!v.has("z"));
}

#[test]
fn test_value_object_modification() {
    let mut v = Value::object();

    v.insert("foo", Value::from("bar"));

    v.insert("hoge", Value::array());
    v.get_mut("hoge").unwrap().push(num(42.0));

    v.insert("baz", Value::object());
    {
        let v2 = v.get_mut("baz").unwrap();
        v2.insert("piyo", num(3.14));
    }

    let json = v.serialize().unwrap();
    assert_eq!(json, r#"{"baz":{"piyo":3.14},"foo":"bar","hoge":[42]}"#);
}

#[test]
fn test_error_message() {
    fn test(source: &str, line: i32, near: &str) {
        let actual = parse(source).expect_err("Expected an error.");
        let expected = format!("Syntax error at line {} near: {}", line, near);
        assert_eq!(actual, expected);
    }

    test("falsoa", 1, "oa");
    test("{]", 1, "]");
    test("\n\tbell", 2, "bell");
    test("\"abc\nd\"", 1, "");
}

#[test]
fn test_deep_comparison_equal() {
    let l = parse(r#"{ "b": true, "a": [1, 2, "three"], "d": 2 }"#);
    let r = parse(r#"{ "d": 2.0, "b": true, "a": [1, 2, "three"] }"#);
    assert_eq!(l, r);
}

#[test]
#[should_panic]
fn test_deep_comparison_not_equal_array() {
    let l = parse(r#"{ "b": true, "a": [1, 2, "three"], "d": 2 }"#);
    let r = parse(r#"{ "b": true, "a": [1,    "three"], "d": 2 }"#);
    assert_eq!(l, r);
}

#[test]
#[should_panic]
fn test_deep_comparison_not_equal_boolean() {
    let l = parse(r#"{ "b": true, "a": [1, 2, "three"], "d": 2 }"#);
    let r = parse(r#"{ "b":false, "a": [1, 2, "three"], "d": 2 }"#);
    assert_eq!(l, r);
}

#[test]
fn test_serialize_integer() {
    assert_eq!(num(2.0).serialize().unwrap(), "2");
}

fn serialization_sample() -> Value {
    parse(
        r#"{
            "a": 1,
            "b": [2, { "b1": "abc" }],
            "c": {},
            "d": []
        }"#,
    )
    .unwrap()
}

#[test]
fn test_serialize_object_minimum() {
    let actual = serialization_sample().serialize().unwrap();
    assert_eq!(actual, r#"{"a":1,"b":[2,{"b1":"abc"}],"c":{},"d":[]}"#);
}

#[test]
fn test_pretty_print_object() {
    let actual = serialization_sample().pretty_print().unwrap();
    let expected = r#"{
  "a": 1,
  "b": [
    2,
    {
      "b1": "abc"
    }
  ],
  "c": {},
  "d": []
}
"#;
    assert_eq!(actual, expected);
}

#[test]
#[should_panic]
fn test_reject_nan() {
    num(f64::NAN);
}

#[test]
#[should_panic]
fn test_reject_infinity() {
    num(f64::INFINITY);
}

#[test]
fn test_cast() {
    assert_eq!(num(3.14).as_bool(), None);
}

#[test]
fn test_simple_api() {
    let v = parse(r#"[ 1, "abc" ]"#).unwrap();
    let a = v.as_array().unwrap();
    assert_eq!(a.len(), 2);
    assert_eq!(a[0].as_number().unwrap(), &number(1.0));
    assert_eq!(a[1].as_string().unwrap(), "abc");
}
