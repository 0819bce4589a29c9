use picojson::{
    is_first, number_tokens, parse, parse_input, parse_string, pretty_print, serialize,
    DefaultParseContext, ErrorKind, Input, JsonSerializationStyle, JsonSerializer, Number,
    NumberError, NumberTable, Object, Order, SerializeError, Type, Value, ValueKey, _parse_string,
    _read_digits,
};
use std::cmp::Ordering;

fn number(x: f64) -> Number {
    Number::new(x.to_bits(), &x.to_string()).unwrap()
}

fn num(x: f64) -> Value {
    Value::from(number(x))
}

fn table_for(text: &str) -> NumberTable {
    let mut table = NumberTable::new();
    for token in number_tokens(text) {
        if let Ok(x) = token.parse::<f64>() {
            if let Ok(n) = Number::new(x.to_bits(), &x.to_string()) {
                table.insert(&token, n);
            }
        }
    }
    table
}

fn parse_text(text: &str) -> Result<Value, String> {
    parse_string(text, &table_for(text))
}

fn round_trip(value: &Value) -> Value {
    let text = value.serialize().unwrap();
    parse_text(&text).unwrap()
}

fn sample() -> Value {
    Value::from(vec![
        ("a", num(1.0)),
        (
            "b",
            Value::from(vec![num(2.0), Value::from(vec![("b1", "abc")])]),
        ),
        ("c", Value::object()),
        ("d", Value::array()),
    ])
}

// The cursor.

#[test]
fn cursor_replays_after_ungetc() {
    let mut input = Input::new("ab");
    assert_eq!(input.getc(), Some('a'));
    input.ungetc();
    assert_eq!(input.getc(), Some('a'));
    assert_eq!(input.getc(), Some('b'));
    input.ungetc();
    input.ungetc();
    assert_eq!(input.getc(), Some('b'));
    assert_eq!(input.getc(), None);
    assert_eq!(input.getc(), None);
    input.ungetc();
    assert_eq!(input.getc(), None);
}

#[test]
fn cursor_of_empty_text_is_at_end() {
    let mut input = Input::new("");
    assert_eq!(input.getc(), None);
    assert_eq!(input.getc(), None);
    assert_eq!(input.line(), 1);
    assert_eq!(input.read_line(), "");
}

#[test]
fn cursor_counts_lines_it_has_moved_past() {
    let mut input = Input::new("a\nb\n\nc");
    assert_eq!(input.line(), 1);
    assert_eq!(input.getc(), Some('a'));
    assert_eq!(input.getc(), Some('\n'));
    assert_eq!(input.line(), 1);
    assert_eq!(input.getc(), Some('b'));
    assert_eq!(input.line(), 2);
    assert_eq!(input.getc(), Some('\n'));
    assert_eq!(input.getc(), Some('\n'));
    assert_eq!(input.getc(), Some('c'));
    assert_eq!(input.line(), 4);
}

#[test]
fn cursor_holds_the_last_character() {
    let mut input = Input::new("xy");
    assert_eq!(input.held(), None);
    input.getc();
    assert_eq!(input.held(), Some('x'));
    input.ungetc();
    assert_eq!(input.held(), None);
}

#[test]
fn cursor_skips_blanks() {
    let mut input = Input::new(" \t\r\n x ");
    input.skip_ws();
    assert_eq!(input.getc(), Some('x'));
    input.skip_ws();
    assert_eq!(input.getc(), None);
}

#[test]
fn cursor_expect_reads_only_what_it_finds() {
    let mut input = Input::new("  ,]");
    assert!(!input.expect(']'));
    assert!(input.expect(','));
    assert!(!input.expect(','));
    assert!(input.expect(']'));
    assert!(!input.expect(']'));
}

#[test]
fn cursor_does_match_keeps_what_it_read() {
    let mut input = Input::new("falsoa");
    assert_eq!(input.getc(), Some('f'));
    assert!(!input.does_match("alse"));
    assert_eq!(input.getc(), Some('o'));

    let mut whole = Input::new("null!");
    assert_eq!(whole.getc(), Some('n'));
    assert!(whole.does_match("ull"));
    assert_eq!(whole.getc(), Some('!'));

    let mut short = Input::new("nu");
    assert_eq!(short.getc(), Some('n'));
    assert!(!short.does_match("ull"));
    assert_eq!(short.getc(), None);
}

#[test]
fn cursor_reads_the_rest_of_a_line() {
    let mut input = Input::new("one\ntwo");
    assert_eq!(input.getc(), Some('o'));
    assert_eq!(input.read_line(), "ne");
    assert_eq!(input.line(), 1);
    assert_eq!(input.read_line(), "two");
    assert_eq!(input.line(), 2);
    assert_eq!(input.read_line(), "");
}

// Numbers.

#[test]
fn number_refuses_nan_infinity_and_bad_text() {
    assert_eq!(
        Number::new(f64::NAN.to_bits(), "0").unwrap_err(),
        NumberError::NotANumber
    );
    assert_eq!(
        Number::new((-f64::NAN).to_bits(), "x").unwrap_err(),
        NumberError::NotANumber
    );
    assert_eq!(
        Number::new(f64::INFINITY.to_bits(), "0").unwrap_err(),
        NumberError::Infinite
    );
    assert_eq!(
        Number::new(f64::NEG_INFINITY.to_bits(), "0").unwrap_err(),
        NumberError::Infinite
    );
    assert_eq!(
        Number::new(1.0f64.to_bits(), "").unwrap_err(),
        NumberError::MalformedText
    );
    assert_eq!(
        Number::new(1.0f64.to_bits(), "+1").unwrap_err(),
        NumberError::MalformedText
    );
    assert_eq!(
        Number::new(1.0f64.to_bits(), "1x").unwrap_err(),
        NumberError::MalformedText
    );
    assert!(Number::new(f64::MAX.to_bits(), &f64::MAX.to_string()).is_ok());
    assert!(Number::new(f64::MIN_POSITIVE.to_bits(), "2.2250738585072014e-308").is_ok());
}

#[test]
fn number_errors_have_their_messages() {
    assert_eq!(
        Value::try_from_number(f64::NAN.to_bits(), "0"),
        Err("NaN can't be a json value.")
    );
    assert_eq!(
        Value::try_from_number(f64::INFINITY.to_bits(), "0"),
        Err("Infinite value can't be a json value.")
    );
    assert_eq!(
        Value::try_from_number(2.0f64.to_bits(), "two"),
        Err("The text is no number token.")
    );
    assert_eq!(Value::try_from_number(2.0f64.to_bits(), "2"), Ok(num(2.0)));
    assert_eq!(Value::from_number(2.5f64.to_bits(), "2.5"), num(2.5));
}

#[test]
fn number_keeps_bits_and_text() {
    let n = number(-0.5);
    assert_eq!(n.bits(), (-0.5f64).to_bits());
    assert_eq!(n.text(), "-0.5");
}

#[test]
fn numbers_are_equal_as_numbers() {
    let one = Number::new(1.0f64.to_bits(), "1").unwrap();
    let also_one = Number::new(1.0f64.to_bits(), "1.0").unwrap();
    assert_eq!(one, also_one);
    assert_eq!(number(0.0), number(-0.0));
    assert_ne!(number(1.0), number(-1.0));
    assert!(number(-1.0).less(&number(0.0)));
    assert!(number(-2.0).less(&number(-1.0)));
    assert!(number(1.0).less(&number(2.0)));
    assert!(!number(0.0).less(&number(-0.0)));
    assert!(!number(-0.0).less(&number(0.0)));
    assert!(!number(2.0).less(&number(1.0)));
}

#[test]
fn numbers_are_ordered_as_doubles_are() {
    let values = [
        f64::MIN,
        -1e300,
        -2.5,
        -1.0,
        -f64::MIN_POSITIVE,
        -5e-324,
        -0.0,
        0.0,
        5e-324,
        f64::MIN_POSITIVE,
        0.1,
        1.0,
        1.0000000000000002,
        2.5,
        9007199254740992.0,
        1e300,
        f64::MAX,
    ];
    for a in values {
        for b in values {
            assert_eq!(number(a).less(&number(b)), a < b);
            assert_eq!(number(a).same(&number(b)), a == b);
            assert_eq!(number(a) == number(b), a == b);
            assert_eq!(num(a).partial_cmp(&num(b)), a.partial_cmp(&b));
        }
    }
}

#[test]
fn number_from_integer_has_the_bits_of_the_double() {
    for n in [
        0,
        1,
        -1,
        2,
        3,
        42,
        -42,
        1000,
        65535,
        i32::MAX,
        i32::MIN,
        i32::MIN + 1,
    ] {
        let made = Number::from_i32(n);
        assert_eq!(made.bits(), (n as f64).to_bits());
        assert_eq!(made.text(), (n as f64).to_string());
    }
    assert_eq!(Number::from_i32(42).bits(), 0x4045_0000_0000_0000);
    assert_eq!(Number::from_i32(-1).bits(), 0xbff0_0000_0000_0000);
    assert_eq!(Number::from_i32(-1).text(), "-1");
}

#[test]
fn table_gives_the_first_entry_of_a_token() {
    let mut table = NumberTable::new();
    assert_eq!(table.len(), 0);
    assert!(table.lookup("1").is_none());
    table.insert("1", number(1.0));
    table.insert("1", number(2.0));
    table.insert("2", number(2.0));
    assert_eq!(table.len(), 3);
    assert_eq!(table.lookup("1"), Some(&number(1.0)));
    assert_eq!(table.lookup("2"), Some(&number(2.0)));
    assert!(table.lookup("3").is_none());
}

#[test]
fn number_tokens_are_the_runs_of_number_characters() {
    assert_eq!(number_tokens(""), Vec::<String>::new());
    assert_eq!(number_tokens("abc"), Vec::<String>::new());
    assert_eq!(number_tokens("true"), vec!["e".to_string()]);
    assert_eq!(
        number_tokens("[1, -2.5e+3,true]"),
        vec!["1", "-2.5e+3", "e"]
    );
    assert_eq!(number_tokens("12"), vec!["12"]);
    assert_eq!(number_tokens(" 1 2 "), vec!["1", "2"]);
}

// The parser.

#[test]
fn parser_reads_what_the_table_gives() {
    let mut table = NumberTable::new();
    table.insert("7", number(8.0));
    assert_eq!(parse_string("7", &table), Ok(num(8.0)));
    assert_eq!(
        parse_string("8", &table),
        Err("Syntax error at line 1 near: ".to_string())
    );
    assert_eq!(
        parse_string("[7,8]", &table),
        Err("Syntax error at line 1 near: ]".to_string())
    );
}

#[test]
fn parser_refuses_malformed_numbers() {
    assert!(parse_text("1.2.3").is_err());
    assert!(parse_text("-").is_err());
    assert!(parse_text("1e").is_err());
    assert!(parse_text("+1").is_err());
    assert!(parse_text(".5").is_err());
    assert!(parse_text("1e999").is_err());
    assert_eq!(parse_text("-0"), Ok(num(-0.0)));
    assert_eq!(parse_text("1E2"), Ok(num(100.0)));
}

#[test]
fn parser_ignores_blanks_around_a_value() {
    assert_eq!(parse_text(" true "), parse_text("true"));
    assert_eq!(parse_text(" true "), Ok(Value::Boolean(true)));
    assert_eq!(parse_text("\n[ 1 ,\t2 ]\r\n"), parse_text("[1,2]"));
    assert_eq!(parse_text(" null"), Ok(Value::Null));
}

#[test]
fn parser_refuses_trailing_commas() {
    assert!(parse_text("{\"a\":1,}").is_err());
    assert!(parse_text("[1,2,]").is_err());
    assert!(parse_text("[,]").is_err());
    assert!(parse_text("[1 2]").is_err());
    assert!(parse_text("{\"a\" 1}").is_err());
    assert!(parse_text("{\"a\":1 \"b\":2}").is_err());
    assert!(parse_text("{a:1}").is_err());
    assert!(parse_text("[").is_err());
    assert!(parse_text("{").is_err());
    assert!(parse_text("").is_err());
}

#[test]
fn parser_reads_only_the_first_value() {
    assert_eq!(parse_text("true false"), Ok(Value::Boolean(true)));
    assert_eq!(parse_text("[]]"), Ok(Value::array()));
}

#[test]
fn parser_lets_a_later_key_replace_an_earlier_one() {
    let parsed = parse_text(r#"{"b":1,"a":2,"b":3}"#).unwrap();
    assert_eq!(parsed.serialize().unwrap(), r#"{"a":2,"b":3}"#);
}

#[test]
fn parser_reports_where_it_stopped() {
    let table = NumberTable::new();
    let error = parse("[true,\n  flase]", &table).unwrap_err();
    assert_eq!(error.kind, ErrorKind::SyntaxError);
    assert_eq!(error.line, 2);
    assert_eq!(error.near, "lase]");
    assert_eq!(error.message(), "Syntax error at line 2 near: lase]");

    let error = parse("\"abc", &table).unwrap_err();
    assert_eq!(error.kind, ErrorKind::SyntaxError);
    assert_eq!(error.line, 1);
    assert_eq!(error.near, "");

    let error = parse("\"a\\qb\"", &table).unwrap_err();
    assert_eq!(error.kind, ErrorKind::SyntaxError);
    assert_eq!(error.near, "qb\"");
}

#[test]
fn parser_writes_the_line_in_decimal() {
    let table = NumberTable::new();
    let text = format!("[{}x", "\n".repeat(11));
    assert_eq!(
        parse_string(&text, &table),
        Err("Syntax error at line 12 near: x".to_string())
    );
    let text = format!("{}?", "\n".repeat(1009));
    let error = parse(&text, &table).unwrap_err();
    assert_eq!(error.line, 1010);
    assert_eq!(error.message(), "Syntax error at line 1010 near: ?");
}

#[test]
fn parser_reports_an_unsupported_escape() {
    let table = NumberTable::new();
    let error = parse("[\"a\\u0041\"]", &table).unwrap_err();
    assert_eq!(error.kind, ErrorKind::UnsupportedEscape);
    assert_eq!(error.line, 1);
    assert_eq!(error.near, "u0041\"]");
    assert_eq!(
        error.message(),
        "Unsupported escape at line 1 near: u0041\"]"
    );
    assert_eq!(
        parse_string("{\"\\u00e9\":1}", &table),
        Err("Unsupported escape at line 1 near: u00e9\":1}".to_string())
    );
    // A `u` that stops the parser elsewhere is a plain syntax error.
    assert_eq!(parse("u", &table).unwrap_err().kind, ErrorKind::SyntaxError);
    assert_eq!(
        parse("nul", &table).unwrap_err().kind,
        ErrorKind::SyntaxError
    );
}

#[test]
fn parser_reads_strings_with_escapes() {
    let mut out = String::from("<");
    let mut input = Input::new("a\\\"b\\\\c\\/d\\n\\r\\t\" rest");
    assert!(_parse_string(&mut out, &mut input));
    assert_eq!(out, "<a\"b\\c/d\n\r\t");
    assert_eq!(input.getc(), Some(' '));

    let mut out = String::new();
    let mut input = Input::new("ab\u{1}c\"");
    assert!(!_parse_string(&mut out, &mut input));
    assert_eq!(out, "ab");
    assert_eq!(input.getc(), Some('\u{1}'));

    let mut out = String::new();
    let mut input = Input::new("ab\\");
    assert!(!_parse_string(&mut out, &mut input));
    assert_eq!(out, "ab");
}

#[test]
fn parser_reads_digits_greedily() {
    let mut input = Input::new("-12.5e+3,x");
    assert_eq!(_read_digits(&mut input), "-12.5e+3");
    assert_eq!(input.getc(), Some(','));

    let mut none = Input::new("x1");
    assert_eq!(_read_digits(&mut none), "");
    assert_eq!(none.getc(), Some('x'));
}

#[test]
fn parse_context_takes_what_the_grammar_finds() {
    let table = table_for("[1, {\"k\": null}]");
    let mut context = DefaultParseContext::new(&table);
    let mut input = Input::new("[1, {\"k\": null}] tail");
    assert!(parse_input(&mut context, &mut input));
    assert_eq!(
        context.out,
        Value::from(vec![num(1.0), Value::from(vec![("k", Value::Null)])])
    );
    assert_eq!(input.read_line(), " tail");

    let mut context = DefaultParseContext::new(&table);
    assert!(context.set_bool(true));
    assert_eq!(context.out, Value::Boolean(true));
    assert!(context.set_null());
    assert_eq!(context.out, Value::Null);
    assert!(context.set_string("s".to_string()));
    assert_eq!(context.out, Value::from("s"));
    assert!(context.set_number("1"));
    assert_eq!(context.out, num(1.0));
    assert!(!context.set_number("2"));
    assert_eq!(context.out, num(1.0));
    assert!(context.parse_array_start());
    assert_eq!(context.out, Value::array());
    assert!(context.parse_array_stop(0));
    assert!(context.parse_object_start());
    assert_eq!(context.out, Value::object());
}

#[test]
fn failed_reading_reports_nothing_before_a_container() {
    let table = NumberTable::new();
    for text in [
        "ture", "nul", "falsy", "TRUE", "", "  \n", "?", " x", "]", ",", "\"abc", "\"a\\q\"", "12",
        "-",
    ] {
        let mut context = DefaultParseContext::new(&table);
        assert!(context.set_bool(true));
        let mut input = Input::new(text);
        assert!(!parse_input(&mut context, &mut input));
        assert_eq!(context.out, Value::Boolean(true));
    }

    let mut context = DefaultParseContext::new(&table);
    let mut input = Input::new(" \t x");
    assert!(!parse_input(&mut context, &mut input));
    assert_eq!(context.out, Value::Null);
    assert_eq!(input.getc(), Some('x'));

    let mut input = Input::new(" \r\n");
    assert!(!parse_input(&mut context, &mut input));
    assert_eq!(context.out, Value::Null);
    assert_eq!(input.getc(), None);
}

#[test]
fn failed_reading_leaves_what_a_container_had_taken() {
    let table = table_for("1 2");
    let cases = [
        ("[", Value::array()),
        ("[true, nul]", Value::from(vec![true])),
        ("[1, 2 3]", Value::from(vec![1, 2])),
        ("[1, [true, ?]]", Value::from(vec![1])),
        ("{", Value::object()),
        ("{\"a\": true, \"b\" 1}", Value::from(vec![("a", true)])),
        ("{\"a\": 1, \"a\": 2 ]", Value::from(vec![("a", 2)])),
        ("{\"a\": 1, \"b\": tru}", Value::from(vec![("a", 1)])),
        ("{\"a\": {\"b\": null,}}", Value::object()),
    ];
    for (text, left) in cases {
        let mut context = DefaultParseContext::new(&table);
        assert!(context.set_null());
        let mut input = Input::new(text);
        assert!(!parse_input(&mut context, &mut input));
        assert_eq!(context.out, left);
    }
}

// The serializer.

#[test]
fn serializer_writes_the_fixture() {
    assert_eq!(
        sample().serialize().unwrap(),
        r#"{"a":1,"b":[2,{"b1":"abc"}],"c":{},"d":[]}"#
    );
    assert_eq!(
        sample().pretty_print().unwrap(),
        "{\n  \"a\": 1,\n  \"b\": [\n    2,\n    {\n      \"b1\": \"abc\"\n    }\n  ],\n  \"c\": {},\n  \"d\": []\n}\n"
    );
}

#[test]
fn serializer_appends_to_the_writer() {
    let mut writer = b"> ".to_vec();
    assert_eq!(serialize(&sample(), &mut writer), Ok(()));
    assert_eq!(
        String::from_utf8(writer).unwrap(),
        r#"> {"a":1,"b":[2,{"b1":"abc"}],"c":{},"d":[]}"#
    );

    let mut writer = Vec::new();
    assert_eq!(
        pretty_print(&Value::from(vec![true]), 4, &mut writer),
        Ok(())
    );
    assert_eq!(String::from_utf8(writer).unwrap(), "[\n    true\n]\n");

    let mut writer = Vec::new();
    assert_eq!(
        pretty_print(&Value::from(vec![true]), 0, &mut writer),
        Ok(())
    );
    assert_eq!(String::from_utf8(writer).unwrap(), "[\ntrue\n]\n");

    let mut writer = Vec::new();
    assert_eq!(
        pretty_print(&Value::from(vec![true]), -3, &mut writer),
        Ok(())
    );
    assert_eq!(String::from_utf8(writer).unwrap(), "[\ntrue\n]\n");
}

#[test]
fn serializer_writes_scalars() {
    assert_eq!(Value::Null.serialize().unwrap(), "null");
    assert_eq!(Value::Null.pretty_print().unwrap(), "null\n");
    assert_eq!(Value::array().pretty_print().unwrap(), "[]\n");
    assert_eq!(Value::object().pretty_print().unwrap(), "{}\n");
    assert_eq!(num(-0.25).serialize().unwrap(), "-0.25");
    assert_eq!(Value::from(-7).serialize().unwrap(), "-7");
}

#[test]
fn serializer_steps_write_what_they_say() {
    let mut s = JsonSerializer {
        writer: Vec::new(),
        style: JsonSerializationStyle::Pretty {
            indent_level: 1,
            indent_width: 3,
        },
    };
    assert_eq!(s.write_char(b'['), Ok(()));
    assert_eq!(s.write_str("ab"), Ok(()));
    assert_eq!(s.end_line(), Ok(()));
    s.inc_indent();
    assert_eq!(s.end_line(), Ok(()));
    s.dec_indent();
    assert_eq!(s.write_colon(), Ok(()));
    assert_eq!(s.serialize_string("q\"\\\n\r\t/"), Ok(()));
    assert_eq!(s.end_final_line(), Ok(()));
    assert_eq!(
        String::from_utf8(s.writer.clone()).unwrap(),
        "[ab\n   \n      : \"q\\\"\\\\\\n\\r\\t/\"\n"
    );
    assert!(matches!(
        s.style,
        JsonSerializationStyle::Pretty {
            indent_level: 1,
            indent_width: 3
        }
    ));

    let mut m = JsonSerializer {
        writer: Vec::new(),
        style: JsonSerializationStyle::Minimum,
    };
    assert_eq!(m.end_line(), Ok(()));
    m.inc_indent();
    m.dec_indent();
    assert_eq!(m.write_colon(), Ok(()));
    assert_eq!(m.end_final_line(), Ok(()));
    assert_eq!(m.serialize_number(&number(1.5)), Ok(()));
    assert_eq!(m.writer, b":1.5".to_vec());
}

#[test]
fn serializer_refuses_characters_above_latin_1() {
    assert_eq!(
        Value::from("你好").serialize(),
        Err(SerializeError::UnsupportedCharacter)
    );
    let mut writer = Vec::new();
    assert_eq!(
        serialize(&Value::from(vec!["ok", "a\u{100}b"]), &mut writer),
        Err(SerializeError::UnsupportedCharacter)
    );
    assert_eq!(writer, b"[\"ok\",\"a".to_vec());
    let bad_key = Value::from(vec![("k\u{2603}", true)]);
    assert_eq!(
        bad_key.pretty_print(),
        Err(SerializeError::UnsupportedCharacter)
    );
}

#[test]
fn serializer_writes_latin_1_as_single_bytes() {
    let mut writer = Vec::new();
    assert_eq!(serialize(&Value::from("\u{e9}"), &mut writer), Ok(()));
    assert_eq!(writer, vec![b'"', 0xe9, b'"']);
    assert_eq!(
        Value::from("\u{e9}").serialize(),
        Err(SerializeError::NotUtf8)
    );
    // Two such bytes may spell one character of UTF-8.
    assert_eq!(
        Value::from("\u{c3}\u{a9}").serialize().unwrap(),
        "\"\u{e9}\""
    );
}

#[test]
fn serializer_stops_where_it_cannot_indent() {
    let mut s = JsonSerializer {
        writer: Vec::new(),
        style: JsonSerializationStyle::Pretty {
            indent_level: i32::MAX,
            indent_width: 0,
        },
    };
    assert!(!s.can_indent());
    assert_eq!(
        s.serialize(&Value::from(vec![true])),
        Err(SerializeError::TooDeep)
    );
    assert_eq!(s.writer, Vec::<u8>::new());
    assert_eq!(s.serialize_core(&Value::array()), Ok(()));
    assert_eq!(s.writer, b"[]".to_vec());
}

#[test]
fn is_first_is_true_once() {
    let mut first = true;
    assert!(is_first(&mut first));
    assert!(!first);
    assert!(!is_first(&mut first));
    assert!(!first);
}

// Values.

#[test]
fn value_kinds() {
    assert_eq!(Value::Null.kind(), Type::Null);
    assert_eq!(Value::from(true).kind(), Type::Boolean);
    assert_eq!(num(1.0).kind(), Type::Number);
    assert_eq!(Value::from("x").kind(), Type::String);
    assert_eq!(Value::array().kind(), Type::Array);
    assert_eq!(Value::object().kind(), Type::Object);
    assert!(Type::Null < Type::Boolean && Type::Array < Type::Object);
    assert_eq!(Type::String.rank(), 3);
    assert!(Value::Null.is_null());
    assert!(Value::from(()).is_null());
    assert!(!Value::array().is_null());
    assert!(Value::Null.is_of::<()>());
    assert!(Value::array().is_of::<Vec<Value>>());
    assert!(Value::object().is_of::<Object>());
    assert!(!Value::object().is_of::<bool>());
    assert_eq!(Value::from(true).try_as::<bool>(), Some(&true));
    assert_eq!(Value::from(true).try_as::<String>(), None);
    assert_eq!(Value::Null.try_as::<()>(), Some(&()));
}

#[test]
fn value_contents_change_in_place() {
    let mut v = Value::from(true);
    *v.as_bool_mut().unwrap() = false;
    assert_eq!(v, Value::from(false));
    assert!(v.as_string_mut().is_none());

    let mut s = Value::from("a");
    s.as_string_mut().unwrap().push('b');
    assert_eq!(s, Value::from("ab"));
    *s.try_as_mut::<String>().unwrap() = "c".to_string();
    assert_eq!(s, Value::from("c"));

    let mut n = num(1.0);
    *n.as_number_mut().unwrap() = number(2.0);
    assert_eq!(n, num(2.0));

    let mut a = Value::array();
    a.as_array_mut().unwrap().push(Value::Null);
    assert_eq!(a, Value::from(vec![Value::Null]));
    *a.get_mut(0).unwrap() = Value::from(true);
    assert_eq!(a, Value::from(vec![true]));
    assert!(a.get_mut(1).is_none());
    assert!(a.get_mut("x").is_none());

    let mut o = Value::object();
    o.as_object_mut().unwrap().insert("k", Value::Null);
    *o.get_mut("k").unwrap() = num(5.0);
    assert_eq!(o.serialize().unwrap(), r#"{"k":5}"#);
    assert!(o.get_mut("z").is_none());
    assert!(o.get_mut(0).is_none());

    let mut null = Value::Null;
    assert!(null.try_as_mut::<()>().is_none());
    assert!(null.try_as_mut::<bool>().is_none());
    assert_eq!(null, Value::Null);
}

#[test]
fn value_emptiness() {
    assert!(Value::array().is_empty());
    assert!(Value::object().is_empty());
    assert!(!Value::Null.is_empty());
    assert!(!Value::from(false).is_empty());
    assert!(!num(0.0).is_empty());
    assert!(!Value::from(vec![true]).is_empty());
    assert!(!Value::from(vec![("a", true)]).is_empty());
}

#[test]
fn array_insert_and_remove_shift_the_tail() {
    let mut a = Value::from(vec![1, 3]);
    assert_eq!(a.insert(1, Value::from(2)), None);
    assert_eq!(a.insert(3, Value::from(4)), None);
    assert_eq!(a.insert(0, Value::from(0)), None);
    assert_eq!(a, Value::from(vec![0, 1, 2, 3, 4]));
    assert_eq!(a.remove(0), Some(Value::from(0)));
    assert_eq!(a.remove(3), Some(Value::from(4)));
    assert_eq!(a.remove(1), Some(Value::from(2)));
    assert_eq!(a, Value::from(vec![1, 3]));
    assert_eq!(a.insert("k", Value::Null), None);
    assert_eq!(a.remove("k"), None);
    assert_eq!(a, Value::from(vec![1, 3]));
    a.push(Value::Null);
    assert_eq!(a.get(2), Some(&Value::Null));
    assert_eq!(a.get(3), None);
    assert_eq!(a.get("0"), None);
}

#[test]
fn push_leaves_anything_but_an_array_alone() {
    let mut o = Value::object();
    o.push(Value::Null);
    assert_eq!(o, Value::object());
    let mut n = Value::Null;
    n.push(Value::Null);
    assert_eq!(n, Value::Null);
    assert_eq!(n.insert(0, Value::Null), None);
    assert_eq!(n.insert("a", Value::Null), None);
    assert_eq!(n.remove(0), None);
    assert_eq!(n, Value::Null);
}

#[test]
fn object_insert_overwrites() {
    let mut o = Value::object();
    assert_eq!(o.insert("a", num(1.0)), None);
    assert_eq!(o.insert("a", num(2.0)), Some(num(1.0)));
    assert_eq!(o.serialize().unwrap(), r#"{"a":2}"#);
    assert_eq!(o.as_object().unwrap().len(), 1);
    assert_eq!(o.get("a"), Some(&num(2.0)));
    assert_eq!(o.insert(0, Value::Null), None);
    assert_eq!(o.serialize().unwrap(), r#"{"a":2}"#);
}

#[test]
fn object_keeps_its_keys_sorted() {
    let mut o = Object::new();
    assert!(o.is_empty());
    for key in ["m", "z", "a", "mm", "", "Z", "é", "b"] {
        assert_eq!(o.insert(key, Value::from(key)), None);
    }
    assert_eq!(o.len(), 8);
    let keys: Vec<&str> = (0..o.len()).map(|i| o.key_at(i)).collect();
    assert_eq!(keys, vec!["", "Z", "a", "b", "m", "mm", "z", "é"]);
    let mut sorted = keys.clone();
    sorted.sort();
    assert_eq!(keys, sorted);
    assert_eq!(o.value_at(1), &Value::from("Z"));
    assert_eq!(o.get("mm"), Some(&Value::from("mm")));
    assert_eq!(o.get("x"), None);
    assert_eq!(o.remove("m"), Some(Value::from("m")));
    assert_eq!(o.remove("m"), None);
    assert_eq!(o.len(), 7);
    assert_eq!(o.get("m"), None);
    assert_eq!(o.get("mm"), Some(&Value::from("mm")));
    *o.get_mut("z").unwrap() = Value::Null;
    assert_eq!(o.get("z"), Some(&Value::Null));
}

#[test]
fn keys_address_items_directly() {
    let mut a = Value::array();
    assert_eq!(a.insert_at(ValueKey::Index(0), Value::from(2)), None);
    assert_eq!(a.insert_at(ValueKey::Index(0), Value::from(1)), None);
    assert_eq!(a.insert_at(ValueKey::Key("k"), Value::Null), None);
    assert_eq!(a, Value::from(vec![1, 2]));
    assert_eq!(a.get_at(ValueKey::Index(1)), Some(&num(2.0)));
    assert_eq!(a.get_at(ValueKey::Index(2)), None);
    assert_eq!(a.get_at(ValueKey::Key("1")), None);
    assert!(a.has_at(ValueKey::Index(0)));
    assert!(!a.has_at(ValueKey::Index(2)));
    *a.get_mut_at(ValueKey::Index(0)).unwrap() = Value::Null;
    assert!(a.get_mut_at(ValueKey::Index(2)).is_none());
    assert_eq!(a.remove_at(ValueKey::Index(0)), Some(Value::Null));
    assert_eq!(a.remove_at(ValueKey::Key("0")), None);
    assert_eq!(a, Value::from(vec![2]));

    let mut o = Value::object();
    assert_eq!(o.insert_at(ValueKey::Key("k"), num(1.0)), None);
    assert_eq!(o.insert_at(ValueKey::Key("k"), num(2.0)), Some(num(1.0)));
    assert_eq!(o.insert_at(ValueKey::Index(0), Value::Null), None);
    assert_eq!(o.get_at(ValueKey::Key("k")), Some(&num(2.0)));
    assert!(!o.has_at(ValueKey::Index(0)));
    *o.get_mut_at(ValueKey::Key("k")).unwrap() = Value::from(true);
    assert_eq!(o.remove_at(ValueKey::Key("k")), Some(Value::from(true)));
    assert_eq!(o.remove_at(ValueKey::Key("k")), None);
    assert_eq!(o, Value::object());

    assert_eq!(Value::Null.get_at(ValueKey::Index(0)), None);
    assert!(!Value::Null.has_at(ValueKey::Key("k")));
}

#[test]
fn value_keys_come_from_positions_and_names() {
    assert_eq!(ValueKey::from(3), ValueKey::Index(3));
    assert_eq!(ValueKey::from("k"), ValueKey::Key("k"));
    assert_ne!(ValueKey::from("3"), ValueKey::Index(3));
    assert!(ValueKey::Index(1) < ValueKey::Index(2));
    let v = Value::from(vec![("k", 1)]);
    assert_eq!(v.get(ValueKey::Key("k")), Some(&num(1.0)));
    assert!(v.has(ValueKey::Key("k")));
    assert!(!v.has(ValueKey::Index(0)));
}

#[test]
fn conversions_make_the_values_they_stand_for() {
    assert_eq!(Value::from(()), Value::Null);
    assert_eq!(Value::from("s"), Value::String("s".to_string()));
    assert_eq!(Value::from("s".to_string()), Value::from("s"));
    assert_eq!(Value::from(Value::from(1)), num(1.0));
    assert_eq!(Value::from(Vec::<bool>::new()), Value::array());
    assert_eq!(Value::from(Vec::<(&str, bool)>::new()), Value::object());
    assert_eq!(Value::from(Object::new()), Value::object());
    assert_eq!(
        Value::from(vec![vec![1], vec![2, 3]]).serialize().unwrap(),
        "[[1],[2,3]]"
    );
    assert_eq!(
        Value::from(vec![("b".to_string(), 1), ("a".to_string(), 2), ("b".to_string(), 3)])
            .serialize()
            .unwrap(),
        r#"{"a":2,"b":3}"#
    );
}

#[test]
fn copies_are_equal() {
    let v = sample();
    let copy = v.clone();
    assert_eq!(v, copy);
    assert_eq!(copy.serialize().unwrap(), v.serialize().unwrap());
    assert_eq!(v.duplicate(), v);
    let o = v.as_object().unwrap().clone();
    assert_eq!(Value::Object(o), v);
}

#[test]
fn equality_is_by_kind_and_content() {
    assert_ne!(Value::Null, Value::from(false));
    assert_ne!(Value::from("1"), num(1.0));
    assert_ne!(Value::from(vec![1, 2]), Value::from(vec![1, 3]));
    assert_ne!(Value::from(vec![1, 2]), Value::from(vec![1]));
    assert_ne!(
        Value::from(vec![("a", 1)]),
        Value::from(vec![("b", 1)])
    );
    assert_ne!(Value::from(vec![("a", 1)]), Value::from(vec![("a", 2)]));
    assert_eq!(
        Value::from(vec![("a", 1), ("b", 2)]),
        Value::from(vec![("b", 2), ("a", 1)])
    );
    assert_eq!(num(0.0), num(-0.0));
    assert!(sample().same(&sample()));
}

#[test]
fn order_of_values() {
    let ranked = [
        Value::Null,
        Value::from(false),
        num(-1.0),
        Value::from(""),
        Value::array(),
        Value::object(),
    ];
    for i in 0..ranked.len() {
        for j in 0..ranked.len() {
            assert_eq!(ranked[i].partial_cmp(&ranked[j]), Some(i.cmp(&j)));
        }
    }
    assert!(Value::from(false) < Value::from(true));
    assert!(num(-2.0) < num(1.5));
    assert_eq!(num(0.0).compare(&num(-0.0)), Some(Order::Equal));
    assert!(Value::from("a") < Value::from("ab"));
    assert!(Value::from("ab") < Value::from("b"));
    assert_eq!(
        Value::from("x").partial_cmp(&Value::from("x")),
        Some(Ordering::Equal)
    );
}

#[test]
fn order_of_arrays_is_by_length_then_by_the_first_pair() {
    assert!(Value::from(vec![9]) < Value::from(vec![1, 1]));
    assert!(Value::from(vec![1, 1]) > Value::from(vec![9]));
    assert!(Value::from(vec![1, 9]) < Value::from(vec![2, 0]));
    assert_eq!(
        Value::from(vec![1, 2]).compare(&Value::from(vec![1, 3])),
        Some(Order::Equal)
    );
    assert_eq!(
        Value::array().partial_cmp(&Value::array()),
        Some(Ordering::Equal)
    );
}

#[test]
fn order_of_objects_is_entry_by_entry() {
    let one = Value::from(vec![("a", 1)]);
    assert_eq!(one.partial_cmp(&one), Some(Ordering::Equal));
    assert!(one < Value::from(vec![("a", 2)]));
    assert!(one < Value::from(vec![("b", 0)]));
    assert!(one < Value::from(vec![("a", 1), ("b", 0)]));
    assert!(Value::object() < one);
    assert!(one > Value::from(vec![("a", Value::Null)]));
    assert!(Value::from(vec![("a", 1), ("c", 0)]) > Value::from(vec![("a", 1), ("b", 5)]));
}

// What holds of writing and reading together.

#[test]
fn written_values_are_read_back() {
    let values = vec![
        Value::Null,
        Value::from(true),
        Value::from(false),
        num(0.0),
        num(-0.0),
        num(1.0),
        num(-3.14),
        num(1e-9),
        num(1e300),
        num(f64::MAX),
        num(f64::MIN_POSITIVE),
        num(9007199254740992.0),
        Value::from(""),
        Value::from("plain text"),
        Value::from("quote \" backslash \\ slash / line \n return \r tab \t"),
        Value::array(),
        Value::object(),
        Value::from(vec![Value::array(), Value::object(), Value::Null]),
        sample(),
        Value::from(vec![("", sample()), ("k\"ey", Value::from(vec![sample()]))]),
    ];
    for v in values {
        let text = v.serialize().unwrap();
        let back = parse_text(&text).unwrap();
        assert_eq!(back, v);
        assert_eq!(back.serialize().unwrap(), text);
        let pretty = v.pretty_print().unwrap();
        assert_eq!(parse_text(&pretty).unwrap(), v);
    }
    assert_eq!(round_trip(&num(-0.0)).as_number().unwrap().bits(), (-0.0f64).to_bits());
}

#[test]
fn integers_round_trip_exactly() {
    for n in 0..=53 {
        for x in [(1_i64 << n) as f64, -((1_i64 << n) as f64), ((1_i64 << n) - 1) as f64] {
            let back = round_trip(&num(x));
            assert_eq!(f64::from_bits(back.as_number().unwrap().bits()), x);
        }
    }
    for x in [1e16, 1.5e200, 123456789012345680000.0, f64::MAX, 5e-324] {
        let back = round_trip(&num(x));
        let y = f64::from_bits(back.as_number().unwrap().bits());
        assert!(((x - y) / x).abs() <= 1e-8);
    }
}

#[test]
fn control_characters_are_written_but_not_read_back() {
    let v = Value::from("a\u{1}b");
    let text = v.serialize().unwrap();
    assert_eq!(text, "\"a\u{1}b\"");
    assert!(parse_text(&text).is_err());
}
