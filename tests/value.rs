use relaxed_json::{parse_value, Number, ParseError, PeekReader, Value};

fn parse(data: &str, depth: u8, top_level: bool) -> Result<Value, ParseError> {
    let mut reader = PeekReader::new(data);
    parse_value(&mut reader, depth, top_level)
}

fn number_of(v: &Value) -> f64 {
    match v {
        Value::Number(n) => n.as_str().parse::<f64>().unwrap(),
        other => panic!("not a number: {:?}", other),
    }
}

fn malformed(text: &str) -> ParseError {
    ParseError::MalformedValue(text.to_owned())
}

fn text_of(n: &Number) -> String {
    n.as_str().to_owned()
}

#[test]
fn test_parse_value() {
    let data = "1";
    let mut reader = PeekReader::new(data);
    assert_eq!(number_of(&parse_value(&mut reader, 100, true).unwrap()), 1.0);

    let data = "false";
    let mut reader = PeekReader::new(data);
    assert_eq!(parse_value(&mut reader, 100, true).unwrap(), Value::Bool(false));

    let data = "false: false";
    let mut reader = PeekReader::new(data);
    assert_eq!(
        parse_value(&mut reader, 100, true).unwrap(),
        Value::Object(vec![("false".to_owned(), Value::Bool(false))])
    );
}

#[test]
fn duplicate_keys_last_wins() {
    match parse(r#"{"a":1,"a":2}"#, 100, true).unwrap() {
        Value::Object(m) => {
            assert_eq!(m.len(), 1);
            assert_eq!(m[0].0, "a");
            assert_eq!(number_of(&m[0].1), 2.0);
        }
        other => panic!("not an object: {:?}", other),
    }
}

#[test]
fn duplicate_keys_keep_first_position() {
    match parse(r#"{"a":1,"b":2,"a":3}"#, 100, false).unwrap() {
        Value::Object(m) => {
            assert_eq!(m.len(), 2);
            assert_eq!(m[0].0, "a");
            assert_eq!(number_of(&m[0].1), 3.0);
            assert_eq!(m[1].0, "b");
        }
        other => panic!("not an object: {:?}", other),
    }
}

#[test]
fn bareword_alone_is_a_keyword() {
    assert_eq!(parse("false", 100, true), Ok(Value::Bool(false)));
    assert_eq!(parse("true", 100, false), Ok(Value::Bool(true)));
    assert_eq!(parse("null", 100, false), Ok(Value::Null));
}

#[test]
fn bareword_before_colon_starts_implicit_object() {
    assert_eq!(
        parse("false:false", 100, true),
        Ok(Value::Object(vec![("false".to_owned(), Value::Bool(false))]))
    );
}

#[test]
fn implicit_object_is_only_at_top_level() {
    assert_eq!(parse("false: false", 100, false), Ok(Value::Bool(false)));
}

#[test]
fn implicit_object_runs_to_end() {
    let v = parse("a: 1\nb: [true, null]\n\"c d\": \"e\",", 100, true).unwrap();
    match v {
        Value::Object(m) => {
            assert_eq!(m.len(), 3);
            assert_eq!(m[0].0, "a");
            assert_eq!(number_of(&m[0].1), 1.0);
            assert_eq!(m[1], ("b".to_owned(), Value::Array(vec![Value::Bool(true), Value::Null])));
            assert_eq!(m[2], ("c d".to_owned(), Value::String("e".to_owned())));
        }
        other => panic!("not an object: {:?}", other),
    }
}

#[test]
fn quoted_key_starts_implicit_object() {
    assert_eq!(
        parse("\"k\" : null", 100, true),
        Ok(Value::Object(vec![("k".to_owned(), Value::Null)]))
    );
}

#[test]
fn number_one() {
    let v = parse("1", 100, true).unwrap();
    assert_eq!(number_of(&v), 1.0);
}

#[test]
fn number_forms() {
    assert_eq!(number_of(&parse("-2.5e3", 100, false).unwrap()), -2500.0);
    assert_eq!(number_of(&parse("+.5", 100, false).unwrap()), 0.5);
    assert_eq!(number_of(&parse("7.", 100, false).unwrap()), 7.0);
    match parse("12E-1", 100, false).unwrap() {
        Value::Number(n) => assert_eq!(text_of(&n), "12E-1"),
        other => panic!("not a number: {:?}", other),
    }
}

#[test]
fn malformed_numbers() {
    assert_eq!(parse("-", 100, false), Err(malformed("-")));
    assert_eq!(parse(".", 100, false), Err(malformed(".")));
    assert_eq!(parse("1e", 100, false), Err(malformed("1e")));
    assert_eq!(parse("1.2.3", 100, false), Err(malformed("1.2.3")));
}

#[test]
fn raw_string_keeps_backslash() {
    assert_eq!(parse(r#"r"a\b""#, 100, false), Ok(Value::String("a\\b".to_owned())));
}

#[test]
fn raw_string_with_fence() {
    assert_eq!(parse(r##"r#"a"b"#"##, 100, false), Ok(Value::String("a\"b".to_owned())));
    assert_eq!(parse(r###"r##"x"#y"##"###, 100, false), Ok(Value::String("x\"#y".to_owned())));
}

#[test]
fn raw_string_errors() {
    assert_eq!(parse(r#"r"abc"#, 100, false), Err(ParseError::UnexpectedEnd));
    assert_eq!(parse("r#x", 100, false), Err(malformed("x")));
    assert_eq!(parse("r##", 100, false), Err(ParseError::UnexpectedEnd));
}

#[test]
fn byte_string_decodes_to_bytes() {
    assert_eq!(parse(r#"b"hi""#, 100, false), Ok(Value::ByteString(vec![104, 105])));
}

#[test]
fn byte_string_encodes_non_ascii() {
    assert_eq!(parse("b\"\u{e9}\"", 100, false), Ok(Value::ByteString(vec![0xC3, 0xA9])));
    assert_eq!(parse(r#"b"€""#, 100, false), Ok(Value::ByteString(vec![0xE2, 0x82, 0xAC])));
}

#[test]
fn r_without_quote_is_a_bareword() {
    assert_eq!(parse("r1", 100, false), Err(malformed("r1")));
    assert_eq!(
        parse("r1: true", 100, true),
        Ok(Value::Object(vec![("r1".to_owned(), Value::Bool(true))]))
    );
    assert_eq!(
        parse("r: null", 100, true),
        Ok(Value::Object(vec![("r".to_owned(), Value::Null)]))
    );
}

#[test]
fn b_without_quote_is_a_bareword() {
    assert_eq!(parse("bx", 100, false), Err(malformed("bx")));
    assert_eq!(
        parse("b#: false", 100, true),
        Err(malformed("b"))
    );
    assert_eq!(
        parse("bb: false", 100, true),
        Ok(Value::Object(vec![("bb".to_owned(), Value::Bool(false))]))
    );
}

#[test]
fn unterminated_containers() {
    assert_eq!(parse("[1,2", 100, false), Err(ParseError::UnexpectedEnd));
    assert_eq!(parse(r#"{"a":1"#, 100, false), Err(ParseError::UnexpectedEnd));
    assert_eq!(parse("[", 100, false), Err(ParseError::UnexpectedEnd));
    assert_eq!(parse("{", 100, false), Err(ParseError::UnexpectedEnd));
}

#[test]
fn depth_budget_is_exact() {
    assert_eq!(parse("[]", 1, false), Ok(Value::Array(vec![])));
    assert_eq!(parse("[[]]", 1, false), Err(ParseError::DepthExceeded));
    assert_eq!(parse("[[]]", 2, false), Ok(Value::Array(vec![Value::Array(vec![])])));
    assert_eq!(parse("[[null]]", 2, false), Err(ParseError::DepthExceeded));
    assert_eq!(parse("[[null]]", 3, false).is_ok(), true);
    assert_eq!(parse("null", 0, false), Err(ParseError::DepthExceeded));
    assert_eq!(parse(r#"{"a":{"b":1}}"#, 2, false), Err(ParseError::DepthExceeded));
    assert_eq!(parse(r#"{"a":{"b":1}}"#, 3, false).is_ok(), true);
    assert_eq!(parse("a: [1]", 2, true), Err(ParseError::DepthExceeded));
    assert_eq!(parse("a: [1]", 3, true).is_ok(), true);
}

#[test]
fn deep_nesting_at_budget() {
    let depth: usize = 100;
    let text = format!("{}{}", "[".repeat(depth), "]".repeat(depth));
    assert_eq!(parse(&text, 100, false).is_ok(), true);
    let text = format!("{}{}", "[".repeat(depth + 1), "]".repeat(depth + 1));
    assert_eq!(parse(&text, 100, false), Err(ParseError::DepthExceeded));
}

#[test]
fn strict_json_document() {
    let v = parse(r#"{"a": [1, "x", true], "b": {"c": null}, "d": false}"#, 100, false).unwrap();
    match v {
        Value::Object(m) => {
            assert_eq!(m.len(), 3);
            assert_eq!(m[0].0, "a");
            match &m[0].1 {
                Value::Array(a) => {
                    assert_eq!(a.len(), 3);
                    assert_eq!(number_of(&a[0]), 1.0);
                    assert_eq!(a[1], Value::String("x".to_owned()));
                    assert_eq!(a[2], Value::Bool(true));
                }
                other => panic!("not an array: {:?}", other),
            }
            assert_eq!(
                m[1],
                ("b".to_owned(), Value::Object(vec![("c".to_owned(), Value::Null)]))
            );
            assert_eq!(m[2], ("d".to_owned(), Value::Bool(false)));
        }
        other => panic!("not an object: {:?}", other),
    }
}

#[test]
fn string_escapes() {
    assert_eq!(
        parse(r#""a\n\t\"\\\/A\b\f\r""#, 100, false),
        Ok(Value::String("a\n\t\"\\/A\u{8}\u{c}\r".to_owned()))
    );
    assert_eq!(parse(r#""é""#, 100, false), Ok(Value::String("\u{e9}".to_owned())));
}

#[test]
fn string_errors() {
    assert_eq!(parse(r#""abc"#, 100, false), Err(ParseError::UnexpectedEnd));
    assert_eq!(parse(r#""\q""#, 100, false), Err(malformed("\\q")));
    assert_eq!(parse(r#""\uD800""#, 100, false), Err(malformed("\\uD800")));
    assert_eq!(parse(r#""\u12G4""#, 100, false), Err(malformed("\\u12G4")));
    assert_eq!(parse(r#""\u12"#, 100, false), Err(ParseError::UnexpectedEnd));
}

#[test]
fn unknown_barewords_are_malformed() {
    assert_eq!(parse("foo", 100, true), Err(malformed("foo")));
    assert_eq!(parse("True", 100, false), Err(malformed("True")));
    assert_eq!(parse("@", 100, false), Err(malformed("@")));
}

#[test]
fn empty_input_is_unexpected_end() {
    assert_eq!(parse("", 100, true), Err(ParseError::UnexpectedEnd));
}

#[test]
fn trailing_delimiters_are_tolerated() {
    assert_eq!(parse("[null,]", 100, false), Ok(Value::Array(vec![Value::Null])));
    assert_eq!(
        parse(r#"{ a : true , }"#, 100, false),
        Ok(Value::Object(vec![("a".to_owned(), Value::Bool(true))]))
    );
}

#[test]
fn missing_colon_is_malformed() {
    assert_eq!(parse(r#"{"a" 1}"#, 100, false), Err(malformed("1")));
    assert_eq!(parse("a: 1 b 2", 100, true), Err(malformed("2")));
}

#[test]
fn reader_stops_after_value() {
    let mut reader = PeekReader::new("[1] rest");
    assert_eq!(parse_value(&mut reader, 100, false).is_ok(), true);
    assert_eq!(reader.peek(), Some(' '));
}

#[test]
fn unicode_escapes() {
    assert_eq!(
        parse(r#""\u0041\u00e9\u20AC""#, 100, false),
        Ok(Value::String("A\u{e9}\u{20ac}".to_owned()))
    );
    assert_eq!(
        parse(r#"b"\u0041\u00E9""#, 100, false),
        Ok(Value::ByteString(vec![65, 0xC3, 0xA9]))
    );
}

#[test]
fn surrogate_pair_escape_is_one_character() {
    assert_eq!(
        parse(r#""\uD834\uDD1E""#, 100, false),
        Ok(Value::String("\u{1D11E}".to_owned()))
    );
    assert_eq!(
        parse(r#""a\ud83d\ude00b""#, 100, false),
        Ok(Value::String("a\u{1F600}b".to_owned()))
    );
}

#[test]
fn unpaired_surrogates_are_malformed_in_text() {
    assert_eq!(parse(r#""\uDD1E""#, 100, false), Err(malformed("\\uDD1E")));
    assert_eq!(parse(r#""\uD834x""#, 100, false), Err(malformed("\\uD834")));
    assert_eq!(parse(r#""\uD834\u0041""#, 100, false), Err(malformed("\\uD834")));
}

#[test]
fn byte_string_keeps_lone_surrogate() {
    assert_eq!(
        parse(r#"b"\uD800""#, 100, false),
        Ok(Value::ByteString(vec![0xED, 0xA0, 0x80]))
    );
    assert_eq!(
        parse(r#"b"\uD834\uDD1E""#, 100, false),
        Ok(Value::ByteString(vec![0xF0, 0x9D, 0x84, 0x9E]))
    );
}

#[test]
fn depth_zero_consumes_nothing() {
    let mut reader = PeekReader::new("[1]");
    assert_eq!(parse_value(&mut reader, 0, true), Err(ParseError::DepthExceeded));
    assert_eq!(reader.offset(), 0);
    let mut reader = PeekReader::new("");
    assert_eq!(parse_value(&mut reader, 0, false), Err(ParseError::DepthExceeded));
}

#[test]
fn malformed_errors_name_the_text() {
    assert_eq!(parse("nul", 100, false), Err(malformed("nul")));
    assert_eq!(parse("[1;2]", 100, false), Err(malformed(";")));
    assert_eq!(parse("{a 1}", 100, false), Err(malformed("1")));
}
