use protohackers::json::{JsonNumber, JsonValue, ParseError, ParseFailure};
use protohackers::parse::{advance_by, parse_json, parse_json_checked, trim_whitespaces};

fn string(s: &str) -> JsonValue {
    JsonValue::String(s.to_string())
}

fn number(negative: bool, int_digits: &[u8], frac_digits: &[u8]) -> JsonValue {
    JsonValue::Number(JsonNumber::from_parts(negative, int_digits.to_vec(), frac_digits.to_vec()))
}

fn object(members: Vec<(&str, JsonValue)>) -> JsonValue {
    JsonValue::Object(members.into_iter().map(|(k, v)| (k.to_string(), v)).collect())
}

#[test]
fn test_string_parsing() {
    let test_values = [
        (r#""abc""#, Ok(string("abc"))),
        (r#"""#, Err(ParseError::UnexpectedStringEnd)),
        (r#"  "abc  "#, Err(ParseError::UnexpectedStringEnd)),
        (r#""""#, Ok(JsonValue::String(String::new()))),
        (r#"  "abc"   "#, Ok(string("abc"))),
        (r#"  "abc"  a"#, Err(ParseError::UnexpectedSymbol('a'))),
        (r#""\"""#, Ok(string("\""))),
    ];

    for (input, expected_output) in test_values {
        assert_eq!(parse_json(input), expected_output);
    }
}

#[test]
fn test_number_parsing() {
    let test_values = [
        (r#"0"#, Ok(number(false, &[0], &[0]))),
        (r#"0.0"#, Ok(number(false, &[0], &[0]))),
        (r#"0.00"#, Ok(number(false, &[0], &[0]))),
        (r#"00"#, Err(ParseError::UnexpectedSymbol('0'))),
        (r#"123.321"#, Ok(number(false, &[1, 2, 3], &[3, 2, 1]))),
        (r#"20"#, Ok(number(false, &[2, 0], &[0]))),
        (r#"-0"#, Ok(number(false, &[0], &[0]))),
        (r#"-10.5"#, Ok(number(true, &[1, 0], &[5]))),
        (r#"-10."#, Err(ParseError::UnexpectedJsonEnd)),
        (r#"-10.a"#, Err(ParseError::UnexpectedSymbol('a'))),
    ];

    for (input, expected_output) in test_values {
        assert_eq!(parse_json(input), expected_output);
    }
}

#[test]
fn test_object_parsing() {
    let test_values = [
        (r#"{}"#, Ok(JsonValue::Object(Vec::new()))),
        (
            r#"{"a":"b","c":true}"#,
            Ok(object(vec![("a", string("b")), ("c", JsonValue::Boolean(true))])),
        ),
        (r#"{"a":"b","c":true,}"#, Err(ParseError::UnexpectedSymbol('}'))),
        (
            r#"{"nested":{"one_more_level":{"empty":{}}}}"#,
            Ok(object(vec![(
                "nested",
                object(vec![("one_more_level", object(vec![("empty", JsonValue::Object(Vec::new()))]))]),
            )])),
        ),
    ];

    for (input, expected_output) in test_values {
        assert_eq!(parse_json(input), expected_output);
    }
}

#[test]
fn test_array_parsing() {
    let test_values = [
        (r#"[]"#, Ok(JsonValue::Array(vec![]))),
        (
            r#"["abc", 1.1 , false, {}]"#,
            Ok(JsonValue::Array(vec![
                string("abc"),
                number(false, &[1], &[1]),
                JsonValue::Boolean(false),
                JsonValue::Object(Vec::new()),
            ])),
        ),
        (
            r#"[[[]]]"#,
            Ok(JsonValue::Array(vec![JsonValue::Array(vec![JsonValue::Array(vec![])])])),
        ),
        (r#"[false,true,]"#, Err(ParseError::UnexpectedSymbol(']'))),
    ];

    for (input, expected_output) in test_values {
        assert_eq!(parse_json(input), expected_output);
    }
}

#[test]
fn test_to_string() {
    let test_values = [
        (
            JsonValue::Array(vec![
                string("abc"),
                number(false, &[1], &[1]),
                JsonValue::Boolean(false),
                JsonValue::Object(Vec::new()),
            ]),
            r#"["abc",1.1,false,{}]"#,
        ),
        (
            JsonValue::Array(vec![JsonValue::Array(vec![JsonValue::Array(vec![])])]),
            r#"[[[]]]"#,
        ),
    ];

    for (input, expected_output) in test_values {
        assert_eq!(input.to_string(), expected_output);
    }
}

#[test]
fn parse_keywords_and_whitespace() {
    assert_eq!(parse_json(" \t\ntrue\r\n"), Ok(JsonValue::Boolean(true)));
    assert_eq!(parse_json("false"), Ok(JsonValue::Boolean(false)));
    assert_eq!(parse_json("null"), Ok(JsonValue::Null));
    assert_eq!(parse_json("nul"), Err(ParseError::UnexpectedSymbol('n')));
    assert_eq!(parse_json("tru"), Err(ParseError::UnexpectedSymbol('t')));
    assert_eq!(parse_json(""), Err(ParseError::UnexpectedJsonEnd));
    assert_eq!(parse_json("   "), Err(ParseError::UnexpectedJsonEnd));
    assert_eq!(parse_json("\u{a0}null\u{3000}"), Ok(JsonValue::Null));
    assert_eq!(parse_json("x"), Err(ParseError::UnexpectedSymbol('x')));
}

#[test]
fn parse_number_edge_cases() {
    assert_eq!(parse_json("-"), Err(ParseError::UnexpectedNumberEnd));
    assert_eq!(parse_json("1."), Err(ParseError::UnexpectedJsonEnd));
    assert_eq!(parse_json("0.05"), Ok(number(false, &[0], &[0, 5])));
    assert_eq!(parse_json("1e5"), Err(ParseError::UnexpectedSymbol('e')));
    assert_eq!(parse_json("007"), Err(ParseError::UnexpectedSymbol('0')));
    assert_eq!(parse_json("100"), Ok(number(false, &[1, 0, 0], &[])));
    assert_eq!(parse_json_checked("-a"), Err(ParseFailure::Unsupported));
}

#[test]
fn parse_string_escapes() {
    assert_eq!(parse_json("\"a\\/b\""), Ok(string("a/b")));
    assert_eq!(parse_json("\"a\\\\b\""), Ok(string("a\\b")));
    assert_eq!(parse_json(r#""a\nb""#), Ok(string("a\nb")));
    assert_eq!(parse_json(r#""a\rb\tc""#), Ok(string("a\rb\tc")));
    assert_eq!(parse_json(r#""\"q\"""#), Ok(string("\"q\"")));
    assert_eq!(parse_json("\"a\\"), Err(ParseError::UnexpectedStringEnd));
    assert_eq!(parse_json_checked(r#""a\bb""#), Err(ParseFailure::Unsupported));
    assert_eq!(parse_json_checked(r#""a\fb""#), Err(ParseFailure::Unsupported));
    assert_eq!(parse_json_checked(r#""\u0041""#), Err(ParseFailure::Unsupported));
    assert_eq!(parse_json("\"a\\\tb\""), Ok(string("a\tb")));
    assert_eq!(parse_json("\"a\\\rb\\\nc\""), Ok(string("a\rb\nc")));
    assert_eq!(parse_json_checked(r#""\x""#), Err(ParseFailure::Unsupported));
    assert_eq!(parse_json("\"h\u{e9}llo\""), Ok(string("h\u{e9}llo")));
}

#[test]
fn parse_structure_errors() {
    assert_eq!(parse_json("{"), Err(ParseError::UnexpectedJsonEnd));
    assert_eq!(parse_json("{,}"), Err(ParseError::UnexpectedSymbol(',')));
    assert_eq!(parse_json("{\"a\" 1}"), Err(ParseError::UnexpectedSymbol('1')));
    assert_eq!(parse_json("{\"a\":1 \"b\":2}"), Err(ParseError::UnexpectedSymbol('"')));
    assert_eq!(parse_json("{1:2}"), Err(ParseError::UnexpectedSymbol('1')));
    assert_eq!(parse_json("{\"a\":"), Err(ParseError::UnexpectedJsonEnd));
    assert_eq!(parse_json("[1 2]"), Err(ParseError::UnexpectedSymbol('2')));
    assert_eq!(parse_json("[,1]"), Err(ParseError::UnexpectedSymbol(',')));
    assert_eq!(parse_json("["), Err(ParseError::UnexpectedJsonEnd));
    assert_eq!(parse_json("[1] [2]"), Err(ParseError::UnexpectedSymbol('[')));
}

#[test]
fn object_later_member_replaces_earlier() {
    assert_eq!(
        parse_json(r#"{"a":1,"b":2,"a":3}"#),
        Ok(object(vec![("a", number(false, &[3], &[])), ("b", number(false, &[2], &[]))]))
    );
}

#[test]
fn number_text_forms() {
    let cases = [
        (number(false, &[0], &[]), "0"),
        (number(true, &[0], &[0]), "0"),
        (number(true, &[1, 0], &[5]), "-10.5"),
        (number(false, &[0], &[0, 0, 5]), "0.005"),
        (number(false, &[1, 2, 3], &[3, 2, 1, 0]), "123.321"),
        (number(false, &[4, 0, 0], &[]), "400"),
    ];
    for (value, text) in cases {
        assert_eq!(value.to_string(), text);
    }
    assert_eq!(JsonValue::Number(JsonNumber::from_u64(0)).to_string(), "0");
    assert_eq!(JsonValue::Number(JsonNumber::from_u64(18446744073709551615)).to_string(), "18446744073709551615");
}

#[test]
fn print_then_parse_gives_value_back() {
    let value = object(vec![
        ("name", string("some name")),
        ("list", JsonValue::Array(vec![number(true, &[4, 2], &[0, 1]), JsonValue::Null])),
        ("flag", JsonValue::Boolean(true)),
    ]);
    let text = value.to_string();
    assert_eq!(text, r#"{"name":"some name","list":[-42.01,null],"flag":true}"#);
    assert_eq!(parse_json(&text), Ok(value.clone()));
    assert_eq!(value.clone(), value);
}

#[test]
fn positions_move_past_whitespace_and_by_counts() {
    let text: Vec<char> = " \t\n\u{2003}x  y".chars().collect();
    let mut pos = 0usize;
    trim_whitespaces(&text, &mut pos);
    assert_eq!(pos, 4);
    trim_whitespaces(&text, &mut pos);
    assert_eq!(pos, 4);
    advance_by(&text, &mut pos, 1);
    assert_eq!(pos, 5);
    trim_whitespaces(&text, &mut pos);
    assert_eq!(pos, 7);
    advance_by(&text, &mut pos, 1);
    assert_eq!(pos, 8);
    trim_whitespaces(&text, &mut pos);
    assert_eq!(pos, 8);
    advance_by(&text, &mut pos, 0);
    assert_eq!(pos, 8);
}

#[test]
fn nested_objects_keep_one_member_per_key() {
    assert_eq!(
        parse_json(r#"[{"k":1,"k":{"x":1,"x":2}}]"#),
        Ok(JsonValue::Array(vec![object(vec![(
            "k",
            object(vec![("x", number(false, &[2], &[]))])
        )])]))
    );
}

#[test]
fn surrounding_whitespace_changes_no_parse() {
    let texts = [r#"{"a":[1, true],"b":"x y"}"#, "-12.5", "null", r#""s""#, "[[]]", "0"];
    for text in texts {
        let padded = format!(" \t\u{3000}\n{}\r\n\u{a0} ", text);
        assert!(parse_json(text).is_ok(), "{}", text);
        assert_eq!(parse_json(&padded), parse_json(text), "{}", text);
    }
}
