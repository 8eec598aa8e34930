use json_parser::{parse, parse_any, JsonNumber, JsonResult, ParseError};

fn integer(digits: &[u8]) -> JsonResult {
    JsonResult::Number(JsonNumber {
        negative: false,
        digits: digits.to_vec(),
        scale: 0,
        exponent_negative: false,
        exponent_digits: Vec::new(),
    })
}

fn string(text: &str) -> JsonResult {
    JsonResult::String(text.to_string())
}

fn magnitude(value: &JsonResult) -> f64 {
    let number = value.as_number().unwrap();
    let mantissa = number.mantissa().unwrap() as f64;
    let exponent = number.exponent().unwrap();
    let scaled = if exponent >= 0 {
        mantissa * 10f64.powi(exponent as i32)
    } else {
        mantissa / 10f64.powi(-exponent as i32)
    };
    if number.is_negative() {
        -scaled
    } else {
        scaled
    }
}

#[test]
fn duplicate_keys_keep_the_last_value() {
    let value = parse("{\"a\":1,\"a\":2}".to_string()).unwrap();
    assert_eq!(value.get("a"), Some(&integer(&[2])));
    assert_eq!(value.member_count(), Some(1));
    assert_eq!(value, JsonResult::Object(vec![("a".to_string(), integer(&[2]))]));
}

#[test]
fn keys_stand_in_the_order_of_their_first_occurrence() {
    let value = parse(" { \"z\": 1, \"a\": 2, \"m\": 3, \"a\": 4, \"z\": 5 }".to_string()).unwrap();
    match &value {
        JsonResult::Object(members) => {
            let keys: Vec<&str> = members.iter().map(|m| m.0.as_str()).collect();
            assert_eq!(keys, vec!["z", "a", "m"]);
        }
        _ => panic!("no object"),
    }
    assert_eq!(value.get("z"), Some(&integer(&[5])));
    assert_eq!(value.get("a"), Some(&integer(&[4])));
    assert_eq!(value.get("m"), Some(&integer(&[3])));
}

#[test]
fn duplicate_key_keeps_its_first_place() {
    let value = parse("{\"a\":1,\"b\":2,\"a\":3}".to_string()).unwrap();
    assert_eq!(
        value,
        JsonResult::Object(vec![
            ("a".to_string(), integer(&[3])),
            ("b".to_string(), integer(&[2])),
        ])
    );
}

#[test]
fn empty_object() {
    assert_eq!(parse("{}".to_string()), Ok(JsonResult::Object(Vec::new())));
    assert_eq!(parse(" { \n } ".to_string()), Ok(JsonResult::Object(Vec::new())));
}

#[test]
fn empty_array() {
    assert_eq!(parse("[]".to_string()), Ok(JsonResult::Array(Vec::new())));
    assert_eq!(parse("[ \t ]".to_string()), Ok(JsonResult::Array(Vec::new())));
}

#[test]
fn nested_example() {
    let text = "{\"qux\": {\"quux\": [20, \"bhaskar\"]}, \"name\": \"bhaskar\"}";
    let value = parse(text.to_string()).unwrap();
    let expected = JsonResult::Object(vec![
        (
            "qux".to_string(),
            JsonResult::Object(vec![(
                "quux".to_string(),
                JsonResult::Array(vec![integer(&[2, 0]), string("bhaskar")]),
            )]),
        ),
        ("name".to_string(), string("bhaskar")),
    ]);
    assert_eq!(value, expected);
    let quux = value.get("qux").unwrap().get("quux").unwrap();
    assert_eq!(quux.len(), Some(2));
    assert_eq!(magnitude(quux.at(0).unwrap()), 20.0);
    assert_eq!(quux.at(1).unwrap().as_str(), Some("bhaskar"));
    assert_eq!(value.get("name").unwrap().as_str(), Some("bhaskar"));
}

#[test]
fn the_demo_document() {
    let text = "{\"qux\": { \"quux\": [20, \"bhaskar\"]}, \"name\" : \"bhaskar\"}";
    let value = parse(text.to_string()).unwrap();
    assert_eq!(value.member_count(), Some(2));
    assert_eq!(value.get("name"), Some(&string("bhaskar")));
}

#[test]
fn escaped_quote_and_newline() {
    let value = parse("\"a\\\"b\\n\"".to_string()).unwrap();
    assert_eq!(value, string("a\"b\n"));
    assert_eq!(value.as_str(), Some("a\"b\n"));
}

#[test]
fn every_simple_escape() {
    let value = parse("\"\\\"\\\\\\/\\b\\f\\n\\r\\t\"".to_string()).unwrap();
    assert_eq!(value, string("\"\\/\u{8}\u{c}\n\r\t"));
}

#[test]
fn unicode_escapes() {
    assert_eq!(parse("\"\\u0041\\u00e9\\u20AC\"".to_string()), Ok(string("A\u{e9}\u{20ac}")));
    assert_eq!(parse("\"\\ud83d\\ude00\"".to_string()), Ok(string("\u{1f600}")));
    assert_eq!(parse("\"\\uD800\\uDC00\"".to_string()), Ok(string("\u{10000}")));
    assert_eq!(parse("\"\\uDBFF\\uDFFF\"".to_string()), Ok(string("\u{10ffff}")));
    assert_eq!(parse("\"\\uFFFF\"".to_string()), Ok(string("\u{ffff}")));
}

#[test]
fn characters_outside_ascii_pass_through() {
    assert_eq!(parse("\"h\u{e9}llo \u{1f600}\"".to_string()), Ok(string("h\u{e9}llo \u{1f600}")));
    // offsets count characters, not bytes
    assert_eq!(
        parse("[\"\u{1f600}\" x]".to_string()),
        Err(ParseError::ExpectedToken { pos: 5, expected: ']' })
    );
}

#[test]
fn surrogates_need_their_partner() {
    assert_eq!(parse("\"\\uDC00\"".to_string()), Err(ParseError::InvalidEscape { pos: 1 }));
    assert_eq!(parse("\"\\uD800\"".to_string()), Err(ParseError::InvalidEscape { pos: 1 }));
    assert_eq!(parse("\"a\\uD800x\"".to_string()), Err(ParseError::InvalidEscape { pos: 2 }));
    assert_eq!(parse("\"\\uD800\\n\"".to_string()), Err(ParseError::InvalidEscape { pos: 1 }));
    assert_eq!(parse("\"\\uD800\\u0041\"".to_string()), Err(ParseError::InvalidEscape { pos: 1 }));
    assert_eq!(parse("\"\\uD800\\uD800\"".to_string()), Err(ParseError::InvalidEscape { pos: 1 }));
    assert_eq!(parse("\"\\uD800".to_string()), Err(ParseError::UnterminatedString { pos: 0 }));
    assert_eq!(parse("\"\\uD800\\uDC".to_string()), Err(ParseError::UnterminatedString { pos: 0 }));
}

#[test]
fn invalid_escapes() {
    assert_eq!(parse("\"\\q\"".to_string()), Err(ParseError::InvalidEscape { pos: 1 }));
    assert_eq!(parse("\"ab\\x41\"".to_string()), Err(ParseError::InvalidEscape { pos: 3 }));
    assert_eq!(parse("\"\\u12G4\"".to_string()), Err(ParseError::InvalidEscape { pos: 1 }));
    assert_eq!(parse("[\"\\u12\"]".to_string()), Err(ParseError::InvalidEscape { pos: 2 }));
}

#[test]
fn unterminated_strings() {
    assert_eq!(parse("\"abc".to_string()), Err(ParseError::UnterminatedString { pos: 0 }));
    assert_eq!(parse("[1, \"abc".to_string()), Err(ParseError::UnterminatedString { pos: 4 }));
    assert_eq!(parse("\"abc\\".to_string()), Err(ParseError::UnterminatedString { pos: 0 }));
    assert_eq!(parse("\"abc\\\"".to_string()), Err(ParseError::UnterminatedString { pos: 0 }));
    assert_eq!(parse("\"\\u00".to_string()), Err(ParseError::UnterminatedString { pos: 0 }));
}

#[test]
fn control_characters_must_be_escaped() {
    assert_eq!(
        parse("\"a\nb\"".to_string()),
        Err(ParseError::UnexpectedChar { pos: 2, found: '\n' })
    );
    assert_eq!(
        parse("\"\u{1f}\"".to_string()),
        Err(ParseError::UnexpectedChar { pos: 1, found: '\u{1f}' })
    );
    assert_eq!(parse("\" \u{7f}\"".to_string()), Ok(string(" \u{7f}")));
}

#[test]
fn missing_value_is_an_unexpected_character() {
    assert_eq!(
        parse("{\"a\":}".to_string()),
        Err(ParseError::UnexpectedChar { pos: 5, found: '}' })
    );
}

#[test]
fn truncated_input_is_an_unexpected_end() {
    assert_eq!(parse("{\"a\":1".to_string()), Err(ParseError::UnexpectedEof));
    assert_eq!(parse("{\"a\":".to_string()), Err(ParseError::UnexpectedEof));
    assert_eq!(parse("{\"a\"".to_string()), Err(ParseError::UnexpectedEof));
    assert_eq!(parse("{".to_string()), Err(ParseError::UnexpectedEof));
    assert_eq!(parse("[1,".to_string()), Err(ParseError::UnexpectedEof));
    assert_eq!(parse("[1".to_string()), Err(ParseError::UnexpectedEof));
    assert_eq!(parse("[".to_string()), Err(ParseError::UnexpectedEof));
    assert_eq!(parse("{\"a\":1,".to_string()), Err(ParseError::UnexpectedEof));
}

#[test]
fn empty_input_is_an_unexpected_end() {
    assert_eq!(parse(String::new()), Err(ParseError::UnexpectedEof));
    assert_eq!(parse(" \t\r\n ".to_string()), Err(ParseError::UnexpectedEof));
}

#[test]
fn number_edge_cases() {
    assert_eq!(magnitude(&parse("0".to_string()).unwrap()), 0.0);
    let minus_zero = parse("-0".to_string()).unwrap();
    assert_eq!(magnitude(&minus_zero), 0.0);
    assert!(magnitude(&minus_zero).is_sign_negative());
    assert_eq!(magnitude(&parse("3.14".to_string()).unwrap()), 3.14);
    assert_eq!(magnitude(&parse("1e10".to_string()).unwrap()), 1e10);
    assert_eq!(magnitude(&parse("-2.5e-3".to_string()).unwrap()), -2.5e-3);
    assert_eq!(parse("01".to_string()), Err(ParseError::InvalidNumber { pos: 0 }));
    assert_eq!(parse("1.".to_string()), Err(ParseError::InvalidNumber { pos: 0 }));
    assert_eq!(parse("-".to_string()), Err(ParseError::InvalidNumber { pos: 0 }));
}

#[test]
fn number_parts() {
    let value = parse("-12.50E+07".to_string()).unwrap();
    assert_eq!(
        value,
        JsonResult::Number(JsonNumber {
            negative: true,
            digits: vec![1, 2, 5, 0],
            scale: 2,
            exponent_negative: false,
            exponent_digits: vec![0, 7],
        })
    );
    let number = value.as_number().unwrap();
    assert!(number.is_negative());
    assert_eq!(number.mantissa(), Some(1250));
    assert_eq!(number.exponent(), Some(5));
    let small = parse("6.02e-23".to_string()).unwrap();
    assert_eq!(small.as_number().unwrap().mantissa(), Some(602));
    assert_eq!(small.as_number().unwrap().exponent(), Some(-25));
}

#[test]
fn more_invalid_numbers() {
    assert_eq!(parse("-x".to_string()), Err(ParseError::InvalidNumber { pos: 0 }));
    assert_eq!(parse("[ -]".to_string()), Err(ParseError::InvalidNumber { pos: 2 }));
    assert_eq!(parse("1.e5".to_string()), Err(ParseError::InvalidNumber { pos: 0 }));
    assert_eq!(parse("1e".to_string()), Err(ParseError::InvalidNumber { pos: 0 }));
    assert_eq!(parse("1e+".to_string()), Err(ParseError::InvalidNumber { pos: 0 }));
    assert_eq!(parse("1E-x".to_string()), Err(ParseError::InvalidNumber { pos: 0 }));
    assert_eq!(parse("-012".to_string()), Err(ParseError::InvalidNumber { pos: 0 }));
    assert_eq!(parse("[1, 00]".to_string()), Err(ParseError::InvalidNumber { pos: 4 }));
    assert_eq!(parse("+1".to_string()), Err(ParseError::UnexpectedChar { pos: 0, found: '+' }));
    assert_eq!(parse(".5".to_string()), Err(ParseError::UnexpectedChar { pos: 0, found: '.' }));
}

#[test]
fn a_number_is_the_whole_run_of_number_characters() {
    assert_eq!(parse("1.5.3".to_string()), Err(ParseError::InvalidNumber { pos: 0 }));
    assert_eq!(parse("1-2".to_string()), Err(ParseError::InvalidNumber { pos: 0 }));
    assert_eq!(parse("1+2".to_string()), Err(ParseError::InvalidNumber { pos: 0 }));
    assert_eq!(parse("1e5.3".to_string()), Err(ParseError::InvalidNumber { pos: 0 }));
    assert_eq!(parse("1e5e".to_string()), Err(ParseError::InvalidNumber { pos: 0 }));
    assert_eq!(parse("1e5e6".to_string()), Err(ParseError::InvalidNumber { pos: 0 }));
    assert_eq!(parse("1.5e".to_string()), Err(ParseError::InvalidNumber { pos: 0 }));
    assert_eq!(parse("0.".to_string()), Err(ParseError::InvalidNumber { pos: 0 }));
    assert_eq!(parse("0-".to_string()), Err(ParseError::InvalidNumber { pos: 0 }));
    assert_eq!(parse("-1-".to_string()), Err(ParseError::InvalidNumber { pos: 0 }));
    assert_eq!(parse("1..2".to_string()), Err(ParseError::InvalidNumber { pos: 0 }));
    assert_eq!(parse("[1.5.3]".to_string()), Err(ParseError::InvalidNumber { pos: 1 }));
    assert_eq!(parse("[1, 2e3+]".to_string()), Err(ParseError::InvalidNumber { pos: 4 }));
    assert_eq!(
        parse("{\"a\": 7-}".to_string()),
        Err(ParseError::InvalidNumber { pos: 6 })
    );
}

#[test]
fn other_characters_after_a_number_are_not_part_of_it() {
    assert_eq!(parse("0x10".to_string()), Err(ParseError::UnexpectedChar { pos: 1, found: 'x' }));
    assert_eq!(parse("1a".to_string()), Err(ParseError::UnexpectedChar { pos: 1, found: 'a' }));
    assert_eq!(parse("1 .5".to_string()), Err(ParseError::UnexpectedChar { pos: 2, found: '.' }));
    assert_eq!(parse("1 -2".to_string()), Err(ParseError::UnexpectedChar { pos: 2, found: '-' }));
    assert_eq!(
        parse("[1 .5]".to_string()),
        Err(ParseError::ExpectedToken { pos: 3, expected: ']' })
    );
    assert_eq!(
        parse("[1x]".to_string()),
        Err(ParseError::ExpectedToken { pos: 2, expected: ']' })
    );
    assert_eq!(parse("[1.5,3]".to_string()).unwrap().len(), Some(2));
    assert_eq!(parse("[1.5 ]".to_string()).unwrap().len(), Some(1));
    assert_eq!(parse("{\"a\":1.5}".to_string()).unwrap().member_count(), Some(1));
    assert_eq!(parse("1.5\n".to_string()).unwrap().as_number().unwrap().mantissa(), Some(15));
}

#[test]
fn numbers_of_any_size() {
    let long = "123456789012345678901234567890";
    let value = parse(long.to_string()).unwrap();
    let number = value.as_number().unwrap();
    assert_eq!(number.digits.len(), 30);
    assert_eq!(number.mantissa(), None);
    assert_eq!(number.exponent(), Some(0));
    let max = parse("18446744073709551615".to_string()).unwrap();
    assert_eq!(max.as_number().unwrap().mantissa(), Some(u64::MAX));
    let over = parse("18446744073709551616".to_string()).unwrap();
    assert_eq!(over.as_number().unwrap().mantissa(), None);
    let huge = parse("1e99999999999999999999".to_string()).unwrap();
    assert_eq!(huge.as_number().unwrap().mantissa(), Some(1));
    assert_eq!(huge.as_number().unwrap().exponent(), None);
    let top = parse("1e9223372036854775807".to_string()).unwrap();
    assert_eq!(top.as_number().unwrap().exponent(), Some(i64::MAX));
    let above = parse("1e9223372036854775808".to_string()).unwrap();
    assert_eq!(above.as_number().unwrap().exponent(), None);
    let bottom = parse("1e-9223372036854775808".to_string()).unwrap();
    assert_eq!(bottom.as_number().unwrap().exponent(), Some(i64::MIN));
    let below = parse("1.0e-9223372036854775808".to_string()).unwrap();
    assert_eq!(below.as_number().unwrap().exponent(), None);
    let tiny = parse("0.5e-340282366920938463463374607431768211456".to_string()).unwrap();
    assert_eq!(tiny.as_number().unwrap().exponent(), None);
}

#[test]
fn keywords() {
    assert_eq!(parse("true".to_string()), Ok(JsonResult::Boolean(true)));
    assert_eq!(parse("false".to_string()), Ok(JsonResult::Boolean(false)));
    assert_eq!(parse("null".to_string()), Ok(JsonResult::Null));
    assert_eq!(parse(" null ".to_string()).unwrap().is_null(), true);
    assert_eq!(parse("true".to_string()).unwrap().as_bool(), Some(true));
    assert_eq!(parse("false".to_string()).unwrap().as_bool(), Some(false));
}

#[test]
fn keywords_must_match_to_the_last_character() {
    assert_eq!(parse("tru".to_string()), Err(ParseError::UnexpectedEof));
    assert_eq!(parse("trux".to_string()), Err(ParseError::UnexpectedChar { pos: 3, found: 'x' }));
    assert_eq!(parse("tRue".to_string()), Err(ParseError::UnexpectedChar { pos: 1, found: 'R' }));
    assert_eq!(parse("fals".to_string()), Err(ParseError::UnexpectedEof));
    assert_eq!(parse("falze".to_string()), Err(ParseError::UnexpectedChar { pos: 3, found: 'z' }));
    assert_eq!(parse("nul".to_string()), Err(ParseError::UnexpectedEof));
    assert_eq!(parse("nulL".to_string()), Err(ParseError::UnexpectedChar { pos: 3, found: 'L' }));
    assert_eq!(parse("[n]".to_string()), Err(ParseError::UnexpectedChar { pos: 2, found: ']' }));
}

#[test]
fn nothing_may_follow_the_document() {
    assert_eq!(parse("truex".to_string()), Err(ParseError::UnexpectedChar { pos: 4, found: 'x' }));
    assert_eq!(parse("1 2".to_string()), Err(ParseError::UnexpectedChar { pos: 2, found: '2' }));
    assert_eq!(parse("{} []".to_string()), Err(ParseError::UnexpectedChar { pos: 3, found: '[' }));
    assert_eq!(parse("[]]".to_string()), Err(ParseError::UnexpectedChar { pos: 2, found: ']' }));
    assert_eq!(parse("null \n".to_string()), Ok(JsonResult::Null));
}

#[test]
fn characters_that_start_no_value() {
    assert_eq!(parse("}".to_string()), Err(ParseError::UnexpectedChar { pos: 0, found: '}' }));
    assert_eq!(parse("  ?".to_string()), Err(ParseError::UnexpectedChar { pos: 2, found: '?' }));
    assert_eq!(parse("[,1]".to_string()), Err(ParseError::UnexpectedChar { pos: 1, found: ',' }));
    assert_eq!(parse("'a'".to_string()), Err(ParseError::UnexpectedChar { pos: 0, found: '\'' }));
    assert_eq!(parse("\u{a0}1".to_string()), Err(ParseError::UnexpectedChar { pos: 0, found: '\u{a0}' }));
}

#[test]
fn trailing_commas_are_refused() {
    assert_eq!(parse("[1,]".to_string()), Err(ParseError::UnexpectedChar { pos: 3, found: ']' }));
    assert_eq!(parse("[1, 2 , ]".to_string()), Err(ParseError::UnexpectedChar { pos: 8, found: ']' }));
    assert_eq!(
        parse("{\"a\":1,}".to_string()),
        Err(ParseError::UnexpectedChar { pos: 7, found: '}' })
    );
}

#[test]
fn keys_must_be_strings() {
    assert_eq!(parse("{1:2}".to_string()), Err(ParseError::UnexpectedChar { pos: 1, found: '1' }));
    assert_eq!(
        parse("{ true: 1}".to_string()),
        Err(ParseError::UnexpectedChar { pos: 2, found: 't' })
    );
    assert_eq!(
        parse("{\"a\":1, [1]:2}".to_string()),
        Err(ParseError::UnexpectedChar { pos: 8, found: '[' })
    );
}

#[test]
fn colon_is_required() {
    assert_eq!(
        parse("{\"a\" 1}".to_string()),
        Err(ParseError::ExpectedToken { pos: 5, expected: ':' })
    );
    assert_eq!(
        parse("{\"a\" x : 1}".to_string()),
        Err(ParseError::ExpectedToken { pos: 5, expected: ':' })
    );
    assert_eq!(
        parse("{\"a\",\"b\"}".to_string()),
        Err(ParseError::ExpectedToken { pos: 4, expected: ':' })
    );
}

#[test]
fn comma_is_required() {
    assert_eq!(parse("[1 2]".to_string()), Err(ParseError::ExpectedToken { pos: 3, expected: ',' }));
    assert_eq!(
        parse("{\"a\":1 \"b\":2}".to_string()),
        Err(ParseError::ExpectedToken { pos: 7, expected: ',' })
    );
    assert_eq!(parse("[1 [2]]".to_string()), Err(ParseError::ExpectedToken { pos: 3, expected: ',' }));
    assert_eq!(parse("[1 true]".to_string()), Err(ParseError::ExpectedToken { pos: 3, expected: ',' }));
    assert_eq!(parse("[1 -2]".to_string()), Err(ParseError::ExpectedToken { pos: 3, expected: ',' }));
}

#[test]
fn closing_bracket_is_required() {
    assert_eq!(parse("[1}".to_string()), Err(ParseError::ExpectedToken { pos: 2, expected: ']' }));
    assert_eq!(
        parse("{\"a\":1]".to_string()),
        Err(ParseError::ExpectedToken { pos: 6, expected: '}' })
    );
    assert_eq!(parse("[1 : 2]".to_string()), Err(ParseError::ExpectedToken { pos: 3, expected: ']' }));
    assert_eq!(parse("[1;2]".to_string()), Err(ParseError::ExpectedToken { pos: 2, expected: ']' }));
    assert_eq!(
        parse("{\"a\":1 ; }".to_string()),
        Err(ParseError::ExpectedToken { pos: 7, expected: '}' })
    );
    assert_eq!(parse("[1 x".to_string()), Err(ParseError::ExpectedToken { pos: 3, expected: ']' }));
}

#[test]
fn nesting_limit() {
    assert_eq!(parse_any("[[1]]".to_string(), 2), Ok(JsonResult::Array(vec![JsonResult::Array(vec![integer(&[1])])])));
    assert_eq!(parse_any("[[1]]".to_string(), 1), Err(ParseError::NestingTooDeep { pos: 1 }));
    assert_eq!(parse_any("[{}]".to_string(), 1), Err(ParseError::NestingTooDeep { pos: 1 }));
    assert_eq!(parse_any(" []".to_string(), 0), Err(ParseError::NestingTooDeep { pos: 1 }));
    assert_eq!(parse_any("{\"a\": {\"b\": []}}".to_string(), 2), Err(ParseError::NestingTooDeep { pos: 12 }));
    assert_eq!(parse_any("17".to_string(), 0), Ok(integer(&[1, 7])));
    assert_eq!(parse_any("[[],[],[]]".to_string(), 2).unwrap().len(), Some(3));
}

#[test]
fn default_nesting_limit() {
    let deepest = format!("{}{}", "[".repeat(128), "]".repeat(128));
    assert!(parse(deepest).is_ok());
    let too_deep = format!("{}{}", "[".repeat(129), "]".repeat(129));
    assert_eq!(parse(too_deep), Err(ParseError::NestingTooDeep { pos: 128 }));
    let objects = format!("{}1{}", "{\"k\":".repeat(129), "}".repeat(129));
    assert_eq!(parse(objects), Err(ParseError::NestingTooDeep { pos: 128 * 5 }));
}

#[test]
fn parsing_twice_gives_equal_trees() {
    let text = "{\"a\": [1, 2.5, {\"b\": null}], \"c\": \"\\u00e9\", \"a\": true}";
    assert_eq!(parse(text.to_string()), parse(text.to_string()));
    let broken = "{\"a\": [1, 2.5, {\"b\": nul}]}";
    assert_eq!(parse(broken.to_string()), parse(broken.to_string()));
    assert!(parse(broken.to_string()).is_err());
}

#[test]
fn whitespace_between_tokens_changes_nothing() {
    let dense = parse("{\"a\":[1,2,{\"b\":null}],\"c\":\"x y\"}".to_string());
    let spread = parse(
        " {\n\t\"a\" :\r\n [ 1 , 2 ,\t{ \"b\" : null } ] ,\n \"c\" : \"x y\" }\n".to_string(),
    );
    assert!(dense.is_ok());
    assert_eq!(dense, spread);
}

#[test]
fn whitespace_inside_tokens_is_not_between_tokens() {
    assert_eq!(parse("tr ue".to_string()), Err(ParseError::UnexpectedChar { pos: 2, found: ' ' }));
    assert_eq!(parse("1 2".to_string()), Err(ParseError::UnexpectedChar { pos: 2, found: '2' }));
    assert_eq!(parse("\"a b\"".to_string()), Ok(string("a b")));
    assert_eq!(parse("- 1".to_string()), Err(ParseError::InvalidNumber { pos: 0 }));
}

#[test]
fn other_whitespace_is_not_whitespace() {
    assert_eq!(
        parse("\u{b}1".to_string()),
        Err(ParseError::UnexpectedChar { pos: 0, found: '\u{b}' })
    );
    assert_eq!(
        parse("1\u{c}".to_string()),
        Err(ParseError::UnexpectedChar { pos: 1, found: '\u{c}' })
    );
}

#[test]
fn error_positions() {
    assert_eq!(ParseError::UnexpectedEof.position(), None);
    assert_eq!(ParseError::UnexpectedChar { pos: 3, found: 'x' }.position(), Some(3));
    assert_eq!(ParseError::ExpectedToken { pos: 4, expected: ':' }.position(), Some(4));
    assert_eq!(ParseError::InvalidNumber { pos: 5 }.position(), Some(5));
    assert_eq!(ParseError::InvalidEscape { pos: 6 }.position(), Some(6));
    assert_eq!(ParseError::UnterminatedString { pos: 7 }.position(), Some(7));
    assert_eq!(ParseError::NestingTooDeep { pos: 8 }.position(), Some(8));
    assert_eq!(parse("[1, @]".to_string()).unwrap_err().position(), Some(4));
}

#[test]
fn accessors_answer_only_for_their_kind() {
    let value = parse("{\"list\": [true, null, \"s\", 4], \"n\": -1}".to_string()).unwrap();
    assert_eq!(value.len(), None);
    assert_eq!(value.at(0), None);
    assert_eq!(value.as_str(), None);
    assert_eq!(value.as_bool(), None);
    assert_eq!(value.as_number(), None);
    assert!(!value.is_null());
    assert_eq!(value.get("absent"), None);
    assert_eq!(value.get("lis"), None);
    let list = value.get("list").unwrap();
    assert_eq!(list.member_count(), None);
    assert_eq!(list.get("list"), None);
    assert_eq!(list.len(), Some(4));
    assert_eq!(list.at(0).unwrap().as_bool(), Some(true));
    assert!(list.at(1).unwrap().is_null());
    assert_eq!(list.at(2).unwrap().as_str(), Some("s"));
    assert_eq!(list.at(3).unwrap().as_number().unwrap().mantissa(), Some(4));
    assert_eq!(list.at(4), None);
    assert!(value.get("n").unwrap().as_number().unwrap().is_negative());
}
