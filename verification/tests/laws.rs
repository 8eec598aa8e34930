use json_parser::{parse, parse_any, JsonResult, ParseError};

fn with_inserted(text: &str, at: usize, ch: char) -> String {
    let mut chars: Vec<char> = text.chars().collect();
    chars.insert(at, ch);
    chars.into_iter().collect()
}

fn shifted(result: Result<JsonResult, ParseError>, at: usize) -> Result<JsonResult, ParseError> {
    let shift = |pos: usize| if pos >= at { pos + 1 } else { pos };
    match result {
        Ok(value) => Ok(value),
        Err(ParseError::UnexpectedEof) => Err(ParseError::UnexpectedEof),
        Err(ParseError::UnexpectedChar { pos, found }) => {
            Err(ParseError::UnexpectedChar { pos: shift(pos), found })
        }
        Err(ParseError::ExpectedToken { pos, expected }) => {
            Err(ParseError::ExpectedToken { pos: shift(pos), expected })
        }
        Err(ParseError::InvalidNumber { pos }) => Err(ParseError::InvalidNumber { pos: shift(pos) }),
        Err(ParseError::InvalidEscape { pos }) => Err(ParseError::InvalidEscape { pos: shift(pos) }),
        Err(ParseError::UnterminatedString { pos }) => {
            Err(ParseError::UnterminatedString { pos: shift(pos) })
        }
        Err(ParseError::NestingTooDeep { pos }) => Err(ParseError::NestingTooDeep { pos: shift(pos) }),
    }
}

#[test]
fn whitespace_at_every_place_between_tokens() {
    // { "a" : [ 1 , true ] }   tokens start at 0, 1, 4, 5, 6, 7, 8, 12, 13
    let text = "{\"a\":[1,true]}";
    let plain = parse(text.to_string());
    assert!(plain.is_ok());
    for at in [0, 1, 4, 5, 6, 7, 8, 12, 13, 14] {
        for ch in [' ', '\t', '\n', '\r'] {
            assert_eq!(parse(with_inserted(text, at, ch)), plain, "at {}", at);
        }
    }
}

#[test]
fn whitespace_inside_a_token_is_another_text() {
    let text = "{\"a\":[1,true]}";
    let plain = parse(text.to_string());
    for at in [2, 3, 9, 10, 11] {
        assert_ne!(parse(with_inserted(text, at, ' ')), plain, "at {}", at);
    }
    assert_eq!(
        parse(with_inserted(text, 2, ' ')).unwrap().get(" a").map(|v| v.len()),
        Some(Some(2))
    );
    assert_eq!(
        parse(with_inserted(text, 10, ' ')),
        Err(ParseError::UnexpectedChar { pos: 10, found: ' ' })
    );
}

#[test]
fn whitespace_between_tokens_moves_only_the_offset_of_an_error() {
    // [ 1 _ 2 ]   fails at offset 3; places between tokens: 0, 1, 2, 3, 4, 5
    let text = "[1 2]";
    let plain = parse(text.to_string());
    assert_eq!(plain, Err(ParseError::ExpectedToken { pos: 3, expected: ',' }));
    for at in [0, 1, 2, 3, 4, 5] {
        let expected = shifted(parse(text.to_string()), at);
        assert_eq!(parse(with_inserted(text, at, '\n')), expected, "at {}", at);
    }
    assert_eq!(
        parse(with_inserted(text, 0, ' ')),
        Err(ParseError::ExpectedToken { pos: 4, expected: ',' })
    );
    assert_eq!(
        parse(with_inserted(text, 4, ' ')),
        Err(ParseError::ExpectedToken { pos: 3, expected: ',' })
    );
    // a string that is never closed: no place after its quote is between tokens
    let open = "[\"ab";
    assert_eq!(parse(open.to_string()), Err(ParseError::UnterminatedString { pos: 1 }));
    assert_eq!(
        parse(with_inserted(open, 0, ' ')),
        Err(ParseError::UnterminatedString { pos: 2 })
    );
    assert_eq!(
        parse(with_inserted(open, 1, ' ')),
        Err(ParseError::UnterminatedString { pos: 2 })
    );
}

#[test]
fn whitespace_between_tokens_may_be_taken_out() {
    let spread = " [ 1 , \"x y\" , { \"k\" : null } ] ";
    let mut text: Vec<char> = spread.chars().collect();
    let full = parse(spread.to_string());
    assert!(full.is_ok());
    // take out every space but the one inside the string
    let mut at = text.len();
    while at > 0 {
        at -= 1;
        if text[at] == ' ' && !(at > 0 && text[at - 1] == 'x') {
            text.remove(at);
            assert_eq!(parse(text.iter().collect()), full);
        }
    }
    assert_eq!(text.iter().collect::<String>(), "[1,\"x y\",{\"k\":null}]");
}

#[test]
fn the_same_text_parses_to_the_same_tree() {
    for text in ["[1, {\"a\": [null, \"\\u0041\"]}]", "[1, {\"a\": [null, \"\\u004\"]}]", "", "-"] {
        for depth in [0, 1, 2, 3, 128] {
            assert_eq!(
                parse_any(text.to_string(), depth),
                parse_any(text.to_string(), depth)
            );
        }
    }
}

#[test]
fn every_kind_of_value_in_one_document() {
    let text = "\r\n{ \"o\": {}, \"a\": [], \"s\": \"\", \"n\": -0.0e-0, \"t\": true, \"f\": false, \"z\": null }\t";
    let value = parse(text.to_string()).unwrap();
    assert_eq!(value.member_count(), Some(7));
    assert_eq!(value.get("o").unwrap().member_count(), Some(0));
    assert_eq!(value.get("a").unwrap().len(), Some(0));
    assert_eq!(value.get("s").unwrap().as_str(), Some(""));
    let n = value.get("n").unwrap().as_number().unwrap();
    assert!(n.is_negative());
    assert_eq!(n.mantissa(), Some(0));
    assert_eq!(n.exponent(), Some(-1));
    assert_eq!(value.get("t").unwrap().as_bool(), Some(true));
    assert_eq!(value.get("f").unwrap().as_bool(), Some(false));
    assert!(value.get("z").unwrap().is_null());
}

#[test]
fn what_the_grammar_does_not_derive_is_refused() {
    for text in [
        "{\"a\" 1}", "{\"a\":1,}", "[1,]", "[01]", "[1.]", "[.1]", "[+1]", "[1e]", "[0x1]",
        "{a:1}", "{'a':1}", "[\"\\x\"]", "[\"\t\"]", "[tru]", "[nul]", "[True]", "[NaN]",
        "[1 2]", "[1,,2]", "[,]", "{,}", "{\"a\"}", "{\"a\":}", "[", "]", "{", "}", "\"", "",
        " ", "1 1", "[]]", "{}}", "[\"\\ud800\"]", "[\"\\udc00\\ud800\"]", "// c\n1", "[1] //",
    ] {
        assert!(parse(text.to_string()).is_err(), "{:?}", text);
    }
}

#[test]
fn what_the_grammar_derives_is_accepted() {
    for text in [
        "0", "-0", "10", "1.0", "1e0", "1E+0", "1e-0", "-1.5e+10", "\"\"", "\"\\u0000\"",
        "\"/\"", "\"\\/\"", "[]", "[[]]", "[[],[]]", "{}", "{\"\":0}", "{\"a\":{\"a\":{}}}",
        "true", "false", "null", " 1 ", "\n[\n]\n", "[1,\"2\",[3],{\"4\":5},true,false,null]",
        "\"\u{7f}\"", "\"\u{10ffff}\"", "\"\\ud834\\udd1e\"",
    ] {
        assert!(parse(text.to_string()).is_ok(), "{:?}", text);
    }
}
