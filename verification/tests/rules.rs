use json_parser::cursor::Cursor;
use json_parser::parser::{
    consume, parse_array, parse_colon, parse_comma, parse_false, parse_null, parse_number,
    parse_object, parse_string, parse_true, parse_value,
};
use json_parser::text::chars_of;
use json_parser::value::{digits_value, insert_member};
use json_parser::{JsonResult, ParseError};

#[test]
fn cursor_peeks_without_consuming() {
    let mut it = Cursor::new("ab");
    assert_eq!(it.position(), 0);
    assert_eq!(it.peek(), Some('a'));
    assert_eq!(it.peek(), Some('a'));
    assert_eq!(it.position(), 0);
    assert_eq!(it.next(), Some('a'));
    assert_eq!(it.position(), 1);
    assert!(!it.at_end());
    assert_eq!(it.next(), Some('b'));
    assert!(it.at_end());
    assert_eq!(it.peek(), None);
    assert_eq!(it.next(), None);
    assert_eq!(it.position(), 2);
    it.seek(1);
    assert_eq!(it.peek(), Some('b'));
}

#[test]
fn cursor_counts_characters() {
    let mut it = Cursor::new("\u{e9}\u{1f600}z");
    assert_eq!(it.next(), Some('\u{e9}'));
    assert_eq!(it.next(), Some('\u{1f600}'));
    assert_eq!(it.position(), 2);
    assert_eq!(it.next(), Some('z'));
    assert!(it.at_end());
}

#[test]
fn cursor_skips_the_four_whitespace_characters() {
    let mut it = Cursor::new(" \t\n\r\u{b} x");
    it.skip_whitespace();
    assert_eq!(it.position(), 4);
    assert_eq!(it.peek(), Some('\u{b}'));
    it.skip_whitespace();
    assert_eq!(it.position(), 4);
    let mut blank = Cursor::new("  ");
    blank.skip_whitespace();
    assert!(blank.at_end());
}

#[test]
fn characters_of_a_text() {
    assert_eq!(chars_of("a\u{e9}\u{1f600}"), vec!['a', '\u{e9}', '\u{1f600}']);
    assert_eq!(chars_of(""), Vec::<char>::new());
}

#[test]
fn consume_takes_one_character() {
    let mut it = Cursor::new("xy");
    consume(&mut it);
    assert_eq!(it.position(), 1);
    consume(&mut it);
    assert_eq!(it.position(), 2);
    consume(&mut it);
    assert_eq!(it.position(), 2);
}

#[test]
fn colon_after_whitespace() {
    let mut it = Cursor::new("  : 1");
    assert_eq!(parse_colon(&mut it), Ok(()));
    assert_eq!(it.position(), 3);
    let mut missing = Cursor::new("  1");
    assert_eq!(parse_colon(&mut missing), Err(ParseError::ExpectedToken { pos: 2, expected: ':' }));
    assert_eq!(missing.position(), 0);
    let mut ended = Cursor::new(" ");
    assert_eq!(parse_colon(&mut ended), Err(ParseError::UnexpectedEof));
    assert_eq!(ended.position(), 0);
}

#[test]
fn comma_or_closing_bracket() {
    let mut it = Cursor::new(" , ]");
    assert_eq!(parse_comma(&mut it, ']'), Ok(true));
    assert_eq!(it.position(), 2);
    assert_eq!(parse_comma(&mut it, ']'), Ok(false));
    assert_eq!(it.position(), 4);
    assert_eq!(parse_comma(&mut it, ']'), Err(ParseError::UnexpectedEof));
    let mut wrong = Cursor::new(" }");
    assert_eq!(
        parse_comma(&mut wrong, ']'),
        Err(ParseError::ExpectedToken { pos: 1, expected: ']' })
    );
    let mut next = Cursor::new(" \"b\"");
    assert_eq!(
        parse_comma(&mut next, '}'),
        Err(ParseError::ExpectedToken { pos: 1, expected: ',' })
    );
    assert_eq!(next.position(), 0);
    assert_eq!(wrong.position(), 0);
    assert_eq!(parse_comma(&mut wrong, '}'), Ok(false));
}

#[test]
fn keyword_rules() {
    let mut it = Cursor::new("truefalsenull");
    assert_eq!(parse_true(&mut it), Ok(JsonResult::Boolean(true)));
    assert_eq!(it.position(), 4);
    assert_eq!(parse_true(&mut it), Err(ParseError::UnexpectedChar { pos: 4, found: 'f' }));
    assert_eq!(it.position(), 4);
    assert_eq!(parse_false(&mut it), Ok(JsonResult::Boolean(false)));
    assert_eq!(it.position(), 9);
    assert_eq!(parse_null(&mut it), Ok(JsonResult::Null));
    assert!(it.at_end());
    assert_eq!(parse_null(&mut it), Err(ParseError::UnexpectedEof));
    let mut short = Cursor::new("fal");
    assert_eq!(parse_false(&mut short), Err(ParseError::UnexpectedEof));
    assert_eq!(short.position(), 0);
    let mut spaced = Cursor::new(" true");
    assert_eq!(parse_true(&mut spaced), Err(ParseError::UnexpectedChar { pos: 0, found: ' ' }));
}

#[test]
fn string_rule() {
    let mut it = Cursor::new("\"a\\tb\" rest");
    assert_eq!(parse_string(&mut it), Ok("a\tb".to_string()));
    assert_eq!(it.position(), 6);
    assert_eq!(parse_string(&mut it), Err(ParseError::UnexpectedChar { pos: 6, found: ' ' }));
    assert_eq!(it.position(), 6);
    let mut open = Cursor::new("x\"abc");
    consume(&mut open);
    assert_eq!(parse_string(&mut open), Err(ParseError::UnterminatedString { pos: 1 }));
    assert_eq!(open.position(), 1);
    let mut ended = Cursor::new("");
    assert_eq!(parse_string(&mut ended), Err(ParseError::UnexpectedEof));
    let mut empty = Cursor::new("\"\"");
    assert_eq!(parse_string(&mut empty), Ok(String::new()));
    assert_eq!(empty.position(), 2);
}

#[test]
fn number_rule() {
    let mut it = Cursor::new("-10.25e3,");
    let value = parse_number(&mut it).unwrap();
    assert_eq!(it.position(), 8);
    let number = value.as_number().unwrap();
    assert_eq!(number.mantissa(), Some(1025));
    assert_eq!(number.exponent(), Some(1));
    assert!(number.is_negative());
    assert_eq!(parse_number(&mut it), Err(ParseError::InvalidNumber { pos: 8 }));
    assert_eq!(it.position(), 8);
    let mut zero = Cursor::new("0.0");
    let value = parse_number(&mut zero).unwrap();
    assert_eq!(value.as_number().unwrap().digits, vec![0, 0]);
    assert_eq!(value.as_number().unwrap().scale, 1);
    assert_eq!(value.as_number().unwrap().exponent(), Some(-1));
    let mut stops = Cursor::new("12abc");
    assert!(parse_number(&mut stops).is_ok());
    assert_eq!(stops.position(), 2);
    for text in ["1.5.3", "1-2", "1+2", "1e5.3", "1e5e", "2.", "3e", "4E+", "-5.5-"] {
        let mut run = Cursor::new(text);
        assert_eq!(parse_number(&mut run), Err(ParseError::InvalidNumber { pos: 0 }), "{}", text);
        assert_eq!(run.position(), 0);
    }
    let mut second = Cursor::new("[1.5.3");
    consume(&mut second);
    assert_eq!(parse_number(&mut second), Err(ParseError::InvalidNumber { pos: 1 }));
    assert_eq!(second.position(), 1);
    let mut delimited = Cursor::new("1.5]");
    assert!(parse_number(&mut delimited).is_ok());
    assert_eq!(delimited.position(), 3);
    let mut dot = Cursor::new("7.x");
    assert_eq!(parse_number(&mut dot), Err(ParseError::InvalidNumber { pos: 0 }));
    assert_eq!(dot.position(), 0);
    let mut ended = Cursor::new("");
    assert_eq!(parse_number(&mut ended), Err(ParseError::InvalidNumber { pos: 0 }));
}

#[test]
fn value_rule_skips_leading_whitespace() {
    let mut it = Cursor::new("  null,");
    assert_eq!(parse_value(&mut it, 0), Ok(JsonResult::Null));
    assert_eq!(it.position(), 6);
    assert_eq!(parse_value(&mut it, 0), Err(ParseError::UnexpectedChar { pos: 6, found: ',' }));
    assert_eq!(it.position(), 6);
    let mut nested = Cursor::new(" [ [ ] ]");
    assert_eq!(parse_value(&mut nested, 1), Err(ParseError::NestingTooDeep { pos: 3 }));
    assert_eq!(nested.position(), 0);
    assert!(parse_value(&mut nested, 2).is_ok());
    assert!(nested.at_end());
}

#[test]
fn array_rule() {
    let mut it = Cursor::new("[1, [2]] tail");
    let value = parse_array(&mut it, 1).unwrap();
    assert_eq!(it.position(), 8);
    assert_eq!(value.len(), Some(2));
    assert_eq!(value.at(1).unwrap().len(), Some(1));
    let mut flat = Cursor::new("[1, [2]]");
    assert_eq!(parse_array(&mut flat, 0), Err(ParseError::NestingTooDeep { pos: 4 }));
    assert_eq!(flat.position(), 0);
    let mut other = Cursor::new("{}");
    assert_eq!(parse_array(&mut other, 3), Err(ParseError::UnexpectedChar { pos: 0, found: '{' }));
    let mut ended = Cursor::new("");
    assert_eq!(parse_array(&mut ended, 3), Err(ParseError::UnexpectedEof));
    let mut spaced = Cursor::new(" []");
    assert_eq!(parse_array(&mut spaced, 3), Err(ParseError::UnexpectedChar { pos: 0, found: ' ' }));
}

#[test]
fn object_rule() {
    let mut it = Cursor::new("{ \"k\" : [ ] , \"l\":{} }!");
    let value = parse_object(&mut it, 1).unwrap();
    assert_eq!(it.position(), 22);
    assert_eq!(value.member_count(), Some(2));
    assert_eq!(value.get("k").unwrap().len(), Some(0));
    assert_eq!(value.get("l").unwrap().member_count(), Some(0));
    let mut flat = Cursor::new("{\"k\":[]}");
    assert_eq!(parse_object(&mut flat, 0), Err(ParseError::NestingTooDeep { pos: 5 }));
    assert_eq!(flat.position(), 0);
    let mut other = Cursor::new("[]");
    assert_eq!(parse_object(&mut other, 3), Err(ParseError::UnexpectedChar { pos: 0, found: '[' }));
    let mut ended = Cursor::new("");
    assert_eq!(parse_object(&mut ended, 3), Err(ParseError::UnexpectedEof));
}

#[test]
fn object_rule_keeps_the_order_of_first_occurrence() {
    let mut it = Cursor::new("{\"b\":1,\"a\":2,\"b\":3}");
    match parse_object(&mut it, 0).unwrap() {
        JsonResult::Object(members) => {
            let keys: Vec<&str> = members.iter().map(|m| m.0.as_str()).collect();
            assert_eq!(keys, vec!["b", "a"]);
        }
        _ => panic!("no object"),
    }
}

#[test]
fn inserting_members() {
    let mut members: Vec<(String, JsonResult)> = Vec::new();
    insert_member(&mut members, "a".to_string(), JsonResult::Null);
    insert_member(&mut members, "b".to_string(), JsonResult::Boolean(true));
    insert_member(&mut members, "a".to_string(), JsonResult::Boolean(false));
    assert_eq!(
        members,
        vec![
            ("a".to_string(), JsonResult::Boolean(false)),
            ("b".to_string(), JsonResult::Boolean(true)),
        ]
    );
}

#[test]
fn lookup_takes_the_last_of_equal_keys() {
    let object = JsonResult::Object(vec![
        ("a".to_string(), JsonResult::Boolean(false)),
        ("a".to_string(), JsonResult::Boolean(true)),
    ]);
    assert_eq!(object.get("a"), Some(&JsonResult::Boolean(true)));
}

#[test]
fn value_of_digits() {
    assert_eq!(digits_value(&vec![]), Some(0));
    assert_eq!(digits_value(&vec![0, 0, 4, 2]), Some(42));
    let max: Vec<u8> = "340282366920938463463374607431768211455".bytes().map(|b| b - b'0').collect();
    assert_eq!(digits_value(&max), Some(u128::MAX));
    let over: Vec<u8> = "340282366920938463463374607431768211456".bytes().map(|b| b - b'0').collect();
    assert_eq!(digits_value(&over), None);
}
