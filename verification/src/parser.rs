//! The recursive-descent parser. Each function reads what one rule of the
//! grammar describes, and is proved to return what that rule says: the same
//! value and the same length on success, the same error on failure. A
//! function that fails leaves the cursor where it found it.
use crate::cursor::Cursor;
use crate::derivation::derives;
use crate::error::ParseError;
use crate::grammar::{
    array_at, code_unit_at, colon_at, digits_at, digits_len, document, elements_from, escape_at,
    hex_of, is_document, is_hex_digit, keys_from, keyword_at, keyword_from,
    lemma_elements_after_whitespace, lemma_keys_after_whitespace, lemma_members_after_whitespace,
    members_from, number_at, number_shape, object_at, object_keys, separator_at, starts_value,
    string_at, string_from, unicode_escape_at, value_at, value_keys, whitespace_len, word_false,
    word_null, word_true, DEFAULT_MAX_DEPTH,
};
use crate::laws::law_documents_are_the_derived_texts;
use crate::value::{
    distinct_keys, insert_member, items_view, lemma_items_view_push, member_keys, members_view,
    Json, JsonNumber, JsonResult,
};
use vstd::prelude::*;

verus! {

/// `after` stands `n` characters further than `before`, in the same text.
pub open spec fn moved(before: Cursor, after: Cursor, n: int) -> bool {
    after.text() == before.text() && after.offset() == before.offset() + n
}

/// Consumes one character, whatever it is; at the end of the text does
/// nothing.
pub fn consume(it: &mut Cursor)
    ensures
        moved(
            *old(it),
            *final(it),
            if old(it).offset() < old(it).text().len() {
                1
            } else {
                0
            },
        ),
{
    let _ = it.next();
}

/// Reads the colon after a key, and any whitespace before it.
pub fn parse_colon(it: &mut Cursor) -> (r: Result<(), ParseError>)
    ensures
        match colon_at(old(it).text(), old(it).offset()) {
            Ok(n) => r is Ok && moved(*old(it), *final(it), n as int),
            Err(e) => r == Err::<(), ParseError>(e) && moved(*old(it), *final(it), 0),
        },
{
    let start = it.position();
    it.skip_whitespace();
    match it.peek() {
        None => {
            it.seek(start);
            Err(ParseError::UnexpectedEof)
        },
        Some(c) => {
            if c == ':' {
                let _ = it.next();
                Ok(())
            } else {
                let pos = it.position();
                it.seek(start);
                Err(ParseError::ExpectedToken { pos, expected: ':' })
            }
        },
    }
}

/// Whether a value can start with `c`.
fn can_start_value(c: char) -> (r: bool)
    ensures
        r == starts_value(c),
{
    c == '{' || c == '[' || c == '"' || c == 't' || c == 'f' || c == 'n' || c == '-' || (c >= '0'
        && c <= '9')
}

/// Reads what follows an element of a container that `close` closes, and any
/// whitespace before it: `true` for a comma, after which another element
/// must come, `false` for `close`. Where something else stands, the comma is
/// reported as missing if that could start the next element, and else
/// `close`.
pub fn parse_comma(it: &mut Cursor, close: char) -> (r: Result<bool, ParseError>)
    ensures
        match separator_at(old(it).text(), old(it).offset(), close) {
            Ok((more, n)) => r == Ok::<bool, ParseError>(more) && moved(
                *old(it),
                *final(it),
                n as int,
            ),
            Err(e) => r == Err::<bool, ParseError>(e) && moved(*old(it), *final(it), 0),
        },
{
    let start = it.position();
    it.skip_whitespace();
    match it.peek() {
        None => {
            it.seek(start);
            Err(ParseError::UnexpectedEof)
        },
        Some(c) => {
            if c == ',' {
                let _ = it.next();
                Ok(true)
            } else if c == close {
                let _ = it.next();
                Ok(false)
            } else {
                let pos = it.position();
                it.seek(start);
                if can_start_value(c) {
                    Err(ParseError::ExpectedToken { pos, expected: ',' })
                } else {
                    Err(ParseError::ExpectedToken { pos, expected: close })
                }
            }
        },
    }
}

/// Reads the keyword `word`, character by character.
fn expect_word(it: &mut Cursor, word: &Vec<char>) -> (r: Result<(), ParseError>)
    ensures
        match keyword_at(old(it).text(), old(it).offset(), word@) {
            Ok(n) => r is Ok && moved(*old(it), *final(it), n as int),
            Err(e) => r == Err::<(), ParseError>(e) && moved(*old(it), *final(it), 0),
        },
{
    let start = it.position();
    let mut k: usize = 0;
    while k < word.len()
        invariant
            it.text() == old(it).text(),
            start == old(it).offset(),
            start <= it.text().len(),
            it.offset() == start + k,
            k <= word.len(),
            keyword_from(it.text(), start as int, word@, k as int) == keyword_at(
                it.text(),
                start as int,
                word@,
            ),
        decreases word.len() - k,
    {
        match it.next() {
            None => {
                it.seek(start);
                return Err(ParseError::UnexpectedEof);
            },
            Some(c) => {
                if c != word[k] {
                    let pos = it.position() - 1;
                    it.seek(start);
                    return Err(ParseError::UnexpectedChar { pos, found: c });
                }
            },
        }
        k = k + 1;
    }
    Ok(())
}

/// Reads the keyword `true`.
pub fn parse_true(it: &mut Cursor) -> (r: Result<JsonResult, ParseError>)
    ensures
        match keyword_at(old(it).text(), old(it).offset(), word_true()) {
            Ok(n) => r matches Ok(v) && v@ == Json::Boolean(true) && v.wf() && moved(
                *old(it),
                *final(it),
                n as int,
            ),
            Err(e) => r == Err::<JsonResult, ParseError>(e) && moved(*old(it), *final(it), 0),
        },
{
    let word: Vec<char> = vec!['t', 'r', 'u', 'e'];
    assert(word@ =~= word_true());
    match expect_word(it, &word) {
        Ok(()) => Ok(JsonResult::Boolean(true)),
        Err(e) => Err(e),
    }
}

/// Reads the keyword `false`.
pub fn parse_false(it: &mut Cursor) -> (r: Result<JsonResult, ParseError>)
    ensures
        match keyword_at(old(it).text(), old(it).offset(), word_false()) {
            Ok(n) => r matches Ok(v) && v@ == Json::Boolean(false) && v.wf() && moved(
                *old(it),
                *final(it),
                n as int,
            ),
            Err(e) => r == Err::<JsonResult, ParseError>(e) && moved(*old(it), *final(it), 0),
        },
{
    let word: Vec<char> = vec!['f', 'a', 'l', 's', 'e'];
    assert(word@ =~= word_false());
    match expect_word(it, &word) {
        Ok(()) => Ok(JsonResult::Boolean(false)),
        Err(e) => Err(e),
    }
}

/// Reads the keyword `null`.
pub fn parse_null(it: &mut Cursor) -> (r: Result<JsonResult, ParseError>)
    ensures
        match keyword_at(old(it).text(), old(it).offset(), word_null()) {
            Ok(n) => r matches Ok(v) && v@ == Json::Null && v.wf() && moved(
                *old(it),
                *final(it),
                n as int,
            ),
            Err(e) => r == Err::<JsonResult, ParseError>(e) && moved(*old(it), *final(it), 0),
        },
{
    let word: Vec<char> = vec!['n', 'u', 'l', 'l'];
    assert(word@ =~= word_null());
    match expect_word(it, &word) {
        Ok(()) => Ok(JsonResult::Null),
        Err(e) => Err(e),
    }
}

/// Reads one hexadecimal digit of the escape whose backslash is at `escape`,
/// in the string opened at `open`.
fn read_hex(it: &mut Cursor, escape: usize, open: usize) -> (r: Result<u32, ParseError>)
    ensures
        final(it).text() == old(it).text(),
        ({
            let s = old(it).text();
            let i = old(it).offset();
            if i >= s.len() {
                r == Err::<u32, ParseError>(ParseError::UnterminatedString { pos: open })
            } else if !is_hex_digit(s[i]) {
                r == Err::<u32, ParseError>(ParseError::InvalidEscape { pos: escape })
            } else {
                r == Ok::<u32, ParseError>(hex_of(s[i])) && hex_of(s[i]) < 16 && final(it).offset()
                    == i + 1
            }
        }),
{
    match it.next() {
        None => Err(ParseError::UnterminatedString { pos: open }),
        Some(c) => {
            if c >= '0' && c <= '9' {
                Ok(c as u32 - '0' as u32)
            } else if c >= 'a' && c <= 'f' {
                Ok(c as u32 - 'a' as u32 + 10)
            } else if c >= 'A' && c <= 'F' {
                Ok(c as u32 - 'A' as u32 + 10)
            } else {
                Err(ParseError::InvalidEscape { pos: escape })
            }
        },
    }
}

/// Reads the four hexadecimal digits of a `\u` escape.
fn read_code_unit(it: &mut Cursor, escape: usize, open: usize) -> (r: Result<u32, ParseError>)
    ensures
        final(it).text() == old(it).text(),
        match code_unit_at(old(it).text(), old(it).offset(), escape as int, open as int) {
            Ok(unit) => r == Ok::<u32, ParseError>(unit) && final(it).offset() == old(it).offset()
                + 4 && unit <= 0xFFFF && final(it).offset() <= final(it).text().len(),
            Err(e) => r == Err::<u32, ParseError>(e),
        },
{
    reveal(code_unit_at);
    let a = match read_hex(it, escape, open) {
        Ok(a) => a,
        Err(e) => {
            return Err(e);
        },
    };
    let b = match read_hex(it, escape, open) {
        Ok(b) => b,
        Err(e) => {
            return Err(e);
        },
    };
    let c = match read_hex(it, escape, open) {
        Ok(c) => c,
        Err(e) => {
            return Err(e);
        },
    };
    let d = match read_hex(it, escape, open) {
        Ok(d) => d,
        Err(e) => {
            return Err(e);
        },
    };
    Ok(a * 0x1000 + b * 0x100 + c * 0x10 + d)
}

/// Reads the rest of a `\u` escape, the cursor standing after the `u`.
fn read_unicode(it: &mut Cursor, escape: usize, open: usize) -> (r: Result<char, ParseError>)
    requires
        old(it).offset() == escape + 2,
    ensures
        final(it).text() == old(it).text(),
        match unicode_escape_at(old(it).text(), escape as int, open as int) {
            Ok((c, n)) => r == Ok::<char, ParseError>(c) && final(it).offset() == escape + n && n
                >= 2 && final(it).offset() <= final(it).text().len(),
            Err(e) => r == Err::<char, ParseError>(e),
        },
{
    let unit = match read_code_unit(it, escape, open) {
        Ok(unit) => unit,
        Err(e) => {
            return Err(e);
        },
    };
    if 0xD800 <= unit && unit <= 0xDBFF {
        match it.next() {
            None => {
                return Err(ParseError::UnterminatedString { pos: open });
            },
            Some(c) => {
                if c != '\\' {
                    return Err(ParseError::InvalidEscape { pos: escape });
                }
            },
        }
        match it.next() {
            None => {
                return Err(ParseError::UnterminatedString { pos: open });
            },
            Some(c) => {
                if c != 'u' {
                    return Err(ParseError::InvalidEscape { pos: escape });
                }
            },
        }
        let low = match read_code_unit(it, escape, open) {
            Ok(low) => low,
            Err(e) => {
                return Err(e);
            },
        };
        if 0xDC00 <= low && low <= 0xDFFF {
            let code: u32 = 0x10000 + (unit - 0xD800) * 0x400 + (low - 0xDC00);
            match char::from_u32(code) {
                Some(c) => Ok(c),
                None => Err(ParseError::InvalidEscape { pos: escape }),
            }
        } else {
            Err(ParseError::InvalidEscape { pos: escape })
        }
    } else if 0xDC00 <= unit && unit <= 0xDFFF {
        Err(ParseError::InvalidEscape { pos: escape })
    } else {
        match char::from_u32(unit) {
            Some(c) => Ok(c),
            None => Err(ParseError::InvalidEscape { pos: escape }),
        }
    }
}

/// Reads the escape sequence at the cursor, which stands at its backslash.
fn read_escape(it: &mut Cursor, open: usize) -> (r: Result<char, ParseError>)
    requires
        old(it).offset() < old(it).text().len(),
    ensures
        final(it).text() == old(it).text(),
        match escape_at(old(it).text(), old(it).offset(), open as int) {
            Ok((c, n)) => r == Ok::<char, ParseError>(c) && final(it).offset() == old(it).offset()
                + n && n >= 2 && final(it).offset() <= final(it).text().len(),
            Err(e) => r == Err::<char, ParseError>(e),
        },
{
    let escape = it.position();
    let _ = it.next();
    match it.next() {
        None => Err(ParseError::UnterminatedString { pos: open }),
        Some(c) => {
            if c == '"' || c == '\\' || c == '/' {
                Ok(c)
            } else if c == 'b' {
                Ok('\u{8}')
            } else if c == 'f' {
                Ok('\u{c}')
            } else if c == 'n' {
                Ok('\n')
            } else if c == 'r' {
                Ok('\r')
            } else if c == 't' {
                Ok('\t')
            } else if c == 'u' {
                read_unicode(it, escape, open)
            } else {
                Err(ParseError::InvalidEscape { pos: escape })
            }
        },
    }
}

/// Reads a string literal and decodes its escapes.
pub fn parse_string(it: &mut Cursor) -> (r: Result<String, ParseError>)
    ensures
        match string_at(old(it).text(), old(it).offset()) {
            Ok((chars, n)) => r matches Ok(decoded) && decoded@ == chars && moved(
                *old(it),
                *final(it),
                n as int,
            ),
            Err(e) => r == Err::<String, ParseError>(e) && moved(*old(it), *final(it), 0),
        },
{
    let open = it.position();
    match it.peek() {
        None => {
            return Err(ParseError::UnexpectedEof);
        },
        Some(c) => {
            if c != '"' {
                return Err(ParseError::UnexpectedChar { pos: open, found: c });
            }
        },
    }
    let _ = it.next();
    let mut decoded = String::new();
    loop
        invariant
            it.text() == old(it).text(),
            open == old(it).offset(),
            open < it.offset() <= it.text().len(),
            it.text()[open as int] == '"',
            string_from(it.text(), it.offset(), open as int, decoded@) == string_from(
                it.text(),
                open + 1,
                open as int,
                Seq::empty(),
            ),
        decreases it.text().len() - it.offset(),
    {
        match it.peek() {
            None => {
                it.seek(open);
                return Err(ParseError::UnterminatedString { pos: open });
            },
            Some(c) => {
                if c == '"' {
                    let _ = it.next();
                    return Ok(decoded);
                } else if c == '\\' {
                    match read_escape(it, open) {
                        Ok(ch) => {
                            decoded.push(ch);
                        },
                        Err(e) => {
                            it.seek(open);
                            return Err(e);
                        },
                    }
                } else if (c as u32) < 0x20 {
                    let pos = it.position();
                    it.seek(open);
                    return Err(ParseError::UnexpectedChar { pos, found: c });
                } else {
                    let _ = it.next();
                    decoded.push(c);
                }
            },
        }
    }
}

/// Reads the digits at the cursor, as many as there are, and appends their
/// values to `out`.
fn scan_digits(it: &mut Cursor, out: &mut Vec<u8>) -> (n: usize)
    requires
        forall|k: int| 0 <= k < old(out)@.len() ==> #[trigger] old(out)@[k] <= 9,
    ensures
        n == digits_len(old(it).text(), old(it).offset()),
        moved(*old(it), *final(it), n as int),
        final(it).offset() <= final(it).text().len(),
        final(out)@ == old(out)@ + digits_at(old(it).text(), old(it).offset(), n as nat),
        forall|k: int| 0 <= k < final(out)@.len() ==> #[trigger] final(out)@[k] <= 9,
{
    let start = it.position();
    loop
        invariant
            it.text() == old(it).text(),
            start == old(it).offset(),
            start <= it.offset() <= it.text().len(),
            digits_len(it.text(), start as int) == it.offset() - start + digits_len(
                it.text(),
                it.offset(),
            ),
            out@ == old(out)@ + digits_at(it.text(), start as int, (it.offset() - start) as nat),
            forall|k: int| 0 <= k < out@.len() ==> #[trigger] out@[k] <= 9,
        ensures
            it.offset() - start == digits_len(it.text(), start as int),
        decreases it.text().len() - it.offset(),
    {
        match it.peek() {
            None => {
                break ;
            },
            Some(c) => {
                if c >= '0' && c <= '9' {
                    let _ = it.next();
                    let d: u32 = c as u32 - '0' as u32;
                    out.push(d as u8);
                    assert(out@ =~= old(out)@ + digits_at(
                        it.text(),
                        start as int,
                        (it.offset() - start) as nat,
                    ));
                } else {
                    break ;
                }
            },
        }
    }
    it.position() - start
}

/// Reads a numeric literal. The run of digits, signs, points and exponent
/// marks at the cursor is taken as a whole: where it is no number, nothing
/// is read.
#[verifier::rlimit(50)]
pub fn parse_number(it: &mut Cursor) -> (r: Result<JsonResult, ParseError>)
    ensures
        match number_at(old(it).text(), old(it).offset()) {
            Ok((number, n)) => r matches Ok(v) && v@ == Json::Number(number) && v.wf() && moved(
                *old(it),
                *final(it),
                n as int,
            ),
            Err(e) => r == Err::<JsonResult, ParseError>(e) && moved(*old(it), *final(it), 0),
        },
{
    let start = it.position();
    let ghost s = it.text();
    let mut negative = false;
    match it.peek() {
        Some(c) => {
            if c == '-' {
                let _ = it.next();
                negative = true;
            }
        },
        None => {},
    }
    let first = it.peek();
    let mut digits: Vec<u8> = Vec::new();
    let int_len = scan_digits(it, &mut digits);
    let leading_zero = match first {
        Some(c) => c == '0',
        None => false,
    };
    if int_len == 0 || (int_len > 1 && leading_zero) {
        it.seek(start);
        return Err(ParseError::InvalidNumber { pos: start });
    }
    let mut scale: usize = 0;
    match it.peek() {
        Some(c) => {
            if c == '.' {
                let _ = it.next();
                scale = scan_digits(it, &mut digits);
                if scale == 0 {
                    it.seek(start);
                    return Err(ParseError::InvalidNumber { pos: start });
                }
            }
        },
        None => {},
    }
    let mut exponent_negative = false;
    let mut exponent_digits: Vec<u8> = Vec::new();
    match it.peek() {
        Some(c) => {
            if c == 'e' || c == 'E' {
                let _ = it.next();
                match it.peek() {
                    Some(sign) => {
                        if sign == '+' {
                            let _ = it.next();
                        } else if sign == '-' {
                            let _ = it.next();
                            exponent_negative = true;
                        }
                    },
                    None => {},
                }
                let exp_len = scan_digits(it, &mut exponent_digits);
                if exp_len == 0 {
                    it.seek(start);
                    return Err(ParseError::InvalidNumber { pos: start });
                }
            }
        },
        None => {},
    }
    match it.peek() {
        Some(c) => {
            if c == '+' || c == '-' || c == '.' || c == 'e' || c == 'E' {
                it.seek(start);
                return Err(ParseError::InvalidNumber { pos: start });
            }
        },
        None => {},
    }
    assert(exponent_digits@.len() == 0 ==> exponent_digits@ =~= digits_at(
        s,
        number_shape(s, start as int).exponent_start(start as int),
        0,
    ));
    Ok(
        JsonResult::Number(
            JsonNumber { negative, digits, scale, exponent_negative, exponent_digits },
        ),
    )
}

/// Reads the value at the cursor, after any whitespace. Containers may nest
/// `depth` levels deep below this point; one that goes deeper is refused.
pub fn parse_value(it: &mut Cursor, depth: usize) -> (r: Result<JsonResult, ParseError>)
    ensures
        match value_at(old(it).text(), old(it).offset(), depth as nat) {
            Ok((value, n)) => r matches Ok(v) && v@ == value && v.wf() && moved(
                *old(it),
                *final(it),
                n as int,
            ) && v.keys() == value_keys(old(it).text(), old(it).offset(), depth as nat),
            Err(e) => r == Err::<JsonResult, ParseError>(e) && moved(*old(it), *final(it), 0),
        },
    decreases depth, 0int,
{
    let start = it.position();
    it.skip_whitespace();
    let pos = it.position();
    let r = match it.peek() {
        None => Err(ParseError::UnexpectedEof),
        Some(c) => {
            if c == '{' {
                if depth == 0 {
                    Err(ParseError::NestingTooDeep { pos })
                } else {
                    parse_object(it, depth - 1)
                }
            } else if c == '[' {
                if depth == 0 {
                    Err(ParseError::NestingTooDeep { pos })
                } else {
                    parse_array(it, depth - 1)
                }
            } else if c == '"' {
                match parse_string(it) {
                    Ok(decoded) => Ok(JsonResult::String(decoded)),
                    Err(e) => Err(e),
                }
            } else if c == 't' {
                parse_true(it)
            } else if c == 'f' {
                parse_false(it)
            } else if c == 'n' {
                parse_null(it)
            } else if can_start_value(c) {
                parse_number(it)
            } else {
                Err(ParseError::UnexpectedChar { pos, found: c })
            }
        },
    };
    if r.is_err() {
        it.seek(start);
    }
    r
}

/// Reads an array, from its `[` to its `]`. Its elements may nest `depth`
/// levels deep.
pub fn parse_array(it: &mut Cursor, depth: usize) -> (r: Result<JsonResult, ParseError>)
    ensures
        match array_at(old(it).text(), old(it).offset(), depth as nat) {
            Ok((items, n)) => r matches Ok(v) && v@ == Json::Array(items) && v.wf() && moved(
                *old(it),
                *final(it),
                n as int,
            ),
            Err(e) => r == Err::<JsonResult, ParseError>(e) && moved(*old(it), *final(it), 0),
        },
    decreases depth, 1int,
{
    let open = it.position();
    match it.peek() {
        None => {
            return Err(ParseError::UnexpectedEof);
        },
        Some(c) => {
            if c != '[' {
                return Err(ParseError::UnexpectedChar { pos: open, found: c });
            }
        },
    }
    let _ = it.next();
    it.skip_whitespace();
    let mut items: Vec<JsonResult> = Vec::new();
    match it.peek() {
        Some(c) => {
            if c == ']' {
                let _ = it.next();
                return Ok(JsonResult::Array(items));
            }
        },
        None => {},
    }
    proof {
        lemma_elements_after_whitespace(it.text(), open + 1, depth as nat, Seq::empty());
    }
    loop
        invariant
            it.text() == old(it).text(),
            open == old(it).offset(),
            open < it.offset() <= it.text().len(),
            it.text()[open as int] == '[',
            !(open + 1 + whitespace_len(it.text(), open + 1) < it.text().len() && it.text()[open
                + 1 + whitespace_len(it.text(), open + 1)] == ']'),
            elements_from(it.text(), it.offset(), depth as nat, items_view(items@))
                == elements_from(it.text(), open + 1, depth as nat, Seq::empty()),
            forall|i: int| 0 <= i < items@.len() ==> (#[trigger] items@[i]).wf(),
        decreases it.text().len() - it.offset(),
    {
        let value = match parse_value(it, depth) {
            Ok(value) => value,
            Err(e) => {
                it.seek(open);
                return Err(e);
            },
        };
        match parse_comma(it, ']') {
            Err(e) => {
                it.seek(open);
                return Err(e);
            },
            Ok(more) => {
                proof {
                    lemma_items_view_push(items@, value);
                }
                items.push(value);
                if !more {
                    return Ok(JsonResult::Array(items));
                }
            },
        }
    }
}

/// Reads an object, from its `{` to its `}`. The values of its members may
/// nest `depth` levels deep. Of two members with the same key the later one
/// stays, at the place of the earlier one: the keys stand in the order in
/// which they first occur.
pub fn parse_object(it: &mut Cursor, depth: usize) -> (r: Result<JsonResult, ParseError>)
    ensures
        match object_at(old(it).text(), old(it).offset(), depth as nat) {
            Ok((members, n)) => r matches Ok(v) && v@ == Json::Object(members) && v.wf() && moved(
                *old(it),
                *final(it),
                n as int,
            ) && v.keys() == object_keys(old(it).text(), old(it).offset(), depth as nat),
            Err(e) => r == Err::<JsonResult, ParseError>(e) && moved(*old(it), *final(it), 0),
        },
    decreases depth, 1int,
{
    let open = it.position();
    match it.peek() {
        None => {
            return Err(ParseError::UnexpectedEof);
        },
        Some(c) => {
            if c != '{' {
                return Err(ParseError::UnexpectedChar { pos: open, found: c });
            }
        },
    }
    let _ = it.next();
    it.skip_whitespace();
    let mut members: Vec<(String, JsonResult)> = Vec::new();
    match it.peek() {
        Some(c) => {
            if c == '}' {
                let _ = it.next();
                assert(member_keys(members@) =~= Seq::<Seq<char>>::empty());
                return Ok(JsonResult::Object(members));
            }
        },
        None => {},
    }
    proof {
        lemma_members_after_whitespace(it.text(), open + 1, depth as nat, Map::empty());
        lemma_keys_after_whitespace(it.text(), open + 1, depth as nat, Seq::empty());
        assert(member_keys(members@) =~= Seq::<Seq<char>>::empty());
    }
    loop
        invariant
            it.text() == old(it).text(),
            open == old(it).offset(),
            open < it.offset() <= it.text().len(),
            it.text()[open as int] == '{',
            !(open + 1 + whitespace_len(it.text(), open + 1) < it.text().len() && it.text()[open
                + 1 + whitespace_len(it.text(), open + 1)] == '}'),
            members_from(it.text(), it.offset(), depth as nat, members_view(members@))
                == members_from(it.text(), open + 1, depth as nat, Map::empty()),
            keys_from(it.text(), it.offset(), depth as nat, member_keys(members@)) == keys_from(
                it.text(),
                open + 1,
                depth as nat,
                Seq::empty(),
            ),
            distinct_keys(members@),
            forall|i: int| 0 <= i < members@.len() ==> (#[trigger] members@[i]).1.wf(),
        decreases it.text().len() - it.offset(),
    {
        it.skip_whitespace();
        let key = match parse_string(it) {
            Ok(key) => key,
            Err(e) => {
                it.seek(open);
                return Err(e);
            },
        };
        match parse_colon(it) {
            Ok(()) => {},
            Err(e) => {
                it.seek(open);
                return Err(e);
            },
        }
        let value = match parse_value(it, depth) {
            Ok(value) => value,
            Err(e) => {
                it.seek(open);
                return Err(e);
            },
        };
        match parse_comma(it, '}') {
            Err(e) => {
                it.seek(open);
                return Err(e);
            },
            Ok(more) => {
                insert_member(&mut members, key, value);
                if !more {
                    return Ok(JsonResult::Object(members));
                }
            },
        }
    }
}

/// What parsing the text `text` with the nesting limit `max_depth` has to
/// give: a well-formed tree that denotes what the document denotes, with the
/// keys of an object in the order in which they first occur, or the error
/// that the grammar names.
pub open spec fn parses_to(text: Seq<char>, max_depth: nat, r: Result<JsonResult, ParseError>) -> bool {
    match document(text, max_depth) {
        Ok(value) => r matches Ok(v) && v@ == value && v.wf() && v.keys() == value_keys(
            text,
            0,
            max_depth,
        ),
        Err(e) => r == Err::<JsonResult, ParseError>(e),
    }
}

/// Parses a JSON document whose containers nest at most `max_depth` levels
/// deep: one value, with nothing but whitespace before and after it. The
/// parser calls itself once for each level, so `max_depth` also bounds the
/// stack that it uses. Every
/// text that the JSON grammar derives within that limit is accepted, and
/// gives the value that it denotes; every other text is refused, with the
/// error that a reader meets first.
pub fn parse_any(json: String, max_depth: usize) -> (r: Result<JsonResult, ParseError>)
    ensures
        parses_to(json@, max_depth as nat, r),
        r is Ok <==> is_document(json@, max_depth as nat),
        forall|value: Json| #[trigger]
            derives(json@, max_depth as nat, value) <==> (r matches Ok(v) && v@ == value),
{
    proof {
        assert forall|value: Json| #[trigger]
            derives(json@, max_depth as nat, value) <==> document(json@, max_depth as nat) == Ok::<
                Json,
                ParseError,
            >(value) by {
            law_documents_are_the_derived_texts(json@, max_depth as nat, value);
        }
    }
    let mut it = Cursor::new(json.as_str());
    let value = match parse_value(&mut it, max_depth) {
        Ok(value) => value,
        Err(e) => {
            return Err(e);
        },
    };
    it.skip_whitespace();
    match it.peek() {
        None => Ok(value),
        Some(c) => Err(ParseError::UnexpectedChar { pos: it.position(), found: c }),
    }
}

/// Parses a JSON document, with the default nesting limit. An empty text, or
/// one of whitespace only, is no document.
pub fn parse(text: String) -> (r: Result<JsonResult, ParseError>)
    ensures
        parses_to(text@, DEFAULT_MAX_DEPTH as nat, r),
        r is Ok <==> is_document(text@, DEFAULT_MAX_DEPTH as nat),
        forall|value: Json| #[trigger]
            derives(text@, DEFAULT_MAX_DEPTH as nat, value) <==> (r matches Ok(v) && v@ == value),
{
    parse_any(text, DEFAULT_MAX_DEPTH)
}

} // verus!
