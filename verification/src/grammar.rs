//! The JSON grammar, stated as functions from a text and an offset to what
//! stands at that offset: a value with the number of characters it occupies,
//! or the error that a reader meets first.
//!
//! Offsets count characters. Nothing here is executable; the parser is proved
//! against these definitions.
use crate::error::ParseError;
use crate::value::{decimal_value, with_key, DecimalNumber, Json};
use vstd::prelude::*;

verus! {

/// The nesting limit that `parse` applies.
pub const DEFAULT_MAX_DEPTH: usize = 128;

/// Space, tab, line feed and carriage return may stand between tokens.
pub open spec fn is_whitespace(c: char) -> bool {
    c == ' ' || c == '\t' || c == '\n' || c == '\r'
}

pub open spec fn is_digit(c: char) -> bool {
    '0' <= c && c <= '9'
}

/// The value of a decimal digit.
pub open spec fn digit_of(c: char) -> u8 {
    (c as u32 - '0' as u32) as u8
}

pub open spec fn is_hex_digit(c: char) -> bool {
    is_digit(c) || ('a' <= c && c <= 'f') || ('A' <= c && c <= 'F')
}

/// The value of a hexadecimal digit, of either case.
pub open spec fn hex_of(c: char) -> u32 {
    if is_digit(c) {
        (c as u32 - '0' as u32) as u32
    } else if 'a' <= c && c <= 'f' {
        (c as u32 - 'a' as u32 + 10) as u32
    } else {
        (c as u32 - 'A' as u32 + 10) as u32
    }
}

/// Whether a value can start with `c`: with a bracket, a quote, the first
/// letter of a keyword, a minus sign or a digit.
pub open spec fn starts_value(c: char) -> bool {
    c == '{' || c == '[' || c == '"' || c == 't' || c == 'f' || c == 'n' || c == '-' || is_digit(c)
}

/// Whether `c` is one of the characters that, besides the digits, numbers
/// are written with: a sign, the point, or the mark of an exponent.
pub open spec fn continues_number(c: char) -> bool {
    c == '+' || c == '-' || c == '.' || c == 'e' || c == 'E'
}

/// Characters below U+0020 may not stand unescaped inside a string.
pub open spec fn is_control(c: char) -> bool {
    (c as u32) < 0x20
}

/// How many whitespace characters stand at `i` and directly after it.
pub open spec fn whitespace_len(s: Seq<char>, i: int) -> nat
    decreases s.len() - i,
{
    if 0 <= i < s.len() && is_whitespace(s[i]) {
        1 + whitespace_len(s, i + 1)
    } else {
        0
    }
}

/// How many decimal digits stand at `i` and directly after it.
pub open spec fn digits_len(s: Seq<char>, i: int) -> nat
    decreases s.len() - i,
{
    if 0 <= i < s.len() && is_digit(s[i]) {
        1 + digits_len(s, i + 1)
    } else {
        0
    }
}

/// The values of the `n` digits that start at `i`.
pub open spec fn digits_at(s: Seq<char>, i: int, n: nat) -> Seq<u8> {
    Seq::new(n, |k: int| digit_of(s[i + k]))
}

// ---------------------------------------------------------------------------
// Keywords
// ---------------------------------------------------------------------------
pub open spec fn word_true() -> Seq<char> {
    seq!['t', 'r', 'u', 'e']
}

pub open spec fn word_false() -> Seq<char> {
    seq!['f', 'a', 'l', 's', 'e']
}

pub open spec fn word_null() -> Seq<char> {
    seq!['n', 'u', 'l', 'l']
}

/// Matches `word` against the text at `i`, given that its first `k`
/// characters match already.
pub open spec fn keyword_from(s: Seq<char>, i: int, word: Seq<char>, k: int) -> Result<
    nat,
    ParseError,
>
    decreases word.len() - k,
{
    if k < 0 || k >= word.len() {
        Ok(word.len())
    } else if i + k >= s.len() {
        Err(ParseError::UnexpectedEof)
    } else if s[i + k] != word[k] {
        Err(ParseError::UnexpectedChar { pos: (i + k) as usize, found: s[i + k] })
    } else {
        keyword_from(s, i, word, k + 1)
    }
}

/// The keyword `word` at `i`: every character must match. The first one that
/// does not is reported, or the end of the input if that comes first.
pub open spec fn keyword_at(s: Seq<char>, i: int, word: Seq<char>) -> Result<nat, ParseError> {
    keyword_from(s, i, word, 0)
}

// ---------------------------------------------------------------------------
// Strings
// ---------------------------------------------------------------------------
pub open spec fn is_high_surrogate(unit: u32) -> bool {
    0xD800 <= unit && unit <= 0xDBFF
}

pub open spec fn is_low_surrogate(unit: u32) -> bool {
    0xDC00 <= unit && unit <= 0xDFFF
}

/// The code point that a surrogate pair stands for.
pub open spec fn pair_code(high: u32, low: u32) -> u32 {
    (0x10000 + (high - 0xD800) * 0x400 + (low - 0xDC00)) as u32
}

/// The 16-bit unit written by the four hexadecimal digits at `i`. They belong
/// to the escape whose backslash is at `escape`, in the string opened at
/// `open`.
#[verifier::opaque]
pub open spec fn code_unit_at(s: Seq<char>, i: int, escape: int, open: int) -> Result<
    u32,
    ParseError,
> {
    if i >= s.len() {
        Err(ParseError::UnterminatedString { pos: open as usize })
    } else if !is_hex_digit(s[i]) {
        Err(ParseError::InvalidEscape { pos: escape as usize })
    } else if i + 1 >= s.len() {
        Err(ParseError::UnterminatedString { pos: open as usize })
    } else if !is_hex_digit(s[i + 1]) {
        Err(ParseError::InvalidEscape { pos: escape as usize })
    } else if i + 2 >= s.len() {
        Err(ParseError::UnterminatedString { pos: open as usize })
    } else if !is_hex_digit(s[i + 2]) {
        Err(ParseError::InvalidEscape { pos: escape as usize })
    } else if i + 3 >= s.len() {
        Err(ParseError::UnterminatedString { pos: open as usize })
    } else if !is_hex_digit(s[i + 3]) {
        Err(ParseError::InvalidEscape { pos: escape as usize })
    } else {
        Ok(
            (hex_of(s[i]) * 0x1000 + hex_of(s[i + 1]) * 0x100 + hex_of(s[i + 2]) * 0x10 + hex_of(
                s[i + 3],
            )) as u32,
        )
    }
}

/// The escape `\uXXXX` whose backslash is at `i`. A high surrogate must be
/// followed at once by an escaped low surrogate, and the two make one
/// character; a surrogate without its partner is an error.
pub open spec fn unicode_escape_at(s: Seq<char>, i: int, open: int) -> Result<
    (char, nat),
    ParseError,
> {
    match code_unit_at(s, i + 2, i, open) {
        Err(e) => Err(e),
        Ok(unit) => if is_high_surrogate(unit) {
            if i + 6 >= s.len() {
                Err(ParseError::UnterminatedString { pos: open as usize })
            } else if s[i + 6] != '\\' {
                Err(ParseError::InvalidEscape { pos: i as usize })
            } else if i + 7 >= s.len() {
                Err(ParseError::UnterminatedString { pos: open as usize })
            } else if s[i + 7] != 'u' {
                Err(ParseError::InvalidEscape { pos: i as usize })
            } else {
                match code_unit_at(s, i + 8, i, open) {
                    Err(e) => Err(e),
                    Ok(low) => if is_low_surrogate(low) {
                        Ok((pair_code(unit, low) as char, 12))
                    } else {
                        Err(ParseError::InvalidEscape { pos: i as usize })
                    },
                }
            }
        } else if is_low_surrogate(unit) {
            Err(ParseError::InvalidEscape { pos: i as usize })
        } else {
            Ok((unit as char, 6))
        },
    }
}

/// The escape sequence whose backslash is at `i`, in the string opened at
/// `open`: the character it stands for and its length.
pub open spec fn escape_at(s: Seq<char>, i: int, open: int) -> Result<(char, nat), ParseError> {
    if i + 1 >= s.len() {
        Err(ParseError::UnterminatedString { pos: open as usize })
    } else {
        let c = s[i + 1];
        if c == '"' || c == '\\' || c == '/' {
            Ok((c, 2))
        } else if c == 'b' {
            Ok(('\u{8}', 2))
        } else if c == 'f' {
            Ok(('\u{c}', 2))
        } else if c == 'n' {
            Ok(('\n', 2))
        } else if c == 'r' {
            Ok(('\r', 2))
        } else if c == 't' {
            Ok(('\t', 2))
        } else if c == 'u' {
            unicode_escape_at(s, i, open)
        } else {
            Err(ParseError::InvalidEscape { pos: i as usize })
        }
    }
}

/// The rest of the string opened at `open`, read from `i` with `acc` decoded
/// so far: the decoded characters and the offset just after the closing quote.
pub open spec fn string_from(s: Seq<char>, i: int, open: int, acc: Seq<char>) -> Result<
    (Seq<char>, int),
    ParseError,
>
    decreases s.len() - i,
    via string_from_decreases
{
    if i < 0 || i >= s.len() {
        Err(ParseError::UnterminatedString { pos: open as usize })
    } else if s[i] == '"' {
        Ok((acc, i + 1))
    } else if s[i] == '\\' {
        match escape_at(s, i, open) {
            Err(e) => Err(e),
            Ok((c, n)) => string_from(s, i + n, open, acc.push(c)),
        }
    } else if is_control(s[i]) {
        Err(ParseError::UnexpectedChar { pos: i as usize, found: s[i] })
    } else {
        string_from(s, i + 1, open, acc.push(s[i]))
    }
}

#[via_fn]
proof fn string_from_decreases(s: Seq<char>, i: int, open: int, acc: Seq<char>) {
    reveal(code_unit_at);
}

/// The string literal at `i`: its decoded characters and its length, quotes
/// included.
pub open spec fn string_at(s: Seq<char>, i: int) -> Result<(Seq<char>, nat), ParseError> {
    if i < 0 || i >= s.len() {
        Err(ParseError::UnexpectedEof)
    } else if s[i] != '"' {
        Err(ParseError::UnexpectedChar { pos: i as usize, found: s[i] })
    } else {
        match string_from(s, i + 1, i, Seq::empty()) {
            Err(e) => Err(e),
            Ok((chars, end)) => Ok((chars, (end - i) as nat)),
        }
    }
}

// ---------------------------------------------------------------------------
// Numbers
// ---------------------------------------------------------------------------
/// How a numeric literal is made up: which parts it has and how long each
/// is. Each run of digits is taken as long as it goes.
pub ghost struct NumberShape {
    /// Whether it starts with `-`.
    pub negative: bool,
    /// The digits of the integer part.
    pub int_len: nat,
    /// Whether the integer part starts with `0`.
    pub leading_zero: bool,
    /// Whether a `.` follows the integer part, and the digits after it.
    pub has_fraction: bool,
    pub fraction_len: nat,
    /// Whether `e` or `E` follows, whether a sign follows that, whether it is
    /// `-`, and the digits after it.
    pub has_exponent: bool,
    pub has_exponent_sign: bool,
    pub exponent_negative: bool,
    pub exponent_len: nat,
    /// Whether a sign, a point or the mark of an exponent stands directly
    /// after the last part: the run of number characters then goes on, and
    /// as a whole is no number.
    pub runs_on: bool,
}

impl NumberShape {
    /// Where the integer part starts in a literal that starts at `i`.
    pub open spec fn int_start(self, i: int) -> int {
        if self.negative {
            i + 1
        } else {
            i
        }
    }

    /// Where the digits of the fraction start, if there is one.
    pub open spec fn fraction_start(self, i: int) -> int {
        self.int_start(i) + self.int_len + 1
    }

    /// Where the fraction ends, or the integer part if there is none.
    pub open spec fn fraction_end(self, i: int) -> int {
        if self.has_fraction {
            self.fraction_start(i) + self.fraction_len
        } else {
            self.int_start(i) + self.int_len
        }
    }

    /// Where the digits of the exponent start, if there is one.
    pub open spec fn exponent_start(self, i: int) -> int {
        if self.has_exponent_sign {
            self.fraction_end(i) + 2
        } else {
            self.fraction_end(i) + 1
        }
    }

    /// Where the literal ends.
    pub open spec fn end(self, i: int) -> int {
        if self.has_exponent {
            self.exponent_start(i) + self.exponent_len
        } else {
            self.fraction_end(i)
        }
    }

    /// The number grammar: an integer part that is `0` alone or starts with
    /// another digit; after a `.` at least one digit; after `e` or `E` and an
    /// optional sign at least one digit; and nothing that numbers are
    /// written with directly after it.
    pub open spec fn valid(self) -> bool {
        &&& self.int_len > 0
        &&& !(self.leading_zero && self.int_len > 1)
        &&& (self.has_fraction ==> self.fraction_len > 0)
        &&& (self.has_exponent ==> self.exponent_len > 0)
        &&& !self.runs_on
    }
}

/// The shape of what stands at `i`, read as a numeric literal.
pub open spec fn number_shape(s: Seq<char>, i: int) -> NumberShape {
    let negative = 0 <= i < s.len() && s[i] == '-';
    let a = if negative {
        i + 1
    } else {
        i
    };
    let int_len = digits_len(s, a);
    let b = a + int_len;
    let has_fraction = 0 <= b < s.len() && s[b] == '.';
    let fraction_len = if has_fraction {
        digits_len(s, b + 1)
    } else {
        0
    };
    let c = if has_fraction {
        b + 1 + fraction_len
    } else {
        b
    };
    let has_exponent = 0 <= c < s.len() && (s[c] == 'e' || s[c] == 'E');
    let has_exponent_sign = has_exponent && c + 1 < s.len() && (s[c + 1] == '+' || s[c + 1] == '-');
    let d = if has_exponent_sign {
        c + 2
    } else {
        c + 1
    };
    let exponent_len = if has_exponent {
        digits_len(s, d)
    } else {
        0
    };
    let end = if has_exponent {
        d + exponent_len
    } else {
        c
    };
    NumberShape {
        negative,
        int_len,
        leading_zero: int_len > 0 && s[a] == '0',
        has_fraction,
        fraction_len,
        has_exponent,
        has_exponent_sign,
        exponent_negative: has_exponent_sign && s[c + 1] == '-',
        exponent_len,
        runs_on: 0 <= end < s.len() && continues_number(s[end]),
    }
}

/// The numeric literal at `i`: an optional `-`, an integer part, an optional
/// fraction, an optional exponent. It denotes the digits of the integer part
/// and of the fraction, read as one number, times ten to the exponent less
/// the number of fraction digits. The whole run of digits, signs, points and
/// exponent marks that starts at `i` has to be one number: `1.5.3` is no
/// number, and neither is its start `1.5`.
pub open spec fn number_at(s: Seq<char>, i: int) -> Result<(DecimalNumber, nat), ParseError> {
    let shape = number_shape(s, i);
    if !shape.valid() {
        Err(ParseError::InvalidNumber { pos: i as usize })
    } else {
        let written = decimal_value(
            digits_at(s, shape.exponent_start(i), shape.exponent_len),
        ) as int;
        Ok(
            (
                DecimalNumber {
                    negative: shape.negative,
                    mantissa: decimal_value(
                        digits_at(s, shape.int_start(i), shape.int_len) + digits_at(
                            s,
                            shape.fraction_start(i),
                            shape.fraction_len,
                        ),
                    ),
                    exponent: if shape.exponent_negative {
                        -written - shape.fraction_len
                    } else {
                        written - shape.fraction_len
                    },
                },
                (shape.end(i) - i) as nat,
            ),
        )
    }
}

// ---------------------------------------------------------------------------
// Separators
// ---------------------------------------------------------------------------
/// What follows an element of a container closed by `close`: a comma, and
/// then another element must follow (`true`), or `close` (`false`). Where
/// something else stands, the comma is missing if that could start the next
/// element, and else the closing bracket.
pub open spec fn separator_at(s: Seq<char>, i: int, close: char) -> Result<(bool, nat), ParseError> {
    let w = whitespace_len(s, i);
    if i + w < 0 || i + w >= s.len() {
        Err(ParseError::UnexpectedEof)
    } else if s[i + w] == ',' {
        Ok((true, w + 1))
    } else if s[i + w] == close {
        Ok((false, w + 1))
    } else if starts_value(s[i + w]) {
        Err(ParseError::ExpectedToken { pos: (i + w) as usize, expected: ',' })
    } else {
        Err(ParseError::ExpectedToken { pos: (i + w) as usize, expected: close })
    }
}

/// The colon between a key and its value.
pub open spec fn colon_at(s: Seq<char>, i: int) -> Result<nat, ParseError> {
    let w = whitespace_len(s, i);
    if i + w < 0 || i + w >= s.len() {
        Err(ParseError::UnexpectedEof)
    } else if s[i + w] == ':' {
        Ok(w + 1)
    } else {
        Err(ParseError::ExpectedToken { pos: (i + w) as usize, expected: ':' })
    }
}

/// The key of a member: a string literal, and nothing else.
pub open spec fn key_at(s: Seq<char>, i: int) -> Result<(Seq<char>, nat), ParseError> {
    let w = whitespace_len(s, i);
    match string_at(s, i + w) {
        Err(e) => Err(e),
        Ok((key, n)) => Ok((key, w + n)),
    }
}

// ---------------------------------------------------------------------------
// Values
// ---------------------------------------------------------------------------
/// The value at `i`, after any whitespace, where containers may nest `depth`
/// levels deep: what it denotes and how many characters it occupies, the
/// whitespace before it included.
pub open spec fn value_at(s: Seq<char>, i: int, depth: nat) -> Result<(Json, nat), ParseError>
    decreases depth, 0int, 0int,
{
    let w = whitespace_len(s, i);
    let p = i + w;
    if p < 0 || p >= s.len() {
        Err(ParseError::UnexpectedEof)
    } else if s[p] == '{' {
        if depth == 0 {
            Err(ParseError::NestingTooDeep { pos: p as usize })
        } else {
            match object_at(s, p, (depth - 1) as nat) {
                Err(e) => Err(e),
                Ok((members, n)) => Ok((Json::Object(members), w + n)),
            }
        }
    } else if s[p] == '[' {
        if depth == 0 {
            Err(ParseError::NestingTooDeep { pos: p as usize })
        } else {
            match array_at(s, p, (depth - 1) as nat) {
                Err(e) => Err(e),
                Ok((items, n)) => Ok((Json::Array(items), w + n)),
            }
        }
    } else if s[p] == '"' {
        match string_at(s, p) {
            Err(e) => Err(e),
            Ok((chars, n)) => Ok((Json::String(chars), w + n)),
        }
    } else if s[p] == 't' {
        match keyword_at(s, p, word_true()) {
            Err(e) => Err(e),
            Ok(n) => Ok((Json::Boolean(true), w + n)),
        }
    } else if s[p] == 'f' {
        match keyword_at(s, p, word_false()) {
            Err(e) => Err(e),
            Ok(n) => Ok((Json::Boolean(false), w + n)),
        }
    } else if s[p] == 'n' {
        match keyword_at(s, p, word_null()) {
            Err(e) => Err(e),
            Ok(n) => Ok((Json::Null, w + n)),
        }
    } else if starts_value(s[p]) {
        match number_at(s, p) {
            Err(e) => Err(e),
            Ok((number, n)) => Ok((Json::Number(number), w + n)),
        }
    } else {
        Err(ParseError::UnexpectedChar { pos: p as usize, found: s[p] })
    }
}

/// The array whose `[` is at `i`; its elements may nest `depth` levels
/// deep. `[` and `]` with only whitespace between them is the empty array.
pub open spec fn array_at(s: Seq<char>, i: int, depth: nat) -> Result<(Seq<Json>, nat), ParseError>
    decreases depth, 2int, 0int,
{
    if i < 0 || i >= s.len() {
        Err(ParseError::UnexpectedEof)
    } else if s[i] != '[' {
        Err(ParseError::UnexpectedChar { pos: i as usize, found: s[i] })
    } else {
        let w = whitespace_len(s, i + 1);
        if i + 1 + w < s.len() && s[i + 1 + w] == ']' {
            Ok((Seq::empty(), 1 + w + 1))
        } else {
            match elements_from(s, i + 1, depth, Seq::empty()) {
                Err(e) => Err(e),
                Ok((items, end)) => Ok((items, (end - i) as nat)),
            }
        }
    }
}

/// The elements of an array from `i` on, with `acc` read so far: a value,
/// then a comma and more of the same, or the closing bracket. Gives all the
/// elements and the offset just after the bracket.
pub open spec fn elements_from(s: Seq<char>, i: int, depth: nat, acc: Seq<Json>) -> Result<
    (Seq<Json>, int),
    ParseError,
>
    decreases depth, 1int, s.len() - i,
{
    match value_at(s, i, depth) {
        Err(e) => Err(e),
        Ok((v, n)) => match separator_at(s, i + n, ']') {
            Err(e) => Err(e),
            Ok((more, m)) => if more {
                elements_from(s, i + n + m, depth, acc.push(v))
            } else {
                Ok((acc.push(v), i + n + m))
            },
        },
    }
}

/// The object whose `{` is at `i`; its members' values may nest `depth`
/// levels deep. `{` and `}` with only whitespace between them is the empty
/// object.
pub open spec fn object_at(s: Seq<char>, i: int, depth: nat) -> Result<
    (Map<Seq<char>, Json>, nat),
    ParseError,
>
    decreases depth, 2int, 0int,
{
    if i < 0 || i >= s.len() {
        Err(ParseError::UnexpectedEof)
    } else if s[i] != '{' {
        Err(ParseError::UnexpectedChar { pos: i as usize, found: s[i] })
    } else {
        let w = whitespace_len(s, i + 1);
        if i + 1 + w < s.len() && s[i + 1 + w] == '}' {
            Ok((Map::empty(), 1 + w + 1))
        } else {
            match members_from(s, i + 1, depth, Map::empty()) {
                Err(e) => Err(e),
                Ok((members, end)) => Ok((members, (end - i) as nat)),
            }
        }
    }
}

/// The members of an object from `i` on, with `acc` read so far: a key, a
/// colon and a value, then a comma and more of the same, or the closing
/// brace. A key that occurs again replaces the earlier member. Gives the
/// members and the offset just after the brace.
pub open spec fn members_from(s: Seq<char>, i: int, depth: nat, acc: Map<Seq<char>, Json>) -> Result<
    (Map<Seq<char>, Json>, int),
    ParseError,
>
    decreases depth, 1int, s.len() - i,
{
    match key_at(s, i) {
        Err(e) => Err(e),
        Ok((key, a)) => match colon_at(s, i + a) {
            Err(e) => Err(e),
            Ok(b) => match value_at(s, i + a + b, depth) {
                Err(e) => Err(e),
                Ok((v, c)) => match separator_at(s, i + a + b + c, '}') {
                    Err(e) => Err(e),
                    Ok((more, d)) => if more {
                        members_from(s, i + a + b + c + d, depth, acc.insert(key, v))
                    } else {
                        Ok((acc.insert(key, v), i + a + b + c + d))
                    },
                },
            },
        },
    }
}

/// The keys of the members of an object from `i` on, after the keys `acc`
/// read so far: each key once, at the place where it first occurs.
pub open spec fn keys_from(s: Seq<char>, i: int, depth: nat, acc: Seq<Seq<char>>) -> Seq<Seq<char>>
    decreases s.len() - i,
{
    match key_at(s, i) {
        Err(e) => acc,
        Ok((key, a)) => match colon_at(s, i + a) {
            Err(e) => acc,
            Ok(b) => match value_at(s, i + a + b, depth) {
                Err(e) => acc,
                Ok((v, c)) => match separator_at(s, i + a + b + c, '}') {
                    Err(e) => acc,
                    Ok((more, d)) => if more {
                        keys_from(s, i + a + b + c + d, depth, with_key(acc, key))
                    } else {
                        with_key(acc, key)
                    },
                },
            },
        },
    }
}

/// The keys of the object whose `{` is at `i`, in the order in which they
/// first occur.
pub open spec fn object_keys(s: Seq<char>, i: int, depth: nat) -> Seq<Seq<char>> {
    let w = whitespace_len(s, i + 1);
    if 0 <= i < s.len() && s[i] == '{' && !(i + 1 + w < s.len() && s[i + 1 + w] == '}') {
        keys_from(s, i + 1, depth, Seq::empty())
    } else {
        Seq::empty()
    }
}

/// The keys of the value at `i` where that is an object, in the order in
/// which they first occur; of another value, none.
pub open spec fn value_keys(s: Seq<char>, i: int, depth: nat) -> Seq<Seq<char>> {
    let p = i + whitespace_len(s, i);
    if 0 <= p < s.len() && s[p] == '{' && depth > 0 {
        object_keys(s, p, (depth - 1) as nat)
    } else {
        Seq::empty()
    }
}

/// A JSON document: one value, with nothing but whitespace around it.
pub open spec fn document(s: Seq<char>, max_depth: nat) -> Result<Json, ParseError> {
    match value_at(s, 0, max_depth) {
        Err(e) => Err(e),
        Ok((v, n)) => {
            let end = n + whitespace_len(s, n as int);
            if end < s.len() {
                Err(ParseError::UnexpectedChar { pos: end as usize, found: s[end as int] })
            } else {
                Ok(v)
            }
        },
    }
}

/// Whether `s` is a JSON document whose containers nest at most `max_depth`
/// levels deep.
pub open spec fn is_document(s: Seq<char>, max_depth: nat) -> bool {
    document(s, max_depth) is Ok
}

/// A run of whitespace lies within the text, holds whitespace only, and ends
/// where something else stands.
pub proof fn lemma_whitespace_in_text(s: Seq<char>, i: int)
    requires
        0 <= i <= s.len(),
    ensures
        i + whitespace_len(s, i) <= s.len(),
        forall|k: int| 0 <= k < whitespace_len(s, i) ==> is_whitespace(#[trigger] s[i + k]),
        i + whitespace_len(s, i) < s.len() ==> !is_whitespace(s[i + whitespace_len(s, i)]),
    decreases s.len() - i,
{
    if i < s.len() && is_whitespace(s[i]) {
        lemma_whitespace_in_text(s, i + 1);
        assert forall|k: int| 0 <= k < whitespace_len(s, i) implies is_whitespace(
            #[trigger] s[i + k],
        ) by {
            if k > 0 {
                assert(is_whitespace(s[(i + 1) + (k - 1)]));
            }
        }
    }
}

/// A run of digits lies within the text, holds digits only, and ends where
/// something else stands.
pub proof fn lemma_digits_in_text(s: Seq<char>, i: int)
    requires
        0 <= i,
    ensures
        i + digits_len(s, i) <= s.len() || digits_len(s, i) == 0,
        forall|k: int| 0 <= k < digits_len(s, i) ==> is_digit(#[trigger] s[i + k]),
        i + digits_len(s, i) < s.len() ==> !is_digit(s[i + digits_len(s, i)]),
    decreases s.len() - i,
{
    if i < s.len() && is_digit(s[i]) {
        lemma_digits_in_text(s, i + 1);
        assert forall|k: int| 0 <= k < digits_len(s, i) implies is_digit(#[trigger] s[i + k]) by {
            if k > 0 {
                assert(is_digit(s[(i + 1) + (k - 1)]));
            }
        }
    }
}

/// No whitespace stands directly after the whitespace at `i`.
pub proof fn lemma_whitespace_end(s: Seq<char>, i: int)
    ensures
        whitespace_len(s, i + whitespace_len(s, i)) == 0,
    decreases s.len() - i,
{
    if 0 <= i < s.len() && is_whitespace(s[i]) {
        lemma_whitespace_end(s, i + 1);
    }
}

/// A value may be read from the start of the whitespace before it or from
/// its end: only the length differs, by that whitespace.
pub proof fn lemma_value_after_whitespace(s: Seq<char>, i: int, depth: nat)
    ensures
        value_at(s, i, depth) == match value_at(s, i + whitespace_len(s, i), depth) {
            Ok((v, n)) => Ok((v, whitespace_len(s, i) + n)),
            Err(e) => Err(e),
        },
{
    lemma_whitespace_end(s, i);
}

/// The same for a key.
pub proof fn lemma_key_after_whitespace(s: Seq<char>, i: int)
    ensures
        key_at(s, i) == match key_at(s, i + whitespace_len(s, i)) {
            Ok((key, n)) => Ok((key, whitespace_len(s, i) + n)),
            Err(e) => Err(e),
        },
{
    lemma_whitespace_end(s, i);
}

/// The elements of an array may be read from the start of the whitespace
/// before the first of them or from its end.
pub proof fn lemma_elements_after_whitespace(s: Seq<char>, i: int, depth: nat, acc: Seq<Json>)
    ensures
        elements_from(s, i, depth, acc) == elements_from(s, i + whitespace_len(s, i), depth, acc),
{
    lemma_value_after_whitespace(s, i, depth);
}

/// The same for the members of an object.
pub proof fn lemma_members_after_whitespace(
    s: Seq<char>,
    i: int,
    depth: nat,
    acc: Map<Seq<char>, Json>,
)
    ensures
        members_from(s, i, depth, acc) == members_from(s, i + whitespace_len(s, i), depth, acc),
{
    lemma_key_after_whitespace(s, i);
}

/// The same for their keys.
pub proof fn lemma_keys_after_whitespace(s: Seq<char>, i: int, depth: nat, acc: Seq<Seq<char>>)
    ensures
        keys_from(s, i, depth, acc) == keys_from(s, i + whitespace_len(s, i), depth, acc),
{
    lemma_key_after_whitespace(s, i);
}

} // verus!
