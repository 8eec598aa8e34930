//! Whitespace between tokens does not matter.
//!
//! The law is stated for one whitespace character put into a text at a place
//! between two tokens; any change of the whitespace between tokens is a
//! sequence of such steps and of their reverses. The proof follows a reader
//! through both texts at once, and shows that it is always at the same place
//! in both.
use crate::error::ParseError;
use crate::grammar::{
    array_at, code_unit_at, colon_at, digits_at, digits_len, document, elements_from, escape_at,
    is_digit, is_whitespace, key_at, lemma_digits_in_text, lemma_whitespace_in_text, keyword_at,
    keyword_from, members_from, number_at, object_at, number_shape, separator_at, string_at,
    string_from, unicode_escape_at, value_at, whitespace_len, word_false, word_null, word_true,
};
use crate::value::Json;
use vstd::prelude::*;

verus! {

// ---------------------------------------------------------------------------
// One more whitespace character
// ---------------------------------------------------------------------------
/// `t` is `s` with one whitespace character put in before offset `p`.
pub open spec fn widened(s: Seq<char>, t: Seq<char>, p: int) -> bool {
    &&& 0 <= p <= s.len()
    &&& t.len() == s.len() + 1
    &&& t.len() <= usize::MAX
    &&& is_whitespace(t[p])
    &&& forall|k: int| 0 <= k < p ==> #[trigger] t[k] == s[k]
    &&& forall|k: int| p < k < t.len() ==> #[trigger] t[k] == s[k - 1]
}

/// Where the offset `pos` lies once a character has been put in before `p`.
pub open spec fn shift_pos(pos: usize, p: int) -> usize {
    if pos >= p {
        (pos + 1) as usize
    } else {
        pos
    }
}

/// The same error, about the text with a character put in before `p`.
pub open spec fn shift_error(e: ParseError, p: int) -> ParseError {
    match e {
        ParseError::UnexpectedEof => ParseError::UnexpectedEof,
        ParseError::UnexpectedChar { pos, found } => ParseError::UnexpectedChar {
            pos: shift_pos(pos, p),
            found,
        },
        ParseError::ExpectedToken { pos, expected } => ParseError::ExpectedToken {
            pos: shift_pos(pos, p),
            expected,
        },
        ParseError::InvalidNumber { pos } => ParseError::InvalidNumber { pos: shift_pos(pos, p) },
        ParseError::InvalidEscape { pos } => ParseError::InvalidEscape { pos: shift_pos(pos, p) },
        ParseError::UnterminatedString { pos } => ParseError::UnterminatedString {
            pos: shift_pos(pos, p),
        },
        ParseError::NestingTooDeep { pos } => ParseError::NestingTooDeep { pos: shift_pos(pos, p) },
    }
}

/// The same outcome, with the offset of an error moved.
pub open spec fn shifted<T>(r: Result<T, ParseError>, p: int) -> Result<T, ParseError> {
    match r {
        Ok(v) => Ok(v),
        Err(e) => Err(shift_error(e, p)),
    }
}

/// Where the end offset `end` lies once a character has been put in before
/// `p`: an end at `p` itself stays.
pub open spec fn shift_end(end: int, p: int) -> int {
    if end > p {
        end + 1
    } else {
        end
    }
}

/// The same outcome, with the end offset or the offset of an error moved.
pub open spec fn shifted_end<T>(r: Result<(T, int), ParseError>, p: int) -> Result<
    (T, int),
    ParseError,
> {
    match r {
        Ok((v, end)) => Ok((v, shift_end(end, p))),
        Err(e) => Err(shift_error(e, p)),
    }
}

// What stands after the new character reads as before, one offset later.
proof fn lemma_whitespace_after(s: Seq<char>, t: Seq<char>, p: int, i: int)
    requires
        widened(s, t, p),
        i >= p,
    ensures
        whitespace_len(t, i + 1) == whitespace_len(s, i),
    decreases s.len() - i,
{
    if i < s.len() && is_whitespace(s[i]) {
        lemma_whitespace_after(s, t, p, i + 1);
    }
}

proof fn lemma_digits_after(s: Seq<char>, t: Seq<char>, p: int, i: int)
    requires
        widened(s, t, p),
        i >= p,
    ensures
        digits_len(t, i + 1) == digits_len(s, i),
        digits_at(t, i + 1, digits_len(s, i)) == digits_at(s, i, digits_len(s, i)),
    decreases s.len() - i,
{
    if i < s.len() && is_digit(s[i]) {
        lemma_digits_after(s, t, p, i + 1);
    }
    lemma_digits_in_text(s, i);
    assert(digits_at(t, i + 1, digits_len(s, i)) =~= digits_at(s, i, digits_len(s, i)));
}

proof fn lemma_keyword_after(s: Seq<char>, t: Seq<char>, p: int, i: int, word: Seq<char>, k: int)
    requires
        widened(s, t, p),
        p <= i,
        0 <= k <= word.len(),
        i + k <= s.len(),
    ensures
        keyword_from(t, i + 1, word, k) == shifted(keyword_from(s, i, word, k), p),
        keyword_from(s, i, word, k) matches Ok(n) ==> n == word.len() && i + n <= s.len(),
    decreases word.len() - k,
{
    if k < word.len() && i + k < s.len() && s[i + k] == word[k] {
        lemma_keyword_after(s, t, p, i, word, k + 1);
    }
}

proof fn lemma_code_unit_after(s: Seq<char>, t: Seq<char>, p: int, i: int, escape: int, open: int)
    requires
        widened(s, t, p),
        p <= open <= escape < i,
        escape < s.len(),
    ensures
        code_unit_at(t, i + 1, escape + 1, open + 1) == shifted(
            code_unit_at(s, i, escape, open),
            p,
        ),
        code_unit_at(s, i, escape, open) is Ok ==> i + 4 <= s.len(),
{
    reveal(code_unit_at);
}

proof fn lemma_unicode_escape_after(s: Seq<char>, t: Seq<char>, p: int, i: int, open: int)
    requires
        widened(s, t, p),
        p <= open < i < s.len(),
    ensures
        unicode_escape_at(t, i + 1, open + 1) == shifted(unicode_escape_at(s, i, open), p),
        unicode_escape_at(s, i, open) matches Ok((c, n)) ==> 2 <= n && i + n <= s.len(),
{
    lemma_code_unit_after(s, t, p, i + 2, i, open);
    lemma_code_unit_after(s, t, p, i + 8, i, open);
    if i + 7 < s.len() {
        assert(t[i + 7] == s[i + 6]);
        assert(t[i + 8] == s[i + 7]);
    }
}

proof fn lemma_escape_after(s: Seq<char>, t: Seq<char>, p: int, i: int, open: int)
    requires
        widened(s, t, p),
        p <= open < i < s.len(),
    ensures
        escape_at(t, i + 1, open + 1) == shifted(escape_at(s, i, open), p),
        escape_at(s, i, open) matches Ok((c, n)) ==> 2 <= n && i + n <= s.len(),
{
    lemma_unicode_escape_after(s, t, p, i, open);
    if i + 1 < s.len() {
        assert(t[i + 2] == s[i + 1]);
    }
}

proof fn lemma_string_from_after(
    s: Seq<char>,
    t: Seq<char>,
    p: int,
    i: int,
    open: int,
    acc: Seq<char>,
)
    requires
        widened(s, t, p),
        p <= open < i <= s.len(),
    ensures
        string_from(t, i + 1, open + 1, acc) == shifted_end(string_from(s, i, open, acc), p),
        string_from(s, i, open, acc) matches Ok((chars, end)) ==> i < end <= s.len(),
    decreases s.len() - i,
{
    if i < s.len() {
        if s[i] == '"' {
        } else if s[i] == '\\' {
            lemma_escape_after(s, t, p, i, open);
            match escape_at(s, i, open) {
                Err(e) => {},
                Ok((c, n)) => {
                    lemma_string_from_after(s, t, p, i + n, open, acc.push(c));
                },
            }
        } else {
            lemma_string_from_after(s, t, p, i + 1, open, acc.push(s[i]));
        }
    }
}

proof fn lemma_string_after(s: Seq<char>, t: Seq<char>, p: int, i: int)
    requires
        widened(s, t, p),
        p <= i <= s.len(),
    ensures
        string_at(t, i + 1) == shifted(string_at(s, i), p),
        string_at(s, i) matches Ok((chars, n)) ==> 1 <= n && i + n <= s.len(),
{
    if i < s.len() {
        lemma_string_from_after(s, t, p, i + 1, i, Seq::empty());
    }
}

#[verifier::rlimit(50)]
proof fn lemma_number_shape_after(s: Seq<char>, t: Seq<char>, p: int, i: int)
    requires
        widened(s, t, p),
        p <= i <= s.len(),
    ensures
        number_shape(t, i + 1) == number_shape(s, i),
        i <= number_shape(s, i).end(i) <= s.len() || !number_shape(s, i).valid(),
{
    let shape = number_shape(s, i);
    let a = shape.int_start(i);
    lemma_digits_after(s, t, p, a);
    lemma_digits_in_text(s, a);
    let b = a + shape.int_len;
    lemma_digits_after(s, t, p, b + 1);
    lemma_digits_in_text(s, b + 1);
    let c = shape.fraction_end(i);
    let d = shape.exponent_start(i);
    lemma_digits_after(s, t, p, d);
    lemma_digits_in_text(s, d);
    if shape.int_len > 0 {
        assert(t[a + 1] == s[a]);
    }
    if c + 1 < s.len() {
        assert(t[c + 2] == s[c + 1]);
    }
    let end = shape.end(i);
    if 0 <= end < s.len() {
        assert(t[end + 1] == s[end]);
    }
}

#[verifier::rlimit(50)]
proof fn lemma_number_after(s: Seq<char>, t: Seq<char>, p: int, i: int)
    requires
        widened(s, t, p),
        p <= i <= s.len(),
    ensures
        number_at(t, i + 1) == shifted(number_at(s, i), p),
        number_at(s, i) matches Ok((number, n)) ==> 1 <= n && i + n <= s.len(),
{
    lemma_number_shape_after(s, t, p, i);
    let shape = number_shape(s, i);
    if shape.valid() {
        lemma_digits_after(s, t, p, shape.int_start(i));
        if shape.has_fraction {
            lemma_digits_after(s, t, p, shape.fraction_start(i));
        } else {
            assert(digits_at(t, shape.fraction_start(i + 1), 0) =~= digits_at(
                s,
                shape.fraction_start(i),
                0,
            ));
        }
        if shape.has_exponent {
            lemma_digits_after(s, t, p, shape.exponent_start(i));
        } else {
            assert(digits_at(t, shape.exponent_start(i + 1), 0) =~= digits_at(
                s,
                shape.exponent_start(i),
                0,
            ));
        }
    }
}

// What ends before the new character reads as before.
proof fn lemma_digits_before(s: Seq<char>, t: Seq<char>, p: int, i: int)
    requires
        widened(s, t, p),
        0 <= i,
        i + digits_len(s, i) <= p,
    ensures
        digits_len(t, i) == digits_len(s, i),
        digits_at(t, i, digits_len(s, i)) == digits_at(s, i, digits_len(s, i)),
    decreases s.len() - i,
{
    if i < s.len() && is_digit(s[i]) {
        lemma_digits_before(s, t, p, i + 1);
    }
    lemma_digits_in_text(s, i);
    assert(digits_at(t, i, digits_len(s, i)) =~= digits_at(s, i, digits_len(s, i)));
}

proof fn lemma_keyword_before(s: Seq<char>, t: Seq<char>, p: int, i: int, word: Seq<char>, k: int)
    requires
        widened(s, t, p),
        0 <= i,
        0 <= k <= word.len(),
        i + word.len() <= p,
    ensures
        keyword_from(t, i, word, k) == keyword_from(s, i, word, k),
    decreases word.len() - k,
{
    if k < word.len() && i + k < s.len() && s[i + k] == word[k] {
        lemma_keyword_before(s, t, p, i, word, k + 1);
    }
}

proof fn lemma_keyword_len(s: Seq<char>, i: int, word: Seq<char>, k: int)
    requires
        0 <= k <= word.len(),
    ensures
        keyword_from(s, i, word, k) matches Ok(n) ==> n == word.len(),
    decreases word.len() - k,
{
    if k < word.len() && i + k < s.len() && s[i + k] == word[k] {
        lemma_keyword_len(s, i, word, k + 1);
    }
}

proof fn lemma_code_unit_before(s: Seq<char>, t: Seq<char>, p: int, i: int, escape: int, open: int)
    requires
        widened(s, t, p),
        0 <= i,
        i + 4 <= p,
    ensures
        code_unit_at(t, i, escape, open) == code_unit_at(s, i, escape, open),
{
    reveal(code_unit_at);
}

proof fn lemma_escape_before(s: Seq<char>, t: Seq<char>, p: int, i: int, open: int)
    requires
        widened(s, t, p),
        0 <= i < s.len(),
        escape_at(s, i, open) matches Ok((c, n)) && i + n <= p,
    ensures
        escape_at(t, i, open) == escape_at(s, i, open),
        escape_at(s, i, open) matches Ok((c, n)) && n >= 2,
{
    assert(t[i + 1] == s[i + 1]);
    if s[i + 1] == 'u' {
        lemma_code_unit_before(s, t, p, i + 2, i, open);
        match code_unit_at(s, i + 2, i, open) {
            Err(e) => {},
            Ok(unit) => {
                if 0xD800 <= unit && unit <= 0xDBFF {
                    assert(t[i + 6] == s[i + 6]);
                    assert(t[i + 7] == s[i + 7]);
                    lemma_code_unit_before(s, t, p, i + 8, i, open);
                }
            },
        }
    }
}

proof fn lemma_string_from_before(
    s: Seq<char>,
    t: Seq<char>,
    p: int,
    i: int,
    open: int,
    acc: Seq<char>,
)
    requires
        widened(s, t, p),
        0 <= i,
        string_from(s, i, open, acc) matches Ok((chars, end)) && end <= p,
    ensures
        string_from(t, i, open, acc) == string_from(s, i, open, acc),
        string_from(s, i, open, acc) matches Ok((chars, end)) && i < end,
    decreases s.len() - i,
{
    if s[i] == '"' {
    } else if s[i] == '\\' {
        match escape_at(s, i, open) {
            Err(e) => {},
            Ok((c, n)) => {
                reveal(code_unit_at);
                lemma_string_from_before(s, t, p, i + n, open, acc.push(c));
                lemma_escape_before(s, t, p, i, open);
            },
        }
    } else {
        lemma_string_from_before(s, t, p, i + 1, open, acc.push(s[i]));
    }
}

proof fn lemma_number_before(s: Seq<char>, t: Seq<char>, p: int, i: int)
    requires
        widened(s, t, p),
        0 <= i,
        number_at(s, i) matches Ok((number, n)) && i + n <= p,
    ensures
        number_at(t, i) == number_at(s, i),
{
    let shape = number_shape(s, i);
    let a = shape.int_start(i);
    lemma_digits_in_text(s, a);
    lemma_digits_before(s, t, p, a);
    assert(t[a] == s[a]);
    if shape.has_fraction {
        lemma_digits_in_text(s, shape.fraction_start(i));
        lemma_digits_before(s, t, p, shape.fraction_start(i));
    } else {
        assert(digits_at(t, shape.fraction_start(i), 0) =~= digits_at(
            s,
            shape.fraction_start(i),
            0,
        ));
    }
    if shape.has_exponent {
        lemma_digits_in_text(s, shape.exponent_start(i));
        lemma_digits_before(s, t, p, shape.exponent_start(i));
        assert(t[shape.fraction_end(i) + 1] == s[shape.fraction_end(i) + 1]);
    } else {
        assert(digits_at(t, shape.exponent_start(i), 0) =~= digits_at(
            s,
            shape.exponent_start(i),
            0,
        ));
    }
    let end = shape.end(i);
    if end < p {
        assert(t[end] == s[end]);
    }
    assert(number_shape(t, i) == shape);
}

// ---------------------------------------------------------------------------
// Tokens, and the places between them
// ---------------------------------------------------------------------------
/// Whether `c` is one of the six structural characters.
pub open spec fn is_structural(c: char) -> bool {
    c == '{' || c == '}' || c == '[' || c == ']' || c == ':' || c == ','
}

/// The length of the token that starts at `i`: a structural character, a
/// string, a number or a keyword. `None` where none starts.
pub open spec fn token_len(s: Seq<char>, i: int) -> Option<nat> {
    if i < 0 || i >= s.len() {
        None
    } else if is_structural(s[i]) {
        Some(1)
    } else if s[i] == '"' {
        match string_at(s, i) {
            Ok((chars, n)) => Some(n),
            Err(e) => None,
        }
    } else if s[i] == 't' {
        match keyword_at(s, i, word_true()) {
            Ok(n) => Some(n),
            Err(e) => None,
        }
    } else if s[i] == 'f' {
        match keyword_at(s, i, word_false()) {
            Ok(n) => Some(n),
            Err(e) => None,
        }
    } else if s[i] == 'n' {
        match keyword_at(s, i, word_null()) {
            Ok(n) => Some(n),
            Err(e) => None,
        }
    } else if s[i] == '-' || is_digit(s[i]) {
        match number_at(s, i) {
            Ok((number, n)) => Some(n),
            Err(e) => None,
        }
    } else {
        None
    }
}

/// Whether the offset `p` lies between tokens, for a reader that starts at
/// `i` and passes over whitespace and whole tokens: before or after a token
/// or a whitespace character, never inside a token.
pub open spec fn between_tokens(s: Seq<char>, i: int, p: int) -> bool
    decreases s.len() - i,
{
    if p == i {
        true
    } else if p < i || i < 0 || i >= s.len() {
        false
    } else if is_whitespace(s[i]) {
        between_tokens(s, i + 1, p)
    } else {
        match token_len(s, i) {
            Some(n) => if n > 0 && i + n <= s.len() {
                between_tokens(s, i + n, p)
            } else {
                false
            },
            None => false,
        }
    }
}

/// The offset `i` of `s` and the offset `j` of the widened text stand for the
/// same place: both before the new character, with the new character's
/// place between tokens ahead, or both after it.
pub open spec fn aligned(s: Seq<char>, p: int, i: int, j: int) -> bool {
    ||| j == i && 0 <= i <= p && between_tokens(s, i, p)
    ||| j == i + 1 && p <= i <= s.len()
}

/// A rule that reads `rs` at `i` in `s` reads `rt` at `j` in the widened
/// text: the same value, ending at the same place, or the same error.
pub open spec fn carried<T>(
    rs: Result<(T, nat), ParseError>,
    rt: Result<(T, nat), ParseError>,
    s: Seq<char>,
    p: int,
    i: int,
    j: int,
) -> bool {
    match rs {
        Ok((v, n)) => rt matches Ok((v2, n2)) && v2 == v && aligned(s, p, i + n, j + n2),
        Err(e) => rt == Err::<(T, nat), ParseError>(shift_error(e, p)),
    }
}

/// The same for a rule that gives the offset at which it ends.
pub open spec fn carried_end<T>(
    rs: Result<(T, int), ParseError>,
    rt: Result<(T, int), ParseError>,
    s: Seq<char>,
    p: int,
) -> bool {
    match rs {
        Ok((v, end)) => rt matches Ok((v2, end2)) && v2 == v && aligned(s, p, end, end2),
        Err(e) => rt == Err::<(T, int), ParseError>(shift_error(e, p)),
    }
}

proof fn lemma_whitespace_before(s: Seq<char>, t: Seq<char>, p: int, i: int)
    requires
        widened(s, t, p),
        0 <= i <= p,
        between_tokens(s, i, p),
    ensures
        p <= i + whitespace_len(s, i) ==> whitespace_len(t, i) == whitespace_len(s, i) + 1,
        p > i + whitespace_len(s, i) ==> whitespace_len(t, i) == whitespace_len(s, i)
            && between_tokens(s, i + whitespace_len(s, i), p),
    decreases s.len() - i,
{
    if p == i {
        lemma_whitespace_after(s, t, p, i);
    } else if is_whitespace(s[i]) {
        lemma_whitespace_before(s, t, p, i + 1);
    }
}

proof fn lemma_whitespace_around(s: Seq<char>, t: Seq<char>, p: int, i: int, j: int)
    requires
        widened(s, t, p),
        aligned(s, p, i, j),
    ensures
        ({
            let q = i + whitespace_len(s, i);
            let r = j + whitespace_len(t, j);
            &&& aligned(s, p, q, r)
            &&& q <= s.len()
            &&& q == s.len() <==> r == t.len()
            &&& q < s.len() ==> r < t.len() && t[r] == s[q] && !is_whitespace(s[q])
            &&& q < s.len() && r == q ==> q < p
        }),
{
    lemma_whitespace_in_text(s, i);
    if j == i + 1 && p <= i {
        lemma_whitespace_after(s, t, p, i);
    } else {
        lemma_whitespace_before(s, t, p, i);
        let q = i + whitespace_len(s, i);
        if q < p {
            assert(t[q] == s[q]);
        }
    }
}

// A token that starts before the new character ends before it.
proof fn lemma_structural_step(s: Seq<char>, p: int, q: int)
    requires
        0 <= q < p,
        q < s.len(),
        is_structural(s[q]),
        between_tokens(s, q, p),
    ensures
        q + 1 <= p,
        between_tokens(s, q + 1, p),
{
    assert(token_len(s, q) == Some(1nat));
    assert(between_tokens(s, q + 1, p));
}

proof fn lemma_string_step(s: Seq<char>, p: int, q: int)
    requires
        0 <= q < p,
        q < s.len(),
        s[q] == '"',
        between_tokens(s, q, p),
    ensures
        string_at(s, q) matches Ok((chars, n)) && q + n <= p && between_tokens(s, q + n, p),
{
    let n = token_len(s, q)->0;
    assert(between_tokens(s, q + n, p));
}

proof fn lemma_keyword_step(s: Seq<char>, p: int, q: int, word: Seq<char>)
    requires
        0 <= q < p,
        q < s.len(),
        (s[q] == 't' && word == word_true()) || (s[q] == 'f' && word == word_false()) || (s[q]
            == 'n' && word == word_null()),
        between_tokens(s, q, p),
    ensures
        keyword_at(s, q, word) matches Ok(n) && q + n <= p && between_tokens(s, q + n, p),
{
    let n = token_len(s, q)->0;
    assert(between_tokens(s, q + n, p));
}

proof fn lemma_number_step(s: Seq<char>, p: int, q: int)
    requires
        0 <= q < p,
        q < s.len(),
        s[q] == '-' || is_digit(s[q]),
        between_tokens(s, q, p),
    ensures
        number_at(s, q) matches Ok((number, n)) && q + n <= p && between_tokens(s, q + n, p),
{
    let n = token_len(s, q)->0;
    assert(between_tokens(s, q + n, p));
}

proof fn lemma_separator_around(s: Seq<char>, t: Seq<char>, p: int, i: int, j: int, close: char)
    requires
        widened(s, t, p),
        aligned(s, p, i, j),
        close == ']' || close == '}',
    ensures
        carried(separator_at(s, i, close), separator_at(t, j, close), s, p, i, j),
{
    lemma_whitespace_around(s, t, p, i, j);
    let q = i + whitespace_len(s, i);
    let r = j + whitespace_len(t, j);
    if q < s.len() && r == q && is_structural(s[q]) {
        lemma_structural_step(s, p, q);
    }
}

proof fn lemma_colon_around(s: Seq<char>, t: Seq<char>, p: int, i: int, j: int)
    requires
        widened(s, t, p),
        aligned(s, p, i, j),
    ensures
        match colon_at(s, i) {
            Ok(n) => colon_at(t, j) matches Ok(n2) && aligned(s, p, i + n, j + n2),
            Err(e) => colon_at(t, j) == Err::<nat, ParseError>(shift_error(e, p)),
        },
{
    lemma_whitespace_around(s, t, p, i, j);
    let q = i + whitespace_len(s, i);
    let r = j + whitespace_len(t, j);
    if q < s.len() && r == q && is_structural(s[q]) {
        lemma_structural_step(s, p, q);
    }
}

proof fn lemma_string_around(s: Seq<char>, t: Seq<char>, p: int, q: int, r: int)
    requires
        widened(s, t, p),
        aligned(s, p, q, r),
        q < s.len(),
        r < t.len(),
        t[r] == s[q],
        !is_whitespace(s[q]),
        r == q ==> q < p,
    ensures
        carried(string_at(s, q), string_at(t, r), s, p, q, r),
{
    if r == q {
        if s[q] == '"' {
            lemma_string_step(s, p, q);
            lemma_string_from_before(s, t, p, q + 1, q, Seq::empty());
        }
    } else {
        lemma_string_after(s, t, p, q);
    }
}

proof fn lemma_key_around(s: Seq<char>, t: Seq<char>, p: int, i: int, j: int)
    requires
        widened(s, t, p),
        aligned(s, p, i, j),
    ensures
        carried(key_at(s, i), key_at(t, j), s, p, i, j),
{
    lemma_whitespace_around(s, t, p, i, j);
    let q = i + whitespace_len(s, i);
    let r = j + whitespace_len(t, j);
    if q < s.len() {
        lemma_string_around(s, t, p, q, r);
    }
}

proof fn lemma_keyword_around(s: Seq<char>, t: Seq<char>, p: int, q: int, r: int, word: Seq<char>)
    requires
        widened(s, t, p),
        aligned(s, p, q, r),
        q < s.len(),
        r == q ==> q < p,
        (s[q] == 't' && word == word_true()) || (s[q] == 'f' && word == word_false()) || (s[q]
            == 'n' && word == word_null()),
    ensures
        match keyword_at(s, q, word) {
            Ok(n) => keyword_at(t, r, word) matches Ok(n2) && aligned(s, p, q + n, r + n2),
            Err(e) => keyword_at(t, r, word) == Err::<nat, ParseError>(shift_error(e, p)),
        },
{
    lemma_keyword_len(s, q, word, 0);
    if r == q {
        lemma_keyword_step(s, p, q, word);
        lemma_keyword_before(s, t, p, q, word, 0);
    } else {
        lemma_keyword_after(s, t, p, q, word, 0);
    }
}

proof fn lemma_number_around(s: Seq<char>, t: Seq<char>, p: int, q: int, r: int)
    requires
        widened(s, t, p),
        aligned(s, p, q, r),
        q < s.len(),
        r == q ==> q < p,
        s[q] == '-' || is_digit(s[q]),
    ensures
        carried(number_at(s, q), number_at(t, r), s, p, q, r),
{
    if r == q {
        lemma_number_step(s, p, q);
        lemma_number_before(s, t, p, q);
    } else {
        lemma_number_after(s, t, p, q);
    }
}

// A value that is a single token.
#[verifier::rlimit(100)]
proof fn lemma_scalar_around(s: Seq<char>, t: Seq<char>, p: int, i: int, j: int, depth: nat)
    requires
        widened(s, t, p),
        aligned(s, p, i, j),
        i + whitespace_len(s, i) < s.len(),
        s[i + whitespace_len(s, i)] != '{',
        s[i + whitespace_len(s, i)] != '[',
    ensures
        carried(value_at(s, i, depth), value_at(t, j, depth), s, p, i, j),
{
    lemma_whitespace_around(s, t, p, i, j);
    let q = i + whitespace_len(s, i);
    let r = j + whitespace_len(t, j);
    if s[q] == '"' {
        lemma_string_around(s, t, p, q, r);
    } else if s[q] == 't' {
        lemma_keyword_around(s, t, p, q, r, word_true());
    } else if s[q] == 'f' {
        lemma_keyword_around(s, t, p, q, r, word_false());
    } else if s[q] == 'n' {
        lemma_keyword_around(s, t, p, q, r, word_null());
    } else if s[q] == '-' || is_digit(s[q]) {
        lemma_number_around(s, t, p, q, r);
    }
}

proof fn lemma_value_around(s: Seq<char>, t: Seq<char>, p: int, i: int, j: int, depth: nat)
    requires
        widened(s, t, p),
        aligned(s, p, i, j),
    ensures
        carried(value_at(s, i, depth), value_at(t, j, depth), s, p, i, j),
    decreases depth, 1int, 0int,
{
    lemma_whitespace_around(s, t, p, i, j);
    let q = i + whitespace_len(s, i);
    if q < s.len() {
        if s[q] == '{' || s[q] == '[' {
            lemma_container_around(s, t, p, i, j, depth);
        } else {
            lemma_scalar_around(s, t, p, i, j, depth);
        }
    }
}

// A value that is an array or an object.
#[verifier::rlimit(50)]
proof fn lemma_container_around(s: Seq<char>, t: Seq<char>, p: int, i: int, j: int, depth: nat)
    requires
        widened(s, t, p),
        aligned(s, p, i, j),
        i + whitespace_len(s, i) < s.len(),
        s[i + whitespace_len(s, i)] == '{' || s[i + whitespace_len(s, i)] == '[',
    ensures
        carried(value_at(s, i, depth), value_at(t, j, depth), s, p, i, j),
    decreases depth, 0int, 0int,
{
    lemma_whitespace_around(s, t, p, i, j);
    let q = i + whitespace_len(s, i);
    let r = j + whitespace_len(t, j);
    if depth > 0 {
        if s[q] == '{' {
            lemma_object_around(s, t, p, q, r, (depth - 1) as nat);
        } else {
            lemma_array_around(s, t, p, q, r, (depth - 1) as nat);
        }
    }
}

proof fn lemma_array_around(s: Seq<char>, t: Seq<char>, p: int, q: int, r: int, depth: nat)
    requires
        widened(s, t, p),
        aligned(s, p, q, r),
        q < s.len(),
        r < t.len(),
        s[q] == '[',
        t[r] == '[',
        r == q ==> q < p,
    ensures
        carried(array_at(s, q, depth), array_at(t, r, depth), s, p, q, r),
    decreases depth, 3int, 0int,
{
    if r == q {
        lemma_structural_step(s, p, q);
    }
    lemma_whitespace_around(s, t, p, q + 1, r + 1);
    let a = q + 1 + whitespace_len(s, q + 1);
    let b = r + 1 + whitespace_len(t, r + 1);
    if a < s.len() && s[a] == ']' {
        if b == a {
            lemma_structural_step(s, p, a);
        }
    } else {
        lemma_elements_around(s, t, p, q + 1, r + 1, depth, Seq::empty());
    }
}

proof fn lemma_elements_around(
    s: Seq<char>,
    t: Seq<char>,
    p: int,
    i: int,
    j: int,
    depth: nat,
    acc: Seq<Json>,
)
    requires
        widened(s, t, p),
        aligned(s, p, i, j),
    ensures
        carried_end(
            elements_from(s, i, depth, acc),
            elements_from(t, j, depth, acc),
            s,
            p,
        ),
        elements_from(s, i, depth, acc) matches Ok((items, end)) ==> end > i,
        elements_from(t, j, depth, acc) matches Ok((items, end)) ==> end > j,
    decreases depth, 2int, s.len() - i,
{
    lemma_value_around(s, t, p, i, j, depth);
    match value_at(s, i, depth) {
        Err(e) => {},
        Ok((v, n)) => {
            let n2 = value_at(t, j, depth)->Ok_0.1;
            lemma_separator_around(s, t, p, i + n, j + n2, ']');
            match separator_at(s, i + n, ']') {
                Err(e) => {},
                Ok((more, m)) => {
                    let m2 = separator_at(t, j + n2, ']')->Ok_0.1;
                    if more {
                        lemma_elements_around(s, t, p, i + n + m, j + n2 + m2, depth, acc.push(v));
                    }
                },
            }
        },
    }
}

proof fn lemma_object_around(s: Seq<char>, t: Seq<char>, p: int, q: int, r: int, depth: nat)
    requires
        widened(s, t, p),
        aligned(s, p, q, r),
        q < s.len(),
        r < t.len(),
        s[q] == '{',
        t[r] == '{',
        r == q ==> q < p,
    ensures
        carried(object_at(s, q, depth), object_at(t, r, depth), s, p, q, r),
    decreases depth, 3int, 0int,
{
    if r == q {
        lemma_structural_step(s, p, q);
    }
    lemma_whitespace_around(s, t, p, q + 1, r + 1);
    let a = q + 1 + whitespace_len(s, q + 1);
    let b = r + 1 + whitespace_len(t, r + 1);
    if a < s.len() && s[a] == '}' {
        if b == a {
            lemma_structural_step(s, p, a);
        }
    } else {
        lemma_members_around(s, t, p, q + 1, r + 1, depth, Map::empty());
    }
}

proof fn lemma_members_around(
    s: Seq<char>,
    t: Seq<char>,
    p: int,
    i: int,
    j: int,
    depth: nat,
    acc: Map<Seq<char>, Json>,
)
    requires
        widened(s, t, p),
        aligned(s, p, i, j),
    ensures
        carried_end(members_from(s, i, depth, acc), members_from(t, j, depth, acc), s, p),
        members_from(s, i, depth, acc) matches Ok((members, end)) ==> end > i,
        members_from(t, j, depth, acc) matches Ok((members, end)) ==> end > j,
    decreases depth, 2int, s.len() - i,
{
    lemma_key_around(s, t, p, i, j);
    match key_at(s, i) {
        Err(e) => {},
        Ok((key, a)) => {
            let a2 = key_at(t, j)->Ok_0.1;
            lemma_colon_around(s, t, p, i + a, j + a2);
            match colon_at(s, i + a) {
                Err(e) => {},
                Ok(b) => {
                    let b2 = colon_at(t, j + a2)->Ok_0;
                    lemma_value_around(s, t, p, i + a + b, j + a2 + b2, depth);
                    match value_at(s, i + a + b, depth) {
                        Err(e) => {},
                        Ok((v, c)) => {
                            let c2 = value_at(t, j + a2 + b2, depth)->Ok_0.1;
                            lemma_separator_around(s, t, p, i + a + b + c, j + a2 + b2 + c2, '}');
                            match separator_at(s, i + a + b + c, '}') {
                                Err(e) => {},
                                Ok((more, d)) => {
                                    let d2 = separator_at(t, j + a2 + b2 + c2, '}')->Ok_0.1;
                                    if more {
                                        lemma_members_around(
                                            s,
                                            t,
                                            p,
                                            i + a + b + c + d,
                                            j + a2 + b2 + c2 + d2,
                                            depth,
                                            acc.insert(key, v),
                                        );
                                    }
                                },
                            }
                        },
                    }
                },
            }
        },
    }
}

proof fn lemma_widened_by_insert(s: Seq<char>, p: int, c: char)
    requires
        is_whitespace(c),
        0 <= p <= s.len(),
        s.len() < usize::MAX,
    ensures
        widened(s, s.insert(p, c), p),
{
    let t = s.insert(p, c);
    s.insert_ensures(p, c);
    assert forall|k: int| p < k < t.len() implies #[trigger] t[k] == s[k - 1] by {
        assert(t[(k - 1) + 1] == s[k - 1]);
    }
}

proof fn lemma_document_around(s: Seq<char>, t: Seq<char>, p: int, max_depth: nat)
    requires
        widened(s, t, p),
        between_tokens(s, 0, p),
    ensures
        document(t, max_depth) == shifted(document(s, max_depth), p),
{
    lemma_value_around(s, t, p, 0, 0, max_depth);
    match value_at(s, 0, max_depth) {
        Err(e) => {},
        Ok((v, n)) => {
            let n2 = value_at(t, 0, max_depth)->Ok_0.1;
            lemma_whitespace_around(s, t, p, n as int, n2 as int);
        },
    }
}

/// Whitespace between tokens does not change what a text denotes: where `p`
/// lies between tokens of `s`, the text with a whitespace character `c` put
/// in at `p` is a document exactly if `s` is one, and then denotes the same
/// value; where `s` fails, it fails with the same error at the same
/// character.
pub proof fn law_whitespace_between_tokens(s: Seq<char>, p: int, c: char, max_depth: nat)
    requires
        is_whitespace(c),
        0 <= p <= s.len(),
        between_tokens(s, 0, p),
        s.len() < usize::MAX,
    ensures
        document(s.insert(p, c), max_depth) == shifted(document(s, max_depth), p),
{
    lemma_widened_by_insert(s, p, c);
    lemma_document_around(s, s.insert(p, c), p, max_depth);
}

/// The same, read the other way: a whitespace character that stands between
/// tokens may be taken out.
pub proof fn law_whitespace_removed(s: Seq<char>, p: int, max_depth: nat)
    requires
        0 <= p < s.len(),
        is_whitespace(s[p]),
        between_tokens(s.remove(p), 0, p),
        s.len() <= usize::MAX,
    ensures
        document(s, max_depth) == shifted(document(s.remove(p), max_depth), p),
{
    s.remove_ensures(p);
    assert(s.remove(p).insert(p, s[p]) =~= s);
    law_whitespace_between_tokens(s.remove(p), p, s[p], max_depth);
}

} // verus!
