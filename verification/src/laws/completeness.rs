//! Every text that the grammar derives is read as a document, and denotes
//! what its derivation denotes.
use crate::derivation::{
    all_digits, all_whitespace, digit_values, elements_text, elements_values, members_text,
    members_values, pieces_decoded, pieces_text, string_text, valid_pieces, Derivation, Element,
    Hex4, Member, NumberText, Written,
};
use crate::error::ParseError;
use crate::grammar::{
    code_unit_at, colon_at, digits_at, digits_len, document, elements_from, escape_at, is_digit,
    is_whitespace, key_at, keyword_from, members_from, number_at, number_shape, separator_at,
    starts_value, string_at, string_from, value_at, whitespace_len, word_false, word_null,
    word_true,
};
use crate::value::{DecimalNumber, Json};
use vstd::prelude::*;

verus! {

/// The text `s` holds `x` at the offset `i`.
#[verifier::opaque]
pub open spec fn has_at(s: Seq<char>, i: int, x: Seq<char>) -> bool {
    &&& 0 <= i
    &&& i + x.len() <= s.len()
    &&& forall|k: int| 0 <= k < x.len() ==> s[i + k] == #[trigger] x[k]
}

proof fn lemma_has_at_split(s: Seq<char>, i: int, a: Seq<char>, b: Seq<char>)
    requires
        has_at(s, i, a + b),
    ensures
        has_at(s, i, a),
        has_at(s, i + a.len(), b),
{
    reveal(has_at);
    let x = a + b;
    assert forall|k: int| 0 <= k < a.len() implies s[i + k] == #[trigger] a[k] by {
        assert(x[k] == a[k]);
    }
    assert forall|k: int| 0 <= k < b.len() implies s[i + a.len() + k] == #[trigger] b[k] by {
        assert(x[a.len() + k] == b[k]);
    }
}

proof fn lemma_has_at_rest(s: Seq<char>, i: int, x: Seq<char>)
    requires
        has_at(s, i, x),
        x.len() > 0,
    ensures
        s[i] == x[0],
        has_at(s, i + 1, x.drop_first()),
{
    reveal(has_at);
    assert(s[i + 0] == x[0]);
    let y = x.drop_first();
    assert forall|k: int| 0 <= k < y.len() implies s[i + 1 + k] == #[trigger] y[k] by {
        assert(x[k + 1] == y[k]);
    }
}

proof fn lemma_has_at_first(s: Seq<char>, i: int, x: Seq<char>)
    requires
        has_at(s, i, x),
    ensures
        0 <= i,
        i + x.len() <= s.len(),
        x.len() > 0 ==> s[i] == x[0],
{
    reveal(has_at);
    if x.len() > 0 {
        assert(s[i + 0] == x[0]);
    }
}

/// What may follow a value: the end of the text, whitespace, a comma or a
/// closing bracket.
pub open spec fn delimited(s: Seq<char>, j: int) -> bool {
    j >= s.len() || is_whitespace(s[j]) || s[j] == ',' || s[j] == ']' || s[j] == '}'
}

proof fn lemma_whitespace_read(s: Seq<char>, i: int, ws: Seq<char>)
    requires
        all_whitespace(ws),
        has_at(s, i, ws),
        i + ws.len() == s.len() || !is_whitespace(s[i + ws.len()]),
    ensures
        whitespace_len(s, i) == ws.len(),
    decreases ws.len(),
{
    reveal(has_at);
    if ws.len() > 0 {
        lemma_has_at_rest(s, i, ws);
        assert(is_whitespace(ws[0]));
        let rest = ws.drop_first();
        assert forall|k: int| 0 <= k < rest.len() implies is_whitespace(#[trigger] rest[k]) by {
            assert(rest[k] == ws[k + 1]);
        }
        lemma_whitespace_read(s, i + 1, rest);
    }
}

proof fn lemma_digits_read(s: Seq<char>, i: int, digits: Seq<char>)
    requires
        all_digits(digits),
        has_at(s, i, digits),
        i + digits.len() == s.len() || !is_digit(s[i + digits.len()]),
    ensures
        digits_len(s, i) == digits.len(),
        digits_at(s, i, digits.len()) == digit_values(digits),
    decreases digits.len(),
{
    reveal(has_at);
    if digits.len() > 0 {
        lemma_has_at_rest(s, i, digits);
        assert(is_digit(digits[0]));
        let rest = digits.drop_first();
        assert forall|k: int| 0 <= k < rest.len() implies is_digit(#[trigger] rest[k]) by {
            assert(rest[k] == digits[k + 1]);
        }
        lemma_digits_read(s, i + 1, rest);
    }
    assert(digits_at(s, i, digits.len()) =~= digit_values(digits));
}

proof fn lemma_keyword_read(s: Seq<char>, i: int, word: Seq<char>, k: int)
    requires
        has_at(s, i, word),
        0 <= k <= word.len(),
    ensures
        keyword_from(s, i, word, k) == Ok::<nat, ParseError>(word.len()),
    decreases word.len() - k,
{
    reveal(has_at);
    if k < word.len() {
        assert(s[i + k] == word[k]);
        lemma_keyword_read(s, i, word, k + 1);
    }
}

proof fn lemma_fraction_read(s: Seq<char>, b: int, number: NumberText)
    requires
        number.valid(),
        has_at(s, b, number.fraction_text()),
        b + number.fraction_text().len() >= s.len() || !(is_digit(
            s[b + number.fraction_text().len()],
        ) || s[b + number.fraction_text().len()] == '.'),
    ensures
        (b < s.len() && s[b] == '.') == (number.fraction is Some),
        number.fraction is Some ==> digits_len(s, b + 1) == number.fraction_digits().len(),
        number.fraction is Some ==> digits_at(s, b + 1, number.fraction_digits().len())
            == digit_values(number.fraction_digits()),
        number.fraction is Some ==> number.fraction_text().len() == 1
            + number.fraction_digits().len(),
        number.fraction is None ==> number.fraction_text().len() == 0,
        b < s.len() ==> !is_digit(s[b]),
{
    lemma_has_at_first(s, b, number.fraction_text());
    match number.fraction {
        Some(digits) => {
            lemma_has_at_split(s, b, seq!['.'], digits);
            lemma_has_at_char(s, b, '.');
            lemma_digits_read(s, b + 1, digits);
        },
        None => {},
    }
}

proof fn lemma_exponent_read(s: Seq<char>, c: int, number: NumberText)
    requires
        number.valid(),
        has_at(s, c, number.exponent_text()),
        delimited(s, c + number.exponent_text().len()),
    ensures
        (c < s.len() && (s[c] == 'e' || s[c] == 'E')) == (number.exponent is Some),
        c < s.len() ==> !is_digit(s[c]) && s[c] != '.',
        number.exponent matches Some(exponent) ==> {
            let d = c + 1 + exponent.sign_text().len();
            &&& (c + 1 < s.len() && (s[c + 1] == '+' || s[c + 1] == '-')) == (exponent.sign is Some)
            &&& (exponent.sign == Some('-')) == (exponent.sign is Some && s[c + 1] == '-')
            &&& digits_len(s, d) == exponent.digits.len()
            &&& digits_at(s, d, exponent.digits.len()) == digit_values(exponent.digits)
            &&& number.exponent_text().len() == 1 + exponent.sign_text().len()
                + exponent.digits.len()
        },
        number.exponent is None ==> number.exponent_text().len() == 0,
{
    lemma_has_at_first(s, c, number.exponent_text());
    match number.exponent {
        Some(exponent) => {
            lemma_has_at_split(s, c, seq![exponent.marker] + exponent.sign_text(), exponent.digits);
            lemma_has_at_split(s, c, seq![exponent.marker], exponent.sign_text());
            lemma_has_at_char(s, c, exponent.marker);
            let d = c + 1 + exponent.sign_text().len();
            lemma_has_at_first(s, d, exponent.digits);
            assert(is_digit(exponent.digits[0]));
            match exponent.sign {
                Some(ch) => {
                    lemma_has_at_char(s, c + 1, ch);
                },
                None => {},
            }
            lemma_digits_read(s, d, exponent.digits);
        },
        None => {},
    }
}

#[verifier::rlimit(50)]
proof fn lemma_number_read(s: Seq<char>, i: int, number: NumberText)
    requires
        number.valid(),
        has_at(s, i, number.text()),
        delimited(s, i + number.text().len()),
    ensures
        number_at(s, i) == Ok::<(DecimalNumber, nat), ParseError>((number.value(), number.text().len())),
{
    let sign = number.sign_text();
    lemma_has_at_split(s, i, sign + number.integer + number.fraction_text(), number.exponent_text());
    lemma_has_at_split(s, i, sign + number.integer, number.fraction_text());
    lemma_has_at_split(s, i, sign, number.integer);
    let a = i + sign.len();
    let b = a + number.integer.len();
    let c = b + number.fraction_text().len();
    lemma_exponent_read(s, c, number);
    lemma_fraction_read(s, b, number);
    lemma_has_at_first(s, a, number.integer);
    assert(is_digit(number.integer[0]));
    lemma_has_at_first(s, i, sign);
    lemma_digits_read(s, a, number.integer);
    let shape = number_shape(s, i);
    assert(shape.negative == number.negative);
    assert(shape.int_len == number.integer.len());
    assert(shape.has_fraction == number.fraction is Some);
    assert(shape.fraction_len == number.fraction_digits().len());
    assert(shape.fraction_end(i) == c);
    assert(shape.has_exponent == number.exponent is Some);
    match number.exponent {
        Some(exponent) => {
            assert(shape.has_exponent_sign == exponent.sign is Some);
            assert(shape.exponent_len == exponent.digits.len());
        },
        None => {
            assert(digits_at(s, shape.exponent_start(i), 0) =~= Seq::<u8>::empty());
            assert(digit_values(Seq::<char>::empty()) =~= Seq::<u8>::empty());
        },
    }
    if number.fraction is None {
        assert(digits_at(s, shape.fraction_start(i), 0) =~= digit_values(Seq::empty()));
    }
}

proof fn lemma_hex4_read(s: Seq<char>, i: int, escape: int, open: int, h: Hex4)
    requires
        h.valid(),
        has_at(s, i, h.text()),
    ensures
        code_unit_at(s, i, escape, open) == Ok::<u32, ParseError>(h.unit()),
{
    reveal(has_at);
    reveal(code_unit_at);
    let x = h.text();
    assert(s[i + 0] == x[0] && s[i + 1] == x[1] && s[i + 2] == x[2] && s[i + 3] == x[3]);
}

#[verifier::rlimit(50)]
proof fn lemma_escape_read(s: Seq<char>, i: int, open: int, piece: Written)
    requires
        piece.valid(),
        !(piece is Plain),
        has_at(s, i, piece.text()),
    ensures
        s[i] == '\\',
        escape_at(s, i, open) == Ok::<(char, nat), ParseError>(
            (piece.decoded(), piece.text().len()),
        ),
{
    reveal(has_at);
    let x = piece.text();
    assert(s[i + 0] == x[0] && s[i + 1] == x[1]);
    match piece {
        Written::Plain(c) => {},
        Written::Short(c) => {},
        Written::Unit(h) => {
            lemma_has_at_split(s, i, seq!['\\', 'u'], h.text());
            lemma_hex4_read(s, i + 2, i, open, h);
        },
        Written::Pair(high, low) => {
            lemma_has_at_split(s, i, seq!['\\', 'u'] + high.text() + seq!['\\', 'u'], low.text());
            lemma_has_at_split(s, i, seq!['\\', 'u'] + high.text(), seq!['\\', 'u']);
            lemma_has_at_split(s, i, seq!['\\', 'u'], high.text());
            lemma_hex4_read(s, i + 2, i, open, high);
            lemma_hex4_read(s, i + 8, i, open, low);
            let y = seq!['\\', 'u'];
            assert(s[i + 6 + 0] == y[0] && s[i + 6 + 1] == y[1]);
        },
    }
}

proof fn lemma_pieces_read(s: Seq<char>, i: int, open: int, pieces: Seq<Written>, acc: Seq<char>)
    requires
        valid_pieces(pieces),
        has_at(s, i, pieces_text(pieces) + seq!['"']),
    ensures
        string_from(s, i, open, acc) == Ok::<(Seq<char>, int), ParseError>(
            (acc + pieces_decoded(pieces), i + pieces_text(pieces).len() + 1),
        ),
    decreases pieces.len(),
{
    reveal(has_at);
    if pieces.len() == 0 {
        lemma_has_at_first(s, i, pieces_text(pieces) + seq!['"']);
        assert(acc + pieces_decoded(pieces) =~= acc);
    } else {
        let first = pieces[0];
        let rest = pieces.drop_first();
        assert(first.valid());
        assert forall|k: int| 0 <= k < rest.len() implies (#[trigger] rest[k]).valid() by {
            assert(rest[k] == pieces[k + 1]);
        }
        assert(pieces_text(pieces) + seq!['"'] =~= first.text() + (pieces_text(rest) + seq!['"']));
        lemma_has_at_split(s, i, first.text(), pieces_text(rest) + seq!['"']);
        let c = first.decoded();
        lemma_pieces_read(s, i + first.text().len(), open, rest, acc.push(c));
        assert(acc.push(c) + pieces_decoded(rest) =~= acc + pieces_decoded(pieces)) by {
            assert forall|k: int| 0 <= k < rest.len() implies pieces_decoded(rest)[k]
                == pieces_decoded(pieces)[k + 1] by {
                assert(rest[k] == pieces[k + 1]);
            }
        }
        match first {
            Written::Plain(ch) => {
                lemma_has_at_first(s, i, first.text());
            },
            _ => {
                lemma_escape_read(s, i, open, first);
            },
        }
    }
}

proof fn lemma_string_read(s: Seq<char>, i: int, pieces: Seq<Written>)
    requires
        valid_pieces(pieces),
        has_at(s, i, string_text(pieces)),
    ensures
        string_at(s, i) == Ok::<(Seq<char>, nat), ParseError>(
            (pieces_decoded(pieces), string_text(pieces).len()),
        ),
{
    reveal(has_at);
    assert(string_text(pieces) =~= seq!['"'] + (pieces_text(pieces) + seq!['"']));
    lemma_has_at_split(s, i, seq!['"'], pieces_text(pieces) + seq!['"']);
    lemma_has_at_char(s, i, '"');
    lemma_pieces_read(s, i + 1, i, pieces, Seq::empty());
    assert(Seq::<char>::empty() + pieces_decoded(pieces) =~= pieces_decoded(pieces));
}

proof fn lemma_first_char(d: Derivation)
    requires
        d.valid(),
    ensures
        d.text().len() > 0,
        starts_value(d.text()[0]),
        d is Null <==> d.text()[0] == 'n',
        d is True <==> d.text()[0] == 't',
        d is False <==> d.text()[0] == 'f',
        d is String <==> d.text()[0] == '"',
        d is Array <==> d.text()[0] == '[',
        d is Object <==> d.text()[0] == '{',
{
    match d {
        Derivation::Number(number) => {
            assert(is_digit(number.integer[0]));
            if number.negative {
                assert(number.text()[0] == '-');
            } else {
                assert(number.text()[0] == number.integer[0]);
            }
        },
        _ => {},
    }
}

/// Whether an element is written as the grammar allows, its value nesting
/// at most `depth` levels deep.
pub open spec fn valid_element(e: Element, depth: nat) -> bool {
    &&& all_whitespace(e.before)
    &&& all_whitespace(e.after)
    &&& e.value.valid()
    &&& e.value.nests_within(depth)
}

/// The same for a member.
pub open spec fn valid_member(m: Member, depth: nat) -> bool {
    &&& all_whitespace(m.before)
    &&& valid_pieces(m.key)
    &&& all_whitespace(m.after)
    &&& valid_element(m.element, depth)
}

proof fn lemma_has_at_char(s: Seq<char>, i: int, c: char)
    requires
        has_at(s, i, seq![c]),
    ensures
        i < s.len(),
        s[i] == c,
{
    reveal(has_at);
    assert(s[i + 0] == seq![c][0]);
}

proof fn lemma_after_read(s: Seq<char>, i: int, after: Seq<char>, c: char)
    requires
        all_whitespace(after),
        has_at(s, i, after),
        i + after.len() < s.len(),
        s[i + after.len()] == c,
        !is_whitespace(c),
    ensures
        whitespace_len(s, i) == after.len(),
        delimited(s, i) || !(c == ',' || c == ']' || c == '}'),
{
    lemma_whitespace_read(s, i, after);
    lemma_has_at_first(s, i, after);
}

// Where the parts of an element stand.
proof fn lemma_element_parts(s: Seq<char>, i: int, e: Element)
    requires
        has_at(s, i, e.text()),
    ensures
        has_at(s, i, e.before),
        has_at(s, i + e.before.len(), e.value.text()),
        has_at(s, i + e.before.len() + e.value.text().len(), e.after),
        e.text().len() == e.before.len() + e.value.text().len() + e.after.len(),
{
    lemma_has_at_split(s, i, e.before + e.value.text(), e.after);
    lemma_has_at_split(s, i, e.before, e.value.text());
}

// Where the first of some elements stands, and the rest.
proof fn lemma_elements_parts(s: Seq<char>, i: int, elements: Seq<Element>)
    requires
        elements.len() > 0,
        has_at(s, i, elements_text(elements)),
    ensures
        has_at(s, i, elements[0].text()),
        elements.len() == 1 ==> elements_text(elements).len() == elements[0].text().len(),
        elements.len() > 1 ==> {
            &&& i + elements[0].text().len() < s.len()
            &&& s[i + elements[0].text().len()] == ','
            &&& has_at(s, i + elements[0].text().len() + 1, elements_text(elements.drop_first()))
            &&& elements_text(elements).len() == elements[0].text().len() + 1 + elements_text(
                elements.drop_first(),
            ).len()
        },
{
    if elements.len() > 1 {
        let rest = elements_text(elements.drop_first());
        lemma_has_at_split(s, i, elements[0].text() + seq![','], rest);
        lemma_has_at_split(s, i, elements[0].text(), seq![',']);
        lemma_has_at_char(s, i + elements[0].text().len(), ',');
    }
}

// Where the parts of a member stand.
proof fn lemma_member_parts(s: Seq<char>, i: int, m: Member)
    requires
        has_at(s, i, m.text()),
    ensures
        has_at(s, i, m.before),
        has_at(s, i + m.before.len(), string_text(m.key)),
        has_at(s, i + m.before.len() + string_text(m.key).len(), m.after),
        i + m.before.len() + string_text(m.key).len() + m.after.len() < s.len(),
        s[i + m.before.len() + string_text(m.key).len() + m.after.len()] == ':',
        has_at(
            s,
            i + m.before.len() + string_text(m.key).len() + m.after.len() + 1,
            m.element.text(),
        ),
        m.text().len() == m.before.len() + string_text(m.key).len() + m.after.len() + 1
            + m.element.text().len(),
{
    let key = string_text(m.key);
    lemma_has_at_split(s, i, m.before + key + m.after + seq![':'], m.element.text());
    lemma_has_at_split(s, i, m.before + key + m.after, seq![':']);
    lemma_has_at_split(s, i, m.before + key, m.after);
    lemma_has_at_split(s, i, m.before, key);
    lemma_has_at_char(s, i + m.before.len() + key.len() + m.after.len(), ':');
}

// Where the first of some members stands, and the rest.
proof fn lemma_members_parts(s: Seq<char>, i: int, members: Seq<Member>)
    requires
        members.len() > 0,
        has_at(s, i, members_text(members)),
    ensures
        has_at(s, i, members[0].text()),
        members.len() == 1 ==> members_text(members).len() == members[0].text().len(),
        members.len() > 1 ==> {
            &&& i + members[0].text().len() < s.len()
            &&& s[i + members[0].text().len()] == ','
            &&& has_at(s, i + members[0].text().len() + 1, members_text(members.drop_first()))
            &&& members_text(members).len() == members[0].text().len() + 1 + members_text(
                members.drop_first(),
            ).len()
        },
{
    if members.len() > 1 {
        let rest = members_text(members.drop_first());
        lemma_has_at_split(s, i, members[0].text() + seq![','], rest);
        lemma_has_at_split(s, i, members[0].text(), seq![',']);
        lemma_has_at_char(s, i + members[0].text().len(), ',');
    }
}

proof fn lemma_value_read(s: Seq<char>, i: int, before: Seq<char>, d: Derivation, depth: nat)
    requires
        all_whitespace(before),
        d.valid(),
        d.nests_within(depth),
        has_at(s, i, before),
        has_at(s, i + before.len(), d.text()),
        delimited(s, i + before.len() + d.text().len()),
    ensures
        value_at(s, i, depth) == Ok::<(Json, nat), ParseError>(
            (d.value(), before.len() + d.text().len()),
        ),
    decreases d, 1int,
{
    lemma_first_char(d);
    let q = i + before.len();
    lemma_has_at_first(s, q, d.text());
    lemma_whitespace_read(s, i, before);
    match d {
        Derivation::Null => {
            lemma_keyword_read(s, q, word_null(), 0);
        },
        Derivation::True => {
            lemma_keyword_read(s, q, word_true(), 0);
        },
        Derivation::False => {
            lemma_keyword_read(s, q, word_false(), 0);
        },
        Derivation::Number(number) => {
            lemma_number_read(s, q, number);
        },
        Derivation::String(pieces) => {
            lemma_string_read(s, q, pieces);
        },
        Derivation::Array { gap, elements } => {
            let below = (depth - 1) as nat;
            if elements.len() == 0 {
                lemma_has_at_split(s, q, seq!['['] + gap, seq![']']);
                lemma_has_at_split(s, q, seq!['['], gap);
                lemma_has_at_char(s, q + 1 + gap.len(), ']');
                lemma_after_read(s, q + 1, gap, ']');
                assert(elements_values(elements) =~= Seq::<Json>::empty());
            } else {
                let inner = elements_text(elements);
                lemma_has_at_split(s, q, seq!['['] + inner, seq![']']);
                lemma_has_at_split(s, q, seq!['['], inner);
                lemma_has_at_char(s, q + 1 + inner.len(), ']');
                assert forall|k: int| 0 <= k < elements.len() implies valid_element(
                    #[trigger] elements[k],
                    below,
                ) by {}
                lemma_elements_head(s, q + 1, elements, below);
                lemma_elements_read(s, q + 1, elements, below, Seq::empty());
                assert(Seq::<Json>::empty() + elements_values(elements) =~= elements_values(
                    elements,
                ));
            }
        },
        Derivation::Object { gap, members } => {
            let below = (depth - 1) as nat;
            if members.len() == 0 {
                lemma_has_at_split(s, q, seq!['{'] + gap, seq!['}']);
                lemma_has_at_split(s, q, seq!['{'], gap);
                lemma_has_at_char(s, q + 1 + gap.len(), '}');
                lemma_after_read(s, q + 1, gap, '}');
            } else {
                let inner = members_text(members);
                lemma_has_at_split(s, q, seq!['{'] + inner, seq!['}']);
                lemma_has_at_split(s, q, seq!['{'], inner);
                lemma_has_at_char(s, q + 1 + inner.len(), '}');
                assert forall|k: int| 0 <= k < members.len() implies valid_member(
                    #[trigger] members[k],
                    below,
                ) by {}
                lemma_members_head(s, q + 1, members, below);
                lemma_members_read(s, q + 1, members, below, Map::empty());
            }
        },
    }
}

// The first element does not start with the closing bracket.
proof fn lemma_elements_head(s: Seq<char>, i: int, elements: Seq<Element>, depth: nat)
    requires
        elements.len() > 0,
        valid_element(elements[0], depth),
        has_at(s, i, elements_text(elements)),
    ensures
        i + whitespace_len(s, i) < s.len(),
        s[i + whitespace_len(s, i)] != ']',
{
    let e = elements[0];
    lemma_elements_parts(s, i, elements);
    lemma_element_parts(s, i, e);
    lemma_first_char(e.value);
    lemma_has_at_first(s, i + e.before.len(), e.value.text());
    lemma_whitespace_read(s, i, e.before);
}

// What stands after an element: a comma where more elements follow, and
// else the closing bracket.
proof fn lemma_element_separator(s: Seq<char>, j: int, after: Seq<char>, more: bool)
    requires
        all_whitespace(after),
        whitespace_len(s, j) == after.len(),
        0 <= j,
        j + after.len() < s.len(),
        more ==> s[j + after.len()] == ',',
        !more ==> s[j + after.len()] == ']',
    ensures
        separator_at(s, j, ']') == Ok::<(bool, nat), ParseError>((more, after.len() + 1)),
{
}

proof fn lemma_elements_read(
    s: Seq<char>,
    i: int,
    elements: Seq<Element>,
    depth: nat,
    acc: Seq<Json>,
)
    requires
        elements.len() > 0,
        forall|k: int| 0 <= k < elements.len() ==> valid_element(#[trigger] elements[k], depth),
        has_at(s, i, elements_text(elements)),
        i + elements_text(elements).len() < s.len(),
        s[i + elements_text(elements).len()] == ']',
    ensures
        elements_from(s, i, depth, acc) == Ok::<(Seq<Json>, int), ParseError>(
            (acc + elements_values(elements), i + elements_text(elements).len() + 1),
        ),
    decreases elements, 1int,
{
    let e = elements[0];
    let rest = elements.drop_first();
    assert(valid_element(e, depth));
    let v = e.value.value();
    lemma_elements_parts(s, i, elements);
    lemma_element_parts(s, i, e);
    lemma_has_at_first(s, i, elements_text(elements));
    let n = e.before.len() + e.value.text().len();
    let more = elements.len() > 1;
    lemma_after_read(s, i + n, e.after, s[i + e.text().len()]);
    lemma_value_read(s, i, e.before, e.value, depth);
    lemma_element_separator(s, i + n, e.after, more);
    let next = i + e.text().len() + 1;
    let added = acc.push(v);
    assert(added + elements_values(rest) =~= acc + elements_values(elements));
    if more {
        assert forall|k: int| 0 <= k < rest.len() implies valid_element(#[trigger] rest[k], depth) by {
            assert(rest[k] == elements[k + 1]);
        }
        lemma_elements_read(s, next, rest, depth, added);
        assert(elements_from(s, i, depth, acc) == elements_from(s, next, depth, added));
    } else {
        assert(elements_values(rest) =~= Seq::<Json>::empty());
        assert(added + elements_values(rest) =~= added);
        assert(elements_from(s, i, depth, acc) == Ok::<(Seq<Json>, int), ParseError>((added, next)));
    }
}

// The first member does not start with the closing brace.
proof fn lemma_members_head(s: Seq<char>, i: int, members: Seq<Member>, depth: nat)
    requires
        members.len() > 0,
        valid_member(members[0], depth),
        has_at(s, i, members_text(members)),
    ensures
        i + whitespace_len(s, i) < s.len(),
        s[i + whitespace_len(s, i)] != '}',
{
    let m = members[0];
    lemma_members_parts(s, i, members);
    lemma_member_parts(s, i, m);
    lemma_has_at_first(s, i + m.before.len(), string_text(m.key));
    lemma_whitespace_read(s, i, m.before);
}

proof fn lemma_key_read(s: Seq<char>, i: int, before: Seq<char>, key: Seq<Written>)
    requires
        all_whitespace(before),
        valid_pieces(key),
        has_at(s, i, before),
        has_at(s, i + before.len(), string_text(key)),
    ensures
        key_at(s, i) == Ok::<(Seq<char>, nat), ParseError>(
            (pieces_decoded(key), before.len() + string_text(key).len()),
        ),
{
    lemma_has_at_first(s, i + before.len(), string_text(key));
    lemma_whitespace_read(s, i, before);
    lemma_string_read(s, i + before.len(), key);
}

proof fn lemma_colon_read(s: Seq<char>, i: int, after: Seq<char>)
    requires
        all_whitespace(after),
        has_at(s, i, after),
        i + after.len() < s.len(),
        s[i + after.len()] == ':',
    ensures
        colon_at(s, i) == Ok::<nat, ParseError>(after.len() + 1),
{
    reveal(has_at);
    lemma_whitespace_read(s, i, after);
}

// A member, up to the separator that follows it.
#[verifier::rlimit(50)]
proof fn lemma_member_read(s: Seq<char>, i: int, m: Member, depth: nat)
    requires
        valid_member(m, depth),
        has_at(s, i, m.text()),
        i + m.text().len() < s.len(),
        s[i + m.text().len()] == ',' || s[i + m.text().len()] == '}',
    ensures
        ({
            let a = m.before.len() + string_text(m.key).len();
            let b = m.after.len() + 1;
            let c = m.element.before.len() + m.element.value.text().len();
            &&& key_at(s, i) == Ok::<(Seq<char>, nat), ParseError>((pieces_decoded(m.key), a))
            &&& colon_at(s, i + a) == Ok::<nat, ParseError>(b)
            &&& value_at(s, i + a + b, depth) == Ok::<(Json, nat), ParseError>(
                (m.element.value.value(), c),
            )
            &&& whitespace_len(s, i + a + b + c) == m.element.after.len()
            &&& m.text().len() == a + b + c + m.element.after.len()
        }),
    decreases m, 0int,
{
    let e = m.element;
    lemma_member_parts(s, i, m);
    lemma_key_read(s, i, m.before, m.key);
    let b = i + m.before.len() + string_text(m.key).len();
    lemma_colon_read(s, b, m.after);
    let c = b + m.after.len() + 1;
    lemma_element_parts(s, c, e);
    let d = c + e.before.len() + e.value.text().len();
    lemma_after_read(s, d, e.after, s[i + m.text().len()]);
    lemma_value_read(s, c, e.before, e.value, depth);
}

// What stands after a member: a comma where more members follow, and else
// the closing brace.
proof fn lemma_member_separator(s: Seq<char>, j: int, after: Seq<char>, more: bool)
    requires
        all_whitespace(after),
        whitespace_len(s, j) == after.len(),
        0 <= j,
        j + after.len() < s.len(),
        more ==> s[j + after.len()] == ',',
        !more ==> s[j + after.len()] == '}',
    ensures
        separator_at(s, j, '}') == Ok::<(bool, nat), ParseError>((more, after.len() + 1)),
{
}

#[verifier::rlimit(50)]
proof fn lemma_members_read(
    s: Seq<char>,
    i: int,
    members: Seq<Member>,
    depth: nat,
    acc: Map<Seq<char>, Json>,
)
    requires
        members.len() > 0,
        forall|k: int| 0 <= k < members.len() ==> valid_member(#[trigger] members[k], depth),
        has_at(s, i, members_text(members)),
        i + members_text(members).len() < s.len(),
        s[i + members_text(members).len()] == '}',
    ensures
        members_from(s, i, depth, acc) == Ok::<(Map<Seq<char>, Json>, int), ParseError>(
            (members_values(members, acc), i + members_text(members).len() + 1),
        ),
    decreases members, 1int,
{
    let m = members[0];
    let rest = members.drop_first();
    assert(valid_member(m, depth));
    lemma_members_parts(s, i, members);
    lemma_has_at_first(s, i, members_text(members));
    lemma_member_read(s, i, m, depth);
    let key = pieces_decoded(m.key);
    let v = m.element.value.value();
    let a = m.before.len() + string_text(m.key).len();
    let b = m.after.len() + 1;
    let c = m.element.before.len() + m.element.value.text().len();
    let more = members.len() > 1;
    lemma_member_separator(s, i + a + b + c, m.element.after, more);
    let d = m.element.after.len() + 1;
    let next = i + a + b + c + d;
    assert(next == i + m.text().len() + 1);
    let added = acc.insert(key, v);
    assert(members_values(members, acc) == members_values(rest, added));
    if more {
        assert forall|j: int| 0 <= j < rest.len() implies valid_member(#[trigger] rest[j], depth) by {
            assert(rest[j] == members[j + 1]);
        }
        lemma_members_read(s, next, rest, depth, added);
        assert(members_from(s, i, depth, acc) == members_from(s, next, depth, added));
    } else {
        assert(members_values(rest, added) == added);
        assert(members_from(s, i, depth, acc) == Ok::<(Map<Seq<char>, Json>, int), ParseError>(
            (added, next),
        ));
    }
}

/// Every valid JSON document parses, and to the value that it denotes:
/// the text that a valid derivation writes, with whitespace before and after
/// it, is read as a document that denotes what the derivation denotes,
/// provided that the derivation nests no deeper than the limit.
pub proof fn law_derived_text_is_document(
    before: Seq<char>,
    derivation: Derivation,
    after: Seq<char>,
    max_depth: nat,
)
    requires
        all_whitespace(before),
        all_whitespace(after),
        derivation.valid(),
        derivation.nests_within(max_depth),
    ensures
        document(before + derivation.text() + after, max_depth) == Ok::<Json, ParseError>(
            derivation.value(),
        ),
{
    reveal(has_at);
    let s = before + derivation.text() + after;
    let head = before + derivation.text();
    assert(has_at(s, 0, head + after));
    lemma_has_at_split(s, 0, head, after);
    lemma_has_at_split(s, 0, before, derivation.text());
    if after.len() > 0 {
        assert(s[head.len() as int + 0] == after[0]);
    }
    lemma_value_read(s, 0, before, derivation, max_depth);
    lemma_whitespace_read(s, head.len() as int, after);
}

} // verus!
