//! Every text that is read as a document is derived by the grammar, with
//! the value that the reader gives.
use crate::derivation::{
    all_digits, all_whitespace, derives, digit_values, elements_text, elements_values, members_text,
    members_values, pieces_decoded, pieces_text, string_text, valid_pieces, Derivation, Element,
    ExponentText, Hex4, Member, NumberText, Written,
};
use crate::error::ParseError;
use crate::grammar::{
    array_at, code_unit_at, colon_at, digits_at, digits_len, document, elements_from, escape_at,
    is_digit, is_whitespace, key_at, keyword_at, keyword_from, lemma_digits_in_text,
    lemma_whitespace_in_text, members_from, number_at, number_shape, object_at, separator_at,
    string_at, string_from, value_at, whitespace_len, word_false, word_null, word_true,
};
use crate::laws::completeness::{valid_element, valid_member};
use crate::value::{Json};
use vstd::prelude::*;

verus! {

proof fn lemma_subrange_join(s: Seq<char>, i: int, j: int, k: int)
    requires
        0 <= i <= j <= k <= s.len(),
    ensures
        s.subrange(i, j) + s.subrange(j, k) == s.subrange(i, k),
{
    assert(s.subrange(i, j) + s.subrange(j, k) =~= s.subrange(i, k));
}

proof fn lemma_subrange_char(s: Seq<char>, j: int)
    requires
        0 <= j < s.len(),
    ensures
        seq![s[j]] == s.subrange(j, j + 1),
{
    assert(seq![s[j]] =~= s.subrange(j, j + 1));
}

proof fn lemma_whitespace_derived(s: Seq<char>, i: int)
    requires
        0 <= i <= s.len(),
    ensures
        i + whitespace_len(s, i) <= s.len(),
        all_whitespace(s.subrange(i, i + whitespace_len(s, i))),
        i + whitespace_len(s, i) < s.len() ==> !is_whitespace(s[i + whitespace_len(s, i)]),
{
    lemma_whitespace_in_text(s, i);
    let ws = s.subrange(i, i + whitespace_len(s, i));
    assert forall|k: int| 0 <= k < ws.len() implies is_whitespace(#[trigger] ws[k]) by {
        assert(ws[k] == s[i + k]);
    }
}

proof fn lemma_digits_derived(s: Seq<char>, i: int)
    requires
        0 <= i <= s.len(),
    ensures
        i + digits_len(s, i) <= s.len(),
        all_digits(s.subrange(i, i + digits_len(s, i))),
        digit_values(s.subrange(i, i + digits_len(s, i))) == digits_at(s, i, digits_len(s, i)),
{
    lemma_digits_in_text(s, i);
    let digits = s.subrange(i, i + digits_len(s, i));
    assert forall|k: int| 0 <= k < digits.len() implies is_digit(#[trigger] digits[k]) by {
        assert(digits[k] == s[i + k]);
    }
    assert(digit_values(digits) =~= digits_at(s, i, digits_len(s, i)));
}

proof fn lemma_keyword_derived(s: Seq<char>, i: int, word: Seq<char>, k: int)
    requires
        0 <= i,
        0 <= k <= word.len(),
        keyword_from(s, i, word, k) is Ok,
    ensures
        keyword_from(s, i, word, k) == Ok::<nat, ParseError>(word.len()),
        i + word.len() <= s.len() || k == word.len(),
        forall|j: int| k <= j < word.len() ==> s[i + j] == #[trigger] word[j],
    decreases word.len() - k,
{
    if k < word.len() {
        lemma_keyword_derived(s, i, word, k + 1);
    }
}

proof fn lemma_keyword_text(s: Seq<char>, i: int, word: Seq<char>)
    requires
        0 <= i,
        word.len() > 0,
        keyword_at(s, i, word) is Ok,
    ensures
        keyword_at(s, i, word) == Ok::<nat, ParseError>(word.len()),
        i + word.len() <= s.len(),
        s.subrange(i, i + word.len()) == word,
{
    lemma_keyword_derived(s, i, word, 0);
    assert(s.subrange(i, i + word.len()) =~= word);
}

proof fn lemma_number_derived(s: Seq<char>, i: int) -> (number: NumberText)
    requires
        0 <= i <= s.len(),
        number_at(s, i) is Ok,
    ensures
        number.valid(),
        number_at(s, i) matches Ok((value, n)) && {
            &&& n >= 1
            &&& i + n <= s.len()
            &&& number.text() == s.subrange(i, i + n)
            &&& number.value() == value
        },
{
    let shape = number_shape(s, i);
    let a = shape.int_start(i);
    let b = a + shape.int_len;
    let c = shape.fraction_end(i);
    let d = shape.exponent_start(i);
    let end = shape.end(i);
    lemma_digits_derived(s, a);
    if shape.has_fraction {
        lemma_digits_derived(s, b + 1);
    }
    if shape.has_exponent {
        lemma_digits_derived(s, d);
    }
    let integer = s.subrange(a, b);
    let fraction: Option<Seq<char>> = if shape.has_fraction {
        Some(s.subrange(b + 1, c))
    } else {
        None
    };
    let exponent: Option<ExponentText> = if shape.has_exponent {
        Some(
            ExponentText {
                marker: s[c],
                sign: if shape.has_exponent_sign {
                    Some(s[c + 1])
                } else {
                    None
                },
                digits: s.subrange(d, end),
            },
        )
    } else {
        None
    };
    let number = NumberText { negative: shape.negative, integer, fraction, exponent };
    assert(integer[0] == s[a]);
    assert(number.sign_text() == s.subrange(i, a)) by {
        assert(number.sign_text() =~= s.subrange(i, a));
    }
    assert(number.fraction_text() == s.subrange(b, c)) by {
        assert(number.fraction_text() =~= s.subrange(b, c));
    }
    assert(number.exponent_text() == s.subrange(c, end)) by {
        if shape.has_exponent {
            let e = exponent->0;
            assert(e.sign_text() =~= s.subrange(c + 1, d));
            assert(e.text() =~= s.subrange(c, end));
        } else {
            assert(number.exponent_text() =~= s.subrange(c, end));
        }
    }
    lemma_subrange_join(s, i, a, b);
    lemma_subrange_join(s, i, b, c);
    lemma_subrange_join(s, i, c, end);
    if !shape.has_fraction {
        assert(number.fraction_digits() =~= Seq::<char>::empty());
        assert(digit_values(number.fraction_digits()) =~= digits_at(s, shape.fraction_start(i), 0));
    }
    if !shape.has_exponent {
        assert(digits_at(s, d, 0) =~= Seq::<u8>::empty());
    }
    number
}

proof fn lemma_hex4_derived(s: Seq<char>, i: int, escape: int, open: int) -> (h: Hex4)
    requires
        0 <= i,
        code_unit_at(s, i, escape, open) is Ok,
    ensures
        h.valid(),
        i + 4 <= s.len(),
        h.text() == s.subrange(i, i + 4),
        code_unit_at(s, i, escape, open) == Ok::<u32, ParseError>(h.unit()),
{
    reveal(code_unit_at);
    let h = Hex4 { a: s[i], b: s[i + 1], c: s[i + 2], d: s[i + 3] };
    assert(h.text() =~= s.subrange(i, i + 4));
    h
}

proof fn lemma_escape_derived(s: Seq<char>, i: int, open: int) -> (piece: Written)
    requires
        0 <= i < s.len(),
        s[i] == '\\',
        escape_at(s, i, open) is Ok,
    ensures
        piece.valid(),
        !(piece is Plain),
        escape_at(s, i, open) matches Ok((c, n)) && {
            &&& n >= 2
            &&& i + n <= s.len()
            &&& piece.text() == s.subrange(i, i + n)
            &&& piece.decoded() == c
        },
{
    if s[i + 1] == 'u' {
        let high = lemma_hex4_derived(s, i + 2, i, open);
        lemma_subrange_join(s, i, i + 2, i + 6);
        assert(seq!['\\', 'u'] =~= s.subrange(i, i + 2));
        if 0xD800 <= high.unit() && high.unit() <= 0xDBFF {
            let low = lemma_hex4_derived(s, i + 8, i, open);
            assert(seq!['\\', 'u'] =~= s.subrange(i + 6, i + 8));
            lemma_subrange_join(s, i, i + 6, i + 8);
            lemma_subrange_join(s, i, i + 8, i + 12);
            Written::Pair(high, low)
        } else {
            Written::Unit(high)
        }
    } else {
        let piece = Written::Short(s[i + 1]);
        assert(piece.text() =~= s.subrange(i, i + 2));
        piece
    }
}

// A piece put before others.
proof fn lemma_pieces_cons(first: Written, rest: Seq<Written>) -> (pieces: Seq<Written>)
    requires
        first.valid(),
        valid_pieces(rest),
    ensures
        valid_pieces(pieces),
        pieces_text(pieces) == first.text() + pieces_text(rest),
        forall|acc: Seq<char>|
            acc.push(first.decoded()) + pieces_decoded(rest) == #[trigger] (acc + pieces_decoded(
                pieces,
            )),
{
    let pieces = seq![first] + rest;
    assert(pieces[0] == first);
    assert(pieces.drop_first() =~= rest);
    assert forall|k: int| 0 <= k < pieces.len() implies (#[trigger] pieces[k]).valid() by {
        if k > 0 {
            assert(pieces[k] == rest[k - 1]);
        }
    }
    assert forall|acc: Seq<char>|
        acc.push(first.decoded()) + pieces_decoded(rest) == #[trigger] (acc + pieces_decoded(
            pieces,
        )) by {
        assert forall|k: int| 0 <= k < rest.len() implies pieces_decoded(rest)[k]
            == pieces_decoded(pieces)[k + 1] by {
            assert(rest[k] == pieces[k + 1]);
        }
        assert(acc.push(first.decoded()) + pieces_decoded(rest) =~= acc + pieces_decoded(pieces));
    }
    pieces
}

// The piece that a reader of a string meets first.
proof fn lemma_piece_derived(s: Seq<char>, i: int, open: int, acc: Seq<char>) -> (first: Written)
    requires
        0 <= i < s.len(),
        s[i] != '"',
        string_from(s, i, open, acc) is Ok,
    ensures
        first.valid(),
        first.text().len() >= 1,
        i + first.text().len() <= s.len(),
        first.text() == s.subrange(i, i + first.text().len()),
        string_from(s, i, open, acc) == string_from(
            s,
            i + first.text().len(),
            open,
            acc.push(first.decoded()),
        ),
{
    if s[i] == '\\' {
        lemma_escape_derived(s, i, open)
    } else {
        let first = Written::Plain(s[i]);
        assert(first.text() =~= s.subrange(i, i + 1));
        first
    }
}

proof fn lemma_pieces_derived(s: Seq<char>, i: int, open: int, acc: Seq<char>) -> (pieces: Seq<
    Written,
>)
    requires
        0 <= i,
        string_from(s, i, open, acc) is Ok,
    ensures
        valid_pieces(pieces),
        string_from(s, i, open, acc) matches Ok((chars, end)) && {
            &&& i < end <= s.len()
            &&& pieces_text(pieces) + seq!['"'] == s.subrange(i, end)
            &&& chars == acc + pieces_decoded(pieces)
        },
    decreases s.len() - i,
{
    if s[i] == '"' {
        let pieces = Seq::<Written>::empty();
        assert(pieces_text(pieces) + seq!['"'] =~= s.subrange(i, i + 1));
        assert(acc + pieces_decoded(pieces) =~= acc);
        pieces
    } else {
        let first = lemma_piece_derived(s, i, open, acc);
        let n = first.text().len();
        let rest = lemma_pieces_derived(s, i + n, open, acc.push(first.decoded()));
        let end = string_from(s, i, open, acc)->Ok_0.1;
        let pieces = lemma_pieces_cons(first, rest);
        assert(pieces_text(pieces) + seq!['"'] == s.subrange(i, end)) by {
            assert(pieces_text(pieces) + seq!['"'] =~= first.text() + (pieces_text(rest) + seq![
                '"',
            ]));
            lemma_subrange_join(s, i, i + n, end);
        }
        assert(acc.push(first.decoded()) + pieces_decoded(rest) == acc + pieces_decoded(pieces));
        pieces
    }
}

proof fn lemma_string_derived(s: Seq<char>, i: int) -> (pieces: Seq<Written>)
    requires
        string_at(s, i) is Ok,
    ensures
        valid_pieces(pieces),
        string_at(s, i) matches Ok((chars, n)) && {
            &&& n >= 2
            &&& 0 <= i
            &&& i + n <= s.len()
            &&& string_text(pieces) == s.subrange(i, i + n)
            &&& chars == pieces_decoded(pieces)
        },
{
    let pieces = lemma_pieces_derived(s, i + 1, i, Seq::empty());
    let end = string_from(s, i + 1, i, Seq::empty())->Ok_0.1;
    lemma_subrange_char(s, i);
    lemma_subrange_join(s, i, i + 1, end);
    assert(string_text(pieces) =~= seq!['"'] + (pieces_text(pieces) + seq!['"']));
    assert(Seq::<char>::empty() + pieces_decoded(pieces) =~= pieces_decoded(pieces));
    pieces
}

// A text between two brackets.
proof fn lemma_bracketed(s: Seq<char>, q: int, end: int, inner: Seq<char>, close: char)
    requires
        0 <= q,
        q + 1 < end <= s.len(),
        inner + seq![close] == s.subrange(q + 1, end),
    ensures
        seq![s[q]] + inner + seq![close] == s.subrange(q, end),
{
    lemma_subrange_char(s, q);
    lemma_subrange_join(s, q, q + 1, end);
    assert(seq![s[q]] + inner + seq![close] =~= seq![s[q]] + (inner + seq![close]));
}

// Two texts with a character between them, and one after them.
proof fn lemma_separated(
    s: Seq<char>,
    i: int,
    j: int,
    end: int,
    first: Seq<char>,
    rest: Seq<char>,
    close: char,
)
    requires
        0 <= i <= j,
        j + 1 <= end <= s.len(),
        first == s.subrange(i, j),
        rest + seq![close] == s.subrange(j + 1, end),
    ensures
        (first + seq![s[j]] + rest) + seq![close] == s.subrange(i, end),
{
    lemma_subrange_char(s, j);
    lemma_subrange_join(s, i, j, j + 1);
    lemma_subrange_join(s, i, j + 1, end);
    assert((first + seq![s[j]] + rest) + seq![close] =~= (first + seq![s[j]]) + (rest + seq![
        close,
    ]));
}

// A text and one character after it.
proof fn lemma_closed(s: Seq<char>, i: int, j: int, first: Seq<char>)
    requires
        0 <= i <= j < s.len(),
        first == s.subrange(i, j),
    ensures
        first + seq![s[j]] == s.subrange(i, j + 1),
{
    lemma_subrange_char(s, j);
    lemma_subrange_join(s, i, j, j + 1);
}

// An element put before others.
proof fn lemma_elements_cons(e: Element, rest: Seq<Element>, depth: nat) -> (elements: Seq<Element>)
    requires
        valid_element(e, depth),
        forall|k: int| 0 <= k < rest.len() ==> valid_element(#[trigger] rest[k], depth),
    ensures
        elements.len() == rest.len() + 1,
        forall|k: int| 0 <= k < elements.len() ==> valid_element(#[trigger] elements[k], depth),
        rest.len() == 0 ==> elements_text(elements) == e.text(),
        rest.len() > 0 ==> elements_text(elements) == e.text() + seq![','] + elements_text(rest),
        forall|acc: Seq<Json>|
            acc.push(e.value.value()) + elements_values(rest) == #[trigger] (acc + elements_values(
                elements,
            )),
{
    let elements = seq![e] + rest;
    assert(elements[0] == e);
    assert(elements.drop_first() =~= rest);
    assert forall|k: int| 0 <= k < elements.len() implies valid_element(
        #[trigger] elements[k],
        depth,
    ) by {
        if k > 0 {
            assert(elements[k] == rest[k - 1]);
        }
    }
    assert forall|acc: Seq<Json>|
        acc.push(e.value.value()) + elements_values(rest) == #[trigger] (acc + elements_values(
            elements,
        )) by {
        assert(acc.push(e.value.value()) + elements_values(rest) =~= acc + elements_values(
            elements,
        ));
    }
    elements
}

// A member put before others.
proof fn lemma_members_cons(m: Member, rest: Seq<Member>, depth: nat) -> (members: Seq<Member>)
    requires
        valid_member(m, depth),
        forall|k: int| 0 <= k < rest.len() ==> valid_member(#[trigger] rest[k], depth),
    ensures
        members.len() == rest.len() + 1,
        forall|k: int| 0 <= k < members.len() ==> valid_member(#[trigger] members[k], depth),
        rest.len() == 0 ==> members_text(members) == m.text(),
        rest.len() > 0 ==> members_text(members) == m.text() + seq![','] + members_text(rest),
        forall|acc: Map<Seq<char>, Json>|
            members_values(rest, acc.insert(pieces_decoded(m.key), m.element.value.value()))
                == #[trigger] members_values(members, acc),
{
    let members = seq![m] + rest;
    assert(members[0] == m);
    assert(members.drop_first() =~= rest);
    assert forall|k: int| 0 <= k < members.len() implies valid_member(
        #[trigger] members[k],
        depth,
    ) by {
        if k > 0 {
            assert(members[k] == rest[k - 1]);
        }
    }
    members
}

// The whitespace and the separator after an element.
proof fn lemma_separator_derived(s: Seq<char>, i: int, close: char)
    requires
        0 <= i <= s.len(),
        separator_at(s, i, close) is Ok,
    ensures
        separator_at(s, i, close) matches Ok((more, m)) && {
            &&& m >= 1
            &&& i + m <= s.len()
            &&& m == whitespace_len(s, i) + 1
            &&& all_whitespace(s.subrange(i, i + m - 1))
            &&& more ==> s[i + m - 1] == ','
            &&& !more ==> s[i + m - 1] == close
        },
{
    lemma_whitespace_derived(s, i);
}

proof fn lemma_value_derived(s: Seq<char>, i: int, depth: nat) -> (r: (Seq<char>, Derivation))
    requires
        0 <= i <= s.len(),
        value_at(s, i, depth) is Ok,
    ensures
        all_whitespace(r.0),
        r.1.valid(),
        r.1.nests_within(depth),
        value_at(s, i, depth) matches Ok((v, n)) && {
            &&& n >= 1
            &&& i + n <= s.len()
            &&& r.0 + r.1.text() == s.subrange(i, i + n)
            &&& r.1.value() == v
        },
    decreases depth, 0int, 0int,
{
    lemma_whitespace_derived(s, i);
    let w = whitespace_len(s, i);
    let q = i + w;
    let before = s.subrange(i, q);
    let n = value_at(s, i, depth)->Ok_0.1;
    let d = if s[q] == '{' {
        lemma_object_derived(s, q, (depth - 1) as nat)
    } else if s[q] == '[' {
        lemma_array_derived(s, q, (depth - 1) as nat)
    } else if s[q] == '"' {
        Derivation::String(lemma_string_derived(s, q))
    } else if s[q] == 't' {
        lemma_keyword_text(s, q, word_true());
        Derivation::True
    } else if s[q] == 'f' {
        lemma_keyword_text(s, q, word_false());
        Derivation::False
    } else if s[q] == 'n' {
        lemma_keyword_text(s, q, word_null());
        Derivation::Null
    } else {
        Derivation::Number(lemma_number_derived(s, q))
    };
    lemma_subrange_join(s, i, q, i + n);
    (before, d)
}

proof fn lemma_array_derived(s: Seq<char>, q: int, depth: nat) -> (d: Derivation)
    requires
        0 <= q < s.len(),
        s[q] == '[',
        array_at(s, q, depth) is Ok,
    ensures
        d is Array,
        d.valid(),
        d.nests_within(depth + 1),
        array_at(s, q, depth) matches Ok((items, n)) && {
            &&& n >= 2
            &&& q + n <= s.len()
            &&& d.text() == s.subrange(q, q + n)
            &&& d.value() == Json::Array(items)
        },
    decreases depth, 2int, 0int,
{
    lemma_whitespace_derived(s, q + 1);
    let w = whitespace_len(s, q + 1);
    if q + 1 + w < s.len() && s[q + 1 + w] == ']' {
        let gap = s.subrange(q + 1, q + 1 + w);
        let d = Derivation::Array { gap, elements: Seq::empty() };
        lemma_closed(s, q + 1, q + 1 + w, gap);
        lemma_bracketed(s, q, q + w + 2, gap, ']');
        assert(elements_values(Seq::<Element>::empty()) =~= Seq::<Json>::empty());
        d
    } else {
        let elements = lemma_elements_derived(s, q + 1, depth, Seq::empty());
        let end = elements_from(s, q + 1, depth, Seq::empty())->Ok_0.1;
        let d = Derivation::Array { gap: Seq::empty(), elements };
        lemma_bracketed(s, q, end, elements_text(elements), ']');
        assert(Seq::<Json>::empty() + elements_values(elements) =~= elements_values(elements));
        assert forall|k: int| 0 <= k < elements.len() implies {
            &&& all_whitespace((#[trigger] elements[k]).before)
            &&& all_whitespace(elements[k].after)
            &&& elements[k].value.valid()
            &&& elements[k].value.nests_within(depth)
        } by {
            assert(valid_element(elements[k], depth));
        }
        d
    }
}

proof fn lemma_elements_derived(s: Seq<char>, i: int, depth: nat, acc: Seq<Json>) -> (elements: Seq<
    Element,
>)
    requires
        0 <= i <= s.len(),
        elements_from(s, i, depth, acc) is Ok,
    ensures
        elements.len() > 0,
        forall|k: int| 0 <= k < elements.len() ==> valid_element(#[trigger] elements[k], depth),
        elements_from(s, i, depth, acc) matches Ok((items, end)) && {
            &&& i < end <= s.len()
            &&& elements_text(elements) + seq![']'] == s.subrange(i, end)
            &&& items == acc + elements_values(elements)
        },
    decreases depth, 1int, s.len() - i,
{
    let (before, d) = lemma_value_derived(s, i, depth);
    let (v, n) = value_at(s, i, depth)->Ok_0;
    lemma_separator_derived(s, i + n, ']');
    let (more, m) = separator_at(s, i + n, ']')->Ok_0;
    let j = i + n + m - 1;
    let after = s.subrange(i + n, j);
    let e = Element { before, value: d, after };
    lemma_subrange_join(s, i, i + n, j);
    assert(e.text() == s.subrange(i, j));
    if more {
        let rest = lemma_elements_derived(s, j + 1, depth, acc.push(v));
        let end = elements_from(s, i, depth, acc)->Ok_0.1;
        let elements = lemma_elements_cons(e, rest, depth);
        lemma_separated(s, i, j, end, e.text(), elements_text(rest), ']');
        assert(acc.push(v) + elements_values(rest) == acc + elements_values(elements));
        elements
    } else {
        let elements = lemma_elements_cons(e, Seq::empty(), depth);
        lemma_closed(s, i, j, e.text());
        assert(elements_values(Seq::<Element>::empty()) =~= Seq::<Json>::empty());
        assert(acc.push(v) + elements_values(Seq::<Element>::empty()) == acc + elements_values(
            elements,
        ));
        assert(acc.push(v) + Seq::<Json>::empty() =~= acc.push(v));
        elements
    }
}

proof fn lemma_object_derived(s: Seq<char>, q: int, depth: nat) -> (d: Derivation)
    requires
        0 <= q < s.len(),
        s[q] == '{',
        object_at(s, q, depth) is Ok,
    ensures
        d is Object,
        d.valid(),
        d.nests_within(depth + 1),
        object_at(s, q, depth) matches Ok((members, n)) && {
            &&& n >= 2
            &&& q + n <= s.len()
            &&& d.text() == s.subrange(q, q + n)
            &&& d.value() == Json::Object(members)
        },
    decreases depth, 2int, 0int,
{
    lemma_whitespace_derived(s, q + 1);
    let w = whitespace_len(s, q + 1);
    if q + 1 + w < s.len() && s[q + 1 + w] == '}' {
        let gap = s.subrange(q + 1, q + 1 + w);
        let d = Derivation::Object { gap, members: Seq::empty() };
        lemma_closed(s, q + 1, q + 1 + w, gap);
        lemma_bracketed(s, q, q + w + 2, gap, '}');
        d
    } else {
        let members = lemma_members_derived(s, q + 1, depth, Map::empty());
        let end = members_from(s, q + 1, depth, Map::empty())->Ok_0.1;
        let d = Derivation::Object { gap: Seq::empty(), members };
        lemma_bracketed(s, q, end, members_text(members), '}');
        assert forall|k: int| 0 <= k < members.len() implies {
            &&& all_whitespace((#[trigger] members[k]).before)
            &&& valid_pieces(members[k].key)
            &&& all_whitespace(members[k].after)
            &&& all_whitespace(members[k].element.before)
            &&& all_whitespace(members[k].element.after)
            &&& members[k].element.value.valid()
            &&& members[k].element.value.nests_within(depth)
        } by {
            assert(valid_member(members[k], depth));
        }
        d
    }
}

// The key and the colon of a member.
proof fn lemma_key_derived(s: Seq<char>, i: int) -> (r: (Seq<char>, Seq<Written>, Seq<char>))
    requires
        0 <= i <= s.len(),
        key_at(s, i) matches Ok((key, a)) && colon_at(s, i + a) is Ok,
    ensures
        all_whitespace(r.0),
        valid_pieces(r.1),
        all_whitespace(r.2),
        key_at(s, i) matches Ok((key, a)) && colon_at(s, i + a) matches Ok(b) && {
            &&& a >= 2
            &&& b >= 1
            &&& i + a + b <= s.len()
            &&& key == pieces_decoded(r.1)
            &&& r.0 + string_text(r.1) + r.2 + seq![':'] == s.subrange(i, i + a + b)
        },
{
    lemma_whitespace_derived(s, i);
    let w = whitespace_len(s, i);
    let pieces = lemma_string_derived(s, i + w);
    let a = key_at(s, i)->Ok_0.1;
    lemma_whitespace_derived(s, i + a);
    let b = colon_at(s, i + a)->Ok_0;
    let before = s.subrange(i, i + w);
    let after = s.subrange(i + a, i + a + b - 1);
    lemma_subrange_join(s, i, i + w, i + a);
    lemma_subrange_join(s, i, i + a, i + a + b - 1);
    lemma_closed(s, i, i + a + b - 1, before + string_text(pieces) + after);
    (before, pieces, after)
}

proof fn lemma_members_derived(
    s: Seq<char>,
    i: int,
    depth: nat,
    acc: Map<Seq<char>, Json>,
) -> (members: Seq<Member>)
    requires
        0 <= i <= s.len(),
        members_from(s, i, depth, acc) is Ok,
    ensures
        members.len() > 0,
        forall|k: int| 0 <= k < members.len() ==> valid_member(#[trigger] members[k], depth),
        members_from(s, i, depth, acc) matches Ok((all, end)) && {
            &&& i < end <= s.len()
            &&& members_text(members) + seq!['}'] == s.subrange(i, end)
            &&& all == members_values(members, acc)
        },
    decreases depth, 1int, s.len() - i,
{
    let (before, key, after) = lemma_key_derived(s, i);
    let (k, a) = key_at(s, i)->Ok_0;
    let b = colon_at(s, i + a)->Ok_0;
    let c0 = i + a + b;
    let (ebefore, d) = lemma_value_derived(s, c0, depth);
    let (v, c) = value_at(s, c0, depth)->Ok_0;
    lemma_separator_derived(s, c0 + c, '}');
    let (more, m) = separator_at(s, c0 + c, '}')->Ok_0;
    let j = c0 + c + m - 1;
    let eafter = s.subrange(c0 + c, j);
    let e = Element { before: ebefore, value: d, after: eafter };
    let member = Member { before, key, after, element: e };
    lemma_subrange_join(s, c0, c0 + c, j);
    assert(e.text() == s.subrange(c0, j));
    lemma_subrange_join(s, i, c0, j);
    assert(member.text() == s.subrange(i, j));
    if more {
        let rest = lemma_members_derived(s, j + 1, depth, acc.insert(k, v));
        let end = members_from(s, i, depth, acc)->Ok_0.1;
        let members = lemma_members_cons(member, rest, depth);
        lemma_separated(s, i, j, end, member.text(), members_text(rest), '}');
        assert(members_values(rest, acc.insert(k, v)) == members_values(members, acc));
        members
    } else {
        let members = lemma_members_cons(member, Seq::empty(), depth);
        lemma_closed(s, i, j, member.text());
        assert(members_values(Seq::<Member>::empty(), acc.insert(k, v)) == members_values(
            members,
            acc,
        ));
        members
    }
}

/// Every text that is read as a document is a valid JSON document, and the
/// value read is the value that it denotes: the text is whitespace, the text
/// of a valid derivation that nests no deeper than the limit, and
/// whitespace, and that derivation denotes the value.
pub proof fn law_document_is_derived(s: Seq<char>, max_depth: nat)
    requires
        document(s, max_depth) is Ok,
    ensures
        derives(s, max_depth, document(s, max_depth)->Ok_0),
{
    let (before, d) = lemma_value_derived(s, 0, max_depth);
    let (v, n) = value_at(s, 0, max_depth)->Ok_0;
    lemma_whitespace_derived(s, n as int);
    let after = s.subrange(n as int, s.len() as int);
    lemma_subrange_join(s, 0, n as int, s.len() as int);
    assert(s.subrange(0, s.len() as int) =~= s);
    assert(s == before + d.text() + after);
}

} // verus!
