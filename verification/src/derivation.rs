//! The JSON grammar as its productions: a derivation is a tree that records
//! how a text is made up, rule by rule, whitespace included. The text that a
//! derivation writes and the value that it denotes are functions of the
//! tree, so what the grammar allows is said here without a reader.
use crate::grammar::{
    digit_of, hex_of, is_control, is_digit, is_hex_digit, is_high_surrogate, is_low_surrogate,
    is_whitespace, pair_code, word_false, word_null, word_true,
};
use crate::value::{decimal_value, DecimalNumber, Json};
use vstd::prelude::*;

verus! {

/// Whether `text` holds whitespace only.
pub open spec fn all_whitespace(text: Seq<char>) -> bool {
    forall|k: int| 0 <= k < text.len() ==> is_whitespace(#[trigger] text[k])
}

/// Whether `text` holds decimal digits only.
pub open spec fn all_digits(text: Seq<char>) -> bool {
    forall|k: int| 0 <= k < text.len() ==> is_digit(#[trigger] text[k])
}

/// The values of the digits of `text`.
pub open spec fn digit_values(text: Seq<char>) -> Seq<u8> {
    Seq::new(text.len(), |k: int| digit_of(text[k]))
}

/// Four hexadecimal digits.
pub ghost struct Hex4 {
    pub a: char,
    pub b: char,
    pub c: char,
    pub d: char,
}

impl Hex4 {
    pub open spec fn valid(self) -> bool {
        is_hex_digit(self.a) && is_hex_digit(self.b) && is_hex_digit(self.c) && is_hex_digit(self.d)
    }

    pub open spec fn text(self) -> Seq<char> {
        seq![self.a, self.b, self.c, self.d]
    }

    /// The 16-bit unit that the digits write.
    pub open spec fn unit(self) -> u32 {
        (hex_of(self.a) * 0x1000 + hex_of(self.b) * 0x100 + hex_of(self.c) * 0x10 + hex_of(
            self.d,
        )) as u32
    }
}

/// One character of a string, as it is written between the quotes.
pub ghost enum Written {
    /// A character that stands for itself.
    Plain(char),
    /// A backslash and one more character.
    Short(char),
    /// `\u` and four hexadecimal digits.
    Unit(Hex4),
    /// Two `\u` escapes, a high surrogate and a low surrogate.
    Pair(Hex4, Hex4),
}

impl Written {
    /// Anything but the quote, the backslash and the control characters may
    /// stand for itself; after a backslash one of `"`, `\`, `/`, `b`, `f`,
    /// `n`, `r`, `t`; a single `\u` escape writes no surrogate.
    pub open spec fn valid(self) -> bool {
        match self {
            Written::Plain(c) => c != '"' && c != '\\' && !is_control(c),
            Written::Short(c) => c == '"' || c == '\\' || c == '/' || c == 'b' || c == 'f' || c
                == 'n' || c == 'r' || c == 't',
            Written::Unit(h) => h.valid() && !is_high_surrogate(h.unit()) && !is_low_surrogate(
                h.unit(),
            ),
            Written::Pair(high, low) => high.valid() && low.valid() && is_high_surrogate(
                high.unit(),
            ) && is_low_surrogate(low.unit()),
        }
    }

    pub open spec fn text(self) -> Seq<char> {
        match self {
            Written::Plain(c) => seq![c],
            Written::Short(c) => seq!['\\', c],
            Written::Unit(h) => seq!['\\', 'u'] + h.text(),
            Written::Pair(high, low) => seq!['\\', 'u'] + high.text() + seq!['\\', 'u'] + low.text(),
        }
    }

    /// The character that is meant.
    pub open spec fn decoded(self) -> char {
        match self {
            Written::Plain(c) => c,
            Written::Short(c) => if c == 'b' {
                '\u{8}'
            } else if c == 'f' {
                '\u{c}'
            } else if c == 'n' {
                '\n'
            } else if c == 'r' {
                '\r'
            } else if c == 't' {
                '\t'
            } else {
                c
            },
            Written::Unit(h) => h.unit() as char,
            Written::Pair(high, low) => pair_code(high.unit(), low.unit()) as char,
        }
    }
}

/// Whether each of `pieces` is valid.
pub open spec fn valid_pieces(pieces: Seq<Written>) -> bool {
    forall|k: int| 0 <= k < pieces.len() ==> (#[trigger] pieces[k]).valid()
}

/// What `pieces` write, one after the other.
pub open spec fn pieces_text(pieces: Seq<Written>) -> Seq<char>
    decreases pieces.len(),
{
    if pieces.len() == 0 {
        Seq::empty()
    } else {
        pieces[0].text() + pieces_text(pieces.drop_first())
    }
}

/// The characters that `pieces` mean.
pub open spec fn pieces_decoded(pieces: Seq<Written>) -> Seq<char> {
    Seq::new(pieces.len(), |k: int| pieces[k].decoded())
}

/// A string literal: the quotes and what stands between them.
pub open spec fn string_text(pieces: Seq<Written>) -> Seq<char> {
    seq!['"'] + pieces_text(pieces) + seq!['"']
}

/// The exponent of a numeric literal.
pub ghost struct ExponentText {
    /// `e` or `E`.
    pub marker: char,
    /// `+` or `-`, if a sign is written.
    pub sign: Option<char>,
    pub digits: Seq<char>,
}

/// A numeric literal, part by part.
pub ghost struct NumberText {
    pub negative: bool,
    pub integer: Seq<char>,
    pub fraction: Option<Seq<char>>,
    pub exponent: Option<ExponentText>,
}

impl ExponentText {
    pub open spec fn valid(self) -> bool {
        &&& self.marker == 'e' || self.marker == 'E'
        &&& self.sign matches Some(c) ==> c == '+' || c == '-'
        &&& self.digits.len() > 0
        &&& all_digits(self.digits)
    }

    pub open spec fn sign_text(self) -> Seq<char> {
        match self.sign {
            Some(c) => seq![c],
            None => Seq::empty(),
        }
    }

    pub open spec fn text(self) -> Seq<char> {
        seq![self.marker] + self.sign_text() + self.digits
    }

    /// The exponent that is written.
    pub open spec fn value(self) -> int {
        if self.sign == Some('-') {
            -(decimal_value(digit_values(self.digits)) as int)
        } else {
            decimal_value(digit_values(self.digits)) as int
        }
    }
}

impl NumberText {
    /// The integer part is `0` or starts with another digit; a fraction and
    /// an exponent have at least one digit.
    pub open spec fn valid(self) -> bool {
        &&& self.integer.len() > 0
        &&& all_digits(self.integer)
        &&& self.integer.len() > 1 ==> self.integer[0] != '0'
        &&& self.fraction matches Some(digits) ==> digits.len() > 0 && all_digits(digits)
        &&& self.exponent matches Some(exponent) ==> exponent.valid()
    }

    pub open spec fn fraction_digits(self) -> Seq<char> {
        match self.fraction {
            Some(digits) => digits,
            None => Seq::empty(),
        }
    }

    pub open spec fn sign_text(self) -> Seq<char> {
        if self.negative {
            seq!['-']
        } else {
            Seq::empty()
        }
    }

    pub open spec fn fraction_text(self) -> Seq<char> {
        match self.fraction {
            Some(digits) => seq!['.'] + digits,
            None => Seq::empty(),
        }
    }

    pub open spec fn exponent_text(self) -> Seq<char> {
        match self.exponent {
            Some(exponent) => exponent.text(),
            None => Seq::empty(),
        }
    }

    pub open spec fn text(self) -> Seq<char> {
        self.sign_text() + self.integer + self.fraction_text() + self.exponent_text()
    }

    /// The number that is written: the digits of the integer part and of the
    /// fraction as one number, times ten to the exponent less the number of
    /// fraction digits.
    pub open spec fn value(self) -> DecimalNumber {
        DecimalNumber {
            negative: self.negative,
            mantissa: decimal_value(digit_values(self.integer) + digit_values(self.fraction_digits())),
            exponent: (match self.exponent {
                Some(exponent) => exponent.value(),
                None => 0,
            }) - self.fraction_digits().len(),
        }
    }
}

/// A derivation of a value.
pub ghost enum Derivation {
    Null,
    True,
    False,
    Number(NumberText),
    String(Seq<Written>),
    /// The brackets and the elements between them, with commas; `gap` is the
    /// whitespace between the brackets where there is no element.
    Array { gap: Seq<char>, elements: Seq<Element> },
    /// The braces and the members between them, with commas; `gap` is the
    /// whitespace between the braces where there is no member.
    Object { gap: Seq<char>, members: Seq<Member> },
}

/// A value with the whitespace around it.
pub ghost struct Element {
    pub before: Seq<char>,
    pub value: Derivation,
    pub after: Seq<char>,
}

/// A member of an object: the key with the whitespace around it, the colon,
/// and the value with the whitespace around it.
pub ghost struct Member {
    pub before: Seq<char>,
    pub key: Seq<Written>,
    pub after: Seq<char>,
    pub element: Element,
}

impl Derivation {
    /// Whether every rule is applied as the grammar allows.
    pub open spec fn valid(self) -> bool
        decreases self,
    {
        match self {
            Derivation::Number(number) => number.valid(),
            Derivation::String(pieces) => valid_pieces(pieces),
            Derivation::Array { gap, elements } => {
                &&& all_whitespace(gap)
                &&& elements.len() > 0 ==> gap.len() == 0
                &&& forall|k: int|
                    0 <= k < elements.len() ==> {
                        &&& all_whitespace((#[trigger] elements[k]).before)
                        &&& all_whitespace(elements[k].after)
                        &&& elements[k].value.valid()
                    }
            },
            Derivation::Object { gap, members } => {
                &&& all_whitespace(gap)
                &&& members.len() > 0 ==> gap.len() == 0
                &&& forall|k: int|
                    0 <= k < members.len() ==> {
                        &&& all_whitespace((#[trigger] members[k]).before)
                        &&& valid_pieces(members[k].key)
                        &&& all_whitespace(members[k].after)
                        &&& all_whitespace(members[k].element.before)
                        &&& all_whitespace(members[k].element.after)
                        &&& members[k].element.value.valid()
                    }
            },
            _ => true,
        }
    }

    /// Whether containers nest at most `depth` levels deep.
    pub open spec fn nests_within(self, depth: nat) -> bool
        decreases self,
    {
        match self {
            Derivation::Array { gap, elements } => {
                &&& depth > 0
                &&& forall|k: int|
                    0 <= k < elements.len() ==> (#[trigger] elements[k]).value.nests_within(
                        (depth - 1) as nat,
                    )
            },
            Derivation::Object { gap, members } => {
                &&& depth > 0
                &&& forall|k: int|
                    0 <= k < members.len() ==> (#[trigger] members[k]).element.value.nests_within(
                        (depth - 1) as nat,
                    )
            },
            _ => true,
        }
    }

    /// The text that the derivation writes.
    pub open spec fn text(self) -> Seq<char>
        decreases self, 0int,
    {
        match self {
            Derivation::Null => word_null(),
            Derivation::True => word_true(),
            Derivation::False => word_false(),
            Derivation::Number(number) => number.text(),
            Derivation::String(pieces) => string_text(pieces),
            Derivation::Array { gap, elements } => seq!['['] + (if elements.len() == 0 {
                gap
            } else {
                elements_text(elements)
            }) + seq![']'],
            Derivation::Object { gap, members } => seq!['{'] + (if members.len() == 0 {
                gap
            } else {
                members_text(members)
            }) + seq!['}'],
        }
    }

    /// The value that the derivation denotes.
    pub open spec fn value(self) -> Json
        decreases self, 0int,
    {
        match self {
            Derivation::Null => Json::Null,
            Derivation::True => Json::Boolean(true),
            Derivation::False => Json::Boolean(false),
            Derivation::Number(number) => Json::Number(number.value()),
            Derivation::String(pieces) => Json::String(pieces_decoded(pieces)),
            Derivation::Array { gap, elements } => Json::Array(elements_values(elements)),
            Derivation::Object { gap, members } => Json::Object(
                members_values(members, Map::empty()),
            ),
        }
    }
}

impl Element {
    pub open spec fn text(self) -> Seq<char>
        decreases self, 1int,
    {
        self.before + self.value.text() + self.after
    }
}

impl Member {
    pub open spec fn text(self) -> Seq<char>
        decreases self, 2int,
    {
        self.before + string_text(self.key) + self.after + seq![':'] + self.element.text()
    }
}

/// Elements, with a comma between each two.
pub open spec fn elements_text(elements: Seq<Element>) -> Seq<char>
    decreases elements, 2int,
{
    if elements.len() == 0 {
        Seq::empty()
    } else if elements.len() == 1 {
        elements[0].text()
    } else {
        elements[0].text() + seq![','] + elements_text(elements.drop_first())
    }
}

/// What the elements denote, in order.
pub open spec fn elements_values(elements: Seq<Element>) -> Seq<Json>
    decreases elements, 2int,
{
    if elements.len() == 0 {
        Seq::empty()
    } else {
        seq![elements[0].value.value()] + elements_values(elements.drop_first())
    }
}

/// Members, with a comma between each two.
pub open spec fn members_text(members: Seq<Member>) -> Seq<char>
    decreases members, 3int,
{
    if members.len() == 0 {
        Seq::empty()
    } else if members.len() == 1 {
        members[0].text()
    } else {
        members[0].text() + seq![','] + members_text(members.drop_first())
    }
}

/// The mapping that the members make when each in turn is added to `acc`: a
/// later member replaces an earlier one with the same key.
pub open spec fn members_values(members: Seq<Member>, acc: Map<Seq<char>, Json>) -> Map<
    Seq<char>,
    Json,
>
    decreases members, 3int,
{
    if members.len() == 0 {
        acc
    } else {
        members_values(
            members.drop_first(),
            acc.insert(pieces_decoded(members[0].key), members[0].element.value.value()),
        )
    }
}

/// Whether `text` is written by a valid derivation that denotes `value` and
/// nests at most `max_depth` levels deep, with whitespace before and after
/// it: whether `text` is a JSON document for `value`.
pub open spec fn derives(text: Seq<char>, max_depth: nat, value: Json) -> bool {
    exists|before: Seq<char>, derivation: Derivation, after: Seq<char>|
        #![auto]
        {
            &&& all_whitespace(before)
            &&& all_whitespace(after)
            &&& derivation.valid()
            &&& derivation.nests_within(max_depth)
            &&& derivation.value() == value
            &&& text == before + derivation.text() + after
        }
}

} // verus!
