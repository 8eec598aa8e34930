//! The value tree and its mathematical model.
use vstd::prelude::*;

verus! {

/// A decimal number `±mantissa × 10^exponent`. The sign is kept apart from
/// the mantissa so that `-0` stays distinct from `0`.
pub ghost struct DecimalNumber {
    pub negative: bool,
    pub mantissa: nat,
    pub exponent: int,
}

/// What a JSON text denotes.
pub ghost enum Json {
    Null,
    Boolean(bool),
    Number(DecimalNumber),
    String(Seq<char>),
    Array(Seq<Json>),
    Object(Map<Seq<char>, Json>),
}

/// The number that a sequence of decimal digits writes, most significant
/// digit first.
pub open spec fn decimal_value(digits: Seq<u8>) -> nat
    decreases digits.len(),
{
    if digits.len() == 0 {
        0
    } else {
        10 * decimal_value(digits.drop_last()) + digits.last() as nat
    }
}

/// A numeric literal, kept digit by digit so that no magnitude is lost.
#[derive(Debug, PartialEq, Eq)]
pub struct JsonNumber {
    /// Whether the literal starts with `-`.
    pub negative: bool,
    /// Digits of the integer part followed by those of the fraction.
    pub digits: Vec<u8>,
    /// How many of `digits`, counted from the end, belong to the fraction.
    pub scale: usize,
    /// Whether the exponent is written with `-`.
    pub exponent_negative: bool,
    /// Digits of the exponent; empty where the literal has none.
    pub exponent_digits: Vec<u8>,
}

impl JsonNumber {
    /// Every digit is a digit; the integer part has at least one digit, and
    /// starts with `0` only if that is all of it.
    pub open spec fn wf(&self) -> bool {
        &&& self.scale < self.digits@.len()
        &&& self.digits@.len() - self.scale > 1 ==> self.digits@[0] != 0
        &&& forall|i: int| 0 <= i < self.digits@.len() ==> #[trigger] self.digits@[i] <= 9
        &&& forall|i: int|
            0 <= i < self.exponent_digits@.len() ==> #[trigger] self.exponent_digits@[i] <= 9
    }
}

/// The first digits of a number write no more than all of them.
pub proof fn lemma_decimal_value_prefix(digits: Seq<u8>, k: int)
    requires
        0 <= k <= digits.len(),
    ensures
        decimal_value(digits.take(k)) <= decimal_value(digits),
    decreases digits.len(),
{
    if k == digits.len() {
        assert(digits.take(k) =~= digits);
    } else {
        lemma_decimal_value_prefix(digits.drop_last(), k);
        assert(digits.drop_last().take(k) =~= digits.take(k));
    }
}

/// The number that `digits` write, where it fits into 128 bits.
pub fn digits_value(digits: &Vec<u8>) -> (r: Option<u128>)
    requires
        forall|i: int| 0 <= i < digits@.len() ==> #[trigger] digits@[i] <= 9,
    ensures
        r == if decimal_value(digits@) <= u128::MAX {
            Some(decimal_value(digits@) as u128)
        } else {
            None
        },
{
    let mut value: u128 = 0;
    let mut k: usize = 0;
    while k < digits.len()
        invariant
            k <= digits.len(),
            value == decimal_value(digits@.take(k as int)),
            forall|i: int| 0 <= i < digits@.len() ==> #[trigger] digits@[i] <= 9,
        decreases digits.len() - k,
    {
        let d: u128 = digits[k] as u128;
        proof {
            assert(digits@.take(k + 1).drop_last() =~= digits@.take(k as int));
            lemma_decimal_value_prefix(digits@, k + 1);
        }
        if value > (u128::MAX - d) / 10 {
            return None;
        }
        value = 10 * value + d;
        k = k + 1;
    }
    assert(digits@.take(k as int) =~= digits@);
    Some(value)
}

impl JsonNumber {
    /// Whether the number is written with a minus sign.
    pub fn is_negative(&self) -> (r: bool)
        ensures
            r == self@.negative,
    {
        self.negative
    }

    /// The mantissa, where it fits into 64 bits.
    pub fn mantissa(&self) -> (r: Option<u64>)
        requires
            self.wf(),
        ensures
            r == if self@.mantissa <= u64::MAX {
                Some(self@.mantissa as u64)
            } else {
                None
            },
    {
        match digits_value(&self.digits) {
            Some(value) => if value <= u64::MAX as u128 {
                Some(value as u64)
            } else {
                None
            },
            None => None,
        }
    }

    /// The power of ten by which the mantissa is scaled, where it fits into
    /// 64 bits.
    pub fn exponent(&self) -> (r: Option<i64>)
        requires
            self.wf(),
        ensures
            r == if i64::MIN <= self@.exponent <= i64::MAX {
                Some(self@.exponent as i64)
            } else {
                None
            },
    {
        match digits_value(&self.exponent_digits) {
            Some(written) => {
                if written > (i128::MAX / 2) as u128 {
                    // far beyond what 64 bits hold, whatever the scale
                    None
                } else {
                    let signed: i128 = if self.exponent_negative {
                        -(written as i128)
                    } else {
                        written as i128
                    };
                    let exponent: i128 = signed - self.scale as i128;
                    if exponent >= i64::MIN as i128 && exponent <= i64::MAX as i128 {
                        Some(exponent as i64)
                    } else {
                        None
                    }
                }
            },
            None => None,
        }
    }
}

impl View for JsonNumber {
    type V = DecimalNumber;

    open spec fn view(&self) -> DecimalNumber {
        DecimalNumber {
            negative: self.negative,
            mantissa: decimal_value(self.digits@),
            exponent: if self.exponent_negative {
                -(decimal_value(self.exponent_digits@) as int) - self.scale
            } else {
                decimal_value(self.exponent_digits@) as int - self.scale
            },
        }
    }
}

/// A parsed JSON value. A value owns its children.
#[derive(Debug, PartialEq)]
pub enum JsonResult {
    /// The members. Among members with the same key the last one counts.
    /// What `parse_object` gives holds each key once, at the place where it
    /// first occurs in the text.
    Object(Vec<(String, JsonResult)>),
    Array(Vec<JsonResult>),
    String(String),
    Number(JsonNumber),
    Boolean(bool),
    Null,
}

/// The models of a sequence of values, in order.
pub open spec fn items_view(items: Seq<JsonResult>) -> Seq<Json>
    decreases items,
{
    if items.len() == 0 {
        Seq::empty()
    } else {
        items_view(items.drop_last()).push(items.last().model())
    }
}

/// The mapping that a sequence of members builds when each is inserted in
/// turn: a later member replaces an earlier one with the same key.
pub open spec fn members_view(members: Seq<(String, JsonResult)>) -> Map<Seq<char>, Json>
    decreases members,
{
    if members.len() == 0 {
        Map::empty()
    } else {
        members_view(members.drop_last()).insert(members.last().0@, members.last().1.model())
    }
}

/// The keys of `members`, in their order.
pub open spec fn member_keys(members: Seq<(String, JsonResult)>) -> Seq<Seq<char>> {
    Seq::new(members.len(), |k: int| members[k].0@)
}

/// The keys `keys`, and after them `key` if it is not among them.
pub open spec fn with_key(keys: Seq<Seq<char>>, key: Seq<char>) -> Seq<Seq<char>> {
    if keys.contains(key) {
        keys
    } else {
        keys.push(key)
    }
}

/// Whether no two members have the same key.
pub open spec fn distinct_keys(members: Seq<(String, JsonResult)>) -> bool {
    forall|i: int, j: int|
        0 <= i < j < members.len() ==> (#[trigger] members[i]).0@ != (#[trigger] members[j]).0@
}

impl JsonResult {
    /// Well-formedness: in every object of the tree each key occurs once, and
    /// every number is well formed.
    pub open spec fn wf(&self) -> bool
        decreases self,
    {
        match self {
            JsonResult::Object(members) => {
                &&& distinct_keys(members@)
                &&& forall|i: int| 0 <= i < members@.len() ==> (#[trigger] members@[i]).1.wf()
            },
            JsonResult::Array(items) => forall|i: int|
                0 <= i < items@.len() ==> (#[trigger] items@[i]).wf(),
            JsonResult::Number(n) => n.wf(),
            _ => true,
        }
    }

    /// The keys of an object, in the order in which it holds them; of
    /// another value, none.
    pub open spec fn keys(&self) -> Seq<Seq<char>> {
        match self {
            JsonResult::Object(members) => member_keys(members@),
            _ => Seq::empty(),
        }
    }

    /// The value that this tree denotes.
    pub open spec fn model(&self) -> Json
        decreases self,
    {
        match self {
            JsonResult::Object(members) => Json::Object(members_view(members@)),
            JsonResult::Array(items) => Json::Array(items_view(items@)),
            JsonResult::String(s) => Json::String(s@),
            JsonResult::Number(n) => Json::Number(n@),
            JsonResult::Boolean(b) => Json::Boolean(*b),
            JsonResult::Null => Json::Null,
        }
    }
}

/// Adding a value at the end adds its model at the end.
pub proof fn lemma_items_view_push(items: Seq<JsonResult>, item: JsonResult)
    ensures
        items_view(items.push(item)) == items_view(items).push(item@),
{
    assert(items.push(item).drop_last() =~= items);
}

/// The models of a sequence of values stand at the same indices.
pub proof fn lemma_items_view_index(items: Seq<JsonResult>)
    ensures
        items_view(items).len() == items.len(),
        forall|i: int| 0 <= i < items.len() ==> #[trigger] items_view(items)[i] == items[i]@,
    decreases items.len(),
{
    if items.len() > 0 {
        lemma_items_view_index(items.drop_last());
    }
}

/// Adding a member at the end inserts it into the mapping.
pub proof fn lemma_members_view_push(members: Seq<(String, JsonResult)>, member: (String, JsonResult))
    ensures
        members_view(members.push(member)) == members_view(members).insert(member.0@, member.1@),
{
    assert(members.push(member).drop_last() =~= members);
}

/// Replacing the one member that has a given key inserts the new member
/// into the mapping.
pub proof fn lemma_members_view_update(
    members: Seq<(String, JsonResult)>,
    j: int,
    member: (String, JsonResult),
)
    requires
        0 <= j < members.len(),
        distinct_keys(members),
        members[j].0@ == member.0@,
    ensures
        members_view(members.update(j, member)) == members_view(members).insert(
            member.0@,
            member.1@,
        ),
        distinct_keys(members.update(j, member)),
    decreases members.len(),
{
    let updated = members.update(j, member);
    if j == members.len() - 1 {
        assert(updated.drop_last() =~= members.drop_last());
        assert(members_view(updated) =~= members_view(members).insert(member.0@, member.1@));
    } else {
        let rest = members.drop_last();
        assert(updated.drop_last() =~= rest.update(j, member));
        assert(distinct_keys(rest)) by {
            assert forall|a: int, b: int| 0 <= a < b < rest.len() implies (#[trigger] rest[a]).0@ != (
            #[trigger] rest[b]).0@ by {
                assert(rest[a] == members[a] && rest[b] == members[b]);
            }
        }
        lemma_members_view_update(rest, j, member);
        assert(members[j].0@ != members[members.len() - 1].0@);
        assert(members_view(updated) =~= members_view(members).insert(member.0@, member.1@));
    }
    assert forall|a: int, b: int| 0 <= a < b < updated.len() implies (#[trigger] updated[a]).0@ != (
    #[trigger] updated[b]).0@ by {
        assert(updated[a].0@ == members[a].0@);
        assert(updated[b].0@ == members[b].0@);
    }
}

/// A key is in the mapping exactly if some member has it.
pub proof fn lemma_members_view_keys(members: Seq<(String, JsonResult)>, key: Seq<char>)
    ensures
        members_view(members).contains_key(key) <==> exists|i: int|
            0 <= i < members.len() && (#[trigger] members[i]).0@ == key,
    decreases members.len(),
{
    if members.len() > 0 {
        let rest = members.drop_last();
        lemma_members_view_keys(rest, key);
        if members_view(members).contains_key(key) {
            if members.last().0@ == key {
                assert(members[members.len() - 1].0@ == key);
            } else {
                let i = choose|i: int| 0 <= i < rest.len() && (#[trigger] rest[i]).0@ == key;
                assert(members[i].0@ == key);
            }
        }
        if exists|i: int| 0 <= i < members.len() && (#[trigger] members[i]).0@ == key {
            let i = choose|i: int| 0 <= i < members.len() && (#[trigger] members[i]).0@ == key;
            if i < members.len() - 1 {
                assert(rest[i].0@ == key);
            }
        }
    }
}

/// `after` is `before` with `member` in place of the member that has its
/// key, or with `member` added at the end where no member has its key.
pub open spec fn replaced_or_added(
    before: Seq<(String, JsonResult)>,
    after: Seq<(String, JsonResult)>,
    member: (String, JsonResult),
) -> bool {
    ||| exists|j: int|
        0 <= j < before.len() && (#[trigger] before[j]).0@ == member.0@ && after == before.update(
            j,
            member,
        )
    ||| (forall|j: int| 0 <= j < before.len() ==> (#[trigger] before[j]).0@ != member.0@) && after
        == before.push(member)
}

/// Puts the member `key`, `value` into `members`: in place of the member
/// that has the key already, or else at the end.
pub fn insert_member(members: &mut Vec<(String, JsonResult)>, key: String, value: JsonResult)
    requires
        distinct_keys(old(members)@),
    ensures
        distinct_keys(final(members)@),
        members_view(final(members)@) == members_view(old(members)@).insert(key@, value@),
        replaced_or_added(old(members)@, final(members)@, (key, value)),
        member_keys(final(members)@) == with_key(member_keys(old(members)@), key@),
        (forall|i: int| 0 <= i < old(members)@.len() ==> (#[trigger] old(members)@[i]).1.wf())
            && value.wf() ==> forall|i: int|
            0 <= i < final(members)@.len() ==> (#[trigger] final(members)@[i]).1.wf(),
{
    let mut j: usize = 0;
    while j < members.len()
        invariant
            *members == *old(members),
            distinct_keys(members@),
            j <= members.len(),
            forall|i: int| 0 <= i < j ==> (#[trigger] members@[i]).0@ != key@,
        decreases members.len() - j,
    {
        if members[j].0 == key {
            proof {
                lemma_members_view_update(members@, j as int, (key, value));
                assert(member_keys(members@)[j as int] == key@);
                assert(member_keys(members@.update(j as int, (key, value))) =~= member_keys(
                    members@,
                ));
            }
            members.set(j, (key, value));
            return ;
        }
        j = j + 1;
    }
    proof {
        lemma_members_view_push(members@, (key, value));
        assert(member_keys(members@.push((key, value))) =~= member_keys(members@).push(key@));
    }
    members.push((key, value));
}

/// The mapping holds for a key the value of the last member that has it.
pub proof fn lemma_members_view_last(members: Seq<(String, JsonResult)>, key: Seq<char>, j: int)
    requires
        0 <= j < members.len(),
        members[j].0@ == key,
        forall|i: int| j < i < members.len() ==> (#[trigger] members[i]).0@ != key,
    ensures
        members_view(members).contains_key(key),
        members_view(members)[key] == members[j].1@,
    decreases members.len(),
{
    if j < members.len() - 1 {
        let rest = members.drop_last();
        assert(members[members.len() - 1].0@ != key);
        assert forall|i: int| j < i < rest.len() implies (#[trigger] rest[i]).0@ != key by {
            assert(rest[i] == members[i]);
        }
        lemma_members_view_last(rest, key, j);
    }
}

impl JsonResult {
    /// The value of the member `key` of an object; `None` where the object
    /// has no such member, and for a value that is no object.
    #[verifier::loop_isolation(false)]
    pub fn get(&self, key: &str) -> (r: Option<&JsonResult>)
        ensures
            match self@ {
                Json::Object(members) => if members.contains_key(key@) {
                    r matches Some(v) && v@ == members[key@]
                } else {
                    r is None
                },
                _ => r is None,
            },
            self.wf() ==> (r matches Some(v) ==> v.wf()),
    {
        match self {
            JsonResult::Object(members) => {
                let wanted = key.to_owned();
                let mut j: usize = members.len();
                while j > 0
                    invariant
                        j <= members.len(),
                        wanted@ == key@,
                        forall|i: int| j <= i < members@.len() ==> (#[trigger] members@[i]).0@ != key@,
                    decreases j,
                {
                    j = j - 1;
                    if members[j].0 == wanted {
                        proof {
                            lemma_members_view_last(members@, key@, j as int);
                        }
                        return Some(&members[j].1);
                    }
                }
                proof {
                    lemma_members_view_keys(members@, key@);
                }
                None
            },
            _ => None,
        }
    }

    /// How many members an object holds; `None` for a value that is no
    /// object. In a well-formed object that is the number of its keys.
    pub fn member_count(&self) -> (r: Option<usize>)
        ensures
            r == match *self {
                JsonResult::Object(members) => Some(members@.len() as usize),
                _ => None,
            },
            self.wf() ==> (self@ matches Json::Object(mapping) ==> mapping.dom().finite() && r
                == Some(mapping.dom().len() as usize)),
    {
        match self {
            JsonResult::Object(members) => {
                proof {
                    if self.wf() {
                        lemma_members_view_count(members@);
                    }
                }
                Some(members.len())
            },
            _ => None,
        }
    }

    /// The element of an array at `index`; `None` past the end, and for a
    /// value that is no array.
    pub fn at(&self, index: usize) -> (r: Option<&JsonResult>)
        ensures
            match self@ {
                Json::Array(items) => if index < items.len() {
                    r matches Some(v) && v@ == items[index as int]
                } else {
                    r is None
                },
                _ => r is None,
            },
            self.wf() ==> (r matches Some(v) ==> v.wf()),
    {
        match self {
            JsonResult::Array(items) => {
                proof {
                    lemma_items_view_index(items@);
                }
                if index < items.len() {
                    Some(&items[index])
                } else {
                    None
                }
            },
            _ => None,
        }
    }

    /// How many elements an array has; `None` for a value that is no array.
    pub fn len(&self) -> (r: Option<usize>)
        ensures
            match self@ {
                Json::Array(items) => r == Some(items.len() as usize),
                _ => r is None,
            },
    {
        match self {
            JsonResult::Array(items) => {
                proof {
                    lemma_items_view_index(items@);
                }
                Some(items.len())
            },
            _ => None,
        }
    }

    /// The characters of a string; `None` for a value that is no string.
    pub fn as_str(&self) -> (r: Option<&str>)
        ensures
            match self@ {
                Json::String(chars) => r matches Some(text) && text@ == chars,
                _ => r is None,
            },
    {
        match self {
            JsonResult::String(text) => Some(text.as_str()),
            _ => None,
        }
    }

    /// The number; `None` for a value that is no number.
    pub fn as_number(&self) -> (r: Option<&JsonNumber>)
        ensures
            match self@ {
                Json::Number(number) => r matches Some(n) && n@ == number,
                _ => r is None,
            },
            self.wf() ==> (r matches Some(n) ==> n.wf()),
    {
        match self {
            JsonResult::Number(number) => Some(number),
            _ => None,
        }
    }

    /// The truth value; `None` for a value that is no boolean.
    pub fn as_bool(&self) -> (r: Option<bool>)
        ensures
            r == match self@ {
                Json::Boolean(b) => Some(b),
                _ => None,
            },
    {
        match self {
            JsonResult::Boolean(b) => Some(*b),
            _ => None,
        }
    }

    /// Whether the value is `null`.
    pub fn is_null(&self) -> (r: bool)
        ensures
            r == (self@ is Null),
    {
        match self {
            JsonResult::Null => true,
            _ => false,
        }
    }
}

/// Members with distinct keys make a mapping with as many keys.
pub proof fn lemma_members_view_count(members: Seq<(String, JsonResult)>)
    requires
        distinct_keys(members),
    ensures
        members_view(members).dom().finite(),
        members_view(members).dom().len() == members.len(),
    decreases members.len(),
{
    if members.len() > 0 {
        let rest = members.drop_last();
        assert forall|a: int, b: int| 0 <= a < b < rest.len() implies (#[trigger] rest[a]).0@ != (
        #[trigger] rest[b]).0@ by {
            assert(rest[a] == members[a] && rest[b] == members[b]);
        }
        lemma_members_view_count(rest);
        lemma_members_view_keys(rest, members.last().0@);
        if members_view(rest).contains_key(members.last().0@) {
            let i = choose|i: int| 0 <= i < rest.len() && (#[trigger] rest[i]).0@ == members.last().0@;
            assert(members[i].0@ == members[members.len() - 1].0@);
        }
    }
}

impl View for JsonResult {
    type V = Json;

    open spec fn view(&self) -> Json {
        self.model()
    }
}

} // verus!
