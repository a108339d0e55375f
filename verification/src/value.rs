//! The value tree and the mathematical trees that contracts speak of.

use vstd::prelude::*;

verus! {

/// Whether `c` is one of the ten decimal digits.
pub open spec fn is_digit(c: char) -> bool {
    '0' <= c <= '9'
}

/// Whether every char of `s` is a decimal digit.
pub open spec fn all_digits(s: Seq<char>) -> bool {
    forall|i: int| 0 <= i < s.len() ==> is_digit(#[trigger] s[i])
}

/// Ten to the power `n`.
pub open spec fn pow10(n: nat) -> nat
    decreases n,
{
    if n == 0 {
        1
    } else {
        10 * pow10((n - 1) as nat)
    }
}

/// The number from zero to nine that the digit `c` stands for.
pub open spec fn digit_value(c: char) -> nat {
    if is_digit(c) {
        (c as u32 - '0' as u32) as nat
    } else {
        0
    }
}

/// The number that a run of decimal digits writes in base ten; the empty run writes zero.
pub open spec fn digits_value(s: Seq<char>) -> nat
    decreases s.len(),
{
    if s.len() == 0 {
        0
    } else {
        10 * digits_value(s.drop_last()) + digit_value(s.last())
    }
}

/// A number literal as mathematics sees it: the digits before the point and the
/// digits after it. With no digits after the point the literal is a plain integer.
pub struct Literal {
    pub integer: Seq<char>,
    pub fraction: Seq<char>,
}

impl Literal {
    /// Both parts are digits and there is at least one before the point.
    pub open spec fn wf(self) -> bool {
        &&& self.integer.len() > 0
        &&& all_digits(self.integer)
        &&& all_digits(self.fraction)
    }

    /// How many digits stand after the point.
    pub open spec fn scale(self) -> nat {
        self.fraction.len()
    }

    /// All the digits read as one integer: the exact value is
    /// `mantissa() / 10^scale()`.
    pub open spec fn mantissa(self) -> nat {
        digits_value(self.integer + self.fraction)
    }

    /// The literal as it is written: the digits, with a point between the two
    /// runs where there is a second one.
    pub open spec fn text(self) -> Seq<char> {
        if self.fraction.len() == 0 {
            self.integer
        } else {
            self.integer + seq!['.'] + self.fraction
        }
    }
}

/// The literal of a plain integer written with `digits`.
pub open spec fn integral(digits: Seq<char>) -> Literal {
    Literal { integer: digits, fraction: Seq::empty() }
}

/// The literal written with `integer` before the point and `fraction` behind it.
pub open spec fn decimal(integer: Seq<char>, fraction: Seq<char>) -> Literal {
    Literal { integer, fraction }
}

/// A non-negative decimal number, kept exactly as its digits. The parsers
/// only build numbers that are well formed (see [`Literal::wf`]).
#[derive(Debug)]
pub struct Decimal {
    /// The digits before the point, at least one.
    pub integer: String,
    /// The digits after the point; empty for a plain integer.
    pub fraction: String,
}

impl View for Decimal {
    type V = Literal;

    open spec fn view(&self) -> Literal {
        Literal { integer: self.integer@, fraction: self.fraction@ }
    }
}

/// A value tree as mathematics sees it.
pub enum Json {
    Object(Seq<(Seq<char>, Json)>),
    Array(Seq<Json>),
    String(Seq<char>),
    Number(Literal),
    Boolean(bool),
    Null,
}

impl Json {
    /// Every number in the tree is a well-formed literal.
    pub open spec fn wf(self) -> bool
        decreases self,
    {
        match self {
            Json::Object(pairs) => forall|i: int|
                0 <= i < pairs.len() ==> (#[trigger] pairs[i]).1.wf(),
            Json::Array(items) => forall|i: int|
                0 <= i < items.len() ==> (#[trigger] items[i]).wf(),
            Json::Number(literal) => literal.wf(),
            _ => true,
        }
    }
}

/// A parsed value. An object keeps its pairs in source order, duplicate keys included.
#[derive(Debug)]
pub enum JsonValue {
    Object(Vec<(String, JsonValue)>),
    Array(Vec<JsonValue>),
    String(String),
    Number(Decimal),
    Boolean(bool),
    Null,
}

impl View for JsonValue {
    type V = Json;

    /// The tree with each part seen in its place. (The trees named for
    /// indices out of range only fill the function out: no index reaches them.)
    open spec fn view(&self) -> Json
        decreases self,
    {
        match self {
            JsonValue::Object(pairs) => {
                let values: Seq<Json> = Seq::new(
                    pairs.len() as nat,
                    |i: int|
                        if 0 <= i < pairs.len() {
                            pairs[i].1.view()
                        } else {
                            Json::Null
                        },
                );
                Json::Object(Seq::new(pairs.len() as nat, |i: int| (pairs[i].0@, values[i])))
            },
            JsonValue::Array(items) => Json::Array(
                Seq::new(
                    items.len() as nat,
                    |i: int|
                        if 0 <= i < items.len() {
                            items[i].view()
                        } else {
                            Json::Null
                        },
                ),
            ),
            JsonValue::String(s) => Json::String(s@),
            JsonValue::Number(d) => Json::Number(d@),
            JsonValue::Boolean(b) => Json::Boolean(*b),
            JsonValue::Null => Json::Null,
        }
    }
}

/// The views of a run of values, each in its place.
pub open spec fn views(items: Seq<JsonValue>) -> Seq<Json> {
    Seq::new(items.len(), |i: int| items[i]@)
}

/// The views of a run of key and value pairs, each in its place.
pub open spec fn pair_views(pairs: Seq<(String, JsonValue)>) -> Seq<(Seq<char>, Json)> {
    Seq::new(pairs.len(), |i: int| (pairs[i].0@, pairs[i].1@))
}

/// An array is seen as the array of what its elements are seen as.
pub proof fn lemma_array_view(items: Vec<JsonValue>)
    ensures
        JsonValue::Array(items)@ == Json::Array(views(items@)),
{
    assert(JsonValue::Array(items)@->Array_0 =~= views(items@));
}

/// An object is seen as the object of what its pairs are seen as.
pub proof fn lemma_object_view(pairs: Vec<(String, JsonValue)>)
    ensures
        JsonValue::Object(pairs)@ == Json::Object(pair_views(pairs@)),
{
    assert(JsonValue::Object(pairs)@->Object_0 =~= pair_views(pairs@));
}

} // verus!
