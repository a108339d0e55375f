//! The grammar, as functions from text to what a parse of it must yield.
//!
//! Every parser of this crate is held to one of these functions: it returns
//! exactly what the function of the same name gives for the text it was handed.

use vstd::prelude::*;
use crate::error::{ErrorKind, Failure, Parsed};
use crate::value::{decimal, integral, is_digit, Json, Literal};

verus! {

/// Whether `tail` is what is left of `whole` once some chars are taken from its front.
pub open spec fn is_tail_of(tail: Seq<char>, whole: Seq<char>) -> bool {
    tail.len() <= whole.len() && tail =~= whole.skip(whole.len() - tail.len())
}

/// Whether `c` is insignificant between tokens: space, tab, line feed or carriage return.
pub open spec fn is_space(c: char) -> bool {
    c == ' ' || c == '\t' || c == '\n' || c == '\r'
}

/// How many whitespace chars `s` starts with.
pub open spec fn space_len(s: Seq<char>) -> nat
    decreases s.len(),
{
    if s.len() > 0 && is_space(s[0]) {
        1 + space_len(s.skip(1))
    } else {
        0
    }
}

/// `s` without its leading whitespace.
pub open spec fn trim(s: Seq<char>) -> Seq<char> {
    s.skip(space_len(s) as int)
}

/// How many decimal digits `s` starts with.
pub open spec fn digit_len(s: Seq<char>) -> nat
    decreases s.len(),
{
    if s.len() > 0 && is_digit(s[0]) {
        1 + digit_len(s.skip(1))
    } else {
        0
    }
}

/// A success that yields `value` and leaves `rest` unread.
pub open spec fn done<T>(rest: Seq<char>, value: T) -> Parsed<T> {
    Ok((rest, value))
}

/// A failure of kind `kind` with `remaining` left unread.
pub open spec fn fail<T>(remaining: Seq<char>, kind: ErrorKind) -> Parsed<T> {
    Err(Failure { remaining, kind })
}

/// One required char `c` at the front of `s`.
pub open spec fn expect(s: Seq<char>, c: char) -> Parsed<()> {
    if s.len() > 0 && s[0] == c {
        Ok((s.skip(1), ()))
    } else {
        fail(s, ErrorKind::Char)
    }
}

/// The required word `word` at the front of `s`.
pub open spec fn keyword(s: Seq<char>, word: Seq<char>) -> Parsed<()> {
    if word.is_prefix_of(s) {
        Ok((s.skip(word.len() as int), ()))
    } else {
        fail(s, ErrorKind::Tag)
    }
}

/// Whether `c` may follow a backslash inside a string.
pub open spec fn is_escapable(c: char) -> bool {
    c == '"' || c == '\\'
}

/// Where the closing quote of a string stands, scanning `body` from index `i`.
/// `body` is the text behind the opening quote. A backslash takes the char
/// behind it along, so an escaped quote does not close the string.
///
/// Three things stop the scan short of a closing quote: the text runs out
/// (a quote was required at its very end); a backslash is followed by a char
/// that cannot be escaped (that char is where the failure lies); or a
/// backslash is the last char of the text (reported against the whole body).
pub open spec fn closing_quote(body: Seq<char>, i: int) -> Result<int, Failure>
    decreases body.len() - i,
{
    if i < 0 || i >= body.len() {
        Err(Failure { remaining: Seq::empty(), kind: ErrorKind::Char })
    } else if body[i] == '"' {
        Ok(i)
    } else if body[i] == '\\' {
        if i + 1 >= body.len() {
            Err(Failure { remaining: body, kind: ErrorKind::Escaped })
        } else if is_escapable(body[i + 1]) {
            closing_quote(body, i + 2)
        } else {
            Err(Failure { remaining: body.skip(i + 1), kind: ErrorKind::Char })
        }
    } else {
        closing_quote(body, i + 1)
    }
}

/// A string literal: a quote, the raw text up to the next unescaped quote, and
/// that quote. The text comes out as written, escapes undecoded.
pub open spec fn string(s: Seq<char>) -> Parsed<Seq<char>> {
    match expect(s, '"') {
        Err(e) => Err(e),
        Ok((body, _)) => match closing_quote(body, 0) {
            Err(e) => Err(e),
            Ok(n) => Ok((body.skip(n + 1), body.take(n))),
        },
    }
}

/// A number literal: digits, then optionally a point and more digits. A point
/// with no digit behind it is not part of the number.
pub open spec fn number(s: Seq<char>) -> Parsed<Literal> {
    let n = digit_len(s) as int;
    let t = s.skip(n);
    let m = digit_len(t.skip(1)) as int;
    if n == 0 {
        fail(s, ErrorKind::Digit)
    } else if t.len() > 0 && t[0] == '.' && m > 0 {
        Ok((t.skip(1 + m), decimal(s.take(n), t.subrange(1, 1 + m))))
    } else {
        Ok((t, integral(s.take(n))))
    }
}

/// The word `true`.
pub open spec fn word_true() -> Seq<char> {
    seq!['t', 'r', 'u', 'e']
}

/// The word `false`.
pub open spec fn word_false() -> Seq<char> {
    seq!['f', 'a', 'l', 's', 'e']
}

/// The word `null`.
pub open spec fn word_null() -> Seq<char> {
    seq!['n', 'u', 'l', 'l']
}

/// One of the words `true` and `false`.
pub open spec fn boolean(s: Seq<char>) -> Parsed<bool> {
    match keyword(s, word_true()) {
        Ok((rest, _)) => Ok((rest, true)),
        Err(_) => match keyword(s, word_false()) {
            Ok((rest, _)) => Ok((rest, false)),
            Err(e) => Err(e),
        },
    }
}

/// The word `null`.
pub open spec fn null(s: Seq<char>) -> Parsed<()> {
    keyword(s, word_null())
}

/// The char `c`, after any whitespace.
pub open spec fn punct(s: Seq<char>, c: char) -> Parsed<()> {
    expect(trim(s), c)
}

/// What separates two members of an object: a comma with any whitespace on
/// either side of it.
pub open spec fn member_comma(s: Seq<char>) -> Parsed<()> {
    match punct(s, ',') {
        Err(e) => Err(e),
        Ok((rest, _)) => Ok((trim(rest), ())),
    }
}

/// A value that holds no other: a string, a number, a boolean or null, tried
/// in that order. When none is there, the failure is that of the last.
pub open spec fn scalar(s: Seq<char>) -> Parsed<Json> {
    match string(s) {
        Ok((rest, text)) => Ok((rest, Json::String(text))),
        Err(_) => match number(s) {
            Ok((rest, literal)) => Ok((rest, Json::Number(literal))),
            Err(_) => match boolean(s) {
                Ok((rest, flag)) => Ok((rest, Json::Boolean(flag))),
                Err(_) => match null(s) {
                    Ok((rest, _)) => Ok((rest, Json::Null)),
                    Err(e) => Err(e),
                },
            },
        },
    }
}

/// Any value, after any whitespace. The alternatives are tried in the order
/// object, array, string, number, boolean, null and the first that succeeds
/// is taken. When none does, the failure is that of the last one, at the
/// first char that is not whitespace.
pub open spec fn value(s: Seq<char>) -> Parsed<Json>
    decreases s.len(), 3nat,
    via value_decreases
{
    let t = trim(s);
    if object(t) is Ok {
        object(t)
    } else if array(t) is Ok {
        array(t)
    } else {
        scalar(t)
    }
}

/// An object: `{`, members separated by commas, `}`.
pub open spec fn object(s: Seq<char>) -> Parsed<Json>
    decreases s.len(), 2nat,
    via object_decreases
{
    match punct(s, '{') {
        Err(e) => Err(e),
        Ok((inner, _)) => {
            let (rest, pairs) = members(inner);
            match punct(rest, '}') {
                Err(e) => Err(e),
                Ok((after, _)) => Ok((after, Json::Object(pairs))),
            }
        },
    }
}

/// One member of an object: a string key, a colon, a value.
pub open spec fn member(s: Seq<char>) -> Parsed<(Seq<char>, Json)>
    decreases s.len(), 0nat,
    via member_decreases
{
    match string(s) {
        Err(e) => Err(e),
        Ok((after_key, key)) => match punct(after_key, ':') {
            Err(e) => Err(e),
            Ok((after_colon, _)) => match value(after_colon) {
                Err(e) => Err(e),
                Ok((rest, v)) => Ok((rest, (key, v))),
            },
        },
    }
}

/// The members of an object, as many as can be read, and the text behind the
/// last of them. Reading never fails: it stops in front of what is not a member.
///
/// A member always takes at least one char, so the test on the lengths is
/// true wherever it is reached; it is there to show that the reading ends.
pub open spec fn members(s: Seq<char>) -> (Seq<char>, Seq<(Seq<char>, Json)>)
    decreases s.len(), 1nat,
{
    match member(s) {
        Ok((rest, first)) if rest.len() < s.len() => {
            let (end, others) = more_members(rest);
            (end, seq![first] + others)
        },
        _ => (s, Seq::empty()),
    }
}

/// The members behind the first one, each with a comma in front of it. A comma
/// that no member follows is left unread.
pub open spec fn more_members(s: Seq<char>) -> (Seq<char>, Seq<(Seq<char>, Json)>)
    decreases s.len(), 1nat,
    via more_members_decreases
{
    match member_comma(s) {
        Err(_) => (s, Seq::empty()),
        Ok((after_comma, _)) => match member(after_comma) {
            Ok((rest, next)) if rest.len() < s.len() => {
                let (end, others) = more_members(rest);
                (end, seq![next] + others)
            },
            _ => (s, Seq::empty()),
        },
    }
}

/// An array: `[`, values separated by commas, `]`.
pub open spec fn array(s: Seq<char>) -> Parsed<Json>
    decreases s.len(), 2nat,
    via array_decreases
{
    match punct(s, '[') {
        Err(e) => Err(e),
        Ok((inner, _)) => {
            let (rest, items) = elements(inner);
            match punct(rest, ']') {
                Err(e) => Err(e),
                Ok((after, _)) => Ok((after, Json::Array(items))),
            }
        },
    }
}

/// The elements of an array, as many as can be read, and the text behind the
/// last of them. Reading never fails: it stops in front of what is not a value.
///
/// A value always takes at least one char, so the test on the lengths is true
/// wherever it is reached; it is there to show that the reading ends.
pub open spec fn elements(s: Seq<char>) -> (Seq<char>, Seq<Json>)
    decreases s.len(), 4nat,
{
    match value(s) {
        Ok((rest, first)) if rest.len() < s.len() => {
            let (end, others) = more_elements(rest);
            (end, seq![first] + others)
        },
        _ => (s, Seq::empty()),
    }
}

/// The elements behind the first one, each with a comma in front of it. A
/// comma that no value follows is left unread.
pub open spec fn more_elements(s: Seq<char>) -> (Seq<char>, Seq<Json>)
    decreases s.len(), 4nat,
    via more_elements_decreases
{
    match punct(s, ',') {
        Err(_) => (s, Seq::empty()),
        Ok((after_comma, _)) => match value(after_comma) {
            Ok((rest, next)) if rest.len() < s.len() => {
                let (end, others) = more_elements(rest);
                (end, seq![next] + others)
            },
            _ => (s, Seq::empty()),
        },
    }
}

/// A whole text: one value, after any whitespace. What follows the value is
/// handed back unread.
pub open spec fn json(s: Seq<char>) -> Parsed<Json> {
    value(trim(s))
}

/// Leading whitespace never reaches past the end of the text.
pub proof fn lemma_space_len_bound(s: Seq<char>)
    ensures
        space_len(s) <= s.len(),
        trim(s).len() == s.len() - space_len(s),
    decreases s.len(),
{
    if s.len() > 0 && is_space(s[0]) {
        lemma_space_len_bound(s.skip(1));
    }
}

/// Leading digits never reach past the end of the text.
pub proof fn lemma_digit_len_bound(s: Seq<char>)
    ensures
        digit_len(s) <= s.len(),
    decreases s.len(),
{
    if s.len() > 0 && is_digit(s[0]) {
        lemma_digit_len_bound(s.skip(1));
    }
}

/// A closing quote, where there is one, lies inside the body and at or behind
/// the index the scan started from.
pub proof fn lemma_closing_quote_bound(body: Seq<char>, i: int)
    requires
        0 <= i,
    ensures
        closing_quote(body, i) matches Ok(n) ==> i <= n < body.len() && body[n] == '"',
    decreases body.len() - i,
{
    if i < body.len() && body[i] != '"' {
        if body[i] == '\\' {
            if i + 1 < body.len() && is_escapable(body[i + 1]) {
                lemma_closing_quote_bound(body, i + 2);
            }
        } else {
            lemma_closing_quote_bound(body, i + 1);
        }
    }
}

/// A punctuation char, once read, leaves less text than there was.
pub proof fn lemma_punct_shortens(s: Seq<char>, c: char)
    ensures
        punct(s, c) matches Ok((rest, _)) ==> rest.len() < s.len(),
{
    lemma_space_len_bound(s);
}

/// A string, once read, leaves less text than there was.
pub proof fn lemma_string_shortens(s: Seq<char>)
    ensures
        string(s) matches Ok((rest, _)) ==> rest.len() < s.len(),
{
    if s.len() > 0 {
        lemma_closing_quote_bound(s.skip(1), 0);
    }
}

#[via_fn]
proof fn value_decreases(s: Seq<char>) {
    lemma_space_len_bound(s);
}

#[via_fn]
proof fn object_decreases(s: Seq<char>) {
    lemma_punct_shortens(s, '{');
}

#[via_fn]
proof fn array_decreases(s: Seq<char>) {
    lemma_punct_shortens(s, '[');
}

#[via_fn]
proof fn member_decreases(s: Seq<char>) {
    lemma_string_shortens(s);
    match string(s) {
        Ok((after_key, _)) => lemma_punct_shortens(after_key, ':'),
        Err(_) => {},
    }
}

#[via_fn]
proof fn more_members_decreases(s: Seq<char>) {
    lemma_punct_shortens(s, ',');
    match punct(s, ',') {
        Ok((rest, _)) => lemma_space_len_bound(rest),
        Err(_) => {},
    }
}

#[via_fn]
proof fn more_elements_decreases(s: Seq<char>) {
    lemma_punct_shortens(s, ',');
}

} // verus!
