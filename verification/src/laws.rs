//! What holds of the grammar on every text of a given shape.

use vstd::prelude::*;
use vstd::std_specs::cmp::PartialEqSpec;
use crate::error::{ErrorKind, Failure, ParseError, outcome};
use crate::grammar::{
    array, boolean, closing_quote, digit_len, done, elements, fail, is_escapable, is_space,
    is_tail_of, json, lemma_closing_quote_bound, lemma_space_len_bound, members, null, number,
    object, punct, space_len, string, trim, value, word_true,
};
use crate::progress::{
    lemma_elements_leave_tail, lemma_members_leave_tail, lemma_punct_advances, lemma_tail_of_tail,
    lemma_trim_is_tail,
};
use crate::value::{
    all_digits, decimal, digit_value, digits_value, integral, is_digit, pow10, Json, JsonValue,
    Literal,
};

verus! {

/// The digits that a text starts with are its longest run of digits from the
/// front: each of them is a digit, and what follows them is none.
pub proof fn lemma_digit_run(s: Seq<char>)
    ensures
        digit_len(s) <= s.len(),
        forall|i: int| 0 <= i < digit_len(s) ==> is_digit(#[trigger] s[i]),
        digit_len(s) < s.len() ==> !is_digit(s[digit_len(s) as int]),
    decreases s.len(),
{
    if s.len() > 0 && is_digit(s[0]) {
        lemma_digit_run(s.skip(1));
        assert forall|i: int| 0 <= i < digit_len(s) implies is_digit(#[trigger] s[i]) by {
            if i > 0 {
                assert(s[i] == s.skip(1)[i - 1]);
            }
        }
    }
}

/// The whitespace that a text starts with is its longest run of whitespace
/// from the front: each of its chars is whitespace, and what follows it is none.
pub proof fn lemma_space_run(s: Seq<char>)
    ensures
        space_len(s) <= s.len(),
        forall|i: int| 0 <= i < space_len(s) ==> is_space(#[trigger] s[i]),
        space_len(s) < s.len() ==> !is_space(s[space_len(s) as int]),
    decreases s.len(),
{
    if s.len() > 0 && is_space(s[0]) {
        lemma_space_run(s.skip(1));
        assert forall|i: int| 0 <= i < space_len(s) implies is_space(#[trigger] s[i]) by {
            if i > 0 {
                assert(s[i] == s.skip(1)[i - 1]);
            }
        }
    }
}

/// A run of digits followed by more text starts with as many digits as the
/// run has and as the text behind it starts with.
pub proof fn lemma_digit_len_concat(digits: Seq<char>, t: Seq<char>)
    requires
        all_digits(digits),
    ensures
        digit_len(digits + t) == digits.len() + digit_len(t),
    decreases digits.len(),
{
    if digits.len() == 0 {
        assert(digits + t =~= t);
    } else {
        let s = digits + t;
        assert(s[0] == digits[0]);
        assert(s.skip(1) =~= digits.skip(1) + t);
        lemma_digit_len_concat(digits.skip(1), t);
    }
}

/// Writing two runs of digits one behind the other shifts the first by as
/// many decimal places as the second has digits.
pub proof fn lemma_digits_value_concat(a: Seq<char>, b: Seq<char>)
    ensures
        digits_value(a + b) == digits_value(a) * pow10(b.len()) + digits_value(b),
    decreases b.len(),
{
    let front = digits_value(a) as int;
    if b.len() == 0 {
        assert(a + b =~= a);
        assert(pow10(0) == 1);
        assert(front * 1 == front);
    } else {
        let s = a + b;
        assert(s.drop_last() =~= a + b.drop_last());
        assert(s.last() == b.last());
        lemma_digits_value_concat(a, b.drop_last());
        let k = b.drop_last().len();
        let shift = pow10(k) as int;
        let low = digits_value(b.drop_last()) as int;
        let unit = digit_value(b.last()) as int;
        assert(pow10(b.len()) == 10 * shift);
        assert(10 * (front * shift) == front * (10 * shift)) by (nonlinear_arith);
        assert(digits_value(s) == 10 * (front * shift + low) + unit);
        assert(digits_value(b) == 10 * low + unit);
    }
}

/// A well-formed literal is read back from its own text, whatever follows
/// it, as long as what follows would not make the literal longer: it starts
/// with no digit, and behind a plain integer it does not start with a point
/// and a digit.
pub proof fn lemma_number_reads_literal(literal: Literal, rest: Seq<char>)
    requires
        literal.wf(),
        rest.len() > 0 ==> !is_digit(rest[0]),
        literal.fraction.len() == 0 && rest.len() > 1 && rest[0] == '.' ==> !is_digit(rest[1]),
    ensures
        number(literal.text() + rest) == done(rest, literal),
{
    let s = literal.text() + rest;
    let integer = literal.integer;
    let fraction = literal.fraction;
    let n = integer.len() as int;
    if fraction.len() == 0 {
        lemma_digit_len_concat(integer, rest);
        assert(s.skip(n) =~= rest);
        assert(s.take(n) =~= integer);
        assert(fraction =~= Seq::<char>::empty());
        if rest.len() > 1 && rest[0] == '.' {
            assert(rest.skip(1)[0] == rest[1]);
        }
    } else {
        let behind = seq!['.'] + fraction + rest;
        assert(s =~= integer + behind);
        lemma_digit_len_concat(integer, behind);
        assert(digit_len(behind) == 0);
        let t = s.skip(n);
        assert(t =~= behind);
        assert(t.skip(1) =~= fraction + rest);
        lemma_digit_len_concat(fraction, rest);
        let m = fraction.len() as int;
        assert(t.skip(1 + m) =~= rest);
        assert(t.subrange(1, 1 + m) =~= fraction);
        assert(s.take(n) =~= integer);
    }
}

/// A text that is nothing but digits parses as that integer, exactly and
/// with nothing left over.
pub proof fn lemma_integer_literal(digits: Seq<char>)
    requires
        digits.len() > 0,
        all_digits(digits),
    ensures
        number(digits) == done(Seq::empty(), integral(digits)),
        integral(digits).mantissa() == digits_value(digits),
        integral(digits).scale() == 0,
{
    let none = Seq::<char>::empty();
    lemma_number_reads_literal(integral(digits), none);
    assert(digits + none =~= digits);
}

/// A text made of digits, a point and digits parses as that decimal number,
/// exactly and with nothing left over: its value is the digits before the
/// point plus the digits behind it over ten to the power of their count.
/// Stated without division: the value times that power of ten is the first
/// run shifted by that many places plus the second run.
pub proof fn lemma_decimal_literal(integer: Seq<char>, fraction: Seq<char>)
    requires
        integer.len() > 0,
        all_digits(integer),
        fraction.len() > 0,
        all_digits(fraction),
    ensures
        number(integer + seq!['.'] + fraction) == done(Seq::empty(), decimal(integer, fraction)),
        decimal(integer, fraction).scale() == fraction.len(),
        decimal(integer, fraction).mantissa() == digits_value(integer) * pow10(fraction.len())
            + digits_value(fraction),
{
    let none = Seq::<char>::empty();
    lemma_number_reads_literal(decimal(integer, fraction), none);
    assert(integer + seq!['.'] + fraction + none =~= integer + seq!['.'] + fraction);
    lemma_digits_value_concat(integer, fraction);
}

/// Where no digit stands first, no number is read and nothing is consumed.
pub proof fn lemma_number_needs_digit(s: Seq<char>)
    ensures
        number(s) is Err <==> (s.len() == 0 || !is_digit(s[0])),
        number(s) is Err ==> number(s) == fail::<Literal>(s, ErrorKind::Digit),
{
}

/// Whether `body`, from index `i` on, can stand between two quotes: it holds
/// no quote but behind a backslash, and each backslash is followed by a
/// quote or a backslash, which it takes along.
pub open spec fn well_escaped(body: Seq<char>, i: int) -> bool
    decreases body.len() - i,
{
    if i < 0 || i >= body.len() {
        true
    } else if body[i] == '"' {
        false
    } else if body[i] == '\\' {
        i + 1 < body.len() && is_escapable(body[i + 1]) && well_escaped(body, i + 2)
    } else {
        well_escaped(body, i + 1)
    }
}

/// In a well-escaped body that a quote follows, that quote is the closing one.
pub proof fn lemma_closing_quote_found(body: Seq<char>, tail: Seq<char>, i: int)
    requires
        0 <= i <= body.len(),
        well_escaped(body, i),
    ensures
        closing_quote(body + seq!['"'] + tail, i) == Ok::<int, Failure>(body.len() as int),
    decreases body.len() - i,
{
    let whole = body + seq!['"'] + tail;
    if i < body.len() {
        assert(whole[i] == body[i]);
        if body[i] == '\\' {
            assert(whole[i + 1] == body[i + 1]);
            lemma_closing_quote_found(body, tail, i + 2);
        } else {
            lemma_closing_quote_found(body, tail, i + 1);
        }
    } else {
        assert(whole[i] == '"');
    }
}

/// A well-escaped text between two quotes parses as that text, unchanged, and
/// the parse stops right behind the closing quote.
pub proof fn lemma_quoted_string(body: Seq<char>, tail: Seq<char>)
    requires
        well_escaped(body, 0),
    ensures
        string(seq!['"'] + body + seq!['"'] + tail) == done(tail, body),
{
    let s = seq!['"'] + body + seq!['"'] + tail;
    let behind = body + seq!['"'] + tail;
    assert(s.skip(1) =~= behind);
    lemma_closing_quote_found(body, tail, 0);
    let n = body.len() as int;
    assert(behind.skip(n + 1) =~= tail);
    assert(behind.take(n) =~= body);
}

/// The text in front of a closing quote that the scan found is well escaped.
pub proof fn lemma_closing_quote_well_escaped(body: Seq<char>, i: int)
    requires
        0 <= i,
    ensures
        closing_quote(body, i) matches Ok(n) ==> well_escaped(body.take(n), i),
    decreases body.len() - i,
{
    lemma_closing_quote_bound(body, i);
    if i < body.len() && body[i] != '"' {
        if body[i] == '\\' {
            if i + 1 < body.len() && is_escapable(body[i + 1]) {
                lemma_closing_quote_well_escaped(body, i + 2);
                lemma_closing_quote_bound(body, i + 2);
            }
        } else {
            lemma_closing_quote_well_escaped(body, i + 1);
            lemma_closing_quote_bound(body, i + 1);
        }
    }
}

/// A string is read only from a text that starts with a quote, a well-escaped
/// text and a quote; the text between the quotes is what comes out and the
/// text behind the second quote is what is left.
pub proof fn lemma_string_shape(s: Seq<char>)
    ensures
        string(s) matches Ok((rest, text)) ==> s == seq!['"'] + text + seq!['"'] + rest
            && well_escaped(text, 0),
{
    if s.len() > 0 && s[0] == '"' {
        let body = s.skip(1);
        lemma_closing_quote_bound(body, 0);
        lemma_closing_quote_well_escaped(body, 0);
        match closing_quote(body, 0) {
            Ok(n) => {
                assert(s =~= seq!['"'] + body.take(n) + seq!['"'] + body.skip(n + 1));
            },
            Err(_) => {},
        }
    }
}

/// A number is read only from a text that starts with a well-formed literal,
/// and it is the longest one there: the text left over starts with no digit,
/// and after a plain integer it does not start with a point and a digit.
pub proof fn lemma_number_shape(s: Seq<char>)
    ensures
        number(s) matches Ok((rest, literal)) ==> {
            &&& literal.wf()
            &&& s == literal.text() + rest
            &&& rest.len() > 0 ==> !is_digit(rest[0])
            &&& literal.fraction.len() == 0 && rest.len() > 1 && rest[0] == '.' ==> !is_digit(
                rest[1],
            )
        },
{
    lemma_digit_run(s);
    let n = digit_len(s) as int;
    let t = s.skip(n);
    if n > 0 {
        assert(s =~= s.take(n) + t);
        if t.len() > 0 {
            let behind = t.skip(1);
            lemma_digit_run(behind);
            let m = digit_len(behind) as int;
            if t[0] == '.' && m > 0 {
                assert(t =~= seq!['.'] + t.subrange(1, 1 + m) + t.skip(1 + m));
                assert(s =~= s.take(n) + seq!['.'] + t.subrange(1, 1 + m) + t.skip(1 + m));
                if t.skip(1 + m).len() > 0 {
                    assert(t.skip(1 + m)[0] == behind[m]);
                }
            } else if t.len() > 1 && t[0] == '.' {
                assert(t[1] == behind[0]);
            }
        }
    }
}

/// A string that is never closed is no string: where no quote stands behind
/// the first char, the parse fails.
pub proof fn lemma_unterminated_string(s: Seq<char>)
    requires
        forall|i: int| 1 <= i < s.len() ==> s[i] != '"',
    ensures
        string(s) is Err,
{
    if s.len() > 0 && s[0] == '"' {
        let body = s.skip(1);
        lemma_closing_quote_bound(body, 0);
        match closing_quote(body, 0) {
            Ok(n) => {
                assert(body[n] == s[n + 1]);
            },
            Err(_) => {},
        }
    }
}

/// A char of a tail is a char of the whole.
proof fn lemma_tail_char(tail: Seq<char>, whole: Seq<char>, c: char)
    requires
        is_tail_of(tail, whole),
        tail.len() > 0,
        tail[0] == c,
    ensures
        exists|i: int| 0 <= i < whole.len() && whole[i] == c,
{
    let i = whole.len() - tail.len();
    assert(whole[i] == tail[0]);
}

/// An object that is never closed is no object: a text without `}` does not
/// parse as one.
pub proof fn lemma_unterminated_object(s: Seq<char>)
    requires
        forall|i: int| 0 <= i < s.len() ==> s[i] != '}',
    ensures
        object(s) is Err,
{
    lemma_punct_advances(s, '{');
    match punct(s, '{') {
        Err(_) => {},
        Ok((inner, _)) => {
            lemma_members_leave_tail(inner);
            let rest = members(inner).0;
            let t = trim(rest);
            lemma_trim_is_tail(rest);
            lemma_tail_of_tail(t, rest, inner);
            lemma_tail_of_tail(t, inner, s);
            if t.len() > 0 && t[0] == '}' {
                lemma_tail_char(t, s, '}');
            }
        },
    }
}

/// An array that is never closed is no array: a text without `]` does not
/// parse as one.
pub proof fn lemma_unterminated_array(s: Seq<char>)
    requires
        forall|i: int| 0 <= i < s.len() ==> s[i] != ']',
    ensures
        array(s) is Err,
{
    lemma_punct_advances(s, '[');
    match punct(s, '[') {
        Err(_) => {},
        Ok((inner, _)) => {
            lemma_elements_leave_tail(inner);
            let rest = elements(inner).0;
            let t = trim(rest);
            lemma_trim_is_tail(rest);
            lemma_tail_of_tail(t, rest, inner);
            lemma_tail_of_tail(t, inner, s);
            if t.len() > 0 && t[0] == ']' {
                lemma_tail_char(t, s, ']');
            }
        },
    }
}

/// Whether every char of `s` is whitespace.
pub open spec fn all_space(s: Seq<char>) -> bool {
    forall|i: int| 0 <= i < s.len() ==> is_space(#[trigger] s[i])
}

/// Whitespace in front of a text is trimmed away with the text's own.
pub proof fn lemma_trim_leading_space(space: Seq<char>, s: Seq<char>)
    requires
        all_space(space),
    ensures
        space_len(space + s) == space.len() + space_len(s),
        trim(space + s) == trim(s),
    decreases space.len(),
{
    if space.len() == 0 {
        assert(space + s =~= s);
    } else {
        let whole = space + s;
        assert(whole[0] == space[0]);
        assert(whole.skip(1) =~= space.skip(1) + s);
        lemma_trim_leading_space(space.skip(1), s);
        lemma_space_len_bound(whole.skip(1));
        assert(whole.skip(space_len(whole) as int) =~= whole.skip(1).skip(
            space_len(whole.skip(1)) as int,
        ));
    }
}

/// Trimming twice is trimming once.
pub proof fn lemma_trim_twice(s: Seq<char>)
    ensures
        trim(trim(s)) == trim(s),
        space_len(trim(s)) == 0,
    decreases s.len(),
{
    if s.len() > 0 && is_space(s[0]) {
        lemma_trim_twice(s.skip(1));
        lemma_space_len_bound(s.skip(1));
        assert(trim(s) =~= trim(s.skip(1)));
    } else {
        assert(trim(s) =~= s);
    }
}

/// Where no value can be read, the failure is reported at the first char
/// that is not whitespace, whatever went wrong behind it.
pub proof fn lemma_value_failure(s: Seq<char>)
    ensures
        value(s) is Err ==> value(s) == fail::<Json>(trim(s), ErrorKind::Tag),
{
}

/// What a value starts with decides of which kind it is, so the order in
/// which the kinds are tried never tells: each kind asks for first chars that
/// no other kind takes. Stated of a text that starts with no whitespace.
pub proof fn lemma_first_char_decides(t: Seq<char>)
    requires
        space_len(t) == 0,
    ensures
        object(t) is Ok ==> t.len() > 0 && t[0] == '{',
        array(t) is Ok ==> t.len() > 0 && t[0] == '[',
        string(t) is Ok ==> t.len() > 0 && t[0] == '"',
        number(t) is Ok ==> t.len() > 0 && is_digit(t[0]),
        boolean(t) is Ok ==> t.len() > 0 && (t[0] == 't' || t[0] == 'f'),
        null(t) is Ok ==> t.len() > 0 && t[0] == 'n',
{
    assert(trim(t) =~= t);
    if boolean(t) is Ok {
        if word_true().is_prefix_of(t) {
            assert(t.subrange(0, 4)[0] == 't');
        } else {
            assert(t.subrange(0, 5)[0] == 'f');
        }
    }
    if null(t) is Ok {
        assert(t.subrange(0, 4)[0] == 'n');
    }
}

/// A value whose string, object or array is never closed is no value: the
/// parse fails where the value starts.
pub proof fn lemma_unterminated_value(s: Seq<char>)
    requires
        trim(s).len() > 0,
        ({
            let t = trim(s);
            ||| (t[0] == '"' && forall|i: int| 1 <= i < t.len() ==> t[i] != '"')
            ||| (t[0] == '{' && forall|i: int| 0 <= i < t.len() ==> t[i] != '}')
            ||| (t[0] == '[' && forall|i: int| 0 <= i < t.len() ==> t[i] != ']')
        }),
    ensures
        value(s) == fail::<Json>(trim(s), ErrorKind::Tag),
{
    let t = trim(s);
    lemma_trim_twice(s);
    lemma_first_char_decides(t);
    if t[0] == '"' {
        lemma_unterminated_string(t);
    } else if t[0] == '{' {
        lemma_unterminated_object(t);
    } else {
        lemma_unterminated_array(t);
    }
}

/// Whitespace in front of a value changes nothing of what is parsed: neither
/// the value, nor the text left over, nor the failure.
pub proof fn lemma_leading_space_ignored(space: Seq<char>, s: Seq<char>)
    requires
        all_space(space),
    ensures
        value(space + s) == value(s),
        json(space + s) == json(s),
{
    lemma_trim_leading_space(space, s);
}

/// A whole text parses as the value that it starts with.
pub proof fn lemma_json_is_value(s: Seq<char>)
    ensures
        json(s) == value(s),
{
    lemma_trim_twice(s);
}

/// Parsing depends on the text alone: two parses of equal texts end alike,
/// with equal failures or with equal texts left over and trees that are seen
/// as the same tree, which is what `==` tests on them.
pub proof fn lemma_parse_is_repeatable<'a, 'b>(
    first: &'a str,
    second: &'b str,
    first_result: Result<(&'a str, JsonValue), ParseError<'a>>,
    second_result: Result<(&'b str, JsonValue), ParseError<'b>>,
)
    requires
        first@ == second@,
        outcome(first_result) == json(first@),
        outcome(second_result) == json(second@),
    ensures
        outcome(first_result) == outcome(second_result),
        first_result is Ok <==> second_result is Ok,
        first_result matches Ok((_, tree)) ==> second_result matches Ok((_, other)) && tree@
            == other@ && tree.eq_spec(&other),
{
}

} // verus!
