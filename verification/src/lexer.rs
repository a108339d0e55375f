//! The parsers of the values that hold no other: strings, numbers, booleans, null.

use vstd::prelude::*;
use crate::error::{outcome, ErrorKind, Failure, ParseError};
use crate::grammar::{
    boolean, closing_quote, digit_len, expect, is_space, keyword, null, number, punct, space_len,
    string, trim, word_false, word_null, word_true,
};
use crate::progress::{
    advances, lemma_boolean_advances, lemma_keyword_advances, lemma_number_advances,
    lemma_string_advances,
};
use crate::text::{head_before, is_ascii_char, peek, skip_char, Lead};
use crate::value::{is_digit, Decimal};
use crate::wellformed::lemma_number_wf;

verus! {

/// Whether `input` starts with the char `c`, which must be an ASCII char.
fn starts_with(input: &str, c: char) -> (res: bool)
    requires
        is_ascii_char(c),
    ensures
        res <==> input@.len() > 0 && input@[0] == c,
{
    match peek(input) {
        Lead::Ascii(first) => first == c,
        _ => false,
    }
}

/// Whether `input` starts with a whitespace char.
fn starts_with_space(input: &str) -> (res: bool)
    ensures
        res <==> input@.len() > 0 && is_space(input@[0]),
{
    match peek(input) {
        Lead::Ascii(c) => c == ' ' || c == '\t' || c == '\n' || c == '\r',
        _ => false,
    }
}

/// Whether `input` starts with a decimal digit.
fn starts_with_digit(input: &str) -> (res: bool)
    ensures
        res <==> input@.len() > 0 && is_digit(input@[0]),
{
    match peek(input) {
        Lead::Ascii(c) => '0' <= c && c <= '9',
        _ => false,
    }
}

/// Drops the whitespace that `input` starts with.
pub(crate) fn skip_spaces(input: &str) -> (rest: &str)
    ensures
        rest@ == trim(input@),
{
    let mut rest = input;
    let ghost mut k: int = 0;
    loop
        invariant
            0 <= k <= input@.len(),
            rest@ == input@.skip(k),
            space_len(input@) == k + space_len(rest@),
        decreases rest@.len(),
    {
        if !starts_with_space(rest) {
            return rest;
        }
        let after = skip_char(rest);
        proof {
            assert(is_space(rest@[0]));
            assert(after@ == input@.skip(k + 1));
            k = k + 1;
        }
        rest = after;
    }
}

/// Drops the decimal digits that `input` starts with.
fn skip_digits(input: &str) -> (rest: &str)
    ensures
        rest@ == input@.skip(digit_len(input@) as int),
        digit_len(input@) <= input@.len(),
{
    let mut rest = input;
    let ghost mut k: int = 0;
    loop
        invariant
            0 <= k <= input@.len(),
            rest@ == input@.skip(k),
            digit_len(input@) == k + digit_len(rest@),
        decreases rest@.len(),
    {
        if !starts_with_digit(rest) {
            return rest;
        }
        let after = skip_char(rest);
        proof {
            assert(after@ == input@.skip(k + 1));
            k = k + 1;
        }
        rest = after;
    }
}

/// Takes the ASCII char `c` from the front of `input`.
pub(crate) fn take_char<'a>(input: &'a str, c: char) -> (res: Result<
    (&'a str, ()),
    ParseError<'a>,
>)
    requires
        is_ascii_char(c),
    ensures
        outcome(res) == expect(input@, c),
{
    if starts_with(input, c) {
        Ok((skip_char(input), ()))
    } else {
        Err(ParseError { remaining: input, kind: ErrorKind::Char })
    }
}

/// Takes the ASCII char `c` from behind any whitespace that `input` starts with.
pub(crate) fn take_punct<'a>(input: &'a str, c: char) -> (res: Result<
    (&'a str, ()),
    ParseError<'a>,
>)
    requires
        is_ascii_char(c),
    ensures
        outcome(res) == punct(input@, c),
{
    take_char(skip_spaces(input), c)
}

/// Takes the ASCII word `word` from the front of `input`.
fn take_word<'a>(input: &'a str, word: &str) -> (res: Result<(&'a str, ()), ParseError<'a>>)
    requires
        forall|i: int| 0 <= i < word@.len() ==> is_ascii_char(#[trigger] word@[i]),
    ensures
        outcome(res) == keyword(input@, word@),
{
    let mut rest = input;
    let mut left = word;
    let ghost mut k: int = 0;
    loop
        invariant
            0 <= k <= input@.len(),
            k <= word@.len(),
            rest@ == input@.skip(k),
            left@ == word@.skip(k),
            input@.take(k) == word@.take(k),
            forall|i: int| 0 <= i < word@.len() ==> is_ascii_char(#[trigger] word@[i]),
        decreases left@.len(),
    {
        match peek(left) {
            Lead::End => {
                proof {
                    assert(word@ =~= input@.subrange(0, word@.len() as int));
                }
                return Ok((rest, ()));
            },
            Lead::Ascii(c) => {
                if !starts_with(rest, c) {
                    proof {
                        if word@.is_prefix_of(input@) {
                            assert(input@.subrange(0, word@.len() as int)[k] == word@[k]);
                        }
                    }
                    return Err(ParseError { remaining: input, kind: ErrorKind::Tag });
                }
                let rest_after = skip_char(rest);
                let left_after = skip_char(left);
                proof {
                    assert(rest_after@ == input@.skip(k + 1));
                    assert(left_after@ == word@.skip(k + 1));
                    assert(input@.take(k + 1) =~= input@.take(k).push(input@[k]));
                    assert(word@.take(k + 1) =~= word@.take(k).push(word@[k]));
                    k = k + 1;
                }
                rest = rest_after;
                left = left_after;
            },
            Lead::Wide => {
                proof {
                    assert(is_ascii_char(word@[k]));
                }
                return Err(ParseError { remaining: input, kind: ErrorKind::Tag });
            },
        }
    }
}

/// Parses a string literal from the front of `input`: a quote, the text up to
/// the next quote that no backslash escapes, and that quote. The text is
/// returned as written, with its escapes left undecoded.
pub fn parse_string<'a>(input: &'a str) -> (res: Result<(&'a str, String), ParseError<'a>>)
    ensures
        outcome(res) == string(input@),
        advances(input@, outcome(res)),
{
    proof {
        lemma_string_advances(input@);
    }
    if !starts_with(input, '"') {
        return Err(ParseError { remaining: input, kind: ErrorKind::Char });
    }
    let body = skip_char(input);
    let mut cur = body;
    let ghost mut i: int = 0;
    loop
        invariant
            expect(input@, '"') == Ok::<_, Failure>((body@, ())),
            0 <= i <= body@.len(),
            cur@ == body@.skip(i),
            closing_quote(body@, 0) == closing_quote(body@, i),
        decreases cur@.len(),
    {
        match peek(cur) {
            Lead::End => {
                proof {
                    assert(cur@ =~= Seq::empty());
                }
                return Err(ParseError { remaining: cur, kind: ErrorKind::Char });
            },
            Lead::Ascii(c) => {
                if c == '"' {
                    let text = head_before(body, cur);
                    let rest = skip_char(cur);
                    proof {
                        assert(rest@ == body@.skip(i + 1));
                    }
                    return Ok((rest, text.to_owned()));
                } else if c == '\\' {
                    let after = skip_char(cur);
                    proof {
                        assert(after@ == body@.skip(i + 1));
                    }
                    if starts_with(after, '"') || starts_with(after, '\\') {
                        cur = skip_char(after);
                        proof {
                            assert(cur@ == body@.skip(i + 2));
                            i = i + 2;
                        }
                    } else if after.is_empty() {
                        return Err(ParseError { remaining: body, kind: ErrorKind::Escaped });
                    } else {
                        return Err(ParseError { remaining: after, kind: ErrorKind::Char });
                    }
                } else {
                    cur = skip_char(cur);
                    proof {
                        assert(cur@ == body@.skip(i + 1));
                        i = i + 1;
                    }
                }
            },
            Lead::Wide => {
                cur = skip_char(cur);
                proof {
                    assert(cur@ == body@.skip(i + 1));
                    i = i + 1;
                }
            },
        }
    }
}

/// Parses a number literal from the front of `input`: one or more digits, then
/// optionally a point and one or more digits. There is no sign and no
/// exponent. A point that no digit follows is left unread.
pub fn parse_number<'a>(input: &'a str) -> (res: Result<(&'a str, Decimal), ParseError<'a>>)
    ensures
        outcome(res) == number(input@),
        advances(input@, outcome(res)),
        res is Ok <==> input@.len() > 0 && is_digit(input@[0]),
        res matches Ok((_, literal)) ==> literal@.wf(),
{
    proof {
        lemma_number_advances(input@);
        lemma_number_wf(input@);
    }
    let after_integer = skip_digits(input);
    let integer = head_before(input, after_integer);
    if integer.is_empty() {
        return Err(ParseError { remaining: input, kind: ErrorKind::Digit });
    }
    if starts_with(after_integer, '.') {
        let behind_point = skip_char(after_integer);
        let after_fraction = skip_digits(behind_point);
        let fraction = head_before(behind_point, after_fraction);
        if !fraction.is_empty() {
            proof {
                let t = after_integer@;
                let m = digit_len(t.skip(1)) as int;
                assert(after_fraction@ == t.skip(1 + m));
                assert(fraction@ == t.subrange(1, 1 + m));
            }
            return Ok(
                (
                    after_fraction,
                    Decimal { integer: integer.to_owned(), fraction: fraction.to_owned() },
                ),
            );
        }
    }
    Ok((after_integer, Decimal { integer: integer.to_owned(), fraction: String::new() }))
}

/// Parses one of the words `true` and `false` from the front of `input`.
pub fn parse_boolean<'a>(input: &'a str) -> (res: Result<(&'a str, bool), ParseError<'a>>)
    ensures
        outcome(res) == boolean(input@),
        advances(input@, outcome(res)),
{
    proof {
        lemma_boolean_advances(input@);
        reveal_strlit("true");
        reveal_strlit("false");
        assert("true"@ =~= word_true());
        assert("false"@ =~= word_false());
    }
    match take_word(input, "true") {
        Ok((rest, _)) => Ok((rest, true)),
        Err(_) => match take_word(input, "false") {
            Ok((rest, _)) => Ok((rest, false)),
            Err(e) => Err(e),
        },
    }
}

/// Parses the word `null` from the front of `input`.
pub fn parse_null<'a>(input: &'a str) -> (res: Result<(&'a str, ()), ParseError<'a>>)
    ensures
        outcome(res) == null(input@),
        advances(input@, outcome(res)),
{
    proof {
        lemma_keyword_advances(input@, word_null());
        reveal_strlit("null");
        assert("null"@ =~= word_null());
    }
    take_word(input, "null")
}

} // verus!
