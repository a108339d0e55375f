//! Every parse takes its input from the front: what it hands back, and what a
//! failure points at, is an end part of the text it was given.

use vstd::prelude::*;
use crate::error::Parsed;
use crate::grammar::{
    array, boolean, closing_quote, digit_len, elements, expect, is_escapable, is_tail_of, json,
    keyword, lemma_closing_quote_bound, lemma_digit_len_bound, lemma_space_len_bound, member,
    member_comma, members, more_elements, more_members, number, object, punct, scalar, string,
    trim, value, word_false, word_null, word_true,
};

verus! {

/// Whether `res` can come of parsing `s` from its front: on success at least
/// one char was taken and the rest of `s` handed back; on failure the text
/// that the failure holds is the end part of `s` from the point of failure on,
/// so that the lengths of the two give the offset of the failure.
pub open spec fn advances<T>(s: Seq<char>, res: Parsed<T>) -> bool {
    match res {
        Ok((rest, _)) => rest.len() < s.len() && is_tail_of(rest, s),
        Err(e) => is_tail_of(e.remaining, s),
    }
}

/// What is left after dropping `k` chars is a tail.
pub proof fn lemma_skip_is_tail(s: Seq<char>, k: int)
    requires
        0 <= k <= s.len(),
    ensures
        is_tail_of(s.skip(k), s),
{
}

/// A tail of a tail is a tail.
pub proof fn lemma_tail_of_tail(a: Seq<char>, b: Seq<char>, c: Seq<char>)
    requires
        is_tail_of(a, b),
        is_tail_of(b, c),
    ensures
        is_tail_of(a, c),
{
    assert(a =~= c.skip(c.len() - a.len()));
}

/// Trimming leaves a tail.
pub proof fn lemma_trim_is_tail(s: Seq<char>)
    ensures
        is_tail_of(trim(s), s),
{
    lemma_space_len_bound(s);
}

/// What can come of parsing a tail of `s` can come of parsing `s`.
pub proof fn lemma_advances_from_tail<T>(s: Seq<char>, t: Seq<char>, res: Parsed<T>)
    requires
        is_tail_of(t, s),
        advances(t, res),
    ensures
        advances(s, res),
{
    match res {
        Ok((rest, _)) => lemma_tail_of_tail(rest, t, s),
        Err(e) => lemma_tail_of_tail(e.remaining, t, s),
    }
}

/// Punctuation is taken from the front.
pub proof fn lemma_punct_advances(s: Seq<char>, c: char)
    ensures
        advances(s, punct(s, c)),
{
    lemma_trim_is_tail(s);
    let t = trim(s);
    if t.len() > 0 {
        lemma_skip_is_tail(t, 1);
    }
    lemma_advances_from_tail(s, t, expect(t, c));
}

/// The comma between members is taken from the front.
pub proof fn lemma_member_comma_advances(s: Seq<char>)
    ensures
        advances(s, member_comma(s)),
{
    lemma_punct_advances(s, ',');
    match punct(s, ',') {
        Ok((rest, _)) => {
            lemma_trim_is_tail(rest);
            lemma_tail_of_tail(trim(rest), rest, s);
        },
        Err(_) => {},
    }
}

/// A keyword of at least one char is taken from the front.
pub proof fn lemma_keyword_advances(s: Seq<char>, word: Seq<char>)
    requires
        word.len() > 0,
    ensures
        advances(s, keyword(s, word)),
{
}

/// A string is taken from the front.
pub proof fn lemma_string_advances(s: Seq<char>)
    ensures
        advances(s, string(s)),
{
    if s.len() > 0 && s[0] == '"' {
        let body = s.skip(1);
        lemma_skip_is_tail(s, 1);
        lemma_closing_quote_advances(body, 0);
        match closing_quote(body, 0) {
            Ok(n) => {
                lemma_closing_quote_bound(body, 0);
                lemma_skip_is_tail(body, n + 1);
                lemma_tail_of_tail(body.skip(n + 1), body, s);
            },
            Err(e) => {
                lemma_tail_of_tail(e.remaining, body, s);
            },
        }
    }
}

/// Where the scan for a closing quote fails, it points at a tail of the body.
pub proof fn lemma_closing_quote_advances(body: Seq<char>, i: int)
    requires
        0 <= i,
    ensures
        closing_quote(body, i) matches Err(e) ==> is_tail_of(e.remaining, body),
    decreases body.len() - i,
{
    if i < body.len() && body[i] != '"' {
        if body[i] == '\\' {
            if i + 1 < body.len() {
                if is_escapable(body[i + 1]) {
                    lemma_closing_quote_advances(body, i + 2);
                }
            }
        } else {
            lemma_closing_quote_advances(body, i + 1);
        }
    }
}

/// A number is taken from the front.
pub proof fn lemma_number_advances(s: Seq<char>)
    ensures
        advances(s, number(s)),
{
    lemma_digit_len_bound(s);
    let n = digit_len(s) as int;
    let t = s.skip(n);
    if t.len() > 0 {
        lemma_digit_len_bound(t.skip(1));
        let m = digit_len(t.skip(1)) as int;
        lemma_skip_is_tail(t, 1 + m);
        lemma_tail_of_tail(t.skip(1 + m), t, s);
    }
}

/// A boolean is taken from the front.
pub proof fn lemma_boolean_advances(s: Seq<char>)
    ensures
        advances(s, boolean(s)),
{
    lemma_keyword_advances(s, word_true());
    lemma_keyword_advances(s, word_false());
}

/// A value that holds no other is taken from the front.
pub proof fn lemma_scalar_advances(s: Seq<char>)
    ensures
        advances(s, scalar(s)),
{
    lemma_string_advances(s);
    lemma_number_advances(s);
    lemma_boolean_advances(s);
    lemma_keyword_advances(s, word_null());
}

/// Every value is taken from the front: a successful parse consumes at least
/// one char and hands back the rest of its input, and a failure points into
/// its input.
pub proof fn lemma_value_advances(s: Seq<char>)
    ensures
        advances(s, value(s)),
    decreases s.len(), 3nat,
{
    let t = trim(s);
    lemma_trim_is_tail(s);
    lemma_object_advances(t);
    lemma_array_advances(t);
    lemma_scalar_advances(t);
    lemma_advances_from_tail(s, t, value(s));
}

/// An object is taken from the front.
pub proof fn lemma_object_advances(s: Seq<char>)
    ensures
        advances(s, object(s)),
    decreases s.len(), 2nat,
{
    lemma_punct_advances(s, '{');
    match punct(s, '{') {
        Err(_) => {},
        Ok((inner, _)) => {
            lemma_members_leave_tail(inner);
            let (rest, _) = members(inner);
            lemma_punct_advances(rest, '}');
            lemma_advances_from_tail(inner, rest, punct(rest, '}'));
            match punct(rest, '}') {
                Ok((after, _)) => lemma_tail_of_tail(after, inner, s),
                Err(e) => lemma_tail_of_tail(e.remaining, inner, s),
            }
        },
    }
}

/// A member is taken from the front.
pub proof fn lemma_member_advances(s: Seq<char>)
    ensures
        advances(s, member(s)),
    decreases s.len(), 0nat,
{
    lemma_string_advances(s);
    match string(s) {
        Err(_) => {},
        Ok((after_key, _)) => {
            lemma_punct_advances(after_key, ':');
            match punct(after_key, ':') {
                Err(e) => lemma_tail_of_tail(e.remaining, after_key, s),
                Ok((after_colon, _)) => {
                    lemma_tail_of_tail(after_colon, after_key, s);
                    lemma_value_advances(after_colon);
                    lemma_advances_from_tail(s, after_colon, value(after_colon));
                },
            }
        },
    }
}

/// The text behind the members of an object is a tail of the text they were read from.
pub proof fn lemma_members_leave_tail(s: Seq<char>)
    ensures
        is_tail_of(members(s).0, s),
    decreases s.len(), 1nat,
{
    lemma_member_advances(s);
    match member(s) {
        Ok((rest, _)) => {
            lemma_more_members_leave_tail(rest);
            lemma_tail_of_tail(more_members(rest).0, rest, s);
        },
        Err(_) => {},
    }
}

/// The text behind further members is a tail of the text they were read from.
pub proof fn lemma_more_members_leave_tail(s: Seq<char>)
    ensures
        is_tail_of(more_members(s).0, s),
    decreases s.len(), 1nat,
{
    lemma_member_comma_advances(s);
    match member_comma(s) {
        Err(_) => {},
        Ok((after_comma, _)) => {
            lemma_member_advances(after_comma);
            match member(after_comma) {
                Ok((rest, _)) => {
                    lemma_tail_of_tail(rest, after_comma, s);
                    lemma_more_members_leave_tail(rest);
                    lemma_tail_of_tail(more_members(rest).0, rest, s);
                },
                Err(_) => {},
            }
        },
    }
}

/// An array is taken from the front.
pub proof fn lemma_array_advances(s: Seq<char>)
    ensures
        advances(s, array(s)),
    decreases s.len(), 2nat,
{
    lemma_punct_advances(s, '[');
    match punct(s, '[') {
        Err(_) => {},
        Ok((inner, _)) => {
            lemma_elements_leave_tail(inner);
            let (rest, _) = elements(inner);
            lemma_punct_advances(rest, ']');
            lemma_advances_from_tail(inner, rest, punct(rest, ']'));
            match punct(rest, ']') {
                Ok((after, _)) => lemma_tail_of_tail(after, inner, s),
                Err(e) => lemma_tail_of_tail(e.remaining, inner, s),
            }
        },
    }
}

/// The text behind the elements of an array is a tail of the text they were read from.
pub proof fn lemma_elements_leave_tail(s: Seq<char>)
    ensures
        is_tail_of(elements(s).0, s),
    decreases s.len(), 4nat,
{
    lemma_value_advances(s);
    match value(s) {
        Ok((rest, _)) => {
            lemma_more_elements_leave_tail(rest);
            lemma_tail_of_tail(more_elements(rest).0, rest, s);
        },
        Err(_) => {},
    }
}

/// The text behind further elements is a tail of the text they were read from.
pub proof fn lemma_more_elements_leave_tail(s: Seq<char>)
    ensures
        is_tail_of(more_elements(s).0, s),
    decreases s.len(), 4nat,
{
    lemma_punct_advances(s, ',');
    match punct(s, ',') {
        Err(_) => {},
        Ok((after_comma, _)) => {
            lemma_value_advances(after_comma);
            match value(after_comma) {
                Ok((rest, _)) => {
                    lemma_tail_of_tail(rest, after_comma, s);
                    lemma_more_elements_leave_tail(rest);
                    lemma_tail_of_tail(more_elements(rest).0, rest, s);
                },
                Err(_) => {},
            }
        },
    }
}

/// The test on the lengths in the reading of members never turns a member
/// away: the members are the first one and those behind it, or none where the
/// first cannot be read.
pub proof fn lemma_members_unfold(s: Seq<char>)
    ensures
        members(s) == match member(s) {
            Ok((rest, first)) => (more_members(rest).0, seq![first] + more_members(rest).1),
            Err(_) => (s, Seq::empty()),
        },
        more_members(s) == match member_comma(s) {
            Err(_) => (s, Seq::empty()),
            Ok((after_comma, _)) => match member(after_comma) {
                Ok((rest, next)) => (more_members(rest).0, seq![next] + more_members(rest).1),
                Err(_) => (s, Seq::empty()),
            },
        },
{
    lemma_member_advances(s);
    lemma_member_comma_advances(s);
    match member_comma(s) {
        Ok((after_comma, _)) => {
            lemma_member_advances(after_comma);
        },
        Err(_) => {},
    }
}

/// The test on the lengths in the reading of elements never turns a value
/// away: the elements are the first one and those behind it, or none where
/// the first cannot be read.
pub proof fn lemma_elements_unfold(s: Seq<char>)
    ensures
        elements(s) == match value(s) {
            Ok((rest, first)) => (more_elements(rest).0, seq![first] + more_elements(rest).1),
            Err(_) => (s, Seq::empty()),
        },
        more_elements(s) == match punct(s, ',') {
            Err(_) => (s, Seq::empty()),
            Ok((after_comma, _)) => match value(after_comma) {
                Ok((rest, next)) => (more_elements(rest).0, seq![next] + more_elements(rest).1),
                Err(_) => (s, Seq::empty()),
            },
        },
{
    lemma_value_advances(s);
    lemma_punct_advances(s, ',');
    match punct(s, ',') {
        Ok((after_comma, _)) => {
            lemma_value_advances(after_comma);
        },
        Err(_) => {},
    }
}

/// The value of a whole text is taken from the front.
pub proof fn lemma_json_advances(s: Seq<char>)
    ensures
        advances(s, json(s)),
{
    lemma_trim_is_tail(s);
    lemma_value_advances(trim(s));
    lemma_advances_from_tail(s, trim(s), json(s));
}

} // verus!
