//! The parsers of whole values, objects and arrays.

use vstd::prelude::*;
use crate::error::{outcome, ErrorKind, ParseError};
use crate::grammar::{
    array, elements, fail, json, lemma_space_len_bound, member, member_comma, members,
    more_elements, more_members, object, scalar, trim, value,
};
use crate::laws::lemma_trim_twice;
use crate::lexer::{parse_boolean, parse_null, parse_number, parse_string, skip_spaces, take_punct};
use crate::progress::{
    advances, lemma_array_advances, lemma_json_advances, lemma_member_advances,
    lemma_member_comma_advances, lemma_object_advances, lemma_punct_advances,
    lemma_string_advances, lemma_value_advances,
};
use crate::value::{lemma_array_view, lemma_object_view, pair_views, views, Json, JsonValue};
use crate::wellformed::{lemma_array_wf, lemma_json_wf, lemma_object_wf, lemma_value_wf};

verus! {

/// Parses a value that holds no other, by trying string, number, boolean and
/// null in that order.
fn parse_scalar<'a>(input: &'a str) -> (res: Result<(&'a str, JsonValue), ParseError<'a>>)
    ensures
        outcome(res) == scalar(input@),
{
    match parse_string(input) {
        Ok((rest, text)) => {
            return Ok((rest, JsonValue::String(text)));
        },
        Err(_) => {},
    }
    match parse_number(input) {
        Ok((rest, literal)) => {
            return Ok((rest, JsonValue::Number(literal)));
        },
        Err(_) => {},
    }
    match parse_boolean(input) {
        Ok((rest, flag)) => {
            return Ok((rest, JsonValue::Boolean(flag)));
        },
        Err(_) => {},
    }
    match parse_null(input) {
        Ok((rest, _)) => Ok((rest, JsonValue::Null)),
        Err(e) => Err(e),
    }
}

/// Parses any value from the front of `input`, after any whitespace. Object,
/// array, string, number, boolean and null are tried in that order and the
/// first that succeeds is returned. When none does, the failure is reported
/// at the first char that is not whitespace.
pub fn parse_value<'a>(input: &'a str) -> (res: Result<(&'a str, JsonValue), ParseError<'a>>)
    ensures
        outcome(res) == value(input@),
        advances(input@, outcome(res)),
        res matches Ok((_, tree)) ==> tree@.wf(),
        res is Err ==> outcome(res) == fail::<Json>(trim(input@), ErrorKind::Tag),
    decreases input@.len(), 3nat,
{
    proof {
        lemma_value_advances(input@);
        lemma_value_wf(input@);
    }
    let start = skip_spaces(input);
    proof {
        lemma_space_len_bound(input@);
    }
    match parse_object(start) {
        Ok(found) => {
            return Ok(found);
        },
        Err(_) => {},
    }
    match parse_array(start) {
        Ok(found) => {
            return Ok(found);
        },
        Err(_) => {},
    }
    parse_scalar(start)
}

/// Parses one member of an object: a string key, a colon, a value.
fn parse_member<'a>(input: &'a str) -> (res: Result<
    (&'a str, (String, JsonValue)),
    ParseError<'a>,
>)
    ensures
        outcome(res) == member(input@),
    decreases input@.len(), 0nat,
{
    let (after_key, key) = match parse_string(input) {
        Ok(found) => found,
        Err(e) => {
            return Err(e);
        },
    };
    let after_colon = match take_punct(after_key, ':') {
        Ok((rest, _)) => rest,
        Err(e) => {
            return Err(e);
        },
    };
    proof {
        lemma_string_advances(input@);
        lemma_punct_advances(after_key@, ':');
    }
    match parse_value(after_colon) {
        Ok((rest, v)) => Ok((rest, (key, v))),
        Err(e) => Err(e),
    }
}

/// Takes the comma between two members, with the whitespace around it.
fn take_member_comma<'a>(input: &'a str) -> (res: Result<(&'a str, ()), ParseError<'a>>)
    ensures
        outcome(res) == member_comma(input@),
{
    match take_punct(input, ',') {
        Ok((rest, _)) => Ok((skip_spaces(rest), ())),
        Err(e) => Err(e),
    }
}

/// Reads the members of an object, as many as there are.
fn parse_members<'a>(input: &'a str) -> (res: (&'a str, Vec<(String, JsonValue)>))
    ensures
        (res.0@, pair_views(res.1@)) == members(input@),
    decreases input@.len(), 1nat,
{
    let mut pairs: Vec<(String, JsonValue)> = Vec::new();
    let (mut rest, first) = match parse_member(input) {
        Ok(found) => found,
        Err(_) => {
            proof {
                assert(pair_views(pairs@) =~= Seq::empty());
            }
            return (input, pairs);
        },
    };
    proof {
        lemma_member_advances(input@);
    }
    let ghost first_view = first@;
    pairs.push(first);
    proof {
        assert(pair_views(pairs@) =~= seq![first_view]);
    }
    loop
        invariant_except_break
            members(input@) == (more_members(rest@).0, pair_views(pairs@) + more_members(rest@).1),
        invariant
            rest@.len() < input@.len(),
        ensures
            members(input@) == (rest@, pair_views(pairs@)),
        decreases rest@.len(),
    {
        let after_comma = match take_member_comma(rest) {
            Ok((after, _)) => after,
            Err(_) => {
                proof {
                    assert(pair_views(pairs@) + Seq::empty() =~= pair_views(pairs@));
                }
                break ;
            },
        };
        proof {
            lemma_member_comma_advances(rest@);
        }
        let (after, next) = match parse_member(after_comma) {
            Ok(found) => found,
            Err(_) => {
                proof {
                    assert(pair_views(pairs@) + Seq::empty() =~= pair_views(pairs@));
                }
                break ;
            },
        };
        proof {
            lemma_member_advances(after_comma@);
        }
        let ghost before = pair_views(pairs@);
        let ghost next_view = next@;
        let ghost others = more_members(after@).1;
        pairs.push(next);
        proof {
            assert(pair_views(pairs@) =~= before.push(next_view));
            assert(before + (seq![next_view] + others) =~= before.push(next_view) + others);
        }
        rest = after;
    }
    (rest, pairs)
}

/// Parses an object from the front of `input`: `{`, members separated by
/// commas, `}`, with whitespace allowed before each brace and around each
/// comma and colon. The pairs are kept in source order.
pub fn parse_object<'a>(input: &'a str) -> (res: Result<(&'a str, JsonValue), ParseError<'a>>)
    ensures
        outcome(res) == object(input@),
        advances(input@, outcome(res)),
        res matches Ok((_, tree)) ==> tree@.wf(),
    decreases input@.len(), 2nat,
{
    proof {
        lemma_object_advances(input@);
        lemma_object_wf(input@);
    }
    let inner = match take_punct(input, '{') {
        Ok((rest, _)) => rest,
        Err(e) => {
            return Err(e);
        },
    };
    proof {
        lemma_punct_advances(input@, '{');
    }
    let (rest, pairs) = parse_members(inner);
    match take_punct(rest, '}') {
        Ok((after, _)) => {
            proof {
                lemma_object_view(pairs);
            }
            Ok((after, JsonValue::Object(pairs)))
        },
        Err(e) => Err(e),
    }
}

/// Reads the elements of an array, as many as there are.
fn parse_elements<'a>(input: &'a str) -> (res: (&'a str, Vec<JsonValue>))
    ensures
        (res.0@, views(res.1@)) == elements(input@),
    decreases input@.len(), 4nat,
{
    let mut items: Vec<JsonValue> = Vec::new();
    let (mut rest, first) = match parse_value(input) {
        Ok(found) => found,
        Err(_) => {
            proof {
                assert(views(items@) =~= Seq::empty());
            }
            return (input, items);
        },
    };
    proof {
        lemma_value_advances(input@);
    }
    let ghost first_view = first@;
    items.push(first);
    proof {
        assert(views(items@) =~= seq![first_view]);
    }
    loop
        invariant_except_break
            elements(input@) == (more_elements(rest@).0, views(items@) + more_elements(rest@).1),
        invariant
            rest@.len() < input@.len(),
        ensures
            elements(input@) == (rest@, views(items@)),
        decreases rest@.len(),
    {
        let after_comma = match take_punct(rest, ',') {
            Ok((after, _)) => after,
            Err(_) => {
                proof {
                    assert(views(items@) + Seq::empty() =~= views(items@));
                }
                break ;
            },
        };
        proof {
            lemma_punct_advances(rest@, ',');
        }
        let (after, next) = match parse_value(after_comma) {
            Ok(found) => found,
            Err(_) => {
                proof {
                    assert(views(items@) + Seq::empty() =~= views(items@));
                }
                break ;
            },
        };
        proof {
            lemma_value_advances(after_comma@);
        }
        let ghost before = views(items@);
        let ghost next_view = next@;
        let ghost others = more_elements(after@).1;
        items.push(next);
        proof {
            assert(views(items@) =~= before.push(next_view));
            assert(before + (seq![next_view] + others) =~= before.push(next_view) + others);
        }
        rest = after;
    }
    (rest, items)
}

/// Parses an array from the front of `input`: `[`, values separated by commas,
/// `]`, with whitespace allowed before each bracket, comma and value.
pub fn parse_array<'a>(input: &'a str) -> (res: Result<(&'a str, JsonValue), ParseError<'a>>)
    ensures
        outcome(res) == array(input@),
        advances(input@, outcome(res)),
        res matches Ok((_, tree)) ==> tree@.wf(),
    decreases input@.len(), 2nat,
{
    proof {
        lemma_array_advances(input@);
        lemma_array_wf(input@);
    }
    let inner = match take_punct(input, '[') {
        Ok((rest, _)) => rest,
        Err(e) => {
            return Err(e);
        },
    };
    proof {
        lemma_punct_advances(input@, '[');
    }
    let (rest, items) = parse_elements(inner);
    match take_punct(rest, ']') {
        Ok((after, _)) => {
            proof {
                lemma_array_view(items);
            }
            Ok((after, JsonValue::Array(items)))
        },
        Err(e) => Err(e),
    }
}

/// Parses one value from the front of a whole text, after any whitespace.
/// What follows the value is handed back unread: trailing text is no error.
pub fn parse_json<'a>(input: &'a str) -> (res: Result<(&'a str, JsonValue), ParseError<'a>>)
    ensures
        outcome(res) == json(input@),
        advances(input@, outcome(res)),
        res matches Ok((_, tree)) ==> tree@.wf(),
        res is Err ==> outcome(res) == fail::<Json>(trim(input@), ErrorKind::Tag),
{
    proof {
        lemma_json_advances(input@);
        lemma_json_wf(input@);
        lemma_trim_twice(input@);
    }
    parse_value(skip_spaces(input))
}

} // verus!
