use json_parser::{parse_boolean, parse_null, parse_number, parse_string, ErrorKind, ParseError};
use nom::branch::alt;
use nom::bytes::complete::{escaped, is_not, tag};
use nom::character::complete::{char, digit1};
use nom::combinator::recognize;
use nom::sequence::{delimited, tuple};
use nom::IResult;

fn kind_of(kind: ErrorKind) -> nom::error::ErrorKind {
    match kind {
        ErrorKind::Char => nom::error::ErrorKind::Char,
        ErrorKind::Tag => nom::error::ErrorKind::Tag,
        ErrorKind::Digit => nom::error::ErrorKind::Digit,
        ErrorKind::Escaped => nom::error::ErrorKind::Escaped,
    }
}

fn as_nom<'a, T>(result: Result<(&'a str, T), ParseError<'a>>) -> IResult<&'a str, T> {
    match result {
        Ok(found) => Ok(found),
        Err(e) => Err(nom::Err::Error(nom::error::Error::new(e.remaining, kind_of(e.kind)))),
    }
}

fn number_by_combinators(input: &str) -> IResult<&str, &str> {
    alt((recognize(tuple((digit1, char('.'), digit1))), recognize(digit1)))(input)
}

fn quoted_by_combinators(input: &str) -> IResult<&str, &str> {
    delimited(char('"'), escaped(is_not("\\\""), '\\', char('"')), char('"'))(input)
}

#[test]
fn number_agrees_with_combinators() {
    for input in [
        "", "0", "7", "123", "123.456", "0.5", "123.", "123.x", "1..2", ".5", "-1", "+1", "1e5",
        "12abc", "12.34.56", "007", " 1", "1 ", "\u{661}", "1\u{662}", "9999999999999999999999",
    ] {
        let ours = parse_number(input).map(|(rest, number)| {
            let text = if number.fraction.is_empty() {
                number.integer
            } else {
                format!("{}.{}", number.integer, number.fraction)
            };
            (rest, text)
        });
        let theirs = number_by_combinators(input).map(|(rest, text)| (rest, text.to_owned()));
        assert_eq!(as_nom(ours), theirs, "{:?}", input);
    }
}

#[test]
fn words_agree_with_combinators() {
    for input in [
        "", "true", "false", "null", "truex", "nullnull", "tru", "nul", "True", " true", "t", "n",
        "f",
    ] {
        let theirs: IResult<&str, bool> = alt((
            nom::combinator::map(tag("true"), |_| true),
            nom::combinator::map(tag("false"), |_| false),
        ))(input);
        assert_eq!(as_nom(parse_boolean(input)), theirs, "{:?}", input);
        let theirs: IResult<&str, ()> = nom::combinator::map(tag("null"), |_| ())(input);
        assert_eq!(as_nom(parse_null(input)), theirs, "{:?}", input);
    }
}

#[test]
fn string_agrees_with_combinators_on_bodies_they_take() {
    for input in [
        "",
        "abc",
        "\"",
        "\"abc\"",
        "\"abc\" tail",
        "\"a\\\"b\"",
        "\"a\\\"\"",
        "\"\\\"\\\"\"x",
        "\"abc",
        "\"abc\\\"",
        "\"abc\\",
        "\"a\\nb\"",
        "\"h\u{e9}llo \u{1F600}\"rest",
        "\"line\nbreak\"",
    ] {
        let theirs = quoted_by_combinators(input).map(|(rest, text)| (rest, text.to_owned()));
        assert_eq!(as_nom(parse_string(input)), theirs, "{:?}", input);
    }
}

#[test]
fn string_takes_what_the_combinators_turn_away() {
    assert!(quoted_by_combinators("\"\"").is_err());
    assert_eq!(parse_string("\"\""), Ok(("", String::new())));
    assert!(quoted_by_combinators("\"a\\\\b\"").is_err());
    assert_eq!(parse_string("\"a\\\\b\""), Ok(("", "a\\\\b".to_owned())));
}
