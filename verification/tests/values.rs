use json_parser::{
    parse_array, parse_json, parse_object, parse_value, Decimal, ErrorKind, JsonValue, ParseError,
};

fn number(integer: &str, fraction: &str) -> JsonValue {
    JsonValue::Number(Decimal { integer: integer.to_owned(), fraction: fraction.to_owned() })
}

fn text(s: &str) -> JsonValue {
    JsonValue::String(s.to_owned())
}

fn pair(key: &str, value: JsonValue) -> (String, JsonValue) {
    (key.to_owned(), value)
}

fn fails_at(remaining: &str, kind: ErrorKind) -> ParseError<'_> {
    ParseError { remaining, kind }
}

fn as_f64(value: &JsonValue) -> f64 {
    match value {
        JsonValue::Number(n) if n.fraction.is_empty() => n.integer.parse().unwrap(),
        JsonValue::Number(n) => format!("{}.{}", n.integer, n.fraction).parse().unwrap(),
        other => panic!("not a number: {:?}", other),
    }
}

#[test]
fn literals_alone() {
    assert_eq!(parse_json("true"), Ok(("", JsonValue::Boolean(true))));
    assert_eq!(parse_json("false"), Ok(("", JsonValue::Boolean(false))));
    assert_eq!(parse_json("null"), Ok(("", JsonValue::Null)));
    assert_eq!(parse_value("true"), Ok(("", JsonValue::Boolean(true))));
    assert_eq!(parse_value("false"), Ok(("", JsonValue::Boolean(false))));
    assert_eq!(parse_value("null"), Ok(("", JsonValue::Null)));
}

#[test]
fn value_of_each_kind() {
    assert_eq!(parse_value("\"hi\""), Ok(("", text("hi"))));
    assert_eq!(parse_value("42"), Ok(("", number("42", ""))));
    assert_eq!(parse_value("4.25"), Ok(("", number("4", "25"))));
    assert_eq!(parse_value("[]"), Ok(("", JsonValue::Array(vec![]))));
    assert_eq!(parse_value("{}"), Ok(("", JsonValue::Object(vec![]))));
    assert_eq!(parse_value("\"\""), Ok(("", text(""))));
}

#[test]
fn empty_composites() {
    assert_eq!(parse_json("{}"), Ok(("", JsonValue::Object(vec![]))));
    assert_eq!(parse_json("[]"), Ok(("", JsonValue::Array(vec![]))));
    assert_eq!(parse_object("{}"), Ok(("", JsonValue::Object(vec![]))));
    assert_eq!(parse_array("[]"), Ok(("", JsonValue::Array(vec![]))));
}

#[test]
fn empty_composites_with_space_inside() {
    assert_eq!(parse_json("{ }"), Ok(("", JsonValue::Object(vec![]))));
    assert_eq!(parse_json("[ \n\t ]"), Ok(("", JsonValue::Array(vec![]))));
    assert_eq!(parse_json("{\r\n}"), Ok(("", JsonValue::Object(vec![]))));
}

#[test]
fn nested_composite() {
    let (rest, value) = parse_json(r#"{"a": [1, 2.5, true, null]}"#).unwrap();
    assert_eq!(rest, "");
    assert_eq!(
        value,
        JsonValue::Object(vec![pair(
            "a",
            JsonValue::Array(vec![
                number("1", ""),
                number("2", "5"),
                JsonValue::Boolean(true),
                JsonValue::Null,
            ]),
        )])
    );
    match value {
        JsonValue::Object(pairs) => match &pairs[0].1 {
            JsonValue::Array(items) => {
                assert_eq!(as_f64(&items[0]), 1.0);
                assert_eq!(as_f64(&items[1]), 2.5);
            }
            other => panic!("not an array: {:?}", other),
        },
        other => panic!("not an object: {:?}", other),
    }
}

#[test]
fn object_keeps_pairs_in_source_order() {
    assert_eq!(
        parse_object(r#"{"b": 1,"a": 2,"c": "x"}"#),
        Ok((
            "",
            JsonValue::Object(vec![
                pair("b", number("1", "")),
                pair("a", number("2", "")),
                pair("c", text("x")),
            ])
        ))
    );
}

#[test]
fn object_keeps_duplicate_keys() {
    assert_eq!(
        parse_object(r#"{"k": 1,"k": 2,"k": 1}"#),
        Ok((
            "",
            JsonValue::Object(vec![
                pair("k", number("1", "")),
                pair("k", number("2", "")),
                pair("k", number("1", "")),
            ])
        ))
    );
}

#[test]
fn object_takes_space_around_comma_and_colon() {
    let expected = JsonValue::Object(vec![
        pair("a", number("1", "")),
        pair("b", JsonValue::Boolean(false)),
    ]);
    assert_eq!(parse_object(r#"{"a":1,"b":false}"#), Ok(("", JsonValue::Object(vec![
        pair("a", number("1", "")),
        pair("b", JsonValue::Boolean(false)),
    ]))));
    assert_eq!(parse_object("{\"a\" : 1 , \"b\" : false }"), Ok(("", JsonValue::Object(vec![
        pair("a", number("1", "")),
        pair("b", JsonValue::Boolean(false)),
    ]))));
    assert_eq!(
        parse_object("{\"a\":\n\t1\r\n,\n\t\"b\":\n\tfalse\n}"),
        Ok(("", expected))
    );
}

#[test]
fn object_takes_no_space_before_first_key() {
    assert_eq!(
        parse_object(r#"{ "a": 1}"#),
        Err(fails_at(r#""a": 1}"#, ErrorKind::Char))
    );
}

#[test]
fn object_key_is_raw_text() {
    assert_eq!(
        parse_object(r#"{"a\"b": null,"": true}"#),
        Ok((
            "",
            JsonValue::Object(vec![
                pair(r#"a\"b"#, JsonValue::Null),
                pair("", JsonValue::Boolean(true)),
            ])
        ))
    );
}

#[test]
fn object_failures() {
    assert_eq!(parse_object(r#"{"a": 1"#), Err(fails_at("", ErrorKind::Char)));
    assert_eq!(parse_object("{"), Err(fails_at("", ErrorKind::Char)));
    assert_eq!(parse_object(r#"{"a" 1}"#), Err(fails_at(r#""a" 1}"#, ErrorKind::Char)));
    assert_eq!(parse_object(r#"{"a": }"#), Err(fails_at(r#""a": }"#, ErrorKind::Char)));
    assert_eq!(parse_object(r#"{"a": 1,}"#), Err(fails_at(",}", ErrorKind::Char)));
    assert_eq!(parse_object(r#"{"a": 1 "b": 2}"#), Err(fails_at(r#""b": 2}"#, ErrorKind::Char)));
    assert_eq!(parse_object(r#"{a: 1}"#), Err(fails_at("a: 1}", ErrorKind::Char)));
    assert_eq!(parse_object(r#"{1: 2}"#), Err(fails_at("1: 2}", ErrorKind::Char)));
    assert_eq!(parse_object(r#"{"a": 1, "b"}"#), Err(fails_at(r#", "b"}"#, ErrorKind::Char)));
    assert_eq!(parse_object(r#"{"a": 1]"#), Err(fails_at("]", ErrorKind::Char)));
}

#[test]
fn object_needs_opening_brace() {
    assert_eq!(parse_object("[1]"), Err(fails_at("[1]", ErrorKind::Char)));
    assert_eq!(parse_object(""), Err(fails_at("", ErrorKind::Char)));
    assert_eq!(parse_object("  x"), Err(fails_at("x", ErrorKind::Char)));
    assert_eq!(parse_object("}"), Err(fails_at("}", ErrorKind::Char)));
}

#[test]
fn object_skips_space_before_brace() {
    assert_eq!(parse_object(" \n {}"), Ok(("", JsonValue::Object(vec![]))));
    assert_eq!(
        parse_object("\t{\"a\": 1}x"),
        Ok(("x", JsonValue::Object(vec![pair("a", number("1", ""))])))
    );
}

#[test]
fn array_of_values() {
    assert_eq!(
        parse_array("[1,2,3]"),
        Ok(("", JsonValue::Array(vec![number("1", ""), number("2", ""), number("3", "")])))
    );
    assert_eq!(
        parse_array("[ 1 , \"two\" ,\n[ ] , { } ]"),
        Ok((
            "",
            JsonValue::Array(vec![
                number("1", ""),
                text("two"),
                JsonValue::Array(vec![]),
                JsonValue::Object(vec![]),
            ])
        ))
    );
    assert_eq!(parse_array(" [null]tail"), Ok(("tail", JsonValue::Array(vec![JsonValue::Null]))));
}

#[test]
fn array_failures() {
    assert_eq!(parse_array("[1, 2"), Err(fails_at("", ErrorKind::Char)));
    assert_eq!(parse_array("["), Err(fails_at("", ErrorKind::Char)));
    assert_eq!(parse_array("[1, 2,]"), Err(fails_at(",]", ErrorKind::Char)));
    assert_eq!(parse_array("[1 2]"), Err(fails_at("2]", ErrorKind::Char)));
    assert_eq!(parse_array("[,1]"), Err(fails_at(",1]", ErrorKind::Char)));
    assert_eq!(parse_array("[1}"), Err(fails_at("}", ErrorKind::Char)));
    assert_eq!(parse_array("[\"a]"), Err(fails_at("\"a]", ErrorKind::Char)));
    assert_eq!(parse_array("[-1]"), Err(fails_at("-1]", ErrorKind::Char)));
}

#[test]
fn array_needs_opening_bracket() {
    assert_eq!(parse_array("{}"), Err(fails_at("{}", ErrorKind::Char)));
    assert_eq!(parse_array(""), Err(fails_at("", ErrorKind::Char)));
    assert_eq!(parse_array("  1]"), Err(fails_at("1]", ErrorKind::Char)));
}

#[test]
fn value_fails_at_first_char_that_is_not_space() {
    assert_eq!(parse_value("@"), Err(fails_at("@", ErrorKind::Tag)));
    assert_eq!(parse_value("  @ 1"), Err(fails_at("@ 1", ErrorKind::Tag)));
    assert_eq!(parse_value(""), Err(fails_at("", ErrorKind::Tag)));
    assert_eq!(parse_value(" \n"), Err(fails_at("", ErrorKind::Tag)));
    assert_eq!(parse_value("-1"), Err(fails_at("-1", ErrorKind::Tag)));
    assert_eq!(parse_value(".5"), Err(fails_at(".5", ErrorKind::Tag)));
    assert_eq!(parse_value("\"abc"), Err(fails_at("\"abc", ErrorKind::Tag)));
    assert_eq!(parse_value(" [1, 2"), Err(fails_at("[1, 2", ErrorKind::Tag)));
    assert_eq!(parse_value(" {\"a\": 1"), Err(fails_at("{\"a\": 1", ErrorKind::Tag)));
    assert_eq!(parse_value("[1, [2, }]"), Err(fails_at("[1, [2, }]", ErrorKind::Tag)));
    assert_eq!(parse_json("\t[1, 2"), Err(fails_at("[1, 2", ErrorKind::Tag)));
    assert_eq!(parse_json("nul"), Err(fails_at("nul", ErrorKind::Tag)));
}

#[test]
fn leading_space_changes_nothing() {
    let bare = r#"{"a": [1, 2.5, true, null]} and more"#;
    let (bare_rest, bare_value) = parse_value(bare).unwrap();
    for space in ["", " ", "\t", "\n", "\r", " \t\n\r \r\n\t  "] {
        let padded = format!("{}{}", space, bare);
        let (rest, value) = parse_value(&padded).unwrap();
        assert_eq!(rest, bare_rest);
        assert_eq!(value, bare_value);
        assert_eq!(padded.len() - rest.len(), space.len() + (bare.len() - bare_rest.len()));
        let (rest, value) = parse_json(&padded).unwrap();
        assert_eq!(rest, bare_rest);
        assert_eq!(value, bare_value);
    }
    assert_eq!(parse_json(" \t\n\r true"), Ok(("", JsonValue::Boolean(true))));
    assert_eq!(parse_json("  12"), parse_json("12"));
    assert_eq!(parse_value("\n\n@"), parse_value("@"));
}

#[test]
fn other_space_is_not_skipped() {
    assert_eq!(parse_json("\u{a0}1"), Err(fails_at("\u{a0}1", ErrorKind::Tag)));
    assert_eq!(parse_json("\u{b}1"), Err(fails_at("\u{b}1", ErrorKind::Tag)));
    assert_eq!(parse_json("\u{c}1"), Err(fails_at("\u{c}1", ErrorKind::Tag)));
}

#[test]
fn trailing_text_is_left_unread() {
    assert_eq!(parse_json("true false"), Ok((" false", JsonValue::Boolean(true))));
    assert_eq!(parse_json("{} garbage"), Ok((" garbage", JsonValue::Object(vec![]))));
    assert_eq!(parse_json("[1]]"), Ok(("]", JsonValue::Array(vec![number("1", "")]))));
    assert_eq!(parse_json("1.5.5"), Ok((".5", number("1", "5"))));
    assert_eq!(parse_json("null  "), Ok(("  ", JsonValue::Null)));
    assert_eq!(parse_json("12abc"), Ok(("abc", number("12", ""))));
}

#[test]
fn parsing_twice_gives_equal_trees() {
    let input =
        r#" {"name": "John Doe","age": 42,"grades": [90, 85, 95],"address": {"zip": "12345"}}"#;
    let first = parse_json(input);
    let second = parse_json(input);
    assert!(first.is_ok());
    assert_eq!(first, second);
    let copy = input.to_owned();
    assert_eq!(parse_json(&copy).unwrap().1, first.unwrap().1);
}

#[test]
fn document_with_every_kind_of_value() {
    let input = [
        "{\"name\": \"John Doe\",",
        "\t\"age\": 42,",
        "\t\"isStudent\": true,",
        "\t\"grades\": [90, 85, 95],",
        "\t\"address\": {\"street\": \"123 Main St\", \"zip\": \"12345\"},",
        "\t\"phoneNumbers\": [",
        "\t\t{\"type\": \"home\", \"number\": \"555-1234\"},",
        "\t\t{\"type\": \"work\", \"number\": \"555-5678\"}",
        "\t],",
        "\t\"spouse\": null",
        "}",
    ]
    .join("\n");
    assert_eq!(
        parse_json(&input),
        Ok((
            "",
            JsonValue::Object(vec![
                pair("name", text("John Doe")),
                pair("age", number("42", "")),
                pair("isStudent", JsonValue::Boolean(true)),
                pair(
                    "grades",
                    JsonValue::Array(vec![number("90", ""), number("85", ""), number("95", "")])
                ),
                pair(
                    "address",
                    JsonValue::Object(vec![
                        pair("street", text("123 Main St")),
                        pair("zip", text("12345")),
                    ])
                ),
                pair(
                    "phoneNumbers",
                    JsonValue::Array(vec![
                        JsonValue::Object(vec![
                            pair("type", text("home")),
                            pair("number", text("555-1234")),
                        ]),
                        JsonValue::Object(vec![
                            pair("type", text("work")),
                            pair("number", text("555-5678")),
                        ]),
                    ])
                ),
                pair("spouse", JsonValue::Null),
            ])
        ))
    );
}

#[test]
fn nesting_of_some_depth() {
    let depth = 200;
    let input = format!("{}{}", "[".repeat(depth), "]".repeat(depth));
    let (rest, mut value) = parse_json(&input).unwrap();
    assert_eq!(rest, "");
    let mut seen = 0;
    loop {
        match value {
            JsonValue::Array(mut items) => {
                seen += 1;
                match items.pop() {
                    Some(inner) => {
                        assert!(items.is_empty());
                        value = inner;
                    }
                    None => break,
                }
            }
            other => panic!("not an array: {:?}", other),
        }
    }
    assert_eq!(seen, depth);
    let unclosed = format!("{}{}", "[".repeat(depth), "]".repeat(depth - 1));
    assert!(parse_json(&unclosed).is_err());
}

#[test]
fn malformed_inputs_fail() {
    for input in [
        "\"never closed",
        "{\"a\": 1",
        "[1, 2",
        "{\"a\": [1, 2}",
        "[{\"a\": 1]",
        "x",
        "-",
        "",
        "{\"a\": \"b}",
        "[\"a\\z\"]",
    ] {
        assert!(parse_json(input).is_err(), "{:?}", input);
        assert!(parse_value(input).is_err(), "{:?}", input);
    }
}

#[test]
fn trees_compare_by_structure() {
    let tree = |input: &str| parse_json(input).unwrap().1;
    assert_eq!(tree("[1, 2]"), tree("[1,2]"));
    assert_ne!(tree("[1, 2]"), tree("[1, 3]"));
    assert_ne!(tree("[1, 2]"), tree("[1, 2, 3]"));
    assert_ne!(tree("[1, 2]"), tree("[2, 1]"));
    assert_ne!(tree("[]"), tree("{}"));
    assert_ne!(tree("[[]]"), tree("[]"));
    assert_ne!(tree("null"), tree("false"));
    assert_ne!(tree("true"), tree("false"));
    assert_ne!(tree("\"1\""), tree("1"));
    assert_ne!(tree("\"a\""), tree("\"b\""));
    assert_eq!(tree("{\"a\": 1,\"b\": [true]}"), tree("{\"a\" :1 , \"b\":[ true ] }"));
    assert_ne!(tree("{\"a\": 1,\"b\": 2}"), tree("{\"b\": 2,\"a\": 1}"));
    assert_ne!(tree("{\"a\": 1}"), tree("{\"b\": 1}"));
    assert_ne!(tree("{\"a\": 1}"), tree("{\"a\": 2}"));
    assert_ne!(tree("{\"a\": 1}"), tree("{\"a\": 1,\"a\": 1}"));
    assert_ne!(
        tree("{\"a\": {\"b\": [1, {\"c\": null}]}}"),
        tree("{\"a\": {\"b\": [1, {\"c\": false}]}}")
    );
}

#[test]
fn numbers_compare_by_their_digits() {
    assert_eq!(number("1", "50"), number("1", "50"));
    assert_ne!(number("1", "5"), number("1", "50"));
    assert_ne!(number("1", ""), number("01", ""));
    assert_ne!(number("1", ""), number("1", "0"));
    assert_ne!(number("12", "3"), number("1", "23"));
    assert_eq!(as_f64(&number("1", "5")), as_f64(&number("1", "50")));
    assert_eq!(as_f64(&number("1", "")), as_f64(&number("01", "")));
}
