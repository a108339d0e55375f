//! A parser for a small, exactly stated subset of JSON.
//!
//! [`parse_json`] reads one value from the front of a text and hands back the
//! value as a tree together with the text behind it, or a failure that holds
//! the text left at the point where reading stopped. The parsers of the parts
//! ([`parse_value`], [`parse_object`], [`parse_array`], [`parse_string`],
//! [`parse_number`], [`parse_boolean`], [`parse_null`]) have the same shape and
//! can be called on their own.
//!
//! Each parser is proved to return exactly what the function of the grammar
//! that it stands for gives for its input (see [`grammar`]), so the grammar is
//! the full account of what is accepted. It differs from JSON as commonly
//! known in these ways:
//!
//! - a string is kept as written: `\"` and `\\` are the only escapes, neither
//!   is decoded, and a backslash before any other char makes the string fail;
//! - a number is digits, optionally followed by a point and digits: there is
//!   no sign and no exponent, and the digits are kept as text, exactly;
//! - whitespace is space, tab, line feed and carriage return; it may stand
//!   before a value, before a brace, bracket, comma or colon, and between a
//!   comma and the key that follows it, but not between `{` and the first key;
//! - an object keeps its pairs in the order of the text, duplicate keys too;
//! - what follows a complete value is not looked at: it is handed back;
//! - nesting is followed by recursion, one call for each level, and there is
//!   no bound on the depth.

pub mod equality;
pub mod error;
pub mod grammar;
pub mod laws;
pub mod lexer;
pub mod parser;
pub mod progress;
mod text;
pub mod value;
pub mod wellformed;

pub use error::{ErrorKind, ParseError};
pub use lexer::{parse_boolean, parse_null, parse_number, parse_string};
pub use parser::{parse_array, parse_json, parse_object, parse_value};
pub use value::{Decimal, JsonValue};
