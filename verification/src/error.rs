//! Parse failures: where the parser stopped and what it was looking for.

use vstd::prelude::*;

verus! {

/// What the parser was looking for when it gave up.
#[derive(Debug, Clone, Copy, PartialEq, Eq, Structural)]
pub enum ErrorKind {
    /// One particular character was required: the quote that opens or closes
    /// a string, a quote or backslash behind a backslash, or the brace or
    /// bracket that opens or closes an object or an array.
    Char,
    /// A word was required: `true`, `false` or `null`. A value of any kind
    /// fails like this, since `null` is the last kind that is tried.
    Tag,
    /// A decimal digit was required at the start of a number.
    Digit,
    /// A string ended right behind a backslash, with the text.
    Escaped,
}

/// A failure as contracts see it: the text left at the point of failure and the
/// kind of thing that was missing there.
pub struct Failure {
    pub remaining: Seq<char>,
    pub kind: ErrorKind,
}

/// A parse failure: the part of the input that was left unread at the point
/// of failure, and what was looked for there. The offset of the failure in
/// the input is the difference of the two lengths.
#[derive(Debug, Clone, Copy, PartialEq, Eq)]
pub struct ParseError<'a> {
    pub remaining: &'a str,
    pub kind: ErrorKind,
}

impl<'a> View for ParseError<'a> {
    type V = Failure;

    open spec fn view(&self) -> Failure {
        Failure { remaining: self.remaining@, kind: self.kind }
    }
}

/// What a parser yields as contracts see it: the text left over and the value,
/// or the failure.
pub type Parsed<T> = Result<(Seq<char>, T), Failure>;

/// The view of an executable parse result.
pub open spec fn outcome<'a, T: View>(res: Result<(&'a str, T), ParseError<'a>>) -> Parsed<T::V> {
    match res {
        Ok((rest, value)) => Ok((rest@, value@)),
        Err(e) => Err(e@),
    }
}

} // verus!
