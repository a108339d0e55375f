//! Stepping through a `&str` one character at a time, by way of its UTF-8 bytes.

use vstd::prelude::*;
use vstd::string::*;
use vstd::utf8::*;
use crate::grammar::is_tail_of;

verus! {

/// Whether `c` is an ASCII char, which UTF-8 writes as one byte.
pub open spec fn is_ascii_char(c: char) -> bool {
    (c as u32) < 0x80
}

/// Two texts with the same encoding are the same text.
proof fn lemma_encoding_unique(a: Seq<char>, b: Seq<char>)
    requires
        encode_utf8(a) == encode_utf8(b),
    ensures
        a == b,
{
    encode_utf8_decode_utf8(a);
    encode_utf8_decode_utf8(b);
}

/// The encoding of a non-empty text starts with the bytes of its first char,
/// followed by the encoding of the rest.
proof fn lemma_encoding_head(s: Seq<char>)
    requires
        s.len() > 0,
    ensures
        valid_utf8(encode_utf8(s)),
        encode_utf8(s).len() > 0,
        valid_first_scalar(encode_utf8(s)),
        1 <= length_of_first_scalar(encode_utf8(s)) <= encode_utf8(s).len(),
        pop_first_scalar(encode_utf8(s)) == encode_utf8(s.drop_first()),
        is_ascii_char(s[0]) ==> encode_utf8(s)[0] as u32 == s[0] as u32,
        !is_ascii_char(s[0]) ==> encode_utf8(s)[0] >= 0x80,
{
    let bytes = encode_utf8(s);
    let c = s[0] as u32;
    encode_utf8_valid_utf8(s);
    encode_utf8_first_scalar(s);
    char_is_scalar(s[0]);
    assert(encode_scalar(c).len() >= 1);
    assert(bytes.len() == encode_scalar(c).len() + encode_utf8(s.drop_first()).len());
    assert(pop_first_scalar(bytes) =~= encode_utf8(s.drop_first()));
    assert(bytes[0] == encode_scalar(c)[0]);
    if c < 0x80 {
        assert(((c & 0x7F) as u8) as u32 == c) by (bit_vector)
            requires
                c < 0x80,
        ;
    } else {
        assert((0xC0u8 | ((c >> 6) & 0x1F) as u8) >= 0x80) by (bit_vector);
        assert((0xE0u8 | ((c >> 12) & 0x0F) as u8) >= 0x80) by (bit_vector);
        assert((0xF0u8 | ((c >> 18) & 0x7) as u8) >= 0x80) by (bit_vector);
    }
}

/// What a text starts with, as far as an ASCII grammar needs to know.
pub(crate) enum Lead {
    /// The text is empty.
    End,
    /// The first char, which is an ASCII char.
    Ascii(char),
    /// The first char lies outside ASCII.
    Wide,
}

/// Looks at the first char of `input` without consuming it.
pub(crate) fn peek(input: &str) -> (lead: Lead)
    ensures
        match lead {
            Lead::End => input@.len() == 0,
            Lead::Ascii(c) => input@.len() > 0 && input@[0] == c && is_ascii_char(c),
            Lead::Wide => input@.len() > 0 && !is_ascii_char(input@[0]),
        },
{
    let bytes = input.as_bytes();
    if bytes.len() == 0 {
        proof {
            if input@.len() > 0 {
                lemma_encoding_head(input@);
            }
        }
        Lead::End
    } else {
        proof {
            lemma_encoding_head(input@);
        }
        let b = bytes[0];
        if b < 0x80 {
            let c = b as char;
            proof {
                char_u32_cast(c, b as u32);
                char_u32_cast(input@[0], b as u32);
            }
            Lead::Ascii(c)
        } else {
            Lead::Wide
        }
    }
}

/// The text after the first char of `input`.
pub(crate) fn skip_char(input: &str) -> (rest: &str)
    requires
        input@.len() > 0,
    ensures
        rest@ == input@.skip(1),
{
    let bytes = input.as_bytes();
    proof {
        lemma_encoding_head(input@);
    }
    let b = bytes[0];
    let width: usize = if b < 0x80 {
        1
    } else if b < 0xE0 {
        2
    } else if b < 0xF0 {
        3
    } else {
        4
    };
    proof {
        let enc = input.spec_bytes();
        assert(width == length_of_first_scalar(enc));
        assert(valid_utf8(pop_first_scalar(enc))) by {
            encode_utf8_valid_utf8(input@.drop_first());
        }
        assert(is_char_boundary(pop_first_scalar(enc), 0));
        assert(is_char_boundary(enc, width as int));
    }
    let (_, rest) = input.split_at(width);
    proof {
        assert(rest.spec_bytes() == encode_utf8(input@.drop_first()));
        lemma_encoding_unique(rest@, input@.drop_first());
        assert(input@.drop_first() =~= input@.skip(1));
    }
    rest
}

/// Encoding goes through concatenation.
proof fn lemma_encoding_concat(a: Seq<char>, b: Seq<char>)
    ensures
        encode_utf8(a + b) == encode_utf8(a) + encode_utf8(b),
    decreases a.len(),
{
    if a.len() == 0 {
        assert(a + b =~= b);
        assert(encode_utf8(a) + encode_utf8(b) =~= encode_utf8(b));
    } else {
        assert((a + b).drop_first() =~= a.drop_first() + b);
        assert((a + b)[0] == a[0]);
        lemma_encoding_concat(a.drop_first(), b);
        assert(encode_utf8(a + b) =~= encode_utf8(a) + encode_utf8(b));
    }
}

/// The part of `input` that stands before `tail`.
pub(crate) fn head_before<'a>(input: &'a str, tail: &str) -> (head: &'a str)
    requires
        is_tail_of(tail@, input@),
    ensures
        head@ == input@.take(input@.len() - tail@.len()),
        head@ + tail@ == input@,
{
    let ghost n = input@.len() - tail@.len();
    let ghost front = input@.take(n);
    proof {
        assert(front + tail@ =~= input@);
        lemma_encoding_concat(front, tail@);
        encode_utf8_valid_utf8(input@);
    }
    let mid = input.as_bytes().len() - tail.as_bytes().len();
    proof {
        let enc = input.spec_bytes();
        assert(enc.len() == encode_utf8(front).len() + encode_utf8(tail@).len());
        if mid < enc.len() {
            lemma_encoding_head(tail@);
            assert(enc[mid as int] == encode_utf8(tail@)[0]);
            is_char_boundary_iff_is_leading_byte(enc, mid as int);
        } else {
            is_char_boundary_start_end_of_seq(enc);
        }
    }
    let (head, _) = input.split_at(mid);
    proof {
        assert(head.spec_bytes() =~= encode_utf8(front));
        lemma_encoding_unique(head@, front);
    }
    head
}

} // verus!
