//! The delimiter of an edge list, given as text.

use vstd::prelude::*;
use vstd::string::StringSliceAdditionalSpecFns;
use vstd::utf8::{
    char_is_scalar, encode_scalar, encode_utf8, is_ascii_chars, is_ascii_chars_encode_utf8,
};

verus! {

/// `chars` is one character, and that character is ASCII.
pub open spec fn is_single_ascii(chars: Seq<char>) -> bool {
    chars.len() == 1 && is_ascii_chars(chars)
}

/// Text takes at least one byte per character.
proof fn lemma_encoding_len(chars: Seq<char>)
    ensures
        encode_utf8(chars).len() >= chars.len(),
    decreases chars.len(),
{
    if chars.len() > 0 {
        lemma_encoding_len(chars.drop_first());
    }
}

/// A character takes one byte if and only if it is ASCII.
proof fn lemma_one_byte_char(c: char)
    ensures
        encode_scalar(c as u32).len() == 1 <==> '\0' <= c <= '\u{7f}',
{
    char_is_scalar(c);
}

/// Text takes exactly one byte if and only if it is a single ASCII character.
proof fn lemma_single_byte(chars: Seq<char>)
    ensures
        encode_utf8(chars).len() == 1 <==> is_single_ascii(chars),
{
    lemma_encoding_len(chars);
    if chars.len() == 1 {
        lemma_one_byte_char(chars[0]);
        assert(encode_utf8(chars.drop_first()).len() == 0);
    }
}

/// The byte of a delimiter that is given as text: the text must be exactly
/// one ASCII character.
pub fn str_as_char_u8(s: &str) -> (r: Result<u8, ()>)
    ensures
        r is Ok <==> is_single_ascii(s@),
        r matches Ok(byte) ==> byte == s@[0] as u8,
{
    let bytes = s.as_bytes();
    proof {
        lemma_single_byte(s@);
    }
    if bytes.len() == 1 {
        proof {
            is_ascii_chars_encode_utf8(s@);
        }
        Ok(bytes[0])
    } else {
        Err(())
    }
}

} // verus!
