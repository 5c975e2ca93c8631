//! Text that is plain ASCII, as bytes and as strings.

use vstd::prelude::*;
use vstd::utf8::{
    decode_utf8, encode_utf8, encode_utf8_decode_utf8, encode_utf8_valid_utf8, is_ascii_chars,
    is_ascii_chars_encode_utf8, valid_utf8,
};
use crate::decimal::{decimal, format_decimal, lemma_decimal_is_canonical};
use crate::primitives::string_from_utf8;

verus! {

/// The bytes of ASCII text: one byte for each character.
pub open spec fn ascii(text: Seq<char>) -> Seq<u8> {
    Seq::new(text.len(), |i: int| text[i] as u8)
}

/// The text that ASCII bytes spell: one character for each byte.
pub open spec fn ascii_chars(bytes: Seq<u8>) -> Seq<char> {
    Seq::new(bytes.len(), |i: int| bytes[i] as char)
}

/// Whether every byte of `bytes` is an ASCII character.
pub open spec fn is_ascii_bytes(bytes: Seq<u8>) -> bool {
    forall|i: int| 0 <= i < bytes.len() ==> #[trigger] bytes[i] < 128
}

/// ASCII bytes are well-formed UTF-8, and the text that they encode has one
/// character for each byte.
pub proof fn lemma_ascii_is_utf8(bytes: Seq<u8>)
    requires
        is_ascii_bytes(bytes),
    ensures
        valid_utf8(bytes),
        decode_utf8(bytes) == ascii_chars(bytes),
        encode_utf8(ascii_chars(bytes)) == bytes,
{
    let chars = ascii_chars(bytes);
    assert(is_ascii_chars(chars)) by {
        assert forall|i: int| 0 <= i < chars.len() implies '\0' <= #[trigger] chars[i]
            <= '\u{7f}' by {
            assert(bytes[i] < 128);
        }
    }
    is_ascii_chars_encode_utf8(chars);
    assert(encode_utf8(chars) =~= bytes) by {
        assert forall|i: int| 0 <= i < bytes.len() implies encode_utf8(chars)[i] == bytes[i] by {
            assert(bytes[i] < 128);
            assert(chars[i] as u8 == bytes[i]);
        }
    }
    encode_utf8_valid_utf8(chars);
    encode_utf8_decode_utf8(chars);
}

/// The bytes of text that is known to be ASCII.
pub fn ascii_bytes(text: &str) -> (bytes: &[u8])
    requires
        is_ascii_chars(text@),
    ensures
        bytes@ == ascii(text@),
{
    proof {
        is_ascii_chars_encode_utf8(text@);
    }
    let bytes = text.as_bytes();
    assert(bytes@ =~= ascii(text@));
    bytes
}

/// The string that ASCII bytes spell.
pub fn ascii_string(bytes: Vec<u8>) -> (text: String)
    requires
        is_ascii_bytes(bytes@),
    ensures
        text@ == ascii_chars(bytes@),
{
    proof {
        lemma_ascii_is_utf8(bytes@);
    }
    match string_from_utf8(bytes) {
        Some(text) => text,
        None => String::new(),
    }
}

/// The bytes of ASCII text are ASCII bytes.
pub proof fn lemma_ascii_of_text(text: Seq<char>)
    requires
        is_ascii_chars(text),
    ensures
        is_ascii_bytes(ascii(text)),
{
    assert forall|i: int| 0 <= i < ascii(text).len() implies #[trigger] ascii(text)[i] < 128 by {
        assert('\0' <= text[i] <= '\u{7f}');
    }
}

/// The digits of a numeral are ASCII bytes.
pub proof fn lemma_decimal_is_ascii(n: nat)
    ensures
        is_ascii_bytes(decimal(n)),
{
    lemma_decimal_is_canonical(n);
}

/// Appends ASCII text to `out`.
pub fn push_text(out: &mut Vec<u8>, text: &str)
    requires
        is_ascii_chars(text@),
    ensures
        final(out)@ == old(out)@ + ascii(text@),
        is_ascii_bytes(old(out)@) ==> is_ascii_bytes(final(out)@),
{
    proof {
        lemma_ascii_of_text(text@);
    }
    let bytes = ascii_bytes(text);
    let mut i: usize = 0;
    while i < bytes.len()
        invariant
            i <= bytes@.len(),
            is_ascii_bytes(bytes@),
            out@ == old(out)@ + bytes@.take(i as int),
            is_ascii_bytes(old(out)@) ==> is_ascii_bytes(out@),
        decreases bytes@.len() - i,
    {
        out.push(bytes[i]);
        i += 1;
        assert(out@ =~= old(out)@ + bytes@.take(i as int));
    }
    assert(bytes@.take(bytes@.len() as int) =~= bytes@);
}

/// Appends the decimal numeral of `n` to `out`.
pub fn push_decimal(out: &mut Vec<u8>, n: u128)
    ensures
        final(out)@ == old(out)@ + decimal(n as nat),
        is_ascii_bytes(old(out)@) ==> is_ascii_bytes(final(out)@),
{
    proof {
        lemma_decimal_is_ascii(n as nat);
    }
    let digits = format_decimal(n);
    let mut i: usize = 0;
    while i < digits.len()
        invariant
            i <= digits@.len(),
            is_ascii_bytes(digits@),
            out@ == old(out)@ + digits@.take(i as int),
            is_ascii_bytes(old(out)@) ==> is_ascii_bytes(out@),
        decreases digits@.len() - i,
    {
        out.push(digits[i]);
        i += 1;
        assert(out@ =~= old(out)@ + digits@.take(i as int));
    }
    assert(digits@.take(digits@.len() as int) =~= digits@);
}

} // verus!
