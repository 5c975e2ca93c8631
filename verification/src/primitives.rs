//! What the library takes from other crates and from the standard library
//! without proof: SHA-1, hexadecimal text, form decoding and UTF-8 text.
//! Each executable function here makes one call, and its contract is
//! believed, not verified. What hexadecimal text means is defined here too,
//! and what is proved of it is proved from that definition alone.

use vstd::prelude::*;
use vstd::utf8::{decode_utf8, valid_utf8};
use sha1::{Digest, Sha1};

verus! {

/// The SHA-1 digest of a byte string.
pub uninterp spec fn sha1_of(data: Seq<u8>) -> Seq<u8>;

/// Calls `Sha1::digest` of the `sha1` crate. Believed: the result is the
/// SHA-1 digest of `data`, a function of `data` alone, and has 20 bytes.
#[verifier::external_body]
pub(crate) fn sha1_digest(data: &[u8]) -> (digest: Vec<u8>)
    ensures
        digest@ == sha1_of(data@),
        digest@.len() == 20,
{
    Sha1::digest(data).to_vec()
}

/// The number that a hexadecimal digit stands for, in either case.
pub open spec fn hex_digit_value(digit: u8) -> Option<u8> {
    if 48 <= digit <= 57 {
        Some((digit - 48) as u8)
    } else if 97 <= digit <= 102 {
        Some((digit - 87) as u8)
    } else if 65 <= digit <= 70 {
        Some((digit - 55) as u8)
    } else {
        None
    }
}

/// The bytes that hexadecimal text stands for, two digits to the byte; none
/// where the text has an odd length or holds anything but digits.
pub open spec fn hex_decoded(text: Seq<u8>) -> Option<Seq<u8>> {
    if text.len() % 2 != 0 || exists|i: int|
        0 <= i < text.len() && hex_digit_value(#[trigger] text[i]) is None {
        None
    } else {
        Some(
            Seq::new(
                text.len() / 2,
                |i: int|
                    (hex_digit_value(text[2 * i]).unwrap() * 16 + hex_digit_value(
                        text[2 * i + 1],
                    ).unwrap()) as u8,
            ),
        )
    }
}

/// Calls `hex::decode`. Believed: text of even length made of hexadecimal
/// digits of either case gives its bytes; any other text gives nothing.
#[verifier::external_body]
pub(crate) fn hex_decode(text: &[u8]) -> (bytes: Option<Vec<u8>>)
    ensures
        match hex_decoded(text@) {
            Some(decoded) => bytes matches Some(b) && b@ == decoded,
            None => bytes is None,
        },
{
    hex::decode(text).ok()
}

/// The lower-case hexadecimal digit for a number below sixteen.
pub open spec fn hex_digit(nibble: int) -> char {
    if nibble < 10 {
        (48 + nibble) as u8 as char
    } else {
        (87 + nibble) as u8 as char
    }
}

/// Bytes written as lower-case hexadecimal text, two digits to the byte.
pub open spec fn hex_encoded(data: Seq<u8>) -> Seq<char> {
    Seq::new(
        2 * data.len(),
        |i: int|
            if i % 2 == 0 {
                hex_digit(data[i / 2] as int / 16)
            } else {
                hex_digit(data[i / 2] as int % 16)
            },
    )
}

/// Bytes written as hexadecimal text are the bytes that this text stands for.
pub proof fn lemma_hex_decoded_of_encoded(data: Seq<u8>)
    ensures
        hex_decoded(crate::text::ascii(hex_encoded(data))) == Some(data),
{
    let text = crate::text::ascii(hex_encoded(data));
    assert forall|i: int| 0 <= i < text.len() implies hex_digit_value(#[trigger] text[i]) == Some(
        if i % 2 == 0 {
            data[i / 2] / 16
        } else {
            data[i / 2] % 16
        },
    ) by {
        let nibble: int = if i % 2 == 0 {
            data[i / 2] as int / 16
        } else {
            data[i / 2] as int % 16
        };
        assert(hex_encoded(data)[i] == hex_digit(nibble));
        assert(text[i] == hex_digit(nibble) as u8);
    }
    let decoded = hex_decoded(text);
    assert(decoded is Some);
    assert(decoded.unwrap() =~= data) by {
        assert forall|i: int| 0 <= i < data.len() implies decoded.unwrap()[i] == data[i] by {
            assert(hex_digit_value(text[2 * i]) == Some((data[i] / 16) as u8));
            assert(hex_digit_value(text[2 * i + 1]) == Some((data[i] % 16) as u8));
        }
    }
}

/// Calls `hex::encode`. Believed: the result holds, for each byte in order,
/// its high and its low four bits as lower-case hexadecimal digits.
#[verifier::external_body]
pub(crate) fn hex_encode(data: &[u8]) -> (text: String)
    ensures
        text@ == hex_encoded(data@),
{
    hex::encode(data)
}

/// The pairs of names and values that form-encoded text stands for, if it
/// stands for any.
pub uninterp spec fn form_pairs(input: Seq<u8>) -> Option<Seq<(Seq<char>, Seq<char>)>>;

/// The pairs of names and values that pairs of strings hold, if there are any.
pub open spec fn pairs_view(pairs: Option<Vec<(String, String)>>) -> Option<
    Seq<(Seq<char>, Seq<char>)>,
> {
    match pairs {
        Some(pairs) => Some(Seq::new(pairs@.len(), |i: int| (pairs@[i].0@, pairs@[i].1@))),
        None => None,
    }
}

/// Calls `serde_urlencoded::from_bytes` for a vector of pairs of strings.
/// Believed: the result is a function of `input` alone.
#[verifier::external_body]
pub(crate) fn form_decode(input: &[u8]) -> (pairs: Option<Vec<(String, String)>>)
    ensures
        pairs_view(pairs) == form_pairs(input@),
{
    serde_urlencoded::from_bytes::<Vec<(String, String)>>(input).ok()
}

/// Calls `String::from_utf8`. Believed: bytes that are well-formed UTF-8 give
/// the text that they encode; other bytes give nothing.
#[verifier::external_body]
pub(crate) fn string_from_utf8(bytes: Vec<u8>) -> (text: Option<String>)
    ensures
        text is Some <==> valid_utf8(bytes@),
        text matches Some(s) ==> s@ == decode_utf8(bytes@),
{
    String::from_utf8(bytes).ok()
}

} // verus!
