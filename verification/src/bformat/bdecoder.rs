//! The decoder: reads one value from the front of a stream and leaves the
//! stream behind that value.

use vstd::prelude::*;
use vstd::slice::slice_subrange;
use crate::buffered_stream::{
    first_index_of, is_tail, lemma_skip_is_tail, lemma_tail_of_tail, BufferedStream,
};
use crate::decimal::{
    all_digits, decimal_value, is_canonical_decimal, is_digit, parse_decimal, NINE, ZERO,
};
use crate::bformat::btype::{dict_insert, values_of, BDict, BType, BValue};
use crate::bformat::syntax::{DICT_START, END, INTEGER_START, LIST_START, MINUS, SEPARATOR};

verus! {

/// Why a byte string is not the encoding of a value.
#[derive(Debug, PartialEq, Eq)]
pub enum DecodeError {
    /// The input ends before the value does.
    UnexpectedEof,
    /// A value starts with this byte, which begins no kind of value.
    UnknownType(u8),
    /// The length of a byte string is not a decimal number that fits the machine.
    InvalidLength,
    /// The text of an integer is not a decimal numeral in its shortest form, or
    /// its number does not fit 128 bits.
    InvalidInteger,
}

/// The byte string at the front of `input`, and what follows it.
pub open spec fn parsed_bytes(input: Seq<u8>) -> Result<(Seq<u8>, Seq<u8>), DecodeError> {
    match first_index_of(input, SEPARATOR) {
        None => Err(DecodeError::UnexpectedEof),
        Some(colon) => {
            let digits = input.take(colon);
            let rest = input.skip(colon + 1);
            if digits.len() == 0 || !all_digits(digits) || decimal_value(digits) > usize::MAX {
                Err(DecodeError::InvalidLength)
            } else if rest.len() < decimal_value(digits) {
                Err(DecodeError::UnexpectedEof)
            } else {
                let length = decimal_value(digits) as int;
                Ok((rest.take(length), rest.skip(length)))
            }
        },
    }
}

/// The number that the text between `i` and `e` denotes: an optional `-` and
/// a numeral without leading zeros, `-0` excluded, within 128 bits.
pub open spec fn integer_value(text: Seq<u8>) -> Option<int> {
    if text.len() > 0 && text[0] == MINUS {
        let digits = text.skip(1);
        if is_canonical_decimal(digits) && digits[0] != ZERO && decimal_value(digits) <= -(i128::MIN
            as int) {
            Some(-(decimal_value(digits) as int))
        } else {
            None
        }
    } else if is_canonical_decimal(text) && decimal_value(text) <= i128::MAX {
        Some(decimal_value(text) as int)
    } else {
        None
    }
}

/// The integer at the front of `input`, and what follows it.
pub open spec fn parsed_integer(input: Seq<u8>) -> Result<(int, Seq<u8>), DecodeError> {
    if input.len() == 0 {
        Err(DecodeError::UnexpectedEof)
    } else if input[0] != INTEGER_START {
        Err(DecodeError::UnknownType(input[0]))
    } else {
        match first_index_of(input.skip(1), END) {
            None => Err(DecodeError::UnexpectedEof),
            Some(end) => match integer_value(input.skip(1).take(end)) {
                Some(n) => Ok((n, input.skip(end + 2))),
                None => Err(DecodeError::InvalidInteger),
            },
        }
    }
}

/// The value at the front of `input`, and what follows it.
pub open spec fn parsed(input: Seq<u8>) -> Result<(BValue, Seq<u8>), DecodeError>
    decreases input.len(), 1int,
{
    if input.len() == 0 {
        Err(DecodeError::UnexpectedEof)
    } else if is_digit(input[0]) {
        match parsed_bytes(input) {
            Ok((bytes, rest)) => Ok((BValue::Bytes(bytes), rest)),
            Err(e) => Err(e),
        }
    } else if input[0] == INTEGER_START {
        match parsed_integer(input) {
            Ok((n, rest)) => Ok((BValue::Integer(n), rest)),
            Err(e) => Err(e),
        }
    } else if input[0] == LIST_START {
        match parsed_items(input.skip(1), Seq::empty()) {
            Ok((items, rest)) => Ok((BValue::List(items), rest)),
            Err(e) => Err(e),
        }
    } else if input[0] == DICT_START {
        match parsed_entries(input.skip(1), Seq::empty()) {
            Ok((entries, rest)) => Ok((BValue::Dict(entries), rest)),
            Err(e) => Err(e),
        }
    } else {
        Err(DecodeError::UnknownType(input[0]))
    }
}

/// The items of a list whose `l` and first items, `done`, have been read:
/// `done` followed by the items up to the closing `e`, and what follows it.
pub open spec fn parsed_items(input: Seq<u8>, done: Seq<BValue>) -> Result<
    (Seq<BValue>, Seq<u8>),
    DecodeError,
>
    decreases input.len(), 2int,
{
    if input.len() == 0 {
        Err(DecodeError::UnexpectedEof)
    } else if input[0] == END {
        Ok((done, input.skip(1)))
    } else {
        match parsed(input) {
            Err(e) => Err(e),
            Ok((item, rest)) => if rest.len() < input.len() {
                parsed_items(rest, done.push(item))
            } else {
                Err(DecodeError::UnexpectedEof)
            },
        }
    }
}

/// The entries of a dictionary whose `d` and first entries have been read:
/// `done` with the entries up to the closing `e` inserted one by one, a later
/// entry taking the place of an earlier one with the same key; and what
/// follows the `e`.
pub open spec fn parsed_entries(input: Seq<u8>, done: Seq<(Seq<u8>, BValue)>) -> Result<
    (Seq<(Seq<u8>, BValue)>, Seq<u8>),
    DecodeError,
>
    decreases input.len(), 2int,
{
    if input.len() == 0 {
        Err(DecodeError::UnexpectedEof)
    } else if input[0] == END {
        Ok((done, input.skip(1)))
    } else {
        match parsed_bytes(input) {
            Err(e) => Err(e),
            Ok((key, after_key)) => if after_key.len() < input.len() {
                match parsed(after_key) {
                    Err(e) => Err(e),
                    Ok((value, rest)) => if rest.len() < after_key.len() {
                        parsed_entries(rest, dict_insert(done, key, value))
                    } else {
                        Err(DecodeError::UnexpectedEof)
                    },
                }
            } else {
                Err(DecodeError::UnexpectedEof)
            },
        }
    }
}

/// The list at the front of `input`, and what follows it.
pub open spec fn parsed_list(input: Seq<u8>) -> Result<(Seq<BValue>, Seq<u8>), DecodeError> {
    if input.len() == 0 {
        Err(DecodeError::UnexpectedEof)
    } else if input[0] != LIST_START {
        Err(DecodeError::UnknownType(input[0]))
    } else {
        parsed_items(input.skip(1), Seq::empty())
    }
}

/// The dictionary at the front of `input`, and what follows it.
pub open spec fn parsed_dict(input: Seq<u8>) -> Result<
    (Seq<(Seq<u8>, BValue)>, Seq<u8>),
    DecodeError,
> {
    if input.len() == 0 {
        Err(DecodeError::UnexpectedEof)
    } else if input[0] != DICT_START {
        Err(DecodeError::UnknownType(input[0]))
    } else {
        parsed_entries(input.skip(1), Seq::empty())
    }
}

/// Reads the value at the front of the stream. On success the stream is left
/// behind the value; after an error it is left somewhere in the value that
/// could not be read.
pub fn decode(buf_stream: &mut BufferedStream) -> (result: Result<BType, DecodeError>)
    ensures
        match parsed(old(buf_stream)@) {
            Ok((value, rest)) => result matches Ok(v) && v@ == value && final(buf_stream)@
                == rest && rest.len() < old(buf_stream)@.len(),
            Err(e) => result matches Err(err) && err == e,
        },
        is_tail(final(buf_stream)@, old(buf_stream)@),
    decreases old(buf_stream)@.len(), 1int,
{
    proof {
        lemma_skip_is_tail(buf_stream@, 0);
    }
    match buf_stream.peek_byte() {
        None => Err(DecodeError::UnexpectedEof),
        Some(first_byte) => {
            if first_byte >= ZERO && first_byte <= NINE {
                match decode_bytes(buf_stream) {
                    Ok(bytes) => Ok(BType::Bytes(bytes)),
                    Err(e) => Err(e),
                }
            } else if first_byte == INTEGER_START {
                match decode_number(buf_stream) {
                    Ok(number) => Ok(BType::Number(number)),
                    Err(e) => Err(e),
                }
            } else if first_byte == LIST_START {
                match decode_list(buf_stream) {
                    Ok(list) => Ok(BType::List(list)),
                    Err(e) => Err(e),
                }
            } else if first_byte == DICT_START {
                match decode_map(buf_stream) {
                    Ok(map) => Ok(BType::Dict(map)),
                    Err(e) => Err(e),
                }
            } else {
                Err(DecodeError::UnknownType(first_byte))
            }
        },
    }
}

/// Reads a byte string: its length in decimal, `:`, and that many bytes.
pub fn decode_bytes(buf_stream: &mut BufferedStream) -> (result: Result<Vec<u8>, DecodeError>)
    ensures
        match parsed_bytes(old(buf_stream)@) {
            Ok((bytes, rest)) => result matches Ok(v) && v@ == bytes && final(buf_stream)@
                == rest && rest.len() < old(buf_stream)@.len(),
            Err(e) => result matches Err(err) && err == e,
        },
        is_tail(final(buf_stream)@, old(buf_stream)@),
{
    proof {
        crate::buffered_stream::lemma_first_index_of(buf_stream@, SEPARATOR);
        lemma_skip_is_tail(buf_stream@, 0);
    }
    let digits = match buf_stream.read_until(SEPARATOR) {
        None => {
            return Err(DecodeError::UnexpectedEof);
        },
        Some(digits) => digits,
    };
    proof {
        lemma_skip_is_tail(old(buf_stream)@, digits@.len() as int + 1);
    }
    let ghost after_colon = buf_stream@;
    let length = match parse_decimal(digits.as_slice(), usize::MAX as u128) {
        None => {
            return Err(DecodeError::InvalidLength);
        },
        Some(length) => length as usize,
    };
    match buf_stream.read_n_bytes(length) {
        None => Err(DecodeError::UnexpectedEof),
        Some(bytes) => {
            proof {
                lemma_skip_is_tail(after_colon, length as int);
                lemma_tail_of_tail(buf_stream@, after_colon, old(buf_stream)@);
            }
            Ok(bytes)
        },
    }
}

/// Reads the text of an integer, as it stands between `i` and `e`.
pub fn parse_integer(text: &[u8]) -> (number: Option<i128>)
    ensures
        match integer_value(text@) {
            Some(n) => number == Some(n as i128) && n == n as i128,
            None => number is None,
        },
{
    if text.len() > 0 && text[0] == MINUS {
        let digits = slice_subrange(text, 1, text.len());
        assert(digits@ =~= text@.skip(1));
        if digits.len() == 0 || digits[0] == ZERO {
            return None;
        }
        match parse_decimal(digits, 0x8000_0000_0000_0000_0000_0000_0000_0000u128) {
            None => None,
            Some(magnitude) => {
                if magnitude == 0x8000_0000_0000_0000_0000_0000_0000_0000u128 {
                    Some(i128::MIN)
                } else {
                    Some(-(magnitude as i128))
                }
            },
        }
    } else {
        if text.len() > 1 && text[0] == ZERO {
            return None;
        }
        match parse_decimal(text, i128::MAX as u128) {
            None => None,
            Some(magnitude) => Some(magnitude as i128),
        }
    }
}

/// Reads an integer: `i`, its text, `e`.
pub fn decode_number(buf_stream: &mut BufferedStream) -> (result: Result<i128, DecodeError>)
    ensures
        match parsed_integer(old(buf_stream)@) {
            Ok((n, rest)) => result matches Ok(v) && v == n && final(buf_stream)@ == rest
                && rest.len() < old(buf_stream)@.len(),
            Err(e) => result matches Err(err) && err == e,
        },
        is_tail(final(buf_stream)@, old(buf_stream)@),
{
    proof {
        lemma_skip_is_tail(buf_stream@, 0);
        if buf_stream@.len() > 0 {
            lemma_skip_is_tail(buf_stream@, 1);
        }
    }
    match buf_stream.read_byte() {
        None => {
            return Err(DecodeError::UnexpectedEof);
        },
        Some(first_byte) => {
            if first_byte != INTEGER_START {
                return Err(DecodeError::UnknownType(first_byte));
            }
        },
    }
    proof {
        crate::buffered_stream::lemma_first_index_of(buf_stream@, END);
    }
    let text = match buf_stream.read_until(END) {
        None => {
            return Err(DecodeError::UnexpectedEof);
        },
        Some(text) => text,
    };
    assert(buf_stream@ =~= old(buf_stream)@.skip(text@.len() as int + 2));
    proof {
        lemma_skip_is_tail(old(buf_stream)@, text@.len() as int + 2);
    }
    match parse_integer(text.as_slice()) {
        None => Err(DecodeError::InvalidInteger),
        Some(number) => Ok(number),
    }
}

/// Reads a list: `l`, its items, `e`.
pub fn decode_list(buf_stream: &mut BufferedStream) -> (result: Result<
    Vec<Box<BType>>,
    DecodeError,
>)
    ensures
        match parsed_list(old(buf_stream)@) {
            Ok((items, rest)) => result matches Ok(v) && values_of(v@) == items
                && final(buf_stream)@ == rest && rest.len() < old(buf_stream)@.len(),
            Err(e) => result matches Err(err) && err == e,
        },
        is_tail(final(buf_stream)@, old(buf_stream)@),
    decreases old(buf_stream)@.len(), 0int,
{
    proof {
        lemma_skip_is_tail(buf_stream@, 0);
        if buf_stream@.len() > 0 {
            lemma_skip_is_tail(buf_stream@, 1);
        }
    }
    match buf_stream.read_byte() {
        None => {
            return Err(DecodeError::UnexpectedEof);
        },
        Some(first_byte) => {
            if first_byte != LIST_START {
                return Err(DecodeError::UnknownType(first_byte));
            }
        },
    }
    let ghost start = buf_stream@;
    let mut values: Vec<Box<BType>> = Vec::new();
    assert(values_of(values@) =~= Seq::<BValue>::empty());
    loop
        invariant
            buf_stream@.len() < old(buf_stream)@.len(),
            is_tail(buf_stream@, old(buf_stream)@),
            parsed_items(start, Seq::empty()) == parsed_items(buf_stream@, values_of(values@)),
            parsed_list(old(buf_stream)@) == parsed_items(start, Seq::empty()),
        decreases buf_stream@.len(),
    {
        match buf_stream.peek_byte() {
            None => {
                return Err(DecodeError::UnexpectedEof);
            },
            Some(next) => {
                if next == END {
                    proof {
                        lemma_skip_is_tail(buf_stream@, 1);
                        lemma_tail_of_tail(buf_stream@.skip(1), buf_stream@, old(buf_stream)@);
                    }
                    let _ = buf_stream.read_byte();
                    return Ok(values);
                }
            },
        }
        let ghost before = values_of(values@);
        let ghost waiting = buf_stream@;
        let item = decode(buf_stream);
        proof {
            lemma_tail_of_tail(buf_stream@, waiting, old(buf_stream)@);
        }
        match item {
            Err(e) => {
                return Err(e);
            },
            Ok(value) => {
                values.push(Box::new(value));
                assert(values_of(values@) =~= before.push(value@));
            },
        }
    }
}

/// Reads a dictionary: `d`, each key followed by its value, `e`. Where a key
/// occurs twice, its last value stays.
pub fn decode_map(buf_stream: &mut BufferedStream) -> (result: Result<BDict, DecodeError>)
    ensures
        match parsed_dict(old(buf_stream)@) {
            Ok((entries, rest)) => result matches Ok(v) && v@ == entries && final(buf_stream)@
                == rest && rest.len() < old(buf_stream)@.len(),
            Err(e) => result matches Err(err) && err == e,
        },
        is_tail(final(buf_stream)@, old(buf_stream)@),
    decreases old(buf_stream)@.len(), 0int,
{
    proof {
        lemma_skip_is_tail(buf_stream@, 0);
        if buf_stream@.len() > 0 {
            lemma_skip_is_tail(buf_stream@, 1);
        }
    }
    match buf_stream.read_byte() {
        None => {
            return Err(DecodeError::UnexpectedEof);
        },
        Some(first_byte) => {
            if first_byte != DICT_START {
                return Err(DecodeError::UnknownType(first_byte));
            }
        },
    }
    let ghost start = buf_stream@;
    let mut map = BDict::new();
    loop
        invariant
            buf_stream@.len() < old(buf_stream)@.len(),
            is_tail(buf_stream@, old(buf_stream)@),
            parsed_entries(start, Seq::empty()) == parsed_entries(buf_stream@, map@),
            parsed_dict(old(buf_stream)@) == parsed_entries(start, Seq::empty()),
        decreases buf_stream@.len(),
    {
        match buf_stream.peek_byte() {
            None => {
                return Err(DecodeError::UnexpectedEof);
            },
            Some(next) => {
                if next == END {
                    proof {
                        lemma_skip_is_tail(buf_stream@, 1);
                        lemma_tail_of_tail(buf_stream@.skip(1), buf_stream@, old(buf_stream)@);
                    }
                    let _ = buf_stream.read_byte();
                    return Ok(map);
                }
            },
        }
        let ghost waiting = buf_stream@;
        let key = decode_bytes(buf_stream);
        proof {
            lemma_tail_of_tail(buf_stream@, waiting, old(buf_stream)@);
        }
        let key = match key {
            Err(e) => {
                return Err(e);
            },
            Ok(key) => key,
        };
        let ghost after_key = buf_stream@;
        let value = decode(buf_stream);
        proof {
            lemma_tail_of_tail(buf_stream@, after_key, old(buf_stream)@);
        }
        let value = match value {
            Err(e) => {
                return Err(e);
            },
            Ok(value) => value,
        };
        map.insert(key, value);
    }
}

} // verus!
