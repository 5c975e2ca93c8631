//! The canonical form of bencoded text: what the decoder reads and the
//! encoder would have written just so.

use vstd::prelude::*;
use crate::buffered_stream::{first_index_of, lemma_first_index_of};
use crate::decimal::{
    decimal, is_canonical_decimal, is_digit, lemma_decimal_is_canonical,
    lemma_decimal_of_decimal_value, lemma_decimal_value_of_decimal,
};
use crate::bformat::bdecoder::{
    integer_value, parsed, parsed_bytes, parsed_entries, parsed_integer, parsed_items,
};
use crate::bformat::bencoder::{
    encoded, encoded_bytes, encoded_entries, encoded_integer, encoded_items,
};
use crate::bformat::btype::{bytes_lt, dict_insert, keys_ascend, BValue};
use crate::bformat::roundtrip::{
    lemma_encoded_entries_front, lemma_encoded_first_byte, lemma_encoded_items_front,
    lemma_parsed_encoded, lemma_parsed_encoded_bytes, lemma_parsed_encoded_integer,
};
use crate::bformat::syntax::{DICT_START, END, INTEGER_START, LIST_START, MINUS, SEPARATOR};

verus! {

/// Whether a byte string stands at the front of `input` with its length
/// written without leading zeros.
pub open spec fn bytes_in_canonical_form(input: Seq<u8>) -> bool {
    parsed_bytes(input) is Ok && match first_index_of(input, SEPARATOR) {
        Some(colon) => is_canonical_decimal(input.take(colon)),
        None => false,
    }
}

/// Whether a value stands at the front of `input` in canonical form: the
/// lengths of its byte strings and its integers are written without leading
/// zeros, and the keys of each of its dictionaries ascend.
pub open spec fn in_canonical_form(input: Seq<u8>) -> bool
    decreases input.len(), 1int,
{
    if input.len() == 0 {
        false
    } else if is_digit(input[0]) {
        bytes_in_canonical_form(input)
    } else if input[0] == INTEGER_START {
        parsed_integer(input) is Ok
    } else if input[0] == LIST_START {
        items_in_canonical_form(input.skip(1))
    } else if input[0] == DICT_START {
        entries_in_canonical_form(input.skip(1), None)
    } else {
        false
    }
}

/// Whether the items of a list, up to its closing `e`, stand at the front
/// of `input` in canonical form.
pub open spec fn items_in_canonical_form(input: Seq<u8>) -> bool
    decreases input.len(), 2int,
{
    if input.len() == 0 {
        false
    } else if input[0] == END {
        true
    } else {
        in_canonical_form(input) && match parsed(input) {
            Ok((_, rest)) => rest.len() < input.len() && items_in_canonical_form(rest),
            Err(_) => false,
        }
    }
}

/// Whether the entries of a dictionary, up to its closing `e`, stand at the
/// front of `input` in canonical form, with keys that ascend from
/// `previous`, the key of the entry in front of them.
pub open spec fn entries_in_canonical_form(input: Seq<u8>, previous: Option<Seq<u8>>) -> bool
    decreases input.len(), 2int,
{
    if input.len() == 0 {
        false
    } else if input[0] == END {
        true
    } else {
        bytes_in_canonical_form(input) && match parsed_bytes(input) {
            Ok((key, after_key)) => (previous matches Some(before) ==> bytes_lt(before, key))
                && after_key.len() < input.len() && in_canonical_form(after_key) && match parsed(
                after_key,
            ) {
                Ok((_, rest)) => rest.len() < after_key.len() && entries_in_canonical_form(
                    rest,
                    Some(key),
                ),
                Err(_) => false,
            },
            Err(_) => false,
        }
    }
}

/// A byte string in canonical form is read as the bytes that are encoded
/// as it was written.
pub proof fn lemma_canonical_bytes(input: Seq<u8>)
    requires
        bytes_in_canonical_form(input),
    ensures
        parsed_bytes(input) matches Ok((bytes, rest)) && input == encoded_bytes(bytes) + rest,
{
    lemma_first_index_of(input, SEPARATOR);
    let colon = first_index_of(input, SEPARATOR).unwrap();
    let digits = input.take(colon);
    lemma_decimal_of_decimal_value(digits);
    let (bytes, rest) = parsed_bytes(input).unwrap();
    assert(input =~= digits + seq![SEPARATOR] + bytes + rest);
}

/// An integer that the decoder reads is encoded as it was written.
pub proof fn lemma_canonical_integer(input: Seq<u8>)
    requires
        parsed_integer(input) is Ok,
    ensures
        parsed_integer(input) matches Ok((n, rest)) && input == encoded_integer(n) + rest,
{
    let body = input.skip(1);
    lemma_first_index_of(body, END);
    let end = first_index_of(body, END).unwrap();
    let text = body.take(end);
    let rest = input.skip(end + 2);
    let n = integer_value(text).unwrap();
    assert(input == seq![INTEGER_START] + text + seq![END] + rest) by {
        assert(body[end] == END);
        assert(input =~= seq![INTEGER_START] + text + seq![END] + rest);
    }
    assert(encoded_integer(n) == seq![INTEGER_START] + text + seq![END]) by {
        if text.len() > 0 && text[0] == MINUS {
            let digits = text.skip(1);
            lemma_decimal_of_decimal_value(digits);
            assert(text =~= seq![MINUS] + digits);
            assert(seq![INTEGER_START, MINUS] + digits + seq![END] =~= seq![INTEGER_START] + text
                + seq![END]);
        } else {
            lemma_decimal_of_decimal_value(text);
        }
    }
}

/// A value in canonical form is read as a value that is encoded as it was
/// written: the input is the encoding of the value that the decoder reads,
/// followed by what the decoder leaves.
pub proof fn lemma_canonical_value(input: Seq<u8>)
    requires
        in_canonical_form(input),
    ensures
        parsed(input) matches Ok((value, rest)) && input == encoded(value) + rest,
    decreases input.len(), 1int,
{
    if is_digit(input[0]) {
        lemma_canonical_bytes(input);
    } else if input[0] == INTEGER_START {
        lemma_canonical_integer(input);
    } else if input[0] == LIST_START {
        lemma_canonical_items(input.skip(1), Seq::empty());
        let (items, rest) = parsed_items(input.skip(1), Seq::empty()).unwrap();
        assert(items.skip(0) =~= items);
        assert(input =~= seq![LIST_START] + input.skip(1));
        assert(input =~= seq![LIST_START] + encoded_items(items) + seq![END] + rest);
    } else {
        lemma_canonical_entries(input.skip(1), None, Seq::empty());
        let (entries, rest) = parsed_entries(input.skip(1), Seq::empty()).unwrap();
        assert(entries.skip(0) =~= entries);
        assert(input =~= seq![DICT_START] + input.skip(1));
        assert(input =~= seq![DICT_START] + encoded_entries(entries) + seq![END] + rest);
    }
}

/// What was read behind `done` begins with the item that was read next.
proof fn lemma_read_next<A>(all: Seq<A>, done: Seq<A>, next: A)
    requires
        all.len() > done.len(),
        all.take(done.len() as int + 1) == done.push(next),
    ensures
        all.take(done.len() as int) == done,
        all.skip(done.len() as int).len() > 0,
        all.skip(done.len() as int)[0] == next,
        all.skip(done.len() as int).skip(1) == all.skip(done.len() as int + 1),
{
    let n = done.len() as int;
    assert(all.take(n) =~= all.take(n + 1).take(n));
    assert(done.push(next).take(n) =~= done);
    assert(all.skip(n)[0] == all.take(n + 1)[n]);
    assert(all.skip(n).skip(1) =~= all.skip(n + 1));
}

/// What follows the `e` that closes a list or a dictionary.
proof fn lemma_closed(input: Seq<u8>)
    requires
        input.len() > 0,
        input[0] == END,
    ensures
        input == Seq::<u8>::empty() + seq![END] + input.skip(1),
{
    assert(input =~= Seq::<u8>::empty() + seq![END] + input.skip(1));
}

/// The items of a list in canonical form are read as items that are encoded
/// as they were written, behind the items that were read before.
#[verifier::rlimit(50)]
pub proof fn lemma_canonical_items(input: Seq<u8>, done: Seq<BValue>)
    requires
        items_in_canonical_form(input),
    ensures
        parsed_items(input, done) matches Ok((items, rest)) && items.len() >= done.len()
            && items.take(done.len() as int) == done && input == encoded_items(
            items.skip(done.len() as int),
        ) + seq![END] + rest,
    decreases input.len(), 2int,
{
    if input[0] == END {
        lemma_closed(input);
        assert(done.take(done.len() as int) =~= done);
        assert(done.skip(done.len() as int) =~= Seq::<BValue>::empty());
    } else {
        lemma_canonical_value(input);
        let (item, after) = parsed(input).unwrap();
        assert(after.len() < input.len() && items_in_canonical_form(after));
        let grown = done.push(item);
        assert(parsed_items(input, done) == parsed_items(after, grown));
        lemma_canonical_items(after, grown);
        let (items, rest) = parsed_items(after, grown).unwrap();
        let fresh = items.skip(done.len() as int);
        lemma_read_next(items, done, item);
        lemma_encoded_items_front(fresh);
        assert(input == encoded_items(fresh) + seq![END] + rest) by {
            let tail = seq![END] + rest;
            let others = encoded_items(fresh.skip(1));
            assert(input =~= encoded(item) + (others + tail));
            assert(encoded_items(fresh) + seq![END] + rest =~= encoded(item) + (others + tail));
        }
    }
}

/// The entries of a dictionary in canonical form are read as entries that
/// are encoded as they were written, behind the entries that were read
/// before.
#[verifier::rlimit(50)]
pub proof fn lemma_canonical_entries(
    input: Seq<u8>,
    previous: Option<Seq<u8>>,
    done: Seq<(Seq<u8>, BValue)>,
)
    requires
        entries_in_canonical_form(input, previous),
        match previous {
            Some(before) => done.len() > 0 && done.last().0 == before,
            None => done.len() == 0,
        },
    ensures
        parsed_entries(input, done) matches Ok((entries, rest)) && entries.len() >= done.len()
            && entries.take(done.len() as int) == done && input == encoded_entries(
            entries.skip(done.len() as int),
        ) + seq![END] + rest,
    decreases input.len(), 2int,
{
    if input[0] == END {
        lemma_closed(input);
        assert(done.take(done.len() as int) =~= done);
        assert(done.skip(done.len() as int) =~= Seq::<(Seq<u8>, BValue)>::empty());
    } else {
        lemma_canonical_bytes(input);
        let (key, after_key) = parsed_bytes(input).unwrap();
        assert(after_key.len() < input.len() && in_canonical_form(after_key));
        lemma_canonical_value(after_key);
        let (value, after) = parsed(after_key).unwrap();
        assert(after.len() < after_key.len() && entries_in_canonical_form(after, Some(key)));
        let grown = done.push((key, value));
        assert(dict_insert(done, key, value) == grown);
        assert(parsed_entries(input, done) == parsed_entries(after, grown));
        lemma_canonical_entries(after, Some(key), grown);
        let (entries, rest) = parsed_entries(after, grown).unwrap();
        let fresh = entries.skip(done.len() as int);
        lemma_read_next(entries, done, (key, value));
        lemma_encoded_entries_front(fresh);
        assert(input == encoded_entries(fresh) + seq![END] + rest) by {
            let tail = seq![END] + rest;
            let others = encoded_entries(fresh.skip(1));
            assert(input =~= encoded_bytes(key) + (encoded(value) + (others + tail)));
            assert(encoded_entries(fresh) + seq![END] + rest =~= encoded_bytes(key) + (encoded(
                value,
            ) + (others + tail)));
        }
    }
}

/// The encoder writes byte strings in canonical form.
pub proof fn lemma_encoded_bytes_canonical(bytes: Seq<u8>, tail: Seq<u8>)
    requires
        bytes.len() <= usize::MAX,
    ensures
        bytes_in_canonical_form(encoded_bytes(bytes) + tail),
{
    let input = encoded_bytes(bytes) + tail;
    let digits = decimal(bytes.len());
    lemma_parsed_encoded_bytes(bytes, tail);
    lemma_decimal_is_canonical(bytes.len());
    lemma_decimal_value_of_decimal(bytes.len());
    assert forall|j: int| 0 <= j < digits.len() implies input[j] != SEPARATOR by {
        assert(input[j] == digits[j]);
    }
    assert(input[digits.len() as int] == SEPARATOR);
    crate::buffered_stream::lemma_first_index_of_is(input, SEPARATOR, digits.len() as int);
    assert(input.take(digits.len() as int) =~= digits);
}

/// The encoder writes values in canonical form.
pub proof fn lemma_encoded_is_canonical(value: BValue, tail: Seq<u8>)
    requires
        value.wf(),
    ensures
        in_canonical_form(encoded(value) + tail),
    decreases value,
{
    let input = encoded(value) + tail;
    lemma_encoded_first_byte(value);
    assert(input[0] == encoded(value)[0]);
    match value {
        BValue::Bytes(bytes) => {
            lemma_encoded_bytes_canonical(bytes, tail);
        },
        BValue::Integer(n) => {
            lemma_parsed_encoded_integer(n, tail);
        },
        BValue::List(items) => {
            lemma_encoded_items_canonical(items, tail);
            assert(input.skip(1) =~= encoded_items(items) + seq![END] + tail);
        },
        BValue::Dict(entries) => {
            lemma_encoded_entries_canonical(entries, None, tail);
            assert(input.skip(1) =~= encoded_entries(entries) + seq![END] + tail);
        },
    }
}

/// The encoder writes the items of a list in canonical form.
pub proof fn lemma_encoded_items_canonical(items: Seq<BValue>, tail: Seq<u8>)
    requires
        forall|i: int| 0 <= i < items.len() ==> (#[trigger] items[i]).wf(),
    ensures
        items_in_canonical_form(encoded_items(items) + seq![END] + tail),
    decreases items,
{
    let input = encoded_items(items) + seq![END] + tail;
    if items.len() == 0 {
        assert(input[0] == END);
    } else {
        let first = items[0];
        let others = items.skip(1);
        let rest = encoded_items(others) + seq![END] + tail;
        lemma_encoded_items_front(items);
        lemma_encoded_first_byte(first);
        assert(input =~= encoded(first) + rest);
        assert(input[0] == encoded(first)[0]);
        lemma_encoded_is_canonical(first, rest);
        lemma_parsed_encoded(first, rest);
        assert forall|i: int| 0 <= i < others.len() implies (#[trigger] others[i]).wf() by {
            assert(others[i] == items[i + 1]);
        }
        lemma_encoded_items_canonical(others, tail);
    }
}

/// The encoder writes the entries of a dictionary in canonical form.
pub proof fn lemma_encoded_entries_canonical(
    entries: Seq<(Seq<u8>, BValue)>,
    previous: Option<Seq<u8>>,
    tail: Seq<u8>,
)
    requires
        keys_ascend(entries),
        previous matches Some(before) ==> entries.len() > 0 ==> bytes_lt(before, entries[0].0),
        forall|i: int|
            0 <= i < entries.len() ==> (#[trigger] entries[i]).0.len() <= usize::MAX
                && entries[i].1.wf(),
    ensures
        entries_in_canonical_form(encoded_entries(entries) + seq![END] + tail, previous),
    decreases entries,
{
    let input = encoded_entries(entries) + seq![END] + tail;
    if entries.len() == 0 {
        assert(input[0] == END);
    } else {
        let first = entries[0];
        let others = entries.skip(1);
        let rest = encoded_entries(others) + seq![END] + tail;
        let after_key = encoded(first.1) + rest;
        lemma_encoded_entries_front(entries);
        lemma_encoded_first_byte(BValue::Bytes(first.0));
        lemma_encoded_first_byte(first.1);
        assert(input =~= encoded_bytes(first.0) + after_key);
        assert(input[0] == encoded_bytes(first.0)[0]);
        lemma_encoded_bytes_canonical(first.0, after_key);
        lemma_parsed_encoded_bytes(first.0, after_key);
        lemma_encoded_is_canonical(first.1, rest);
        lemma_parsed_encoded(first.1, rest);
        assert forall|i: int| 0 <= i < others.len() implies (#[trigger] others[i]).0.len()
            <= usize::MAX && others[i].1.wf() by {
            assert(others[i] == entries[i + 1]);
        }
        assert(keys_ascend(others)) by {
            assert forall|i: int, j: int| 0 <= i < j < others.len() implies bytes_lt(
                #[trigger] others[i].0,
                #[trigger] others[j].0,
            ) by {
                assert(others[i] == entries[i + 1] && others[j] == entries[j + 1]);
            }
        }
        if others.len() > 0 {
            assert(others[0] == entries[1]);
        }
        lemma_encoded_entries_canonical(others, Some(first.0), tail);
    }
}

/// Whether `input` is one value in canonical form, with nothing behind it.
pub open spec fn is_canonical_encoding(input: Seq<u8>) -> bool {
    in_canonical_form(input) && (parsed(input) matches Ok((_, rest)) && rest.len() == 0)
}

/// Encoding what the decoder reads from a canonical encoding gives the
/// encoding back.
pub proof fn lemma_encode_of_decode(input: Seq<u8>)
    requires
        is_canonical_encoding(input),
    ensures
        parsed(input) matches Ok((value, rest)) && rest.len() == 0 && encoded(value) == input,
{
    lemma_canonical_value(input);
    let (value, rest) = parsed(input).unwrap();
    assert(encoded(value) + rest =~= encoded(value));
}

/// What the encoder writes for a value is a canonical encoding.
pub proof fn lemma_encoding_is_canonical(value: BValue)
    requires
        value.wf(),
    ensures
        is_canonical_encoding(encoded(value)),
{
    lemma_encoded_is_canonical(value, Seq::empty());
    lemma_parsed_encoded(value, Seq::empty());
    assert(encoded(value) + Seq::<u8>::empty() =~= encoded(value));
}

} // verus!
