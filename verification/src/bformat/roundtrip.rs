//! What the decoder and the encoder owe each other: decoding an encoding
//! gives the value back, and the encoder writes one byte string per value,
//! with the entries of a dictionary in ascending order of their keys.

use vstd::prelude::*;
use crate::buffered_stream::lemma_first_index_of_is;
use crate::decimal::{
    decimal, lemma_decimal_is_canonical, lemma_decimal_value_of_decimal, NINE, ZERO,
};
use crate::bformat::bdecoder::{
    integer_value, parsed, parsed_bytes, parsed_entries, parsed_integer, parsed_items,
    DecodeError,
};
use crate::bformat::bencoder::{
    encoded, encoded_bytes, encoded_entries, encoded_integer, encoded_items,
};
use crate::bformat::btype::{bytes_lt, dict_insert, keys_ascend, BType, BValue};
use crate::bformat::syntax::{DICT_START, END, INTEGER_START, LIST_START, MINUS, SEPARATOR};

verus! {

/// The encoding of one entry of a dictionary: the key as a byte string, then the value.
pub open spec fn encoded_entry(entry: (Seq<u8>, BValue)) -> Seq<u8> {
    encoded_bytes(entry.0) + encoded(entry.1)
}

/// An encoding is never empty, and its first byte tells the kind of value:
/// a digit, `i`, `l` or `d`.
pub proof fn lemma_encoded_first_byte(value: BValue)
    ensures
        encoded(value).len() > 0,
        match value {
            BValue::Bytes(_) => ZERO <= encoded(value)[0] <= NINE,
            BValue::Integer(_) => encoded(value)[0] == INTEGER_START,
            BValue::List(_) => encoded(value)[0] == LIST_START,
            BValue::Dict(_) => encoded(value)[0] == DICT_START,
        },
{
    match value {
        BValue::Bytes(bytes) => {
            lemma_decimal_is_canonical(bytes.len());
            assert(encoded(value)[0] == decimal(bytes.len())[0]);
        },
        BValue::Integer(n) => {},
        BValue::List(items) => {},
        BValue::Dict(entries) => {},
    }
}

/// The items of a list are encoded first item first.
pub proof fn lemma_encoded_items_front(items: Seq<BValue>)
    requires
        items.len() > 0,
    ensures
        encoded_items(items) == encoded(items[0]) + encoded_items(items.skip(1)),
    decreases items.len(),
{
    if items.len() == 1 {
        assert(items.drop_last() =~= Seq::<BValue>::empty());
        assert(items.skip(1) =~= Seq::<BValue>::empty());
        assert(encoded_items(items) =~= encoded(items[0]) + encoded_items(items.skip(1)));
    } else {
        lemma_encoded_items_front(items.drop_last());
        assert(items.drop_last().skip(1) =~= items.skip(1).drop_last());
        assert(items.drop_last()[0] == items[0]);
        assert(items.skip(1).last() == items.last());
        assert(encoded_items(items) =~= encoded(items[0]) + encoded_items(items.skip(1)));
    }
}

/// The entries of a dictionary are encoded first entry first.
pub proof fn lemma_encoded_entries_front(entries: Seq<(Seq<u8>, BValue)>)
    requires
        entries.len() > 0,
    ensures
        encoded_entries(entries) == encoded_entry(entries[0]) + encoded_entries(entries.skip(1)),
    decreases entries.len(),
{
    if entries.len() == 1 {
        assert(entries.drop_last() =~= Seq::<(Seq<u8>, BValue)>::empty());
        assert(entries.skip(1) =~= Seq::<(Seq<u8>, BValue)>::empty());
        assert(encoded_entries(entries) =~= encoded_entry(entries[0]) + encoded_entries(
            entries.skip(1),
        ));
    } else {
        lemma_encoded_entries_front(entries.drop_last());
        assert(entries.drop_last().skip(1) =~= entries.skip(1).drop_last());
        assert(entries.drop_last()[0] == entries[0]);
        assert(entries.skip(1).last() == entries.last());
        assert(encoded_entries(entries) =~= encoded_entry(entries[0]) + encoded_entries(
            entries.skip(1),
        ));
    }
}

/// Reading an encoded byte string gives the bytes back and stops behind them.
pub proof fn lemma_parsed_encoded_bytes(bytes: Seq<u8>, tail: Seq<u8>)
    requires
        bytes.len() <= usize::MAX,
    ensures
        parsed_bytes(encoded_bytes(bytes) + tail) == Ok::<(Seq<u8>, Seq<u8>), DecodeError>(
            (bytes, tail),
        ),
{
    let digits = decimal(bytes.len());
    let input = encoded_bytes(bytes) + tail;
    lemma_decimal_is_canonical(bytes.len());
    lemma_decimal_value_of_decimal(bytes.len());
    assert forall|j: int| 0 <= j < digits.len() implies input[j] != SEPARATOR by {
        assert(input[j] == digits[j]);
    }
    assert(input[digits.len() as int] == SEPARATOR);
    lemma_first_index_of_is(input, SEPARATOR, digits.len() as int);
    assert(input.take(digits.len() as int) =~= digits);
    let rest = input.skip(digits.len() as int + 1);
    assert(rest =~= bytes + tail);
    assert(rest.take(bytes.len() as int) =~= bytes);
    assert(rest.skip(bytes.len() as int) =~= tail);
}

/// Reading an encoded integer gives the number back and stops behind it.
pub proof fn lemma_parsed_encoded_integer(n: int, tail: Seq<u8>)
    requires
        i128::MIN <= n <= i128::MAX,
    ensures
        parsed_integer(encoded_integer(n) + tail) == Ok::<(int, Seq<u8>), DecodeError>((n, tail)),
{
    let input = encoded_integer(n) + tail;
    let magnitude: nat = if n < 0 {
        (-n) as nat
    } else {
        n as nat
    };
    let digits = decimal(magnitude);
    let text = if n < 0 {
        seq![MINUS] + digits
    } else {
        digits
    };
    lemma_decimal_is_canonical(magnitude);
    lemma_decimal_value_of_decimal(magnitude);
    assert(input =~= seq![INTEGER_START] + text + seq![END] + tail);
    let body = input.skip(1);
    assert forall|j: int| 0 <= j < text.len() implies body[j] != END by {
        assert(body[j] == text[j]);
        if n < 0 && j > 0 {
            assert(text[j] == digits[j - 1]);
        }
    }
    assert(body[text.len() as int] == END);
    lemma_first_index_of_is(body, END, text.len() as int);
    assert(body.take(text.len() as int) =~= text);
    assert(input.skip(text.len() as int + 2) =~= tail);
    if n < 0 {
        assert(text.skip(1) =~= digits);
    }
    assert(integer_value(text) == Some(n));
}

/// Decoding the encoding of a value gives the value back and stops behind
/// the encoding, whatever follows it.
pub proof fn lemma_parsed_encoded(value: BValue, tail: Seq<u8>)
    requires
        value.wf(),
    ensures
        parsed(encoded(value) + tail) == Ok::<(BValue, Seq<u8>), DecodeError>((value, tail)),
    decreases value,
{
    let input = encoded(value) + tail;
    lemma_encoded_first_byte(value);
    assert(input[0] == encoded(value)[0]);
    match value {
        BValue::Bytes(bytes) => {
            lemma_parsed_encoded_bytes(bytes, tail);
        },
        BValue::Integer(n) => {
            lemma_parsed_encoded_integer(n, tail);
        },
        BValue::List(items) => {
            lemma_parsed_encoded_items(items, Seq::empty(), tail);
            assert(input.skip(1) =~= encoded_items(items) + seq![END] + tail);
            assert(Seq::<BValue>::empty() + items =~= items);
        },
        BValue::Dict(entries) => {
            assert(Seq::<(Seq<u8>, BValue)>::empty() + entries =~= entries);
            lemma_parsed_encoded_entries(entries, Seq::empty(), tail);
            assert(input.skip(1) =~= encoded_entries(entries) + seq![END] + tail);
        },
    }
}

/// Decoding the encoded items of a list, up to its closing `e`, gives the
/// items back behind those that were read before.
pub proof fn lemma_parsed_encoded_items(items: Seq<BValue>, done: Seq<BValue>, tail: Seq<u8>)
    requires
        forall|i: int| 0 <= i < items.len() ==> (#[trigger] items[i]).wf(),
    ensures
        parsed_items(encoded_items(items) + seq![END] + tail, done) == Ok::<
            (Seq<BValue>, Seq<u8>),
            DecodeError,
        >((done + items, tail)),
    decreases items,
{
    let input = encoded_items(items) + seq![END] + tail;
    if items.len() == 0 {
        assert(input.skip(1) =~= tail);
        assert(done + items =~= done);
    } else {
        let first = items[0];
        let others = items.skip(1);
        let rest = encoded_items(others) + seq![END] + tail;
        lemma_encoded_items_front(items);
        lemma_encoded_first_byte(first);
        assert(input =~= encoded(first) + rest);
        assert(input[0] == encoded(first)[0]);
        lemma_parsed_encoded(first, rest);
        assert forall|i: int| 0 <= i < others.len() implies (#[trigger] others[i]).wf() by {
            assert(others[i] == items[i + 1]);
        }
        lemma_parsed_encoded_items(others, done.push(first), tail);
        assert(done.push(first) + others =~= done + items);
    }
}

/// Decoding the encoded entries of a dictionary, up to its closing `e`, gives
/// the entries back behind those that were read before, as long as the keys
/// of all of them ascend.
pub proof fn lemma_parsed_encoded_entries(
    entries: Seq<(Seq<u8>, BValue)>,
    done: Seq<(Seq<u8>, BValue)>,
    tail: Seq<u8>,
)
    requires
        keys_ascend(done + entries),
        forall|i: int|
            0 <= i < entries.len() ==> (#[trigger] entries[i]).0.len() <= usize::MAX
                && entries[i].1.wf(),
    ensures
        parsed_entries(encoded_entries(entries) + seq![END] + tail, done) == Ok::<
            (Seq<(Seq<u8>, BValue)>, Seq<u8>),
            DecodeError,
        >((done + entries, tail)),
    decreases entries,
{
    let input = encoded_entries(entries) + seq![END] + tail;
    if entries.len() == 0 {
        assert(input.skip(1) =~= tail);
        assert(done + entries =~= done);
    } else {
        let first = entries[0];
        let others = entries.skip(1);
        let rest = encoded_entries(others) + seq![END] + tail;
        let after_key = encoded(first.1) + rest;
        let grown = done.push(first);
        assert(input == encoded_bytes(first.0) + after_key && input[0] != END) by {
            lemma_encoded_entries_front(entries);
            lemma_encoded_first_byte(BValue::Bytes(first.0));
            assert(input =~= encoded_bytes(first.0) + after_key);
            assert(input[0] == encoded_bytes(first.0)[0]);
        }
        assert(after_key.len() < input.len()) by {
            lemma_encoded_first_byte(BValue::Bytes(first.0));
        }
        assert(rest.len() < after_key.len()) by {
            lemma_encoded_first_byte(first.1);
        }
        lemma_parsed_encoded_bytes(first.0, after_key);
        lemma_parsed_encoded(first.1, rest);
        assert(dict_insert(done, first.0, first.1) == grown) by {
            if done.len() > 0 {
                assert((done + entries)[done.len() - 1] == done.last());
                assert((done + entries)[done.len() as int] == first);
            }
        }
        assert(grown + others == done + entries) by {
            assert(grown + others =~= done + entries);
        }
        assert forall|i: int| 0 <= i < others.len() implies (#[trigger] others[i]).0.len()
            <= usize::MAX && others[i].1.wf() by {
            assert(others[i] == entries[i + 1]);
        }
        lemma_parsed_encoded_entries(others, grown, tail);
        assert(parsed_entries(input, done) == parsed_entries(rest, grown));
    }
}

/// Decoding the encoding of a value gives that value back, and nothing is left over.
pub proof fn lemma_decode_of_encode(value: BValue)
    requires
        value.wf(),
    ensures
        parsed(encoded(value)) == Ok::<(BValue, Seq<u8>), DecodeError>((value, Seq::empty())),
{
    lemma_parsed_encoded(value, Seq::empty());
    assert(encoded(value) + Seq::<u8>::empty() =~= encoded(value));
}

/// Two values that stand for the same mathematical value are encoded alike,
/// however they were built.
pub proof fn lemma_encoding_is_determined(a: BType, b: BType)
    requires
        a@ == b@,
    ensures
        encoded(a@) == encoded(b@),
{
}

/// Encoding entries one after the other is encoding a first part of them and
/// then the rest.
pub proof fn lemma_encoded_entries_concat(
    front: Seq<(Seq<u8>, BValue)>,
    back: Seq<(Seq<u8>, BValue)>,
)
    ensures
        encoded_entries(front + back) == encoded_entries(front) + encoded_entries(back),
    decreases back.len(),
{
    if back.len() == 0 {
        assert(front + back =~= front);
        assert(encoded_entries(front) + encoded_entries(back) =~= encoded_entries(front));
    } else {
        lemma_encoded_entries_concat(front, back.drop_last());
        assert((front + back).drop_last() =~= front + back.drop_last());
        assert((front + back).last() == back.last());
        assert(encoded_entries(front + back) =~= encoded_entries(front) + encoded_entries(back));
    }
}

/// The encoder writes the entries of a dictionary in ascending order of
/// their keys: of two entries, the one with the smaller key is written first,
/// each as its key followed by its value.
pub proof fn lemma_entries_encoded_in_key_order(entries: Seq<(Seq<u8>, BValue)>, i: int, j: int)
    requires
        BValue::Dict(entries).wf(),
        0 <= i < j < entries.len(),
    ensures
        bytes_lt(entries[i].0, entries[j].0),
        encoded(BValue::Dict(entries)) == seq![DICT_START] + encoded_entries(entries.take(i))
            + encoded_entry(entries[i]) + encoded_entries(entries.subrange(i + 1, j))
            + encoded_entry(entries[j]) + encoded_entries(entries.skip(j + 1)) + seq![END],
{
    let a = entries.take(i);
    let b = entries.subrange(i + 1, j);
    let c = entries.skip(j + 1);
    let one = seq![entries[i]];
    let two = seq![entries[j]];
    assert(entries =~= a + one + b + two + c);
    lemma_encoded_entries_concat(a + one + b + two, c);
    lemma_encoded_entries_concat(a + one + b, two);
    lemma_encoded_entries_concat(a + one, b);
    lemma_encoded_entries_concat(a, one);
    assert(encoded_entries(one) == encoded_entry(entries[i])) by {
        assert(one.drop_last() =~= Seq::<(Seq<u8>, BValue)>::empty());
        assert(one.last() == entries[i]);
        assert(encoded_entries(one.drop_last()) =~= Seq::<u8>::empty());
        assert(encoded_entries(one) =~= encoded_entry(entries[i]));
    }
    assert(encoded_entries(two) == encoded_entry(entries[j])) by {
        assert(two.drop_last() =~= Seq::<(Seq<u8>, BValue)>::empty());
        assert(two.last() == entries[j]);
        assert(encoded_entries(two.drop_last()) =~= Seq::<u8>::empty());
        assert(encoded_entries(two) =~= encoded_entry(entries[j]));
    }
    assert(encoded(BValue::Dict(entries)) =~= seq![DICT_START] + encoded_entries(a) + encoded_entry(
        entries[i],
    ) + encoded_entries(b) + encoded_entry(entries[j]) + encoded_entries(c) + seq![END]);
}

} // verus!
