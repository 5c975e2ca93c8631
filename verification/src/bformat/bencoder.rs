//! The canonical encoder: one byte string for each value, with the entries of
//! every dictionary in ascending order of their keys.

use vstd::prelude::*;
use crate::decimal::{decimal, format_decimal};
use crate::bformat::btype::{values_of, BDict, BType, BValue};
use crate::bformat::syntax::{DICT_START, END, INTEGER_START, LIST_START, MINUS, SEPARATOR};

verus! {

/// The encoding of an integer: `i`, an optional `-`, the decimal numeral, `e`.
pub open spec fn encoded_integer(n: int) -> Seq<u8> {
    if n < 0 {
        seq![INTEGER_START, MINUS] + decimal((-n) as nat) + seq![END]
    } else {
        seq![INTEGER_START] + decimal(n as nat) + seq![END]
    }
}

/// The encoding of a byte string: its length in decimal, `:`, its bytes.
pub open spec fn encoded_bytes(bytes: Seq<u8>) -> Seq<u8> {
    decimal(bytes.len()) + seq![SEPARATOR] + bytes
}

/// The canonical encoding of a value.
pub open spec fn encoded(value: BValue) -> Seq<u8>
    decreases value,
{
    match value {
        BValue::Bytes(bytes) => encoded_bytes(bytes),
        BValue::Integer(n) => encoded_integer(n),
        BValue::List(items) => seq![LIST_START] + encoded_items(items) + seq![END],
        BValue::Dict(entries) => seq![DICT_START] + encoded_entries(entries) + seq![END],
    }
}

/// The encodings of the items of a list, one after the other.
pub open spec fn encoded_items(items: Seq<BValue>) -> Seq<u8>
    decreases items,
{
    if items.len() == 0 {
        Seq::empty()
    } else {
        encoded_items(items.drop_last()) + encoded(items.last())
    }
}

/// The encodings of the entries of a dictionary, one after the other: each
/// key as a byte string, followed by its value.
pub open spec fn encoded_entries(entries: Seq<(Seq<u8>, BValue)>) -> Seq<u8>
    decreases entries,
{
    if entries.len() == 0 {
        Seq::empty()
    } else {
        encoded_entries(entries.drop_last()) + encoded_bytes(entries.last().0) + encoded(
            entries.last().1,
        )
    }
}

/// Appends `bytes` to `out`.
pub fn append_bytes(out: &mut Vec<u8>, bytes: &[u8])
    ensures
        final(out)@ == old(out)@ + bytes@,
{
    let mut i: usize = 0;
    while i < bytes.len()
        invariant
            i <= bytes@.len(),
            out@ == old(out)@ + bytes@.take(i as int),
        decreases bytes@.len() - i,
    {
        out.push(bytes[i]);
        i += 1;
        assert(out@ =~= old(out)@ + bytes@.take(i as int));
    }
    assert(bytes@.take(bytes@.len() as int) =~= bytes@);
}

/// Encodes a value canonically. Every value that a program holds is well
/// formed, so that decoding the result gives the value back.
pub fn encode(value: &BType) -> (out: Vec<u8>)
    ensures
        out@ == encoded(value@),
        value@.wf(),
    decreases value@, 1int,
{
    match value {
        BType::Bytes(bytes) => encode_bytes(bytes),
        BType::Number(number) => encode_number(number),
        BType::List(list) => encode_list(list),
        BType::Dict(map) => encode_map(map),
    }
}

/// Encodes a byte string.
pub fn encode_bytes(bytes: &Vec<u8>) -> (out: Vec<u8>)
    ensures
        out@ == encoded_bytes(bytes@),
        BValue::Bytes(bytes@).wf(),
{
    let mut out = format_decimal(bytes.len() as u128);
    out.push(SEPARATOR);
    append_bytes(&mut out, bytes.as_slice());
    assert(out@ =~= encoded_bytes(bytes@));
    out
}

/// Encodes an integer.
pub fn encode_number(number: &i128) -> (out: Vec<u8>)
    ensures
        out@ == encoded_integer(*number as int),
{
    let n: i128 = *number;
    let mut out: Vec<u8> = Vec::new();
    out.push(INTEGER_START);
    let magnitude: u128 = if n < 0 {
        out.push(MINUS);
        (-(n + 1)) as u128 + 1
    } else {
        n as u128
    };
    let digits = format_decimal(magnitude);
    append_bytes(&mut out, digits.as_slice());
    out.push(END);
    assert(out@ =~= encoded_integer(n as int));
    out
}

/// Encodes a list: `l`, the items in order, `e`.
pub fn encode_list(list: &Vec<Box<BType>>) -> (out: Vec<u8>)
    ensures
        out@ == seq![LIST_START] + encoded_items(values_of(list@)) + seq![END],
        BValue::List(values_of(list@)).wf(),
    decreases BValue::List(values_of(list@)), 0int,
{
    let ghost items = values_of(list@);
    let mut out: Vec<u8> = Vec::new();
    out.push(LIST_START);
    let mut i: usize = 0;
    while i < list.len()
        invariant
            i <= list@.len(),
            items == values_of(list@),
            out@ == seq![LIST_START] + encoded_items(items.take(i as int)),
            forall|j: int| 0 <= j < i ==> (#[trigger] items[j]).wf(),
        decreases list@.len() - i,
    {
        proof {
            assert(items[i as int] == list@[i as int]@);
            let ghost whole = BValue::List(items);
            assert(decreases_to!(whole => whole->List_0));
        }
        let item = encode(&list[i]);
        proof {
            assert(items.take(i + 1).drop_last() =~= items.take(i as int));
            assert(items.take(i + 1).last() == list@[i as int]@);
        }
        append_bytes(&mut out, item.as_slice());
        i += 1;
        assert(out@ =~= seq![LIST_START] + encoded_items(items.take(i as int)));
    }
    assert(items.take(list@.len() as int) =~= items);
    out.push(END);
    out
}

/// Encodes a dictionary: `d`, each key followed by its value in ascending
/// order of the keys, `e`.
pub fn encode_map(map: &BDict) -> (out: Vec<u8>)
    ensures
        out@ == seq![DICT_START] + encoded_entries(map@) + seq![END],
        BValue::Dict(map@).wf(),
    decreases BValue::Dict(map@), 0int,
{
    let entries = map.entries();
    let mut out: Vec<u8> = Vec::new();
    out.push(DICT_START);
    let mut i: usize = 0;
    while i < entries.len()
        invariant
            i <= entries@.len(),
            entries@.len() == map@.len(),
            forall|j: int|
                0 <= j < entries@.len() ==> (#[trigger] entries@[j]).0@ == map@[j].0
                    && entries@[j].1@ == map@[j].1,
            out@ == seq![DICT_START] + encoded_entries(map@.take(i as int)),
            forall|j: int|
                0 <= j < i ==> (#[trigger] map@[j]).0.len() <= usize::MAX && map@[j].1.wf(),
        decreases entries@.len() - i,
    {
        proof {
            assert(map@[i as int].1 == entries@[i as int].1@);
            let ghost whole = BValue::Dict(map@);
            assert(decreases_to!(whole => whole->Dict_0));
        }
        let key = encode_bytes(&entries[i].0);
        let value = encode(&entries[i].1);
        proof {
            assert(map@[i as int].0 == entries@[i as int].0@);
            assert(map@[i as int].1 == entries@[i as int].1@);
            assert(map@.take(i + 1).drop_last() =~= map@.take(i as int));
            assert(map@.take(i + 1).last() == map@[i as int]);
        }
        append_bytes(&mut out, key.as_slice());
        append_bytes(&mut out, value.as_slice());
        i += 1;
        assert(out@ =~= seq![DICT_START] + encoded_entries(map@.take(i as int)));
    }
    assert(map@.take(entries@.len() as int) =~= map@);
    out.push(END);
    out
}

} // verus!
