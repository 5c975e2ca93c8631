//! Values shown to a reader: as one line of text, and as a JSON value.

use vstd::prelude::*;
use vstd::slice::slice_to_vec;
use vstd::utf8::{decode_utf8, valid_utf8};
use crate::decimal::decimal;
use crate::bformat::bencoder::append_bytes;
use crate::bformat::btype::{values_of, BDict, BType, BValue};
use crate::bformat::syntax::MINUS;
use crate::primitives::{hex_encode, hex_encoded, string_from_utf8};
use crate::text::push_decimal;

verus! {

/// `[`, which begins the text of a list.
pub const LIST_OPEN: u8 = 91;

/// `]`, which ends the text of a list.
pub const LIST_CLOSE: u8 = 93;

/// `{`, which begins the text of a dictionary.
pub const DICT_OPEN: u8 = 123;

/// `}`, which ends the text of a dictionary.
pub const DICT_CLOSE: u8 = 125;

/// `,`, which stands between items and between entries.
pub const COMMA: u8 = 44;

/// `:`, which stands between a key and its value.
pub const COLON: u8 = 58;

/// The decimal numeral of an integer, with `-` in front of a negative one.
pub open spec fn signed_decimal(n: int) -> Seq<u8> {
    if n < 0 {
        seq![MINUS] + decimal((-n) as nat)
    } else {
        decimal(n as nat)
    }
}

/// A value as one line of text: a byte string as its bytes, an integer as
/// its numeral, a list as `[` its items `]` and a dictionary as `{` its
/// entries `}`, with `,` between items and entries and `:` between a key
/// and its value.
pub open spec fn rendered(value: BValue) -> Seq<u8>
    decreases value,
{
    match value {
        BValue::Bytes(bytes) => bytes,
        BValue::Integer(n) => signed_decimal(n),
        BValue::List(items) => seq![LIST_OPEN] + rendered_items(items) + seq![LIST_CLOSE],
        BValue::Dict(entries) => seq![DICT_OPEN] + rendered_entries(entries) + seq![DICT_CLOSE],
    }
}

/// The items of a list as text, with `,` between them.
pub open spec fn rendered_items(items: Seq<BValue>) -> Seq<u8>
    decreases items,
{
    if items.len() == 0 {
        Seq::empty()
    } else if items.len() == 1 {
        rendered(items[0])
    } else {
        rendered_items(items.drop_last()) + seq![COMMA] + rendered(items.last())
    }
}

/// One entry of a dictionary as text: the key, `:`, the value.
pub open spec fn rendered_entry(entry: (Seq<u8>, BValue)) -> Seq<u8>
    decreases entry,
{
    entry.0 + seq![COLON] + rendered(entry.1)
}

/// The entries of a dictionary as text, with `,` between them.
pub open spec fn rendered_entries(entries: Seq<(Seq<u8>, BValue)>) -> Seq<u8>
    decreases entries,
{
    if entries.len() == 0 {
        Seq::empty()
    } else if entries.len() == 1 {
        rendered_entry(entries[0])
    } else {
        rendered_entries(entries.drop_last()) + seq![COMMA] + rendered_entry(entries.last())
    }
}

/// Appends the text of a value to `out`.
fn render(value: &BType, out: &mut Vec<u8>)
    ensures
        final(out)@ == old(out)@ + rendered(value@),
    decreases value@, 1int,
{
    match value {
        BType::Bytes(bytes) => {
            append_bytes(out, bytes.as_slice());
        },
        BType::Number(number) => {
            let n: i128 = *number;
            if n < 0 {
                out.push(MINUS);
                push_decimal(out, (-(n + 1)) as u128 + 1);
            } else {
                push_decimal(out, n as u128);
            }
            assert(out@ =~= old(out)@ + rendered(value@));
        },
        BType::List(list) => {
            out.push(LIST_OPEN);
            render_items(list, out);
            out.push(LIST_CLOSE);
            assert(out@ =~= old(out)@ + rendered(value@));
        },
        BType::Dict(map) => {
            out.push(DICT_OPEN);
            render_entries(map, out);
            out.push(DICT_CLOSE);
            assert(out@ =~= old(out)@ + rendered(value@));
        },
    }
}

/// Appends the text of the items of a list to `out`.
fn render_items(list: &Vec<Box<BType>>, out: &mut Vec<u8>)
    ensures
        final(out)@ == old(out)@ + rendered_items(values_of(list@)),
    decreases BValue::List(values_of(list@)), 0int,
{
    let ghost items = values_of(list@);
    let mut i: usize = 0;
    assert(items.take(0) =~= Seq::<BValue>::empty());
    assert(out@ =~= old(out)@ + rendered_items(items.take(0)));
    while i < list.len()
        invariant
            i <= list@.len(),
            items == values_of(list@),
            out@ == old(out)@ + rendered_items(items.take(i as int)),
        decreases list@.len() - i,
    {
        proof {
            let ghost whole = BValue::List(items);
            assert(decreases_to!(whole => whole->List_0));
            assert(items[i as int] == list@[i as int]@);
            assert(items.take(i + 1).drop_last() =~= items.take(i as int));
            assert(items.take(i + 1).last() == items[i as int]);
            assert(items.take(i + 1)[0] == items[0]);
        }
        let ghost before = out@;
        if i > 0 {
            out.push(COMMA);
        }
        render(&list[i], out);
        i += 1;
        assert(out@ =~= old(out)@ + rendered_items(items.take(i as int)));
    }
    assert(items.take(list@.len() as int) =~= items);
}

/// Appends the text of the entries of a dictionary to `out`.
fn render_entries(map: &BDict, out: &mut Vec<u8>)
    ensures
        final(out)@ == old(out)@ + rendered_entries(map@),
    decreases BValue::Dict(map@), 0int,
{
    let entries = map.entries();
    let mut i: usize = 0;
    assert(map@.take(0) =~= Seq::<(Seq<u8>, BValue)>::empty());
    assert(out@ =~= old(out)@ + rendered_entries(map@.take(0)));
    while i < entries.len()
        invariant
            i <= entries@.len(),
            entries@.len() == map@.len(),
            forall|j: int|
                0 <= j < entries@.len() ==> (#[trigger] entries@[j]).0@ == map@[j].0
                    && entries@[j].1@ == map@[j].1,
            out@ == old(out)@ + rendered_entries(map@.take(i as int)),
        decreases entries@.len() - i,
    {
        proof {
            let ghost whole = BValue::Dict(map@);
            assert(decreases_to!(whole => whole->Dict_0));
            assert(map@[i as int].0 == entries@[i as int].0@);
            assert(map@[i as int].1 == entries@[i as int].1@);
            assert(map@.take(i + 1).drop_last() =~= map@.take(i as int));
            assert(map@.take(i + 1).last() == map@[i as int]);
            assert(map@.take(i + 1)[0] == map@[0]);
        }
        let ghost before = out@;
        let ghost entry = map@[i as int];
        if i > 0 {
            out.push(COMMA);
        }
        append_bytes(out, entries[i].0.as_slice());
        out.push(COLON);
        render(&entries[i].1, out);
        proof {
            assert(rendered_entry(entry) == entry.0 + seq![COLON] + rendered(entry.1));
            if i > 0 {
                assert(out@ =~= before + seq![COMMA] + rendered_entry(entry));
            } else {
                assert(out@ =~= before + rendered_entry(entry));
            }
        }
        i += 1;
        assert(out@ =~= old(out)@ + rendered_entries(map@.take(i as int)));
    }
    assert(map@.take(entries@.len() as int) =~= map@);
}

/// A JSON value as mathematics sees it.
pub enum Json {
    Text(Seq<char>),
    Number(int),
    Array(Seq<Json>),
    Object(Seq<(Seq<char>, Json)>),
}

/// A JSON value: text, an integer, an array, or an object as the sequence
/// of its members.
#[derive(Debug, PartialEq, Eq)]
pub enum JsonValue {
    Text(String),
    Number(i128),
    Array(Vec<JsonValue>),
    Object(Vec<(String, JsonValue)>),
}

/// The mathematical JSON value that `value` stands for.
pub open spec fn json_view(value: JsonValue) -> Json
    decreases value,
{
    match value {
        JsonValue::Text(text) => Json::Text(text@),
        JsonValue::Number(number) => Json::Number(number as int),
        JsonValue::Array(items) => Json::Array(
            Seq::new(
                items@.len(),
                |i: int|
                    if 0 <= i < items@.len() {
                        json_view(items@[i])
                    } else {
                        Json::Number(0)
                    },
            ),
        ),
        JsonValue::Object(members) => Json::Object(
            Seq::new(
                members@.len(),
                |i: int|
                    if 0 <= i < members@.len() {
                        (members@[i].0@, json_view(members@[i].1))
                    } else {
                        (Seq::empty(), Json::Number(0))
                    },
            ),
        ),
    }
}

impl View for JsonValue {
    type V = Json;

    open spec fn view(&self) -> Json {
        json_view(*self)
    }
}

/// A byte string as text for a reader: the text that it encodes where it
/// is UTF-8, else its bytes in hexadecimal.
pub open spec fn shown_text(bytes: Seq<u8>) -> Seq<char> {
    if valid_utf8(bytes) {
        decode_utf8(bytes)
    } else {
        hex_encoded(bytes)
    }
}

/// The JSON value for a bencode value: text for a byte string, a number
/// for an integer, an array for a list, and an object for a dictionary,
/// with a member for each entry in the order of the entries.
pub open spec fn json_of(value: BValue) -> Json
    decreases value,
{
    match value {
        BValue::Bytes(bytes) => Json::Text(shown_text(bytes)),
        BValue::Integer(n) => Json::Number(n),
        BValue::List(items) => Json::Array(
            Seq::new(
                items.len(),
                |i: int|
                    if 0 <= i < items.len() {
                        json_of(items[i])
                    } else {
                        Json::Number(0)
                    },
            ),
        ),
        BValue::Dict(entries) => Json::Object(
            Seq::new(
                entries.len(),
                |i: int|
                    if 0 <= i < entries.len() {
                        (shown_text(entries[i].0), json_of(entries[i].1))
                    } else {
                        (Seq::empty(), Json::Number(0))
                    },
            ),
        ),
    }
}

/// A byte string as text for a reader.
fn show_text(bytes: &Vec<u8>) -> (text: String)
    ensures
        text@ == shown_text(bytes@),
{
    match string_from_utf8(slice_to_vec(bytes.as_slice())) {
        Some(text) => text,
        None => hex_encode(bytes.as_slice()),
    }
}

impl BType {
    /// The value as one line of text, where that text is UTF-8.
    pub fn to_string(&self) -> (text: Option<String>)
        ensures
            valid_utf8(rendered(self@)) ==> (text matches Some(s) && s@ == decode_utf8(
                rendered(self@),
            )),
            !valid_utf8(rendered(self@)) ==> text is None,
    {
        let mut out: Vec<u8> = Vec::new();
        render(self, &mut out);
        assert(out@ =~= rendered(self@));
        string_from_utf8(out)
    }

    /// The value as a JSON value.
    pub fn to_json_value(&self) -> (json: JsonValue)
        ensures
            json@ == json_of(self@),
        decreases self@,
    {
        match self {
            BType::Bytes(bytes) => JsonValue::Text(show_text(bytes)),
            BType::Number(number) => JsonValue::Number(*number),
            BType::List(list) => {
                let ghost items = values_of(list@);
                let mut converted_list: Vec<JsonValue> = Vec::new();
                let mut i: usize = 0;
                while i < list.len()
                    invariant
                        i <= list@.len(),
                        items == values_of(list@),
                        self@ == BValue::List(items),
                        converted_list@.len() == i,
                        forall|j: int|
                            0 <= j < i ==> (#[trigger] converted_list@[j])@ == json_of(items[j]),
                    decreases list@.len() - i,
                {
                    proof {
                        let ghost whole = BValue::List(items);
                        assert(decreases_to!(whole => whole->List_0));
                        assert(items[i as int] == list@[i as int]@);
                    }
                    converted_list.push(list[i].to_json_value());
                    i += 1;
                }
                let json = JsonValue::Array(converted_list);
                assert(json@->Array_0 =~= json_of(self@)->Array_0);
                json
            },
            BType::Dict(map) => {
                let entries = map.entries();
                let mut converted_map: Vec<(String, JsonValue)> = Vec::new();
                let mut i: usize = 0;
                while i < entries.len()
                    invariant
                        i <= entries@.len(),
                        entries@.len() == map@.len(),
                        self@ == BValue::Dict(map@),
                        forall|j: int|
                            0 <= j < entries@.len() ==> (#[trigger] entries@[j]).0@ == map@[j].0
                                && entries@[j].1@ == map@[j].1,
                        converted_map@.len() == i,
                        forall|j: int|
                            0 <= j < i ==> (#[trigger] converted_map@[j]).0@ == shown_text(
                                map@[j].0,
                            ) && converted_map@[j].1@ == json_of(map@[j].1),
                    decreases entries@.len() - i,
                {
                    proof {
                        let ghost whole = BValue::Dict(map@);
                        assert(decreases_to!(whole => whole->Dict_0));
                        assert(map@[i as int].0 == entries@[i as int].0@);
                        assert(map@[i as int].1 == entries@[i as int].1@);
                    }
                    let key = show_text(&entries[i].0);
                    let value = entries[i].1.to_json_value();
                    converted_map.push((key, value));
                    i += 1;
                }
                let json = JsonValue::Object(converted_map);
                assert(json@->Object_0 =~= json_of(self@)->Object_0);
                json
            },
        }
    }
}

} // verus!
