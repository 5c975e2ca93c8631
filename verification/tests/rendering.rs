use bittorrent::bformat::bdecoder::decode;
use bittorrent::bformat::btype::{BDict, BType};
use bittorrent::bformat::rendering::JsonValue;
use bittorrent::buffered_stream::BufferedStream;

fn to_serde(value: &JsonValue) -> serde_json::Value {
    match value {
        JsonValue::Text(text) => serde_json::Value::String(text.clone()),
        JsonValue::Number(number) => {
            serde_json::Value::Number(serde_json::Number::from_i128(*number).unwrap())
        }
        JsonValue::Array(items) => serde_json::Value::Array(items.iter().map(to_serde).collect()),
        JsonValue::Object(members) => {
            let mut map = serde_json::Map::new();
            for (key, member) in members {
                map.insert(key.clone(), to_serde(member));
            }
            serde_json::Value::Object(map)
        }
    }
}

fn decoded_as_json(encoding: &str) -> String {
    let value = decode(&mut BufferedStream::new(encoding.as_bytes().to_vec())).unwrap();
    to_serde(&value.to_json_value()).to_string()
}

#[test]
fn decode_shows_a_string() {
    assert_eq!(decoded_as_json("5:hello"), "\"hello\"");
}

#[test]
fn decode_shows_an_integer() {
    assert_eq!(decoded_as_json("i42e"), "42");
}

#[test]
fn decode_shows_a_list() {
    assert_eq!(decoded_as_json("l5:helloi52ee"), "[\"hello\",52]");
}

#[test]
fn decode_shows_a_dictionary() {
    assert_eq!(decoded_as_json("d3:foo3:bar5:helloi52ee"), "{\"foo\":\"bar\",\"hello\":52}");
}

#[test]
fn bytes_that_are_no_text_are_shown_in_hexadecimal() {
    let value = BType::Bytes(vec![0xff, 0xd6, 0x9f, 0x0a]);
    assert_eq!(value.to_json_value(), JsonValue::Text("ffd69f0a".to_string()));
    let mut dict = BDict::new();
    dict.insert(vec![0xff], BType::Bytes(vec![0xfe]));
    assert_eq!(
        BType::Dict(dict).to_json_value(),
        JsonValue::Object(vec![("ff".to_string(), JsonValue::Text("fe".to_string()))])
    );
}

#[test]
fn to_json_value_keeps_the_shape() {
    let mut dict = BDict::new();
    dict.insert(b"n".to_vec(), BType::Number(-1));
    dict.insert(b"l".to_vec(), BType::List(vec![Box::new(BType::Bytes(b"x".to_vec()))]));
    assert_eq!(
        BType::Dict(dict).to_json_value(),
        JsonValue::Object(vec![
            ("l".to_string(), JsonValue::Array(vec![JsonValue::Text("x".to_string())])),
            ("n".to_string(), JsonValue::Number(-1)),
        ])
    );
    assert_eq!(BType::List(vec![]).to_json_value(), JsonValue::Array(vec![]));
}

#[test]
fn to_string_writes_one_line() {
    assert_eq!(
        BType::Bytes(b"http://x/announce".to_vec()).to_string(),
        Some("http://x/announce".to_string())
    );
    assert_eq!(BType::Number(-12).to_string(), Some("-12".to_string()));
    assert_eq!(BType::Number(0).to_string(), Some("0".to_string()));
    assert_eq!(BType::Number(i128::MIN).to_string(), Some(i128::MIN.to_string()));
    assert_eq!(BType::List(vec![]).to_string(), Some("[]".to_string()));
    let list = BType::List(vec![
        Box::new(BType::Bytes(b"a".to_vec())),
        Box::new(BType::Number(1)),
        Box::new(BType::List(vec![Box::new(BType::Number(2))])),
    ]);
    assert_eq!(list.to_string(), Some("[a,1,[2]]".to_string()));
    let mut dict = BDict::new();
    assert_eq!(BType::Dict(BDict::new()).to_string(), Some("{}".to_string()));
    dict.insert(b"k".to_vec(), BType::Number(1));
    dict.insert(b"j".to_vec(), BType::Bytes(b"v".to_vec()));
    assert_eq!(BType::Dict(dict).to_string(), Some("{j:v,k:1}".to_string()));
}

#[test]
fn to_string_gives_nothing_for_bytes_that_are_no_text() {
    assert_eq!(BType::Bytes(vec![0xff]).to_string(), None);
    assert_eq!(BType::List(vec![Box::new(BType::Bytes(vec![0xc3]))]).to_string(), None);
    assert_eq!(BType::Bytes("é".as_bytes().to_vec()).to_string(), Some("é".to_string()));
}
