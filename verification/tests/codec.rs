use bittorrent::bformat::bdecoder::{
    decode, decode_bytes, decode_list, decode_map, decode_number, parse_integer, DecodeError,
};
use bittorrent::bformat::bencoder::{
    encode, encode_bytes, encode_list, encode_map, encode_number,
};
use bittorrent::bformat::btype::{bytes_equal, key_before, BDict, BType};
use bittorrent::buffered_stream::BufferedStream;

fn stream(bytes: &[u8]) -> BufferedStream {
    BufferedStream::new(bytes.to_vec())
}

fn decode_all(bytes: &[u8]) -> Result<BType, DecodeError> {
    decode(&mut stream(bytes))
}

fn bytes(text: &str) -> BType {
    BType::Bytes(text.as_bytes().to_vec())
}

fn list(items: Vec<BType>) -> BType {
    BType::List(items.into_iter().map(Box::new).collect())
}

fn dict(entries: Vec<(&str, BType)>) -> BType {
    let mut dict = BDict::new();
    for (key, value) in entries {
        dict.insert(key.as_bytes().to_vec(), value);
    }
    BType::Dict(dict)
}

fn sample() -> BType {
    dict(vec![
        ("spam", list(vec![bytes("a"), BType::Number(-3), list(vec![]), dict(vec![])])),
        ("cow", bytes("moo")),
        ("raw", BType::Bytes(vec![0, 255, 58, 101])),
        ("n", BType::Number(i128::MIN)),
        ("", BType::Number(i128::MAX)),
    ])
}

#[test]
fn encode_sorts_dictionary_keys() {
    let mut dict = BDict::new();
    dict.insert(b"b".to_vec(), BType::Number(2));
    dict.insert(b"a".to_vec(), BType::Number(1));
    assert_eq!(encode(&BType::Dict(dict)), b"d1:ai1e1:bi2ee".to_vec());
}

#[test]
fn encode_orders_keys_by_their_bytes() {
    let value = dict(vec![
        ("b", BType::Number(1)),
        ("ab", BType::Number(2)),
        ("a", BType::Number(3)),
        ("B", BType::Number(4)),
        ("", BType::Number(5)),
    ]);
    assert_eq!(encode(&value), b"d0:i5e1:Bi4e1:ai3e2:abi2e1:bi1ee".to_vec());
    let mut high = BDict::new();
    high.insert(vec![0xff], BType::Number(1));
    high.insert(vec![0x7f, 0xff], BType::Number(2));
    assert_eq!(encode(&BType::Dict(high)), b"d2:\x7f\xffi2e1:\xffi1ee".to_vec());
}

#[test]
fn encode_does_not_depend_on_the_order_of_insertion() {
    let one = dict(vec![("x", BType::Number(1)), ("y", bytes("v")), ("z", list(vec![]))]);
    let other = dict(vec![("z", list(vec![])), ("x", BType::Number(1)), ("y", bytes("v"))]);
    assert_eq!(one, other);
    assert_eq!(encode(&one), encode(&other));
    assert_eq!(encode(&one), encode(&one));
}

#[test]
fn encode_writes_each_kind_of_value() {
    assert_eq!(encode(&BType::Number(0)), b"i0e".to_vec());
    assert_eq!(encode(&BType::Number(42)), b"i42e".to_vec());
    assert_eq!(encode(&BType::Number(-42)), b"i-42e".to_vec());
    assert_eq!(
        encode(&BType::Number(i128::MIN)),
        b"i-170141183460469231731687303715884105728e".to_vec()
    );
    assert_eq!(
        encode(&BType::Number(i128::MAX)),
        b"i170141183460469231731687303715884105727e".to_vec()
    );
    assert_eq!(encode(&bytes("")), b"0:".to_vec());
    assert_eq!(encode(&bytes("hello")), b"5:hello".to_vec());
    assert_eq!(encode(&BType::Bytes(vec![0xff; 12])), [b"12:".as_slice(), &[0xff; 12]].concat());
    assert_eq!(encode(&list(vec![])), b"le".to_vec());
    assert_eq!(encode(&list(vec![bytes("hello"), BType::Number(52)])), b"l5:helloi52ee".to_vec());
    assert_eq!(encode(&dict(vec![])), b"de".to_vec());
}

#[test]
fn the_parts_of_the_encoder_agree_with_it() {
    assert_eq!(encode_bytes(&b"spam".to_vec()), b"4:spam".to_vec());
    assert_eq!(encode_number(&-1), b"i-1e".to_vec());
    assert_eq!(encode_list(&vec![Box::new(BType::Number(1))]), b"li1ee".to_vec());
    let mut map = BDict::new();
    map.insert(b"k".to_vec(), BType::Number(1));
    assert_eq!(encode_map(&map), b"d1:ki1ee".to_vec());
}

#[test]
fn decode_reads_each_kind_of_value() {
    assert_eq!(decode_all(b"5:hello"), Ok(bytes("hello")));
    assert_eq!(decode_all(b"0:"), Ok(bytes("")));
    assert_eq!(decode_all(b"05:hello"), Ok(bytes("hello")));
    assert_eq!(decode_all(b"i42e"), Ok(BType::Number(42)));
    assert_eq!(decode_all(b"i0e"), Ok(BType::Number(0)));
    assert_eq!(decode_all(b"i-7e"), Ok(BType::Number(-7)));
    assert_eq!(decode_all(b"le"), Ok(list(vec![])));
    assert_eq!(decode_all(b"l5:helloi52ee"), Ok(list(vec![bytes("hello"), BType::Number(52)])));
    assert_eq!(decode_all(b"de"), Ok(dict(vec![])));
    assert_eq!(
        decode_all(b"d3:foo3:bar5:helloi52ee"),
        Ok(dict(vec![("hello", BType::Number(52)), ("foo", bytes("bar"))]))
    );
}

#[test]
fn decode_keeps_bytes_that_are_no_text() {
    assert_eq!(decode_all(b"4:\x00\xff\xfe:"), Ok(BType::Bytes(vec![0, 255, 254, 58])));
}

#[test]
fn decode_takes_keys_out_of_order_and_the_last_of_equal_keys() {
    assert_eq!(
        decode_all(b"d1:bi1e1:ai2ee"),
        Ok(dict(vec![("a", BType::Number(2)), ("b", BType::Number(1))]))
    );
    assert_eq!(decode_all(b"d1:ai1e1:ai2ee"), Ok(dict(vec![("a", BType::Number(2))])));
}

#[test]
fn decode_stops_behind_the_value() {
    let mut input = stream(b"i1e4:rest");
    assert_eq!(decode(&mut input), Ok(BType::Number(1)));
    assert_eq!(input.remaining(), 6);
    assert_eq!(decode(&mut input), Ok(bytes("rest")));
    assert_eq!(input.remaining(), 0);
    assert_eq!(decode(&mut input), Err(DecodeError::UnexpectedEof));
}

#[test]
fn decode_says_what_is_wrong() {
    assert_eq!(decode_all(b""), Err(DecodeError::UnexpectedEof));
    assert_eq!(decode_all(b"x"), Err(DecodeError::UnknownType(b'x')));
    assert_eq!(decode_all(b"e"), Err(DecodeError::UnknownType(b'e')));
    assert_eq!(decode_all(b"-1:a"), Err(DecodeError::UnknownType(b'-')));
    assert_eq!(decode_all(b"5"), Err(DecodeError::UnexpectedEof));
    assert_eq!(decode_all(b"5:abc"), Err(DecodeError::UnexpectedEof));
    assert_eq!(decode_all(b"5x:abcde"), Err(DecodeError::InvalidLength));
    assert_eq!(
        decode_all(b"99999999999999999999999999999999999999999:a"),
        Err(DecodeError::InvalidLength)
    );
    assert_eq!(decode_all(b"i42"), Err(DecodeError::UnexpectedEof));
    assert_eq!(decode_all(b"ie"), Err(DecodeError::InvalidInteger));
    assert_eq!(decode_all(b"i-e"), Err(DecodeError::InvalidInteger));
    assert_eq!(decode_all(b"i-0e"), Err(DecodeError::InvalidInteger));
    assert_eq!(decode_all(b"i05e"), Err(DecodeError::InvalidInteger));
    assert_eq!(decode_all(b"i-05e"), Err(DecodeError::InvalidInteger));
    assert_eq!(decode_all(b"i+5e"), Err(DecodeError::InvalidInteger));
    assert_eq!(decode_all(b"i1.5e"), Err(DecodeError::InvalidInteger));
    assert_eq!(
        decode_all(b"i170141183460469231731687303715884105728e"),
        Err(DecodeError::InvalidInteger)
    );
    assert_eq!(
        decode_all(b"i-170141183460469231731687303715884105729e"),
        Err(DecodeError::InvalidInteger)
    );
    assert_eq!(decode_all(b"l"), Err(DecodeError::UnexpectedEof));
    assert_eq!(decode_all(b"li1e"), Err(DecodeError::UnexpectedEof));
    assert_eq!(decode_all(b"lxe"), Err(DecodeError::UnknownType(b'x')));
    assert_eq!(decode_all(b"d"), Err(DecodeError::UnexpectedEof));
    assert_eq!(decode_all(b"d1:a"), Err(DecodeError::UnexpectedEof));
    assert_eq!(decode_all(b"di1ei2ee"), Err(DecodeError::UnexpectedEof));
    assert_eq!(decode_all(b"di1e1:ae"), Err(DecodeError::InvalidLength));
    assert_eq!(decode_all(b"d1:axe"), Err(DecodeError::UnknownType(b'x')));
}

#[test]
fn the_parts_of_the_decoder_check_the_first_byte() {
    assert_eq!(decode_number(&mut stream(b"i-12e")), Ok(-12));
    assert_eq!(decode_number(&mut stream(b"12e")), Err(DecodeError::UnknownType(b'1')));
    assert_eq!(decode_number(&mut stream(b"")), Err(DecodeError::UnexpectedEof));
    assert_eq!(decode_bytes(&mut stream(b"3:abc")), Ok(b"abc".to_vec()));
    assert_eq!(decode_list(&mut stream(b"li1ee")), Ok(vec![Box::new(BType::Number(1))]));
    assert_eq!(decode_list(&mut stream(b"di1ee")), Err(DecodeError::UnknownType(b'd')));
    assert_eq!(decode_list(&mut stream(b"")), Err(DecodeError::UnexpectedEof));
    let mut map = BDict::new();
    map.insert(b"k".to_vec(), BType::Number(1));
    assert_eq!(decode_map(&mut stream(b"d1:ki1ee")), Ok(map));
    assert_eq!(decode_map(&mut stream(b"li1ee")), Err(DecodeError::UnknownType(b'l')));
    assert_eq!(decode_map(&mut stream(b"")), Err(DecodeError::UnexpectedEof));
}

#[test]
fn parse_integer_reads_the_shortest_form_only() {
    assert_eq!(parse_integer(b"0"), Some(0));
    assert_eq!(parse_integer(b"-1"), Some(-1));
    assert_eq!(parse_integer(b"170141183460469231731687303715884105727"), Some(i128::MAX));
    assert_eq!(parse_integer(b"-170141183460469231731687303715884105728"), Some(i128::MIN));
    assert_eq!(parse_integer(b"170141183460469231731687303715884105728"), None);
    assert_eq!(parse_integer(b"00"), None);
    assert_eq!(parse_integer(b"-0"), None);
    assert_eq!(parse_integer(b"-"), None);
    assert_eq!(parse_integer(b""), None);
}

#[test]
fn decoding_an_encoding_gives_the_value_back() {
    let value = sample();
    let encoding = encode(&value);
    let mut input = BufferedStream::new(encoding);
    assert_eq!(decode(&mut input), Ok(sample()));
    assert_eq!(input.remaining(), 0);
}

#[test]
fn encoding_a_decoded_canonical_encoding_gives_it_back() {
    let canonical: &[&[u8]] = &[
        b"i0e",
        b"i-1e",
        b"0:",
        b"4:spam",
        b"le",
        b"de",
        b"l4:spami42eli1eedee",
        b"d3:bar4:spam3:fooi42ee",
        b"d4:infod6:lengthi92063e4:name10:sample.txt12:piece lengthi32768eee",
    ];
    for encoding in canonical {
        let value = decode_all(encoding).unwrap();
        assert_eq!(encode(&value), encoding.to_vec());
    }
}

#[test]
fn dictionary_keeps_one_value_per_key() {
    let mut dict = BDict::new();
    assert_eq!(dict.len(), 0);
    assert_eq!(dict.get(b"a"), None);
    dict.insert(b"b".to_vec(), BType::Number(1));
    dict.insert(b"a".to_vec(), BType::Number(2));
    dict.insert(b"c".to_vec(), BType::Number(3));
    dict.insert(b"a".to_vec(), BType::Number(4));
    assert_eq!(dict.len(), 3);
    assert_eq!(dict.get(b"a"), Some(&BType::Number(4)));
    assert_eq!(dict.get(b"b"), Some(&BType::Number(1)));
    assert_eq!(dict.get(b"c"), Some(&BType::Number(3)));
    assert_eq!(dict.get(b"d"), None);
    assert!(dict.contains_key(b"a"));
    assert!(!dict.contains_key(b""));
    let keys: Vec<&[u8]> = dict.entries().iter().map(|entry| entry.0.as_slice()).collect();
    assert_eq!(keys, vec![b"a".as_slice(), b"b".as_slice(), b"c".as_slice()]);
}

#[test]
fn keys_are_ordered_byte_by_byte() {
    assert!(key_before(b"", b"a"));
    assert!(key_before(b"a", b"ab"));
    assert!(key_before(b"ab", b"b"));
    assert!(key_before(b"\x7f", b"\x80"));
    assert!(!key_before(b"a", b"a"));
    assert!(!key_before(b"b", b"a"));
    assert!(!key_before(b"", b""));
    assert!(bytes_equal(b"ab", b"ab"));
    assert!(!bytes_equal(b"ab", b"abc"));
    assert!(!bytes_equal(b"ab", b"ac"));
}

#[test]
fn a_value_is_one_kind_at_a_time() {
    let text = bytes("x");
    assert_eq!(text.as_bytes(), Some(&b"x".to_vec()));
    assert_eq!(text.as_number(), None);
    assert!(text.as_map().is_none());
    let number = BType::Number(5);
    assert_eq!(number.as_number(), Some(&5));
    assert_eq!(number.as_bytes(), None);
    let map = dict(vec![("k", BType::Number(1))]);
    assert_eq!(map.as_map().unwrap().get(b"k"), Some(&BType::Number(1)));
    assert_eq!(map.as_number(), None);
    assert!(list(vec![]).as_map().is_none());
}
