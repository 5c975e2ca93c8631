use bittorrent::buffered_stream::BufferedStream;

#[test]
fn peek_then_read_gives_the_same_byte() {
    let mut stream = BufferedStream::new(b"ab".to_vec());
    assert_eq!(stream.peek_byte(), Some(b'a'));
    assert_eq!(stream.peek_byte(), Some(b'a'));
    assert_eq!(stream.read_byte(), Some(b'a'));
    assert_eq!(stream.peek_byte(), Some(b'b'));
    assert_eq!(stream.read_byte(), Some(b'b'));
    assert_eq!(stream.peek_byte(), None);
    assert_eq!(stream.read_byte(), None);
}

#[test]
fn read_n_bytes_takes_all_or_nothing() {
    let mut stream = BufferedStream::new(b"hello".to_vec());
    assert_eq!(stream.read_n_bytes(6), None);
    assert_eq!(stream.remaining(), 5);
    assert_eq!(stream.read_n_bytes(0), Some(vec![]));
    assert_eq!(stream.read_n_bytes(2), Some(b"he".to_vec()));
    assert_eq!(stream.read_n_bytes(3), Some(b"llo".to_vec()));
    assert_eq!(stream.read_n_bytes(1), None);
    assert_eq!(stream.remaining(), 0);
}

#[test]
fn peek_n_bytes_takes_nothing() {
    let stream = BufferedStream::new(b"hello".to_vec());
    assert_eq!(stream.peek_n_bytes(4), Some(b"hell".to_vec()));
    assert_eq!(stream.peek_n_bytes(6), None);
    assert_eq!(stream.remaining(), 5);
}

#[test]
fn read_until_drops_the_delimiter() {
    let mut stream = BufferedStream::new(b"12:rest:".to_vec());
    assert_eq!(stream.read_until(b':'), Some(b"12".to_vec()));
    assert_eq!(stream.read_until(b':'), Some(b"rest".to_vec()));
    assert_eq!(stream.read_until(b':'), None);
    assert_eq!(stream.remaining(), 0);
}

#[test]
fn read_until_without_delimiter_takes_nothing() {
    let mut stream = BufferedStream::new(b"abc".to_vec());
    assert_eq!(stream.read_until(b':'), None);
    assert_eq!(stream.remaining(), 3);
    assert_eq!(stream.read_n_bytes(3), Some(b"abc".to_vec()));
}

#[test]
fn read_until_may_take_nothing_in_front_of_the_delimiter() {
    let mut stream = BufferedStream::new(b":x".to_vec());
    assert_eq!(stream.read_until(b':'), Some(vec![]));
    assert_eq!(stream.read_byte(), Some(b'x'));
}

#[test]
fn extend_appends_behind_what_waits() {
    let mut stream = BufferedStream::new(b"ab".to_vec());
    assert_eq!(stream.read_byte(), Some(b'a'));
    stream.extend(b"cd");
    assert_eq!(stream.remaining(), 3);
    assert_eq!(stream.read_n_bytes(3), Some(b"bcd".to_vec()));
    stream.extend(b"");
    assert_eq!(stream.read_byte(), None);
    stream.extend(b"e");
    assert_eq!(stream.read_byte(), Some(b'e'));
}
