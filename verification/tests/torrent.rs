use bittorrent::bformat::bdecoder::DecodeError;
use bittorrent::buffered_stream::BufferedStream;
use bittorrent::bformat::btype::{BDict, BType};
use bittorrent::torrent_info::{
    has_prefix, read_info_hash, read_link_parameters, read_tracker, split_at_each,
    torrent_info_text, TorrentError, TorrentInfo,
};

const ANNOUNCE: &str = "http://bittorrent-test-tracker.codecrafters.io/announce";

fn sample_pieces() -> Vec<u8> {
    let mut pieces = Vec::new();
    pieces.extend(hex::decode("e876f67a2a8886e8f36b136726c30fa29703022d").unwrap());
    pieces.extend(hex::decode("6e2275e604a0766656736e81ff10b55204ad8d35").unwrap());
    pieces.extend(hex::decode("f00d937a0213df1982bc8d097227ad9e909acc17").unwrap());
    pieces
}

fn sample_info() -> Vec<u8> {
    let mut info = b"d6:lengthi92063e4:name10:sample.txt12:piece lengthi32768e6:pieces60:".to_vec();
    info.extend(sample_pieces());
    info.push(b'e');
    info
}

fn sample_torrent() -> Vec<u8> {
    let head = format!("d8:announce{}:{}10:created by13:mktorrent 1.14:info", ANNOUNCE.len(), ANNOUNCE);
    let mut file = head.into_bytes();
    file.extend(sample_info());
    file.push(b'e');
    file
}

#[test]
fn from_file_reads_the_sample_torrent() {
    let mut stream = BufferedStream::new(sample_torrent());
    let info = TorrentInfo::from_file(&mut stream).unwrap();
    assert_eq!(info.url, ANNOUNCE);
    assert_eq!(info.length, 92063);
    assert_eq!(info.piece_length, 32768);
    assert_eq!(hex::encode(&info.info_hash), "d69f91e6b2ae4c542468d1073a71d4ea13879a7f");
    let hashes: Vec<String> = info.piece_hashes.iter().map(hex::encode).collect();
    assert_eq!(
        hashes,
        vec![
            "e876f67a2a8886e8f36b136726c30fa29703022d",
            "6e2275e604a0766656736e81ff10b55204ad8d35",
            "f00d937a0213df1982bc8d097227ad9e909acc17",
        ]
    );
    assert_eq!(stream.remaining(), 0);
}

#[test]
fn from_file_says_what_is_wrong() {
    let read = |bytes: &[u8]| TorrentInfo::from_file(&mut BufferedStream::new(bytes.to_vec()));
    assert_eq!(read(b"i1e"), Err(TorrentError::Decode(DecodeError::UnknownType(b'i'))));
    assert_eq!(read(b"d"), Err(TorrentError::Decode(DecodeError::UnexpectedEof)));
    assert_eq!(read(b"de"), Err(TorrentError::Announce));
    assert_eq!(read(b"d8:announcei1ee"), Err(TorrentError::Announce));
    assert_eq!(read(b"d8:announce1:\xffe"), Err(TorrentError::Announce));
    assert_eq!(read(b"d8:announce1:ue"), Err(TorrentError::Info));
    assert_eq!(read(b"d8:announce1:u4:infoi1ee"), Err(TorrentError::Info));
    assert_eq!(read(b"d8:announce1:u4:infodee"), Err(TorrentError::Length));
    assert_eq!(read(b"d8:announce1:u4:infod6:lengthi-1eee"), Err(TorrentError::Length));
    assert_eq!(read(b"d8:announce1:u4:infod6:lengthi1eee"), Err(TorrentError::PieceLength));
    assert_eq!(
        read(b"d8:announce1:u4:infod6:lengthi1e12:piece lengthi1eee"),
        Err(TorrentError::Pieces)
    );
    assert_eq!(
        read(b"d8:announce1:u4:infod6:lengthi1e12:piece lengthi1e6:pieces3:abcee"),
        Err(TorrentError::Pieces)
    );
}

#[test]
fn from_link_reads_hash_and_tracker() {
    let link = "magnet:?xt=urn:btih:d69f91e6b2ae4c542468d1073a71d4ea13879a7f&dn=sample.torrent&tr=http%3A%2F%2Fbittorrent-test-tracker.codecrafters.io%2Fannounce".to_string();
    let info = TorrentInfo::from_link(&link).unwrap();
    assert_eq!(info.url, ANNOUNCE);
    assert_eq!(hex::encode(&info.info_hash), "d69f91e6b2ae4c542468d1073a71d4ea13879a7f");
    assert_eq!(info.length, 999);
    assert_eq!(info.piece_length, 0);
    assert!(info.piece_hashes.is_empty());
}

#[test]
fn from_link_needs_no_display_name() {
    let link = "magnet:?tr=http%3A%2F%2Ftracker%2Fannounce&xt=urn:btih:D69F91E6B2AE4C542468D1073A71D4EA13879A7F".to_string();
    let info = TorrentInfo::from_link(&link).unwrap();
    assert_eq!(info.url, "http://tracker/announce");
    assert_eq!(hex::encode(&info.info_hash), "d69f91e6b2ae4c542468d1073a71d4ea13879a7f");
}

#[test]
fn from_link_says_what_is_missing() {
    let read = |link: &str| TorrentInfo::from_link(&link.to_string());
    assert_eq!(read("http://example.com"), Err("Not a magnet link!".to_string()));
    assert_eq!(
        read("magnet:?dn=x&tr=http%3A%2F%2Ftracker"),
        Err("Magnet link is missing info hash!".to_string())
    );
    assert_eq!(
        read("magnet:?xt=urn:btih:zz&tr=http%3A%2F%2Ftracker"),
        Err("Magnet link is missing info hash!".to_string())
    );
    assert_eq!(
        read("magnet:?xt=urn:btih:d69f91e6&tr=http%3A%2F%2Ftracker"),
        Err("Magnet link is missing info hash!".to_string())
    );
    assert_eq!(
        read("magnet:?xt=urn:btih:d69f91e6b2ae4c542468d1073a71d4ea13879a7f&dn=x"),
        Err("Magnet link is missing tracker url!".to_string())
    );
    assert_eq!(
        read("magnet:?xt=urn:btih:d69f91e6b2ae4c542468d1073a71d4ea13879a7f&tr="),
        Err("Magnet link is missing tracker url!".to_string())
    );
}

#[test]
fn from_metadata_completes_a_magnet_torrent() {
    let link = "magnet:?xt=urn:btih:d69f91e6b2ae4c542468d1073a71d4ea13879a7f&tr=http%3A%2F%2Ftracker%2Fannounce".to_string();
    let partial = TorrentInfo::from_link(&link).unwrap();
    let mut metadata = BufferedStream::new(sample_info());
    let info = TorrentInfo::from_metadata(&partial, &mut metadata).unwrap();
    assert_eq!(info.url, "http://tracker/announce");
    assert_eq!(info.info_hash, partial.info_hash);
    assert_eq!(info.length, 92063);
    assert_eq!(info.piece_length, 32768);
    assert_eq!(info.piece_hashes.len(), 3);
    assert_eq!(metadata.remaining(), 0);
}

#[test]
fn from_metadata_refuses_other_metadata() {
    let link = "magnet:?xt=urn:btih:0000000000000000000000000000000000000000&tr=http%3A%2F%2Ftracker%2Fannounce".to_string();
    let partial = TorrentInfo::from_link(&link).unwrap();
    let mut metadata = BufferedStream::new(sample_info());
    assert_eq!(TorrentInfo::from_metadata(&partial, &mut metadata), Err(TorrentError::InfoHash));
}

#[test]
fn info_is_described_line_by_line() {
    let info = TorrentInfo::from_file(&mut BufferedStream::new(sample_torrent())).unwrap();
    assert_eq!(
        torrent_info_text(&info),
        "Tracker URL: http://bittorrent-test-tracker.codecrafters.io/announce\n\
         Length: 92063\n\
         Info Hash: d69f91e6b2ae4c542468d1073a71d4ea13879a7f\n\
         Piece Length: 32768\n\
         Piece Hashes:\n\
         e876f67a2a8886e8f36b136726c30fa29703022d\n\
         6e2275e604a0766656736e81ff10b55204ad8d35\n\
         f00d937a0213df1982bc8d097227ad9e909acc17"
    );
}

#[test]
fn a_torrent_without_pieces_is_described_without_digests() {
    let link = "magnet:?xt=urn:btih:d69f91e6b2ae4c542468d1073a71d4ea13879a7f&tr=http%3A%2F%2Fx".to_string();
    let info = TorrentInfo::from_link(&link).unwrap();
    assert_eq!(
        torrent_info_text(&info),
        "Tracker URL: http://x\nLength: 999\n\
         Info Hash: d69f91e6b2ae4c542468d1073a71d4ea13879a7f\nPiece Length: 0\nPiece Hashes:"
    );
}

#[test]
fn from_link_gives_back_the_hash_that_was_written_out() {
    let hash: Vec<u8> = (0..20).map(|i| (i * 13 + 7) as u8).collect();
    let link = format!("magnet:?xt=urn:btih:{}&tr=udp%3A%2F%2Ftracker%3A80", hex::encode(&hash));
    let info = TorrentInfo::from_link(&link).unwrap();
    assert_eq!(info.info_hash, hash);
    assert_eq!(info.url, "udp://tracker:80");
}

#[test]
fn from_link_takes_the_last_of_equal_parameters() {
    let link = "magnet:?xt=urn:btih:0000000000000000000000000000000000000000&tr=a&xt=urn:btih:d69f91e6b2ae4c542468d1073a71d4ea13879a7f&tr=b+c".to_string();
    let info = TorrentInfo::from_link(&link).unwrap();
    assert_eq!(hex::encode(&info.info_hash), "d69f91e6b2ae4c542468d1073a71d4ea13879a7f");
    assert_eq!(info.url, "b c");
}

#[test]
fn text_is_cut_at_every_separator() {
    assert_eq!(
        split_at_each(b"a&bc&&d", b'&'),
        vec![b"a".to_vec(), b"bc".to_vec(), vec![], b"d".to_vec()]
    );
    assert_eq!(split_at_each(b"", b'&'), vec![Vec::<u8>::new()]);
    assert_eq!(split_at_each(b"abc", b'&'), vec![b"abc".to_vec()]);
    assert_eq!(split_at_each(b"&", b'&'), vec![Vec::<u8>::new(), Vec::<u8>::new()]);
    assert!(has_prefix(b"tr=x", b"tr="));
    assert!(has_prefix(b"tr=", b"tr="));
    assert!(has_prefix(b"tr=", b""));
    assert!(!has_prefix(b"tr", b"tr="));
    assert!(!has_prefix(b"xtr=", b"tr="));
}

#[test]
fn link_parameters_are_found_behind_the_scheme() {
    assert_eq!(read_link_parameters(b"magnet:"), None);
    assert_eq!(read_link_parameters(b"Magnet:?xt=urn:btih:00"), None);
    assert_eq!(read_link_parameters(b"magnet:?"), Some((None, None)));
    assert_eq!(
        read_link_parameters(b"magnet:?dn=a&xt=urn:btih:00&x=y&tr=t&tr=&xt=urn:btih:ff"),
        Some((Some(b"ff".to_vec()), Some(vec![])))
    );
    assert_eq!(read_link_parameters(b"magnet:?xt=urn:btih&tr"), Some((None, None)));
}

#[test]
fn an_info_hash_is_forty_hexadecimal_digits() {
    let digits = b"d69f91e6b2ae4c542468d1073a71d4ea13879a7f".to_vec();
    assert_eq!(read_info_hash(&Some(digits.clone())), Some(hex::decode(&digits).unwrap()));
    assert_eq!(read_info_hash(&Some(digits[..38].to_vec())), None);
    assert_eq!(read_info_hash(&Some(digits[..39].to_vec())), None);
    assert_eq!(read_info_hash(&Some(b"g69f91e6b2ae4c542468d1073a71d4ea13879a7f".to_vec())), None);
    assert_eq!(read_info_hash(&Some(vec![])), None);
    assert_eq!(read_info_hash(&None), None);
}

#[test]
fn the_tracker_is_the_name_of_the_first_pair() {
    let pair = |name: &str, value: &str| (name.to_string(), value.to_string());
    assert_eq!(read_tracker(None), None);
    assert_eq!(read_tracker(Some(vec![])), None);
    assert_eq!(read_tracker(Some(vec![pair("http://t", "")])), Some("http://t".to_string()));
    assert_eq!(read_tracker(Some(vec![pair("a", "b"), pair("c", "d")])), Some("a".to_string()));
}

#[test]
fn a_link_needs_an_info_hash_and_a_tracker() {
    assert_eq!(
        TorrentInfo::from_link_parts(None, Some("t".to_string())),
        Err("Magnet link is missing info hash!".to_string())
    );
    assert_eq!(
        TorrentInfo::from_link_parts(None, None),
        Err("Magnet link is missing info hash!".to_string())
    );
    assert_eq!(
        TorrentInfo::from_link_parts(Some(vec![1; 20]), None),
        Err("Magnet link is missing tracker url!".to_string())
    );
    assert_eq!(
        TorrentInfo::from_link_parts(Some(vec![1; 20]), Some("t".to_string())),
        Ok(TorrentInfo {
            url: "t".to_string(),
            length: 999,
            info_hash: vec![1; 20],
            piece_length: 0,
            piece_hashes: vec![],
        })
    );
}

#[test]
fn an_info_dictionary_describes_the_file() {
    let mut info = BDict::new();
    info.insert(b"length".to_vec(), BType::Number(50));
    info.insert(b"piece length".to_vec(), BType::Number(32));
    info.insert(b"pieces".to_vec(), BType::Bytes((0..40).collect()));
    assert_eq!(
        TorrentInfo::from_info("u".to_string(), vec![7; 20], &info),
        Ok(TorrentInfo {
            url: "u".to_string(),
            length: 50,
            info_hash: vec![7; 20],
            piece_length: 32,
            piece_hashes: vec![(0..20).collect(), (20..40).collect()],
        })
    );
    info.insert(b"length".to_vec(), BType::Bytes(b"50".to_vec()));
    assert_eq!(
        TorrentInfo::from_info("u".to_string(), vec![7; 20], &info),
        Err(TorrentError::Length)
    );
}

#[test]
fn metadata_must_have_the_digest_of_the_link() {
    let partial = TorrentInfo::from_link_parts(Some(vec![1; 20]), Some("t".to_string())).unwrap();
    let metadata = b"d6:lengthi1e12:piece lengthi1e6:pieces0:e".to_vec();
    assert_eq!(
        TorrentInfo::from_hashed_metadata(&partial, &[2; 20], metadata.clone()),
        Err(TorrentError::InfoHash)
    );
    assert_eq!(
        TorrentInfo::from_hashed_metadata(&partial, &[1; 20], b"le".to_vec()),
        Err(TorrentError::Decode(DecodeError::UnknownType(b'l')))
    );
    assert_eq!(
        TorrentInfo::from_hashed_metadata(&partial, &[1; 20], metadata),
        Ok(TorrentInfo {
            url: "t".to_string(),
            length: 1,
            info_hash: vec![1; 20],
            piece_length: 1,
            piece_hashes: vec![],
        })
    );
}
