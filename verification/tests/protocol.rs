use bittorrent::bformat::bdecoder::DecodeError;
use bittorrent::buffered_stream::BufferedStream;
use bittorrent::torrent_info::{TorrentError, TorrentInfo};
use bittorrent::torrent_protocol::{
    client_id_bytes, download_piece, extension_handshake, extension_reserved_bytes, handshake,
    read_message_with_id, read_peer_message, request_metadata, send_interested,
    supports_extensions, to_u32, to_vec, PeerError, Phase, PieceDownload, Step,
};
use sha1::{Digest, Sha1};

const INFO_HASH: &str = "d69f91e6b2ae4c542468d1073a71d4ea13879a7f";

fn empty() -> BufferedStream {
    BufferedStream::new(vec![])
}

fn torrent(length: usize, piece_length: usize, pieces: &[&[u8]]) -> TorrentInfo {
    TorrentInfo {
        url: "http://tracker/announce".to_string(),
        length,
        info_hash: hex::decode(INFO_HASH).unwrap(),
        piece_length,
        piece_hashes: pieces.iter().map(|piece| Sha1::digest(piece).to_vec()).collect(),
    }
}

fn frame(body: &[u8]) -> Vec<u8> {
    let mut message = (body.len() as u32).to_be_bytes().to_vec();
    message.extend_from_slice(body);
    message
}

fn piece_message(index: u32, begin: u32, data: &[u8]) -> Vec<u8> {
    let mut body = vec![7];
    body.extend_from_slice(&index.to_be_bytes());
    body.extend_from_slice(&begin.to_be_bytes());
    body.extend_from_slice(data);
    frame(&body)
}

fn request(index: u32, begin: u32, length: u32) -> Vec<u8> {
    let mut message = vec![0, 0, 0, 13, 6];
    message.extend_from_slice(&index.to_be_bytes());
    message.extend_from_slice(&begin.to_be_bytes());
    message.extend_from_slice(&length.to_be_bytes());
    message
}

fn pattern(length: usize) -> Vec<u8> {
    (0..length).map(|i| (i * 7 + i / 251) as u8).collect()
}

#[test]
fn numbers_are_four_bytes_most_significant_first() {
    assert_eq!(to_vec(0), vec![0, 0, 0, 0]);
    assert_eq!(to_vec(13), vec![0, 0, 0, 13]);
    assert_eq!(to_vec(0x0102_0304), vec![1, 2, 3, 4]);
    assert_eq!(to_vec(u32::MAX), vec![255, 255, 255, 255]);
    assert_eq!(to_u32(vec![0, 0, 0x40, 0]), Some(0x4000));
    assert_eq!(to_u32(vec![255, 255, 255, 255]), Some(u32::MAX));
    assert_eq!(to_u32(vec![1, 2, 3]), None);
    assert_eq!(to_u32(vec![1, 2, 3, 4, 5]), None);
    for number in [0, 1, 255, 256, 65535, 65536, 0x1234_5678, u32::MAX] {
        assert_eq!(to_u32(to_vec(number)), Some(number));
    }
}

#[test]
fn a_message_is_taken_when_it_has_arrived_in_full() {
    let mut reader = BufferedStream::new(vec![0, 0, 0]);
    assert_eq!(read_peer_message(&mut reader), None);
    reader.extend(&[3, 7]);
    assert_eq!(read_peer_message(&mut reader), None);
    assert_eq!(reader.remaining(), 5);
    reader.extend(&[8, 9, 0, 0]);
    assert_eq!(read_peer_message(&mut reader), Some(vec![7, 8, 9]));
    assert_eq!(reader.remaining(), 2);
    reader.extend(&[0, 0]);
    assert_eq!(read_peer_message(&mut reader), Some(vec![]));
    assert_eq!(reader.remaining(), 0);
    assert_eq!(read_peer_message(&mut reader), None);
}

#[test]
fn a_message_takes_four_bytes_more_than_its_length() {
    let mut input = frame(&pattern(300));
    input.extend_from_slice(b"rest");
    let mut reader = BufferedStream::new(input);
    let message = read_peer_message(&mut reader).unwrap();
    assert_eq!(message, pattern(300));
    assert_eq!(reader.remaining(), 4);
}

#[test]
fn messages_with_other_ids_are_dropped() {
    let mut input = frame(&[]);
    input.extend(frame(&[4, 0, 0, 0, 1]));
    input.extend(frame(&[1]));
    input.extend(frame(&[2]));
    let mut reader = BufferedStream::new(input);
    assert_eq!(read_message_with_id(&mut reader, 1), Some(vec![1]));
    assert_eq!(reader.remaining(), 5);
    assert_eq!(read_message_with_id(&mut reader, 1), None);
    assert_eq!(reader.remaining(), 0);
    reader.extend(&[0, 0, 0, 2, 1]);
    assert_eq!(read_message_with_id(&mut reader, 1), None);
    assert_eq!(reader.remaining(), 5);
    reader.extend(&[9]);
    assert_eq!(read_message_with_id(&mut reader, 1), Some(vec![1, 9]));
}

#[test]
fn handshake_sends_the_fixed_layout() {
    let info = torrent(1, 1, &[b"x"]);
    let mut phase = Phase::Start;
    let mut reader = empty();
    let mut expected = vec![19];
    expected.extend_from_slice(b"BitTorrent protocol");
    expected.extend_from_slice(&[0; 8]);
    expected.extend(hex::decode(INFO_HASH).unwrap());
    expected.extend_from_slice(b"1234567890abcdefghij");
    assert_eq!(expected.len(), 68);
    assert_eq!(handshake(&info, &mut phase, &mut reader, None), Step::Send(expected));
    assert_eq!(phase, Phase::Sent);
    assert_eq!(client_id_bytes(), b"1234567890abcdefghij".to_vec());
}

#[test]
fn handshake_sends_the_reserved_bytes_it_is_given() {
    let info = torrent(1, 1, &[b"x"]);
    let mut phase = Phase::Start;
    let step = handshake(&info, &mut phase, &mut empty(), Some([0, 0, 0, 0, 0, 0x10, 0, 0]));
    match step {
        Step::Send(message) => assert_eq!(message[20..28], [0, 0, 0, 0, 0, 0x10, 0, 0]),
        other => panic!("{:?}", other),
    }
}

fn peer_handshake(header: &[u8], reserved: [u8; 8], info_hash: &[u8], peer_id: &[u8]) -> Vec<u8> {
    let mut reply = header.to_vec();
    reply.extend_from_slice(&reserved);
    reply.extend_from_slice(info_hash);
    reply.extend_from_slice(peer_id);
    reply
}

#[test]
fn handshake_reads_the_peer_id_and_the_reserved_bytes() {
    let info = torrent(1, 1, &[b"x"]);
    let reply = peer_handshake(
        b"\x13BitTorrent protocol",
        [0, 0, 0, 0, 0, 0x10, 0, 4],
        &info.info_hash,
        b"-PEER-0123456789abcd",
    );
    let mut phase = Phase::Sent;
    let mut reader = BufferedStream::new(reply[..30].to_vec());
    assert_eq!(handshake(&info, &mut phase, &mut reader, None), Step::Receive);
    assert_eq!(reader.remaining(), 30);
    reader.extend(&reply[30..]);
    reader.extend(&[0, 0, 0, 0]);
    assert_eq!(
        handshake(&info, &mut phase, &mut reader, None),
        Step::Done(Ok((b"-PEER-0123456789abcd".to_vec(), vec![0, 0, 0, 0, 0, 0x10, 0, 4])))
    );
    assert_eq!(reader.remaining(), 4);
}

#[test]
fn handshake_refuses_another_protocol_or_torrent() {
    let info = torrent(1, 1, &[b"x"]);
    let other = peer_handshake(b"\x13BitTorrent protocoL", [0; 8], &info.info_hash, &[1; 20]);
    assert_eq!(
        handshake(&info, &mut Phase::Sent, &mut BufferedStream::new(other), None),
        Step::Done(Err(PeerError::Handshake))
    );
    let wrong = peer_handshake(b"\x13BitTorrent protocol", [0; 8], &[9; 20], &[1; 20]);
    let mut reader = BufferedStream::new(wrong);
    assert_eq!(
        handshake(&info, &mut Phase::Sent, &mut reader, None),
        Step::Done(Err(PeerError::InfoHash))
    );
    assert_eq!(reader.remaining(), 0);
}

#[test]
fn interest_is_sent_and_unchoke_awaited() {
    let mut phase = Phase::Start;
    let mut reader = BufferedStream::new(frame(&[1]));
    assert_eq!(send_interested(&mut phase, &mut reader), Step::Send(vec![0, 0, 0, 1, 2]));
    assert_eq!(reader.remaining(), 5);
    let mut reader = BufferedStream::new(frame(&[5, 0xff]));
    assert_eq!(send_interested(&mut phase, &mut reader), Step::Receive);
    reader.extend(&frame(&[]));
    reader.extend(&frame(&[1])[..4]);
    assert_eq!(send_interested(&mut phase, &mut reader), Step::Receive);
    reader.extend(&[1, 0, 0]);
    assert_eq!(send_interested(&mut phase, &mut reader), Step::Done(()));
    assert_eq!(reader.remaining(), 2);
}

#[test]
fn extension_handshake_learns_the_peers_metadata_id() {
    let mut phase = Phase::Start;
    let mut reader = empty();
    assert_eq!(extension_handshake(&mut phase, &mut reader), Step::Receive);
    assert_eq!(phase, Phase::Start);
    reader.extend(&frame(&[5, 0xe0]));
    let mut offer = vec![0, 0, 0, 26, 20, 0];
    offer.extend_from_slice(b"d1:md11:ut_metadatai1eee");
    assert_eq!(extension_handshake(&mut phase, &mut reader), Step::Send(offer));
    assert_eq!(phase, Phase::Sent);
    assert_eq!(reader.remaining(), 0);
    assert_eq!(extension_handshake(&mut phase, &mut reader), Step::Receive);
    let mut reply = vec![20, 0];
    reply.extend_from_slice(b"d1:md11:ut_metadatai16e6:ut_pexi2ee13:metadata_sizei132ee");
    reader.extend(&frame(&reply));
    assert_eq!(extension_handshake(&mut phase, &mut reader), Step::Done(Ok(16)));
}

fn extension_answer(body: &[u8]) -> Step<Result<u8, PeerError>> {
    extension_handshake(&mut Phase::Sent, &mut BufferedStream::new(frame(body)))
}

#[test]
fn extension_handshake_says_what_is_wrong() {
    assert_eq!(extension_answer(b""), Step::Done(Err(PeerError::UnexpectedMessage)));
    assert_eq!(extension_answer(b"\x14"), Step::Done(Err(PeerError::UnexpectedMessage)));
    assert_eq!(extension_answer(b"\x05\x00de"), Step::Done(Err(PeerError::UnexpectedMessage)));
    assert_eq!(extension_answer(b"\x14\x01de"), Step::Done(Err(PeerError::UnexpectedMessage)));
    assert_eq!(
        extension_answer(b"\x14\x00"),
        Step::Done(Err(PeerError::Decode(DecodeError::UnexpectedEof)))
    );
    assert_eq!(extension_answer(b"\x14\x00i1e"), Step::Done(Err(PeerError::Extension)));
    assert_eq!(extension_answer(b"\x14\x00de"), Step::Done(Err(PeerError::Extension)));
    assert_eq!(extension_answer(b"\x14\x00d1:mi1ee"), Step::Done(Err(PeerError::Extension)));
    assert_eq!(extension_answer(b"\x14\x00d1:mdee"), Step::Done(Err(PeerError::Extension)));
    assert_eq!(
        extension_answer(b"\x14\x00d1:md11:ut_metadata1:xee"),
        Step::Done(Err(PeerError::Extension))
    );
    assert_eq!(
        extension_answer(b"\x14\x00d1:md11:ut_metadatai256eee"),
        Step::Done(Err(PeerError::Extension))
    );
    assert_eq!(
        extension_answer(b"\x14\x00d1:md11:ut_metadatai-1eee"),
        Step::Done(Err(PeerError::Extension))
    );
    assert_eq!(extension_answer(b"\x14\x00d1:md11:ut_metadatai255eee"), Step::Done(Ok(255)));
    assert_eq!(extension_answer(b"\x14\x00d1:md11:ut_metadatai0eee"), Step::Done(Ok(0)));
}

fn sample_info() -> Vec<u8> {
    let mut info = b"d6:lengthi92063e4:name10:sample.txt12:piece lengthi32768e6:pieces60:".to_vec();
    info.extend(hex::decode("e876f67a2a8886e8f36b136726c30fa29703022d").unwrap());
    info.extend(hex::decode("6e2275e604a0766656736e81ff10b55204ad8d35").unwrap());
    info.extend(hex::decode("f00d937a0213df1982bc8d097227ad9e909acc17").unwrap());
    info.push(b'e');
    info
}

fn partial() -> TorrentInfo {
    TorrentInfo {
        url: "http://tracker/announce".to_string(),
        length: 999,
        info_hash: hex::decode(INFO_HASH).unwrap(),
        piece_length: 0,
        piece_hashes: vec![],
    }
}

#[test]
fn metadata_is_asked_for_and_read() {
    let mut phase = Phase::Start;
    let mut reader = empty();
    let mut ask = vec![0, 0, 0, 27, 20, 16];
    ask.extend_from_slice(b"d8:msg_typei0e5:piecei0ee");
    assert_eq!(request_metadata(&partial(), 16, &mut phase, &mut reader), Step::Send(ask));
    assert_eq!(request_metadata(&partial(), 16, &mut phase, &mut reader), Step::Receive);
    let mut reply = vec![20, 1];
    reply.extend_from_slice(b"d8:msg_typei1e5:piecei0e10:total_sizei");
    reply.extend(sample_info().len().to_string().into_bytes());
    reply.extend_from_slice(b"ee");
    reply.extend(sample_info());
    reader.extend(&frame(&reply));
    match request_metadata(&partial(), 16, &mut phase, &mut reader) {
        Step::Done(Ok(info)) => {
            assert_eq!(info.url, "http://tracker/announce");
            assert_eq!(hex::encode(&info.info_hash), INFO_HASH);
            assert_eq!(info.length, 92063);
            assert_eq!(info.piece_length, 32768);
            assert_eq!(info.piece_hashes.len(), 3);
            assert_eq!(
                hex::encode(&info.piece_hashes[2]),
                "f00d937a0213df1982bc8d097227ad9e909acc17"
            );
        }
        other => panic!("{:?}", other),
    }
    assert_eq!(reader.remaining(), 0);
}

fn metadata_answer(body: &[u8]) -> Step<Result<TorrentInfo, PeerError>> {
    request_metadata(&partial(), 3, &mut Phase::Sent, &mut BufferedStream::new(frame(body)))
}

#[test]
fn metadata_answer_must_be_the_data_of_piece_zero() {
    assert_eq!(metadata_answer(b"\x14\x03de"), Step::Done(Err(PeerError::UnexpectedMessage)));
    assert_eq!(metadata_answer(b"\x14"), Step::Done(Err(PeerError::UnexpectedMessage)));
    assert_eq!(
        metadata_answer(b"\x14\x01x"),
        Step::Done(Err(PeerError::Decode(DecodeError::UnknownType(b'x'))))
    );
    assert_eq!(metadata_answer(b"\x14\x01le"), Step::Done(Err(PeerError::Extension)));
    assert_eq!(
        metadata_answer(b"\x14\x01d8:msg_typei2e5:piecei0ee"),
        Step::Done(Err(PeerError::Extension))
    );
    assert_eq!(
        metadata_answer(b"\x14\x01d8:msg_typei1e5:piecei1ee"),
        Step::Done(Err(PeerError::Extension))
    );
    assert_eq!(metadata_answer(b"\x14\x01d8:msg_typei1eee"), Step::Done(Err(PeerError::Extension)));
    assert_eq!(
        metadata_answer(b"\x14\x01d8:msg_typei1e5:piecei0eede"),
        Step::Done(Err(PeerError::Extension))
    );
    assert_eq!(
        metadata_answer(b"\x14\x01d8:msg_typei1e5:piecei0e10:total_sizei3eede"),
        Step::Done(Err(PeerError::Extension))
    );
    assert_eq!(
        metadata_answer(b"\x14\x01d8:msg_typei1e5:piecei0e10:total_sizei2eede"),
        Step::Done(Err(PeerError::Metadata(TorrentError::InfoHash)))
    );
}

#[test]
fn a_piece_index_must_be_in_range() {
    let info = torrent(10, 4, &[b"aaaa", b"bbbb", b"cc"]);
    assert!(PieceDownload::new(&info, 0).is_ok());
    assert!(PieceDownload::new(&info, 2).is_ok());
    assert_eq!(PieceDownload::new(&info, 3).err(), Some(PeerError::PieceIndex(3)));
    assert_eq!(PieceDownload::new(&partial(), 0).err(), Some(PeerError::PieceIndex(0)));
}

#[test]
fn a_torrent_must_have_room_for_the_piece() {
    let info = torrent(7, 4, &[b"aaaa", b"bbbb", b"cc"]);
    assert_eq!(PieceDownload::new(&info, 2).err(), Some(PeerError::Torrent));
    let info = torrent(usize::MAX, usize::MAX, &[b"a", b"b", b"c"]);
    assert_eq!(PieceDownload::new(&info, 2).err(), Some(PeerError::Torrent));
    assert_eq!(PieceDownload::new(&info, 0).err(), Some(PeerError::Torrent));
}

#[test]
fn a_short_last_piece_is_asked_for_in_one_block() {
    let info = torrent(10, 4, &[b"aaaa", b"bbbb", b"cc"]);
    let mut download = PieceDownload::new(&info, 2).unwrap();
    let mut reader = empty();
    assert_eq!(download_piece(&mut download, &mut reader), Step::Send(request(2, 0, 2)));
    assert_eq!(download_piece(&mut download, &mut reader), Step::Receive);
    reader.extend(&piece_message(2, 0, b"cc"));
    assert_eq!(download_piece(&mut download, &mut reader), Step::Done(Ok(b"cc".to_vec())));
    assert_eq!(download_piece(&mut download, &mut reader), Step::Done(Ok(b"cc".to_vec())));
}

#[test]
fn five_requests_are_awaited_at_a_time() {
    let data = pattern(0x4000 * 6 + 100);
    let info = torrent(data.len() * 2, data.len(), &[&data, &data]);
    let mut download = PieceDownload::new(&info, 1).unwrap();
    let mut reader = empty();
    let mut first = Vec::new();
    for block in 0..5 {
        first.extend(request(1, block * 0x4000, 0x4000));
    }
    assert_eq!(download_piece(&mut download, &mut reader), Step::Send(first));
    assert_eq!(download_piece(&mut download, &mut reader), Step::Receive);
    reader.extend(&frame(&[]));
    reader.extend(&frame(&[4, 0, 0, 0, 0]));
    assert_eq!(download_piece(&mut download, &mut reader), Step::Receive);
    assert_eq!(reader.remaining(), 0);
    reader.extend(&piece_message(1, 0, &data[..0x4000]));
    assert_eq!(
        download_piece(&mut download, &mut reader),
        Step::Send(request(1, 5 * 0x4000, 0x4000))
    );
    reader.extend(&piece_message(1, 0x4000, &data[0x4000..0x8000]));
    assert_eq!(
        download_piece(&mut download, &mut reader),
        Step::Send(request(1, 6 * 0x4000, 100))
    );
    for block in 2..7 {
        assert_eq!(download_piece(&mut download, &mut reader), Step::Receive);
        let begin = block * 0x4000;
        let end = (begin + 0x4000).min(data.len());
        reader.extend(&piece_message(1, begin as u32, &data[begin..end]));
    }
    assert_eq!(download_piece(&mut download, &mut reader), Step::Done(Ok(data)));
    assert_eq!(reader.remaining(), 0);
}

#[test]
fn blocks_that_wait_together_are_taken_together() {
    let data = pattern(0x4000 * 2);
    let info = torrent(data.len(), data.len(), &[&data]);
    let mut download = PieceDownload::new(&info, 0).unwrap();
    let mut requests = request(0, 0, 0x4000);
    requests.extend(request(0, 0x4000, 0x4000));
    let mut reader = empty();
    assert_eq!(download_piece(&mut download, &mut reader), Step::Send(requests));
    reader.extend(&piece_message(0, 0, &data[..0x4000]));
    reader.extend(&frame(&[0]));
    reader.extend(&piece_message(0, 0x4000, &data[0x4000..]));
    reader.extend(&frame(&[1]));
    assert_eq!(download_piece(&mut download, &mut reader), Step::Done(Ok(data)));
    assert_eq!(reader.remaining(), 5);
}

fn one_block(message: Vec<u8>) -> Step<Result<Vec<u8>, PeerError>> {
    let info = torrent(8, 8, &[b"abcdefgh"]);
    let mut download = PieceDownload::new(&info, 0).unwrap();
    let mut reader = empty();
    assert_eq!(download_piece(&mut download, &mut reader), Step::Send(request(0, 0, 8)));
    reader.extend(&message);
    download_piece(&mut download, &mut reader)
}

#[test]
fn a_block_must_answer_the_request() {
    assert_eq!(one_block(piece_message(0, 0, b"abcdefgh")), Step::Done(Ok(b"abcdefgh".to_vec())));
    assert_eq!(one_block(piece_message(1, 0, b"abcdefgh")), Step::Done(Err(PeerError::Block)));
    assert_eq!(one_block(piece_message(0, 1, b"abcdefgh")), Step::Done(Err(PeerError::Block)));
    assert_eq!(one_block(piece_message(0, 0, b"abcdefg")), Step::Done(Err(PeerError::Block)));
    assert_eq!(one_block(piece_message(0, 0, b"abcdefghi")), Step::Done(Err(PeerError::Block)));
    assert_eq!(one_block(frame(&[7, 0, 0])), Step::Done(Err(PeerError::Block)));
}

#[test]
fn a_piece_must_have_the_digest_of_the_torrent() {
    assert_eq!(one_block(piece_message(0, 0, b"abcdefgX")), Step::Done(Err(PeerError::PieceHash)));
}

#[test]
fn a_piece_without_bytes_is_done_at_once() {
    let info = torrent(4, 4, &[b"aaaa", b""]);
    let mut download = PieceDownload::new(&info, 1).unwrap();
    assert_eq!(download_piece(&mut download, &mut empty()), Step::Done(Ok(vec![])));
}

#[test]
fn the_extension_protocol_is_offered_by_one_bit() {
    assert_eq!(extension_reserved_bytes(), [0, 0, 0, 0, 0, 0x10, 0, 0]);
    assert!(supports_extensions(&extension_reserved_bytes().to_vec()));
    assert!(supports_extensions(&vec![0, 0, 0, 0, 0, 0xff, 0, 0]));
    assert!(!supports_extensions(&vec![0xff, 0xff, 0xff, 0xff, 0xff, 0xef, 0xff, 0xff]));
    assert!(!supports_extensions(&vec![0; 8]));
    assert!(!supports_extensions(&vec![0x10; 5]));
}

#[test]
fn a_piece_is_handed_out_for_the_digest_of_the_torrent() {
    let info = torrent(2, 2, &[b"ab"]);
    let mut download = PieceDownload::new(&info, 0).unwrap();
    let mut reader = BufferedStream::new(piece_message(0, 0, b"ab"));
    assert_eq!(download_piece(&mut download, &mut reader), Step::Send(request(0, 0, 2)));
    assert_eq!(download_piece(&mut download, &mut reader), Step::Done(Ok(b"ab".to_vec())));
    assert_eq!(download.finish(&Sha1::digest(b"ab")), Ok(b"ab".to_vec()));
    assert_eq!(download.finish(&Sha1::digest(b"ba")), Err(PeerError::PieceHash));
    assert_eq!(download.finish(&[]), Err(PeerError::PieceHash));
}
