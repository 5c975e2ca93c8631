//! The peer wire protocol as decisions: each function looks at the bytes
//! that have arrived from the peer, and says what to send, whether to wait
//! for more, or how the exchange ended. Reading from and writing to the
//! connection is left to the caller.

use vstd::prelude::*;
use vstd::arithmetic::div_mod::lemma_fundamental_div_mod_converse;
use vstd::slice::{slice_subrange, slice_to_vec};
use crate::buffered_stream::BufferedStream;
use crate::decimal::lemma_decimal_len;
use crate::bformat::bdecoder::{decode, parsed, DecodeError};
use crate::bformat::bencoder::{
    append_bytes, encode_map, encoded, encoded_bytes, encoded_entries,
};
use crate::bformat::btype::{bytes_equal, dict_get, BDict, BType, BValue};
use crate::primitives::{sha1_digest, sha1_of};
use crate::text::{ascii, ascii_bytes};
use crate::torrent_info::{with_metadata, TorrentError, TorrentInfo, TorrentModel};

verus! {

/// What the owner of the connection does next.
#[derive(Debug, PartialEq, Eq)]
pub enum Step<T> {
    /// Write these bytes to the peer, flush, and ask again.
    Send(Vec<u8>),
    /// Read more bytes from the peer, append them to the stream, and ask again.
    Receive,
    /// The exchange is over, with this result.
    Done(T),
}

/// How far an exchange that sends one message has come.
#[derive(Debug, PartialEq, Eq, Clone, Copy)]
pub enum Phase {
    /// The message has not been handed out yet.
    Start,
    /// The message has been handed out; the answer is awaited.
    Sent,
}

/// Why an exchange with a peer failed.
#[derive(Debug, PartialEq, Eq)]
pub enum PeerError {
    /// The peer's handshake does not begin as a BitTorrent handshake does.
    Handshake,
    /// The peer's handshake names another torrent.
    InfoHash,
    /// A message does not carry the ids that the answer must carry.
    UnexpectedMessage,
    /// The payload of a message is not bencoded.
    Decode(DecodeError),
    /// The payload of an extension message lacks what it must hold.
    Extension,
    /// The metadata that the peer sent does not describe the torrent.
    Metadata(TorrentError),
    /// The torrent has no piece of this index.
    PieceIndex(usize),
    /// The lengths that the torrent gives leave no room for the piece, or
    /// are more than a request can say.
    Torrent,
    /// A block is not the one that was asked for first among those awaited.
    Block,
    /// The digest of the piece is not the one that the torrent gives for it.
    PieceHash,
}

/// The id of the message by which a peer lets this client ask for blocks.
pub const UNCHOKE: u8 = 1;

/// The id of the message by which this client says that it wants pieces.
pub const INTERESTED: u8 = 2;

/// The id of a request for a block.
pub const REQUEST: u8 = 6;

/// The id of a message that carries a block.
pub const PIECE: u8 = 7;

/// The id of a message of the extension protocol.
pub const EXTENDED: u8 = 20;

/// The id of the handshake among the messages of the extension protocol.
pub const EXTENSION_HANDSHAKE: u8 = 0;

/// The number that four bytes denote, most significant byte first.
pub open spec fn be_u32(bytes: Seq<u8>) -> int {
    bytes[0] * 0x100_0000 + bytes[1] * 0x1_0000 + bytes[2] * 0x100 + bytes[3]
}

/// The four bytes that denote a number below 2^32, most significant byte first.
pub open spec fn be_bytes(number: int) -> Seq<u8> {
    seq![
        (number / 0x100_0000 % 0x100) as u8,
        (number / 0x1_0000 % 0x100) as u8,
        (number / 0x100 % 0x100) as u8,
        (number % 0x100) as u8,
    ]
}

/// A number below 2^32 is the number that its four bytes denote.
pub proof fn lemma_be_u32_of_be_bytes(number: int)
    requires
        0 <= number < 0x1_0000_0000,
    ensures
        be_u32(be_bytes(number)) == number,
{
    let high = number / 0x1_0000;
    let low = number % 0x1_0000;
    assert(number == high * 0x1_0000 + low);
    assert(low == (low / 0x100) * 0x100 + low % 0x100);
    assert(high == (high / 0x100) * 0x100 + high % 0x100);
    lemma_fundamental_div_mod_converse(
        number,
        0x100_0000,
        high / 0x100,
        (high % 0x100) * 0x1_0000 + low,
    );
    lemma_fundamental_div_mod_converse(number, 0x100, high * 0x100 + low / 0x100, low % 0x100);
    lemma_fundamental_div_mod_converse(high * 0x100 + low / 0x100, 0x100, high, low / 0x100);
}

/// Four bytes are the bytes of the number that they denote, which is below 2^32.
pub proof fn lemma_be_bytes_of_be_u32(bytes: Seq<u8>)
    requires
        bytes.len() == 4,
    ensures
        be_bytes(be_u32(bytes)) == bytes,
        0 <= be_u32(bytes) < 0x1_0000_0000,
{
    let number = be_u32(bytes);
    let b0 = bytes[0] as int;
    let b1 = bytes[1] as int;
    let b2 = bytes[2] as int;
    let b3 = bytes[3] as int;
    lemma_fundamental_div_mod_converse(number, 0x100_0000, b0, b1 * 0x1_0000 + b2 * 0x100 + b3);
    lemma_fundamental_div_mod_converse(b0, 0x100, 0, b0);
    lemma_fundamental_div_mod_converse(number, 0x1_0000, b0 * 0x100 + b1, b2 * 0x100 + b3);
    lemma_fundamental_div_mod_converse(b0 * 0x100 + b1, 0x100, b0, b1);
    lemma_fundamental_div_mod_converse(number, 0x100, b0 * 0x1_0000 + b1 * 0x100 + b2, b3);
    lemma_fundamental_div_mod_converse(b0 * 0x1_0000 + b1 * 0x100 + b2, 0x100, b0 * 0x100 + b1, b2);
    assert(be_bytes(number) =~= bytes);
}

/// Reads four bytes as a number, most significant byte first.
pub fn to_u32(vec: Vec<u8>) -> (number: Option<u32>)
    ensures
        vec@.len() == 4 ==> number == Some(be_u32(vec@) as u32) && be_u32(vec@) <= u32::MAX,
        vec@.len() != 4 ==> number is None,
{
    if vec.len() != 4 {
        return None;
    }
    Some(
        (vec[0] as u32) * 0x100_0000 + (vec[1] as u32) * 0x1_0000 + (vec[2] as u32) * 0x100
            + (vec[3] as u32),
    )
}

/// Writes a number as four bytes, most significant byte first.
pub fn to_vec(number: u32) -> (bytes: Vec<u8>)
    ensures
        bytes@ == be_bytes(number as int),
{
    let mut bytes: Vec<u8> = Vec::new();
    bytes.push((number / 0x100_0000) as u8);
    bytes.push((number / 0x1_0000 % 0x100) as u8);
    bytes.push((number / 0x100 % 0x100) as u8);
    bytes.push((number % 0x100) as u8);
    assert(bytes@ =~= be_bytes(number as int));
    bytes
}

/// The message at the front of `input`, and how many bytes it takes there:
/// four bytes that give its length, and as many bytes as they say. Nothing
/// while the message has not arrived in full.
pub open spec fn frame(input: Seq<u8>) -> Option<(Seq<u8>, int)> {
    if input.len() < 4 {
        None
    } else if input.len() < 4 + be_u32(input.take(4)) {
        None
    } else {
        Some((input.subrange(4, 4 + be_u32(input.take(4))), 4 + be_u32(input.take(4))))
    }
}

/// A message that is written as its length and its bytes is the message
/// at the front of what was written, and takes four bytes more than it has.
pub proof fn lemma_frame_of_message(body: Seq<u8>, rest: Seq<u8>)
    requires
        body.len() <= u32::MAX,
    ensures
        frame(be_bytes(body.len() as int) + body + rest) == Some((body, 4 + body.len() as int)),
{
    let input = be_bytes(body.len() as int) + body + rest;
    lemma_be_u32_of_be_bytes(body.len() as int);
    assert(input.take(4) =~= be_bytes(body.len() as int));
    assert(input.subrange(4, 4 + body.len() as int) =~= body);
}

/// Takes the next message from the stream, without the four bytes of its
/// length; a keep-alive is an empty message. Takes nothing while the message
/// has not arrived in full.
pub fn read_peer_message(reader: &mut BufferedStream) -> (message: Option<Vec<u8>>)
    ensures
        match frame(old(reader)@) {
            Some((body, used)) => message matches Some(m) && m@ == body && final(reader)@ == old(
                reader,
            )@.skip(used) && used == 4 + body.len(),
            None => message is None && final(reader)@ == old(reader)@,
        },
{
    let prefix = match reader.peek_n_bytes(4) {
        None => {
            return None;
        },
        Some(prefix) => prefix,
    };
    let length = match to_u32(prefix) {
        None => {
            return None;
        },
        Some(length) => length as usize,
    };
    if reader.remaining() - 4 < length {
        return None;
    }
    let _ = reader.read_n_bytes(4);
    let message = reader.read_n_bytes(length);
    proof {
        assert(old(reader)@.skip(4).take(length as int) =~= old(reader)@.subrange(4, 4 + length));
        assert(old(reader)@.skip(4).skip(length as int) =~= old(reader)@.skip(4 + length));
    }
    message
}

/// The first message at the front of `input` that carries the id `id`, with
/// what follows it; or nothing, with what is left when all the messages that
/// have arrived in full are dropped.
pub open spec fn next_with_id(input: Seq<u8>, id: u8) -> (Option<Seq<u8>>, Seq<u8>)
    decreases input.len(),
{
    match frame(input) {
        None => (None, input),
        Some((body, used)) => if body.len() > 0 && body[0] == id {
            (Some(body), input.skip(used))
        } else if 0 < used <= input.len() {
            next_with_id(input.skip(used), id)
        } else {
            (None, input)
        },
    }
}

/// Takes messages from the stream up to and including the first that carries
/// the id `id`, and returns that one. Without such a message, the messages
/// that have arrived in full are dropped.
pub fn read_message_with_id(reader: &mut BufferedStream, id: u8) -> (message: Option<Vec<u8>>)
    ensures
        final(reader)@ == next_with_id(old(reader)@, id).1,
        final(reader)@.len() <= old(reader)@.len(),
        match next_with_id(old(reader)@, id).0 {
            Some(body) => message matches Some(m) && m@ == body && final(reader)@.len() < old(
                reader,
            )@.len(),
            None => message is None,
        },
{
    loop
        invariant
            next_with_id(old(reader)@, id) == next_with_id(reader@, id),
            reader@.len() <= old(reader)@.len(),
        decreases reader@.len(),
    {
        match read_peer_message(reader) {
            None => {
                return None;
            },
            Some(message) => {
                if message.len() > 0 && message[0] == id {
                    return Some(message);
                }
            },
        }
    }
}

/// The first twenty bytes of every handshake: 19 and `BitTorrent protocol`.
pub open spec fn handshake_header() -> Seq<u8> {
    seq![19u8] + ascii("BitTorrent protocol"@)
}

/// The id by which this client is known to trackers and peers.
pub open spec fn client_id() -> Seq<u8> {
    ascii("1234567890abcdefghij"@)
}

/// The reserved bytes of a handshake: those given, or eight zeros.
pub open spec fn reserved_or_zeros(reserved_bytes: Option<[u8; 8]>) -> Seq<u8> {
    match reserved_bytes {
        Some(bytes) => bytes@,
        None => seq![0u8, 0u8, 0u8, 0u8, 0u8, 0u8, 0u8, 0u8],
    }
}

/// The handshake that this client sends: the header, eight reserved bytes,
/// the info hash and the client's id.
pub open spec fn handshake_message(info_hash: Seq<u8>, reserved: Seq<u8>) -> Seq<u8> {
    handshake_header() + reserved + info_hash + client_id()
}

/// What a peer's handshake of 68 bytes says: the peer's id and its reserved
/// bytes, when it begins as a handshake does and names the torrent.
pub open spec fn handshake_reply(info_hash: Seq<u8>, reply: Seq<u8>) -> Result<
    (Seq<u8>, Seq<u8>),
    PeerError,
> {
    if reply.subrange(0, 20) != handshake_header() {
        Err(PeerError::Handshake)
    } else if reply.subrange(28, 48) != info_hash {
        Err(PeerError::InfoHash)
    } else {
        Ok((reply.subrange(48, 68), reply.subrange(20, 28)))
    }
}

/// The client's id as bytes.
pub fn client_id_bytes() -> (id: Vec<u8>)
    ensures
        id@ == client_id(),
{
    proof {
        reveal_strlit("1234567890abcdefghij");
    }
    slice_to_vec(ascii_bytes("1234567890abcdefghij"))
}

/// The first twenty bytes of every handshake.
fn handshake_header_bytes() -> (header: Vec<u8>)
    ensures
        header@ == handshake_header(),
{
    proof {
        reveal_strlit("BitTorrent protocol");
    }
    let mut header: Vec<u8> = Vec::new();
    header.push(19);
    append_bytes(&mut header, ascii_bytes("BitTorrent protocol"));
    header
}

/// The handshake. At the start it hands out the client's handshake; after
/// that it waits for 68 bytes from the peer, takes them, and gives the
/// peer's id and reserved bytes, or says why the peer's handshake is refused.
pub fn handshake(
    torrent_info: &TorrentInfo,
    phase: &mut Phase,
    reader: &mut BufferedStream,
    reserved_bytes: Option<[u8; 8]>,
) -> (step: Step<Result<(Vec<u8>, Vec<u8>), PeerError>>)
    ensures
        *final(phase) == Phase::Sent,
        match *old(phase) {
            Phase::Start => final(reader)@ == old(reader)@ && (step matches Step::Send(bytes)
                && bytes@ == handshake_message(
                torrent_info.info_hash@,
                reserved_or_zeros(reserved_bytes),
            )),
            Phase::Sent => if old(reader)@.len() < 68 {
                step is Receive && final(reader)@ == old(reader)@
            } else {
                final(reader)@ == old(reader)@.skip(68) && (step matches Step::Done(result)
                    && match handshake_reply(torrent_info.info_hash@, old(reader)@.take(68)) {
                    Ok((peer_id, reserved)) => result matches Ok(pair) && pair.0@ == peer_id
                        && pair.1@ == reserved,
                    Err(e) => result matches Err(err) && err == e,
                })
            },
        },
{
    match *phase {
        Phase::Start => {
            *phase = Phase::Sent;
            let mut message = handshake_header_bytes();
            match reserved_bytes {
                Some(bytes) => {
                    append_bytes(&mut message, bytes.as_slice());
                },
                None => {
                    let zeros: [u8; 8] = [0, 0, 0, 0, 0, 0, 0, 0];
                    assert(zeros@ =~= seq![0u8, 0u8, 0u8, 0u8, 0u8, 0u8, 0u8, 0u8]);
                    append_bytes(&mut message, zeros.as_slice());
                },
            }
            append_bytes(&mut message, torrent_info.info_hash.as_slice());
            let id = client_id_bytes();
            append_bytes(&mut message, id.as_slice());
            Step::Send(message)
        },
        Phase::Sent => {
            let reply = match reader.read_n_bytes(68) {
                None => {
                    return Step::Receive;
                },
                Some(reply) => reply,
            };
            let header = handshake_header_bytes();
            let reply = reply.as_slice();
            if !bytes_equal(slice_subrange(reply, 0, 20), header.as_slice()) {
                return Step::Done(Err(PeerError::Handshake));
            }
            if !bytes_equal(slice_subrange(reply, 28, 48), torrent_info.info_hash.as_slice()) {
                return Step::Done(Err(PeerError::InfoHash));
            }
            let peer_reserved_bytes = slice_to_vec(slice_subrange(reply, 20, 28));
            let peer_id = slice_to_vec(slice_subrange(reply, 48, 68));
            Step::Done(Ok((peer_id, peer_reserved_bytes)))
        },
    }
}

/// The message that tells a peer that this client wants pieces.
pub open spec fn interested_message() -> Seq<u8> {
    seq![0u8, 0u8, 0u8, 1u8, INTERESTED]
}

/// Tells the peer that this client is interested, and waits until the peer
/// unchokes it. At the start it hands out the message; after that it drops
/// messages until one with the id 1 has come.
pub fn send_interested(phase: &mut Phase, reader: &mut BufferedStream) -> (step: Step<()>)
    ensures
        *final(phase) == Phase::Sent,
        match *old(phase) {
            Phase::Start => final(reader)@ == old(reader)@ && (step matches Step::Send(bytes)
                && bytes@ == interested_message()),
            Phase::Sent => final(reader)@ == next_with_id(old(reader)@, UNCHOKE).1
                && if next_with_id(old(reader)@, UNCHOKE).0 is Some {
                step == Step::Done(())
            } else {
                step is Receive
            },
        },
{
    match *phase {
        Phase::Start => {
            *phase = Phase::Sent;
            let mut message: Vec<u8> = Vec::new();
            message.push(0);
            message.push(0);
            message.push(0);
            message.push(1);
            message.push(INTERESTED);
            assert(message@ =~= interested_message());
            Step::Send(message)
        },
        Phase::Sent => {
            match read_message_with_id(reader, UNCHOKE) {
                Some(_) => Step::Done(()),
                None => Step::Receive,
            }
        },
    }
}

/// The reserved bytes of a handshake that offers the extension protocol:
/// the bit 0x10 of the sixth byte is set.
pub fn extension_reserved_bytes() -> (reserved: [u8; 8])
    ensures
        reserved@ == seq![0u8, 0u8, 0u8, 0u8, 0u8, 0x10u8, 0u8, 0u8],
{
    let reserved: [u8; 8] = [0, 0, 0, 0, 0, 0x10, 0, 0];
    assert(reserved@ =~= seq![0u8, 0u8, 0u8, 0u8, 0u8, 0x10u8, 0u8, 0u8]);
    reserved
}

/// Whether the reserved bytes of a handshake offer the extension protocol.
pub open spec fn offers_extensions(reserved: Seq<u8>) -> bool {
    reserved.len() > 5 && reserved[5] & 0x10 != 0
}

/// Whether the reserved bytes of a peer's handshake offer the extension
/// protocol. The extension handshake is for peers that do.
pub fn supports_extensions(reserved_bytes: &Vec<u8>) -> (supported: bool)
    ensures
        supported == offers_extensions(reserved_bytes@),
{
    reserved_bytes.len() > 5 && reserved_bytes[5] & 0x10 != 0
}

/// The id that this client gives to the metadata extension.
pub const LOCAL_METADATA_ID: u8 = 1;

/// An extension message: its length, the id 20, the id of the extension,
/// and the payload.
pub open spec fn extension_message(extension_id: u8, payload: Seq<u8>) -> Seq<u8> {
    be_bytes(payload.len() as int + 2) + seq![EXTENDED, extension_id] + payload
}

/// What this client says in its extension handshake: that it knows the
/// metadata extension under the id 1.
pub open spec fn extension_offer() -> BValue {
    BValue::Dict(
        seq![
            (
                ascii("m"@),
                BValue::Dict(
                    seq![(ascii("ut_metadata"@), BValue::Integer(LOCAL_METADATA_ID as int))],
                ),
            ),
        ],
    )
}

/// What this client asks for when it wants the metadata: piece 0.
pub open spec fn metadata_request() -> BValue {
    BValue::Dict(
        seq![
            (ascii("msg_type"@), BValue::Integer(0)),
            (ascii("piece"@), BValue::Integer(0)),
        ],
    )
}

/// The id under which the peer knows the metadata extension, as the peer's
/// extension handshake gives it: a message with the ids 20 and 0 whose
/// payload is a dictionary with the integer `ut_metadata` in its dictionary `m`.
pub open spec fn extension_reply(message: Seq<u8>) -> Result<u8, PeerError> {
    if message.len() < 2 || message[0] != EXTENDED || message[1] != EXTENSION_HANDSHAKE {
        Err(PeerError::UnexpectedMessage)
    } else {
        match parsed(message.skip(2)) {
            Err(e) => Err(PeerError::Decode(e)),
            Ok((BValue::Dict(top), _)) => match dict_get(top, ascii("m"@)) {
                Some(BValue::Dict(m)) => match dict_get(m, ascii("ut_metadata"@)) {
                    Some(BValue::Integer(id)) => if 0 <= id <= 255 {
                        Ok(id as u8)
                    } else {
                        Err(PeerError::Extension)
                    },
                    _ => Err(PeerError::Extension),
                },
                _ => Err(PeerError::Extension),
            },
            Ok(_) => Err(PeerError::Extension),
        }
    }
}

/// The complete torrent, as the peer's answer to the request for metadata
/// gives it: a message with the ids 20 and 1 whose payload is a dictionary
/// that announces piece 0 of the data and the size of the metadata,
/// followed by the metadata itself in that size.
pub open spec fn metadata_reply(partial: TorrentModel, message: Seq<u8>) -> Result<
    TorrentModel,
    PeerError,
> {
    if message.len() < 2 || message[0] != EXTENDED || message[1] != LOCAL_METADATA_ID {
        Err(PeerError::UnexpectedMessage)
    } else {
        match parsed(message.skip(2)) {
            Err(e) => Err(PeerError::Decode(e)),
            Ok((BValue::Dict(header), rest)) => if dict_get(header, ascii("msg_type"@)) == Some(
                BValue::Integer(1),
            ) && dict_get(header, ascii("piece"@)) == Some(BValue::Integer(0)) && dict_get(
                header,
                ascii("total_size"@),
            ) == Some(BValue::Integer(rest.len() as int)) {
                match with_metadata(partial, rest) {
                    Ok(torrent) => Ok(torrent),
                    Err(e) => Err(PeerError::Metadata(e)),
                }
            } else {
                Err(PeerError::Extension)
            },
            Ok(_) => Err(PeerError::Extension),
        }
    }
}

/// The encoding of a byte string is at most twice as long as the string, and two bytes.
proof fn lemma_encoded_bytes_len(bytes: Seq<u8>)
    ensures
        encoded_bytes(bytes).len() <= 2 * bytes.len() + 2,
{
    lemma_decimal_len(bytes.len());
}

/// The encoding of a dictionary of one entry.
proof fn lemma_encoded_dict_of_one(key: Seq<u8>, value: BValue)
    ensures
        encoded(BValue::Dict(seq![(key, value)])) == seq![100u8] + encoded_bytes(key) + encoded(
            value,
        ) + seq![101u8],
{
    let entries = seq![(key, value)];
    assert(entries.drop_last() =~= Seq::<(Seq<u8>, BValue)>::empty());
    assert(encoded_entries(entries.drop_last()) =~= Seq::<u8>::empty());
    assert(encoded_entries(entries) =~= encoded_bytes(key) + encoded(value));
}

/// The encoding of a dictionary of two entries.
proof fn lemma_encoded_dict_of_two(first: (Seq<u8>, BValue), second: (Seq<u8>, BValue))
    ensures
        encoded(BValue::Dict(seq![first, second])) == seq![100u8] + encoded_bytes(first.0)
            + encoded(first.1) + encoded_bytes(second.0) + encoded(second.1) + seq![101u8],
{
    let entries = seq![first, second];
    assert(entries.drop_last() =~= seq![first]);
    assert(seq![first].drop_last() =~= Seq::<(Seq<u8>, BValue)>::empty());
    assert(encoded_entries(seq![first].drop_last()) =~= Seq::<u8>::empty());
    assert(encoded_entries(seq![first]) =~= encoded_bytes(first.0) + encoded(first.1));
    assert(encoded_entries(entries) =~= encoded_bytes(first.0) + encoded(first.1)
        + encoded_bytes(second.0) + encoded(second.1));
}

/// Puts the length and the two ids in front of the payload of an extension message.
fn extension_frame(extension_id: u8, payload: Vec<u8>) -> (message: Vec<u8>)
    requires
        payload@.len() + 2 <= u32::MAX,
    ensures
        message@ == extension_message(extension_id, payload@),
{
    let mut message = to_vec((payload.len() + 2) as u32);
    message.push(EXTENDED);
    message.push(extension_id);
    append_bytes(&mut message, payload.as_slice());
    assert(message@ =~= extension_message(extension_id, payload@));
    message
}

/// The payload of this client's extension handshake.
fn extension_offer_bytes() -> (payload: Vec<u8>)
    ensures
        payload@ == encoded(extension_offer()),
        payload@.len() + 2 <= u32::MAX,
{
    proof {
        reveal_strlit("m");
        reveal_strlit("ut_metadata");
    }
    let mut extensions = BDict::new();
    extensions.insert(slice_to_vec(ascii_bytes("ut_metadata")), BType::Number(1));
    let mut offer = BDict::new();
    offer.insert(slice_to_vec(ascii_bytes("m")), BType::Dict(extensions));
    let payload = encode_map(&offer);
    proof {
        let inner = BValue::Dict(seq![(ascii("ut_metadata"@), BValue::Integer(1))]);
        lemma_encoded_dict_of_one(ascii("ut_metadata"@), BValue::Integer(1));
        lemma_encoded_dict_of_one(ascii("m"@), inner);
        lemma_encoded_bytes_len(ascii("ut_metadata"@));
        lemma_encoded_bytes_len(ascii("m"@));
        lemma_decimal_len(1);
    }
    payload
}

/// The payload of this client's request for the metadata.
fn metadata_request_bytes() -> (payload: Vec<u8>)
    ensures
        payload@ == encoded(metadata_request()),
        payload@.len() + 2 <= u32::MAX,
{
    proof {
        reveal_strlit("msg_type");
        reveal_strlit("piece");
    }
    let mut request = BDict::new();
    request.insert(slice_to_vec(ascii_bytes("msg_type")), BType::Number(0));
    request.insert(slice_to_vec(ascii_bytes("piece")), BType::Number(0));
    let payload = encode_map(&request);
    proof {
        let first = (ascii("msg_type"@), BValue::Integer(0));
        let second = (ascii("piece"@), BValue::Integer(0));
        assert(crate::bformat::btype::bytes_lt(first.0, second.0));
        assert(request@ =~= seq![first, second]);
        lemma_encoded_dict_of_two(first, second);
        lemma_encoded_bytes_len(first.0);
        lemma_encoded_bytes_len(second.0);
        lemma_decimal_len(0);
    }
    payload
}

/// Reads the peer's extension handshake.
fn read_extension_reply(message: &[u8]) -> (result: Result<u8, PeerError>)
    ensures
        match extension_reply(message@) {
            Ok(id) => result matches Ok(v) && v == id,
            Err(e) => result matches Err(err) && err == e,
        },
{
    proof {
        reveal_strlit("m");
        reveal_strlit("ut_metadata");
    }
    if message.len() < 2 || message[0] != EXTENDED || message[1] != EXTENSION_HANDSHAKE {
        return Err(PeerError::UnexpectedMessage);
    }
    let mut payload = BufferedStream::new(slice_to_vec(slice_subrange(message, 2, message.len())));
    assert(payload@ =~= message@.skip(2));
    let value = match decode(&mut payload) {
        Err(e) => {
            return Err(PeerError::Decode(e));
        },
        Ok(value) => value,
    };
    let top = match &value {
        BType::Dict(top) => top,
        _ => {
            return Err(PeerError::Extension);
        },
    };
    let extensions = match top.get(ascii_bytes("m")) {
        Some(BType::Dict(extensions)) => extensions,
        _ => {
            return Err(PeerError::Extension);
        },
    };
    match extensions.get(ascii_bytes("ut_metadata")) {
        Some(BType::Number(id)) => {
            if *id >= 0 && *id <= 255 {
                Ok(*id as u8)
            } else {
                Err(PeerError::Extension)
            }
        },
        _ => Err(PeerError::Extension),
    }
}

/// Reads the peer's answer to the request for metadata.
fn read_metadata_reply(partial: &TorrentInfo, message: &[u8]) -> (result: Result<
    TorrentInfo,
    PeerError,
>)
    ensures
        match metadata_reply(partial@, message@) {
            Ok(torrent) => result matches Ok(info) && info@ == torrent,
            Err(e) => result matches Err(err) && err == e,
        },
{
    proof {
        reveal_strlit("msg_type");
        reveal_strlit("piece");
        reveal_strlit("total_size");
    }
    if message.len() < 2 || message[0] != EXTENDED || message[1] != LOCAL_METADATA_ID {
        return Err(PeerError::UnexpectedMessage);
    }
    let mut payload = BufferedStream::new(slice_to_vec(slice_subrange(message, 2, message.len())));
    assert(payload@ =~= message@.skip(2));
    let value = match decode(&mut payload) {
        Err(e) => {
            return Err(PeerError::Decode(e));
        },
        Ok(value) => value,
    };
    let header = match &value {
        BType::Dict(header) => header,
        _ => {
            return Err(PeerError::Extension);
        },
    };
    let is_data = match header.get(ascii_bytes("msg_type")) {
        Some(BType::Number(kind)) => *kind == 1,
        _ => false,
    };
    let is_first = match header.get(ascii_bytes("piece")) {
        Some(BType::Number(piece)) => *piece == 0,
        _ => false,
    };
    let is_whole = match header.get(ascii_bytes("total_size")) {
        Some(BType::Number(size)) => *size == payload.remaining() as i128,
        _ => false,
    };
    if !is_data || !is_first || !is_whole {
        return Err(PeerError::Extension);
    }
    match TorrentInfo::from_metadata(partial, &mut payload) {
        Ok(info) => Ok(info),
        Err(e) => Err(PeerError::Metadata(e)),
    }
}

/// The extension handshake. At the start it waits for one message of the
/// peer, drops it, and hands out this client's extension handshake; after
/// that it waits for the peer's and reads from it the id under which the
/// peer knows the metadata extension.
pub fn extension_handshake(phase: &mut Phase, reader: &mut BufferedStream) -> (step: Step<
    Result<u8, PeerError>,
>)
    ensures
        match frame(old(reader)@) {
            None => step is Receive && final(reader)@ == old(reader)@ && *final(phase) == *old(
                phase,
            ),
            Some((message, used)) => final(reader)@ == old(reader)@.skip(used) && *final(phase)
                == Phase::Sent && match *old(phase) {
                Phase::Start => step matches Step::Send(bytes) && bytes@ == extension_message(
                    EXTENSION_HANDSHAKE,
                    encoded(extension_offer()),
                ),
                Phase::Sent => step matches Step::Done(result) && match extension_reply(message) {
                    Ok(id) => result matches Ok(v) && v == id,
                    Err(e) => result matches Err(err) && err == e,
                },
            },
        },
{
    let message = match read_peer_message(reader) {
        None => {
            return Step::Receive;
        },
        Some(message) => message,
    };
    match *phase {
        Phase::Start => {
            *phase = Phase::Sent;
            Step::Send(extension_frame(EXTENSION_HANDSHAKE, extension_offer_bytes()))
        },
        Phase::Sent => Step::Done(read_extension_reply(message.as_slice())),
    }
}

/// The request for the metadata of a torrent that is known from a magnet
/// link. At the start it hands out the request, addressed to the id under
/// which the peer knows the metadata extension; after that it waits for the
/// peer's answer and reads the complete torrent from it.
pub fn request_metadata(
    partial_torrent_info: &TorrentInfo,
    metadata_id: u8,
    phase: &mut Phase,
    reader: &mut BufferedStream,
) -> (step: Step<Result<TorrentInfo, PeerError>>)
    ensures
        *final(phase) == Phase::Sent,
        match *old(phase) {
            Phase::Start => final(reader)@ == old(reader)@ && (step matches Step::Send(bytes)
                && bytes@ == extension_message(metadata_id, encoded(metadata_request()))),
            Phase::Sent => match frame(old(reader)@) {
                None => step is Receive && final(reader)@ == old(reader)@,
                Some((message, used)) => final(reader)@ == old(reader)@.skip(used) && (
                step matches Step::Done(result) && match metadata_reply(
                    partial_torrent_info@,
                    message,
                ) {
                    Ok(torrent) => result matches Ok(info) && info@ == torrent,
                    Err(e) => result matches Err(err) && err == e,
                }),
            },
        },
{
    match *phase {
        Phase::Start => {
            *phase = Phase::Sent;
            Step::Send(extension_frame(metadata_id, metadata_request_bytes()))
        },
        Phase::Sent => {
            match read_peer_message(reader) {
                None => Step::Receive,
                Some(message) => Step::Done(
                    read_metadata_reply(partial_torrent_info, message.as_slice()),
                ),
            }
        },
    }
}

/// The length of every block of a piece but the last.
pub const BLOCK_LENGTH: u32 = 0x4000;

/// How many requests may await their blocks at a time.
pub const PIPELINE_DEPTH: u32 = 5;

/// The length of the piece `index` of a torrent: the length of a piece, or
/// for the last piece what is left of the file.
pub open spec fn piece_size(torrent: TorrentModel, index: int) -> int {
    if torrent.piece_length <= torrent.length - torrent.piece_length * index {
        torrent.piece_length as int
    } else {
        torrent.length - torrent.piece_length * index
    }
}

/// The number of blocks that a piece of `size` bytes is asked for in.
pub open spec fn block_count(size: int) -> int {
    (size + 0x3fff) / 0x4000
}

/// The length of the block `block` of a piece of `size` bytes: 0x4000, or
/// for the last block what is left of the piece.
pub open spec fn block_length(size: int, block: int) -> int {
    if size - block * 0x4000 < 0x4000 {
        size - block * 0x4000
    } else {
        0x4000
    }
}

/// The request for the block `block` of the piece `index` of `size` bytes:
/// a message of 13 bytes with the id 6, the index of the piece, the offset
/// of the block in the piece, and the length of the block.
pub open spec fn request_message(index: int, size: int, block: int) -> Seq<u8> {
    be_bytes(13) + seq![REQUEST] + be_bytes(index) + be_bytes(block * 0x4000) + be_bytes(
        block_length(size, block),
    )
}

/// The requests for the blocks from `from` up to, not including, `to`, in order.
pub open spec fn request_messages(index: int, size: int, from: int, to: int) -> Seq<u8>
    decreases to - from,
{
    if from >= to {
        Seq::empty()
    } else {
        request_messages(index, size, from, to - 1) + request_message(index, size, to - 1)
    }
}

/// The download of one piece as mathematics sees it.
pub struct DownloadModel {
    /// The index of the piece.
    pub index: int,
    /// The length of the piece.
    pub size: int,
    /// The digest that the torrent gives for the piece.
    pub hash: Seq<u8>,
    /// How many blocks have been asked for.
    pub requested: int,
    /// How many blocks have arrived.
    pub received: int,
    /// The blocks that have arrived, in order.
    pub piece: Seq<u8>,
}

impl DownloadModel {
    /// The blocks are asked for in order, at most five are awaited, and what
    /// has arrived are the first blocks in full.
    pub open spec fn wf(self) -> bool {
        &&& 0 <= self.index <= u32::MAX
        &&& 0 <= self.size <= u32::MAX
        &&& 0 <= self.received <= self.requested <= block_count(self.size)
        &&& self.requested - self.received <= PIPELINE_DEPTH
        &&& self.piece.len() == if self.received * 0x4000 < self.size {
            self.received * 0x4000
        } else {
            self.size
        }
    }

    /// The last block that may be asked for now: five awaited at most.
    pub open spec fn request_limit(self) -> int {
        if self.received + PIPELINE_DEPTH < block_count(self.size) {
            self.received + PIPELINE_DEPTH
        } else {
            block_count(self.size)
        }
    }
}

/// The download after the message `message`, which carries the id 7: the
/// message must name the piece, the offset of the block that was asked for
/// first among those awaited, and carry as many bytes as that block has.
pub open spec fn accept_block(state: DownloadModel, message: Seq<u8>) -> Result<
    DownloadModel,
    PeerError,
> {
    if message.len() < 9 || be_u32(message.subrange(1, 5)) != state.index || be_u32(
        message.subrange(5, 9),
    ) != state.received * 0x4000 || message.len() - 9 != block_length(state.size, state.received) {
        Err(PeerError::Block)
    } else {
        Ok(
            DownloadModel {
                received: state.received + 1,
                piece: state.piece + message.skip(9),
                ..state
            },
        )
    }
}

/// The download of the piece `index` of a torrent before anything is
/// asked for. The torrent must give a digest for the piece, and lengths
/// that leave room for the piece and stay within what a request can say.
pub open spec fn piece_download(torrent: TorrentModel, index: int) -> Result<
    DownloadModel,
    PeerError,
> {
    if index >= torrent.piece_hashes.len() {
        Err(PeerError::PieceIndex(index as usize))
    } else if index > u32::MAX || torrent.piece_length * index > torrent.length || piece_size(
        torrent,
        index,
    ) > u32::MAX {
        Err(PeerError::Torrent)
    } else {
        Ok(
            DownloadModel {
                index,
                size: piece_size(torrent, index),
                hash: torrent.piece_hashes[index],
                requested: 0,
                received: 0,
                piece: Seq::empty(),
            },
        )
    }
}

/// The piece of a download whose blocks have arrived, if `digest`, the
/// SHA-1 digest of the piece, is the digest that the torrent gives for it.
pub open spec fn checked_piece(state: DownloadModel, digest: Seq<u8>) -> Result<
    Seq<u8>,
    PeerError,
> {
    if digest == state.hash {
        Ok(state.piece)
    } else {
        Err(PeerError::PieceHash)
    }
}

/// What a download decides, as mathematics sees it.
pub enum Outcome {
    Send(Seq<u8>),
    Receive,
    Done(Result<Seq<u8>, PeerError>),
}

/// What a download does with the bytes `input` that have come from the
/// peer: the download after it, the bytes that it leaves, and its decision.
///
/// When every block has arrived, the piece is done: it is handed out if its
/// SHA-1 digest is the one that the torrent gives. Else, while fewer than
/// five blocks are awaited and blocks are left to ask for, the requests for
/// the next blocks are to be sent. Else the next message with the id 7 is
/// taken as the block that was asked for first, other messages are dropped,
/// and the download goes on from there.
pub open spec fn advance(state: DownloadModel, input: Seq<u8>) -> (DownloadModel, Seq<u8>, Outcome)
    decreases input.len(),
{
    if state.received >= block_count(state.size) {
        (state, input, Outcome::Done(checked_piece(state, sha1_of(state.piece))))
    } else if state.requested < state.request_limit() {
        (
            DownloadModel { requested: state.request_limit(), ..state },
            input,
            Outcome::Send(
                request_messages(state.index, state.size, state.requested, state.request_limit()),
            ),
        )
    } else {
        match next_with_id(input, PIECE) {
            (None, rest) => (state, rest, Outcome::Receive),
            (Some(message), rest) => match accept_block(state, message) {
                Err(e) => (state, rest, Outcome::Done(Err(e))),
                Ok(next) => if rest.len() < input.len() {
                    advance(next, rest)
                } else {
                    (state, rest, Outcome::Receive)
                },
            },
        }
    }
}

/// Whether a decision is the one that mathematics sees.
pub open spec fn step_is(step: Step<Result<Vec<u8>, PeerError>>, outcome: Outcome) -> bool {
    match outcome {
        Outcome::Send(bytes) => step matches Step::Send(b) && b@ == bytes,
        Outcome::Receive => step is Receive,
        Outcome::Done(Ok(piece)) => step matches Step::Done(Ok(p)) && p@ == piece,
        Outcome::Done(Err(e)) => step matches Step::Done(Err(err)) && err == e,
    }
}

/// A download leaves a well-formed download, and a piece that it hands out
/// has the length of the piece and the digest that the torrent gives for it.
pub proof fn lemma_advance(state: DownloadModel, input: Seq<u8>)
    requires
        state.wf(),
    ensures
        advance(state, input).0.wf(),
        advance(state, input).0.index == state.index,
        advance(state, input).0.size == state.size,
        advance(state, input).0.hash == state.hash,
        advance(state, input).2 matches Outcome::Done(Ok(piece)) ==> piece.len() == state.size
            && sha1_of(piece) == state.hash,
    decreases input.len(),
{
    if state.received >= block_count(state.size) {
    } else if state.requested < state.request_limit() {
    } else {
        match next_with_id(input, PIECE) {
            (None, rest) => {},
            (Some(message), rest) => match accept_block(state, message) {
                Err(e) => {},
                Ok(next) => if rest.len() < input.len() {
                    lemma_advance(next, rest);
                },
            },
        }
    }
}

/// The download of one piece: which blocks have been asked for, and the
/// blocks that have arrived.
pub struct PieceDownload {
    index: u32,
    size: u32,
    hash: Vec<u8>,
    requested: u32,
    received: u32,
    piece: Vec<u8>,
}

impl View for PieceDownload {
    type V = DownloadModel;

    closed spec fn view(&self) -> DownloadModel {
        DownloadModel {
            index: self.index as int,
            size: self.size as int,
            hash: self.hash@,
            requested: self.requested as int,
            received: self.received as int,
            piece: self.piece@,
        }
    }
}

impl PieceDownload {
    #[verifier::type_invariant]
    spec fn steady(self) -> bool {
        self@.wf()
    }

    /// The download of the piece `piece_index` of a torrent, with no block
    /// asked for yet. An index that the torrent has no digest for is
    /// refused, and so is a torrent whose lengths leave no room for the
    /// piece or go beyond what a request can say.
    pub fn new(torrent_info: &TorrentInfo, piece_index: usize) -> (result: Result<
        PieceDownload,
        PeerError,
    >)
        ensures
            match piece_download(torrent_info@, piece_index as int) {
                Ok(state) => result matches Ok(download) && download@ == state && state.wf(),
                Err(e) => result matches Err(err) && err == e,
            },
    {
        if piece_index >= torrent_info.piece_hashes.len() {
            return Err(PeerError::PieceIndex(piece_index));
        }
        if piece_index > u32::MAX as usize {
            return Err(PeerError::Torrent);
        }
        let offset = match torrent_info.piece_length.checked_mul(piece_index) {
            None => {
                assert(torrent_info.piece_length * piece_index > torrent_info.length);
                return Err(PeerError::Torrent);
            },
            Some(offset) => offset,
        };
        if offset > torrent_info.length {
            return Err(PeerError::Torrent);
        }
        let left = torrent_info.length - offset;
        let size = if torrent_info.piece_length <= left {
            torrent_info.piece_length
        } else {
            left
        };
        if size > u32::MAX as usize {
            return Err(PeerError::Torrent);
        }
        Ok(
            PieceDownload {
                index: piece_index as u32,
                size: size as u32,
                hash: slice_to_vec(torrent_info.piece_hashes[piece_index].as_slice()),
                requested: 0,
                received: 0,
                piece: Vec::new(),
            },
        )
    }

    /// The number of blocks of the piece.
    fn blocks(&self) -> (count: u32)
        ensures
            count == block_count(self@.size),
    {
        ((self.size as u64 + 0x3fff) / 0x4000) as u32
    }

    /// Hands out the piece if `digest`, the SHA-1 digest of the blocks that
    /// have arrived, is the digest that the torrent gives for the piece.
    pub fn finish(&self, digest: &[u8]) -> (result: Result<Vec<u8>, PeerError>)
        ensures
            match checked_piece(self@, digest@) {
                Ok(piece) => result matches Ok(p) && p@ == piece,
                Err(e) => result matches Err(err) && err == e,
            },
    {
        if bytes_equal(digest, self.hash.as_slice()) {
            Ok(slice_to_vec(self.piece.as_slice()))
        } else {
            Err(PeerError::PieceHash)
        }
    }

    /// Whether every block has arrived.
    fn is_complete(&self) -> (complete: bool)
        ensures
            complete == (self@.received >= block_count(self@.size)),
    {
        self.received >= self.blocks()
    }

    /// The last block that may be asked for now.
    fn limit(&self) -> (limit: u32)
        ensures
            limit == self@.request_limit(),
    {
        proof {
            use_type_invariant(self);
        }
        let count = self.blocks();
        if self.received as u64 + (PIPELINE_DEPTH as u64) < count as u64 {
            self.received + PIPELINE_DEPTH
        } else {
            count
        }
    }

    /// The request for one block.
    fn request(&self, block: u32) -> (request: Vec<u8>)
        requires
            block < block_count(self@.size),
        ensures
            request@ == request_message(self@.index, self@.size, block as int),
    {
        let begin: u32 = block * BLOCK_LENGTH;
        let length: u32 = if self.size - begin < BLOCK_LENGTH {
            self.size - begin
        } else {
            BLOCK_LENGTH
        };
        let mut request = to_vec(13);
        request.push(REQUEST);
        append_bytes(&mut request, to_vec(self.index).as_slice());
        append_bytes(&mut request, to_vec(begin).as_slice());
        append_bytes(&mut request, to_vec(length).as_slice());
        assert(request@ =~= request_message(self@.index, self@.size, block as int));
        request
    }

    /// The requests for the blocks that may be asked for now.
    fn next_requests(&mut self) -> (requests: Vec<u8>)
        requires
            old(self)@.requested < old(self)@.request_limit(),
        ensures
            final(self)@ == (DownloadModel {
                requested: old(self)@.request_limit(),
                ..old(self)@
            }),
            requests@ == request_messages(
                old(self)@.index,
                old(self)@.size,
                old(self)@.requested,
                old(self)@.request_limit(),
            ),
    {
        proof {
            use_type_invariant(&*self);
        }
        let limit = self.limit();
        let mut requests: Vec<u8> = Vec::new();
        let mut block: u32 = self.requested;
        while block < limit
            invariant
                self.requested <= block <= limit,
                limit <= block_count(self@.size),
                *self == *old(self),
                requests@ == request_messages(
                    self@.index,
                    self@.size,
                    self@.requested,
                    block as int,
                ),
            decreases limit - block,
        {
            let request = self.request(block);
            append_bytes(&mut requests, request.as_slice());
            block += 1;
        }
        self.requested = limit;
        requests
    }

    /// Takes a message with the id 7 as the block that was asked for first
    /// among those awaited.
    fn take_block(&mut self, message: &[u8]) -> (result: Result<(), PeerError>)
        requires
            old(self)@.received < old(self)@.requested,
        ensures
            match accept_block(old(self)@, message@) {
                Ok(next) => result is Ok && final(self)@ == next,
                Err(e) => result matches Err(err) && err == e && *final(self) == *old(self),
            },
    {
        proof {
            use_type_invariant(&*self);
        }
        if message.len() < 9 {
            return Err(PeerError::Block);
        }
        let begin: u32 = self.received * BLOCK_LENGTH;
        let length: u32 = if self.size - begin < BLOCK_LENGTH {
            self.size - begin
        } else {
            BLOCK_LENGTH
        };
        let index = to_u32(slice_to_vec(slice_subrange(message, 1, 5)));
        let offset = to_u32(slice_to_vec(slice_subrange(message, 5, 9)));
        if index != Some(self.index) || offset != Some(begin) || message.len() - 9
            != length as usize {
            return Err(PeerError::Block);
        }
        let data = slice_subrange(message, 9, message.len());
        assert(data@ =~= message@.skip(9));
        let mut taken = PieceDownload {
            index: 0,
            size: 0,
            hash: Vec::new(),
            requested: 0,
            received: 0,
            piece: Vec::new(),
        };
        core::mem::swap(self, &mut taken);
        let PieceDownload { index, size, hash, requested, received, piece } = taken;
        let mut piece = piece;
        append_bytes(&mut piece, data);
        *self = PieceDownload { index, size, hash, requested, received: received + 1, piece };
        Ok(())
    }
}

/// The download of a piece. It says which requests to send, five awaited
/// at most; takes the blocks from the messages with the id 7 in the order
/// in which they were asked for, and drops other messages; and, when every
/// block has arrived, hands out the piece if its SHA-1 digest is the one
/// that the torrent gives for it.
pub fn download_piece(download: &mut PieceDownload, reader: &mut BufferedStream) -> (step: Step<
    Result<Vec<u8>, PeerError>,
>)
    ensures
        final(download)@.wf(),
        final(download)@ == advance(old(download)@, old(reader)@).0,
        final(reader)@ == advance(old(download)@, old(reader)@).1,
        step_is(step, advance(old(download)@, old(reader)@).2),
        step matches Step::Done(Ok(piece)) ==> piece@.len() == old(download)@.size && sha1_of(
            piece@,
        ) == old(download)@.hash,
{
    proof {
        use_type_invariant(&*download);
        lemma_advance(download@, reader@);
    }
    loop
        invariant
            advance(old(download)@, old(reader)@) == advance(download@, reader@),
            advance(old(download)@, old(reader)@).2 matches Outcome::Done(Ok(piece))
                ==> piece.len() == old(download)@.size && sha1_of(piece) == old(download)@.hash,
        decreases reader@.len(),
    {
        let ghost state = download@;
        let ghost input = reader@;
        proof {
            use_type_invariant(&*download);
        }
        if download.is_complete() {
            let digest = sha1_digest(download.piece.as_slice());
            return Step::Done(download.finish(digest.as_slice()));
        }
        if download.requested < download.limit() {
            let requests = download.next_requests();
            return Step::Send(requests);
        }
        let message = match read_message_with_id(reader, PIECE) {
            None => {
                return Step::Receive;
            },
            Some(message) => message,
        };
        match download.take_block(message.as_slice()) {
            Err(e) => {
                return Step::Done(Err(e));
            },
            Ok(_) => {
                assert(advance(state, input) == advance(download@, reader@));
            },
        }
    }
}

} // verus!
