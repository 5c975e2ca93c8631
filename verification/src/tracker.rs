//! The tracker: the parameters of an announce request, and the peers that
//! the tracker's answer names. The request itself is made by the caller.

use vstd::prelude::*;
use vstd::slice::{slice_subrange, slice_to_vec};
use crate::buffered_stream::{is_tail, BufferedStream};
use crate::decimal::decimal;
use crate::bformat::bdecoder::{decode_map, parsed_dict, DecodeError};
use crate::bformat::btype::{dict_get, BType, BValue};
use crate::text::{
    ascii, ascii_bytes, ascii_chars, ascii_string, is_ascii_bytes, push_decimal, push_text,
};
use crate::torrent_info::{TorrentInfo, TorrentModel};
use crate::torrent_protocol::{client_id, client_id_bytes};

verus! {

/// `%`, which stands in front of a byte that is written as two digits.
pub const PERCENT: u8 = 37;

/// `.`, which stands between the bytes of an address.
pub const DOT: u8 = 46;

/// `:`, which stands between an address and its port.
pub const COLON: u8 = 58;

/// Whether a byte stands for itself in a URL: a letter, a digit, or one of
/// `-`, `.`, `_` and `~`.
pub open spec fn is_unreserved(byte: u8) -> bool {
    (48 <= byte <= 57) || (65 <= byte <= 90) || (97 <= byte <= 122) || byte == 45 || byte == 46
        || byte == 95 || byte == 126
}

/// The upper-case hexadecimal digit for a number below sixteen.
pub open spec fn upper_hex_digit(nibble: int) -> u8 {
    if nibble < 10 {
        (48 + nibble) as u8
    } else {
        (55 + nibble) as u8
    }
}

/// A byte as it stands in a URL: itself, or `%` and its two hexadecimal digits.
pub open spec fn percent_encoded_byte(byte: u8) -> Seq<u8> {
    if is_unreserved(byte) {
        seq![byte]
    } else {
        seq![PERCENT, upper_hex_digit(byte as int / 16), upper_hex_digit(byte as int % 16)]
    }
}

/// Bytes as they stand in a URL, each byte encoded by itself.
pub open spec fn percent_encoded(bytes: Seq<u8>) -> Seq<u8>
    decreases bytes.len(),
{
    if bytes.len() == 0 {
        Seq::empty()
    } else {
        percent_encoded(bytes.drop_last()) + percent_encoded_byte(bytes.last())
    }
}

/// The query of an announce request: the client's id, its port 6881,
/// nothing uploaded or downloaded, the length of the file as what is left,
/// the compact form of the answer, and the info hash byte by byte.
pub open spec fn announce_query(torrent: TorrentModel) -> Seq<u8> {
    ascii("peer_id="@) + client_id() + ascii("&port=6881&uploaded=0&downloaded=0&left="@)
        + decimal(torrent.length) + ascii("&compact=1&info_hash="@) + percent_encoded(
        torrent.info_hash,
    )
}

/// Appends `bytes` to `out` as they stand in a URL.
pub fn push_percent_encoded(out: &mut Vec<u8>, bytes: &[u8])
    ensures
        final(out)@ == old(out)@ + percent_encoded(bytes@),
        is_ascii_bytes(old(out)@) ==> is_ascii_bytes(final(out)@),
{
    let mut i: usize = 0;
    assert(bytes@.take(0) =~= Seq::<u8>::empty());
    assert(out@ =~= old(out)@ + percent_encoded(bytes@.take(0)));
    while i < bytes.len()
        invariant
            i <= bytes@.len(),
            out@ == old(out)@ + percent_encoded(bytes@.take(i as int)),
            is_ascii_bytes(old(out)@) ==> is_ascii_bytes(out@),
        decreases bytes@.len() - i,
    {
        let byte = bytes[i];
        let ghost before = out@;
        proof {
            assert(bytes@.take(i + 1).drop_last() =~= bytes@.take(i as int));
            assert(bytes@.take(i + 1).last() == byte);
        }
        if (byte >= 48 && byte <= 57) || (byte >= 65 && byte <= 90) || (byte >= 97 && byte <= 122)
            || byte == 45 || byte == 46 || byte == 95 || byte == 126 {
            out.push(byte);
            assert(out@ =~= before + percent_encoded_byte(byte));
        } else {
            let high: u8 = byte / 16;
            let low: u8 = byte % 16;
            out.push(PERCENT);
            out.push(if high < 10 {
                48 + high
            } else {
                55 + high
            });
            out.push(if low < 10 {
                48 + low
            } else {
                55 + low
            });
            assert(out@ =~= before + percent_encoded_byte(byte));
        }
        i += 1;
        assert(out@ =~= old(out)@ + percent_encoded(bytes@.take(i as int)));
    }
    assert(bytes@.take(bytes@.len() as int) =~= bytes@);
}

/// The query of the announce request for a torrent, to stand behind the
/// `?` of the announce URL.
pub fn discovery_query(torrent_info: &TorrentInfo) -> (query: String)
    ensures
        query@ == ascii_chars(announce_query(torrent_info@)),
{
    proof {
        reveal_strlit("peer_id=");
        reveal_strlit("&port=6881&uploaded=0&downloaded=0&left=");
        reveal_strlit("&compact=1&info_hash=");
        reveal_strlit("1234567890abcdefghij");
        crate::text::lemma_ascii_of_text("1234567890abcdefghij"@);
    }
    let mut out: Vec<u8> = Vec::new();
    push_text(&mut out, "peer_id=");
    let id = client_id_bytes();
    let ghost before = out@;
    crate::bformat::bencoder::append_bytes(&mut out, id.as_slice());
    assert(is_ascii_bytes(out@)) by {
        assert forall|i: int| 0 <= i < out@.len() implies #[trigger] out@[i] < 128 by {
            if i >= before.len() {
                assert(out@[i] == client_id()[i - before.len()]);
            } else {
                assert(out@[i] == before[i]);
            }
        }
    }
    push_text(&mut out, "&port=6881&uploaded=0&downloaded=0&left=");
    push_decimal(&mut out, torrent_info.length as u128);
    push_text(&mut out, "&compact=1&info_hash=");
    push_percent_encoded(&mut out, torrent_info.info_hash.as_slice());
    assert(out@ =~= announce_query(torrent_info@));
    ascii_string(out)
}

/// Why the answer of a tracker names no peers, as mathematics sees it.
pub enum TrackerFault {
    Decode(DecodeError),
    Failure(Seq<u8>),
    Peers,
}

/// Why the answer of a tracker names no peers.
#[derive(Debug, PartialEq, Eq)]
pub enum TrackerError {
    /// The answer is not a bencoded dictionary.
    Decode(DecodeError),
    /// The tracker refuses, and gives this reason.
    Failure(Vec<u8>),
    /// `peers` is missing, is no byte string, or does not hold whole peers.
    Peers,
}

/// The peers that the answer of a tracker names, six bytes to the peer,
/// unless the tracker gives a reason for its failure.
pub open spec fn announced_peers(body: Seq<u8>) -> Result<Seq<u8>, TrackerFault> {
    match parsed_dict(body) {
        Err(e) => Err(TrackerFault::Decode(e)),
        Ok((answer, _)) => match dict_get(answer, ascii("failure reason"@)) {
            Some(BValue::Bytes(reason)) => Err(TrackerFault::Failure(reason)),
            _ => match dict_get(answer, ascii("peers"@)) {
                Some(BValue::Bytes(peers)) => if peers.len() % 6 == 0 {
                    Ok(peers)
                } else {
                    Err(TrackerFault::Peers)
                },
                _ => Err(TrackerFault::Peers),
            },
        },
    }
}

/// Reads the peers from the answer of a tracker.
pub fn discovery_peers(response: &mut BufferedStream) -> (result: Result<Vec<u8>, TrackerError>)
    ensures
        is_tail(final(response)@, old(response)@),
        match announced_peers(old(response)@) {
            Ok(peers) => result matches Ok(p) && p@ == peers,
            Err(TrackerFault::Decode(e)) => result matches Err(TrackerError::Decode(err)) && err
                == e,
            Err(TrackerFault::Failure(reason)) => result matches Err(TrackerError::Failure(r))
                && r@ == reason,
            Err(TrackerFault::Peers) => result matches Err(TrackerError::Peers),
        },
{
    proof {
        reveal_strlit("failure reason");
        reveal_strlit("peers");
    }
    let answer = match decode_map(response) {
        Err(e) => {
            return Err(TrackerError::Decode(e));
        },
        Ok(answer) => answer,
    };
    match answer.get(ascii_bytes("failure reason")) {
        Some(BType::Bytes(reason)) => {
            return Err(TrackerError::Failure(slice_to_vec(reason.as_slice())));
        },
        _ => {},
    }
    match answer.get(ascii_bytes("peers")) {
        Some(BType::Bytes(peers)) => {
            if peers.len() % 6 == 0 {
                Ok(slice_to_vec(peers.as_slice()))
            } else {
                Err(TrackerError::Peers)
            }
        },
        _ => Err(TrackerError::Peers),
    }
}

/// A peer as text: the four bytes of its address in decimal with `.`
/// between them, `:`, and its port, which the last two bytes give, the
/// more significant first.
pub open spec fn peer_text(peer: Seq<u8>) -> Seq<u8> {
    decimal(peer[0] as nat) + seq![DOT] + decimal(peer[1] as nat) + seq![DOT] + decimal(
        peer[2] as nat,
    ) + seq![DOT] + decimal(peer[3] as nat) + seq![COLON] + decimal(
        (peer[4] * 256 + peer[5]) as nat,
    )
}

/// The peers of a tracker's answer as text, one string for every six bytes.
/// Bytes behind the last six are left out.
pub fn human_readable_peers(peer_bytes: &Vec<u8>) -> (peers: Vec<String>)
    ensures
        peers@.len() == peer_bytes@.len() / 6,
        forall|i: int|
            0 <= i < peers@.len() ==> (#[trigger] peers@[i])@ == ascii_chars(
                peer_text(peer_bytes@.subrange(6 * i, 6 * i + 6)),
            ),
{
    let count: usize = peer_bytes.len() / 6;
    let mut peers: Vec<String> = Vec::new();
    let mut i: usize = 0;
    while i < count
        invariant
            i <= count,
            count == peer_bytes@.len() / 6,
            6 * count <= peer_bytes.len(),
            peers@.len() == i,
            forall|j: int|
                0 <= j < i ==> (#[trigger] peers@[j])@ == ascii_chars(
                    peer_text(peer_bytes@.subrange(6 * j, 6 * j + 6)),
                ),
        decreases count - i,
    {
        let peer = slice_subrange(peer_bytes.as_slice(), 6 * i, 6 * i + 6);
        let mut text: Vec<u8> = Vec::new();
        push_decimal(&mut text, peer[0] as u128);
        text.push(DOT);
        push_decimal(&mut text, peer[1] as u128);
        text.push(DOT);
        push_decimal(&mut text, peer[2] as u128);
        text.push(DOT);
        push_decimal(&mut text, peer[3] as u128);
        text.push(COLON);
        push_decimal(&mut text, (peer[4] as u128) * 256 + peer[5] as u128);
        assert(text@ =~= peer_text(peer@));
        peers.push(ascii_string(text));
        i += 1;
    }
    peers
}

} // verus!
