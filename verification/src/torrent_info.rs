//! What a client knows of a single-file torrent, read from a metainfo file
//! or from a magnet link and the metadata that a peer sends for it.

use vstd::prelude::*;
use vstd::slice::{slice_subrange, slice_to_vec};
use vstd::string::StringExecFns;
use vstd::utf8::{decode_utf8, encode_utf8, valid_utf8};
use crate::buffered_stream::{
    first_index_of, is_tail, lemma_first_index_of, lemma_first_index_of_is, BufferedStream,
};
use crate::bformat::bdecoder::{decode_map, parsed_dict, DecodeError};
use crate::bformat::bencoder::{encode_map, encoded};
use crate::bformat::btype::{bytes_equal, dict_get, BDict, BType, BValue};
use crate::decimal::{decimal, format_decimal};
use crate::text::{ascii, ascii_bytes, ascii_chars, ascii_string, lemma_decimal_is_ascii};
use crate::primitives::{
    form_decode, form_pairs, hex_decode, hex_decoded, hex_encode, hex_encoded,
    lemma_hex_decoded_of_encoded, pairs_view, sha1_digest, sha1_of, string_from_utf8,
};

verus! {

/// `&`, which stands between the parameters of a magnet link.
pub const AMPERSAND: u8 = 38;

/// The length that stands in for the unknown length of a torrent that is
/// known from a magnet link only.
pub const UNKNOWN_LENGTH: usize = 999;

/// The metadata of a single-file torrent.
#[derive(Debug, PartialEq, Eq)]
pub struct TorrentInfo {
    /// The announce URL of the tracker.
    pub url: String,
    /// The length of the file in bytes.
    pub length: usize,
    /// The SHA-1 digest of the canonical encoding of the `info` dictionary.
    pub info_hash: Vec<u8>,
    /// The length of every piece but the last, in bytes.
    pub piece_length: usize,
    /// The SHA-1 digest of each piece, in order.
    pub piece_hashes: Vec<Vec<u8>>,
}

/// The metadata of a torrent as mathematics sees it.
pub struct TorrentModel {
    pub url: Seq<char>,
    pub length: nat,
    pub info_hash: Seq<u8>,
    pub piece_length: nat,
    pub piece_hashes: Seq<Seq<u8>>,
}

impl TorrentModel {
    /// Whether the info hash and the digest of every piece have the 20
    /// bytes of a SHA-1 digest.
    pub open spec fn has_digests(self) -> bool {
        self.info_hash.len() == 20 && forall|i: int|
            0 <= i < self.piece_hashes.len() ==> (#[trigger] self.piece_hashes[i]).len() == 20
    }
}

/// The byte strings that the byte vectors of `items` hold, in order.
pub open spec fn byte_strings(items: Seq<Vec<u8>>) -> Seq<Seq<u8>> {
    Seq::new(items.len(), |i: int| items[i]@)
}

impl View for TorrentInfo {
    type V = TorrentModel;

    open spec fn view(&self) -> TorrentModel {
        TorrentModel {
            url: self.url@,
            length: self.length as nat,
            info_hash: self.info_hash@,
            piece_length: self.piece_length as nat,
            piece_hashes: byte_strings(self.piece_hashes@),
        }
    }
}

/// Why bytes do not describe a torrent.
#[derive(Debug, PartialEq, Eq)]
pub enum TorrentError {
    /// The bytes are not a bencoded dictionary.
    Decode(DecodeError),
    /// `announce` is missing, is no byte string or is not UTF-8 text.
    Announce,
    /// `info` is missing or is no dictionary.
    Info,
    /// `length` is missing or is no integer that can be a length.
    Length,
    /// `piece length` is missing or is no integer that can be a length.
    PieceLength,
    /// `pieces` is missing, is no byte string, or does not hold whole digests.
    Pieces,
    /// The digest of the metadata is not the info hash of the torrent.
    InfoHash,
}

/// The length stored under `key`: an integer from zero to the largest length
/// of the machine.
pub open spec fn size_field(entries: Seq<(Seq<u8>, BValue)>, key: Seq<u8>) -> Option<nat> {
    match dict_get(entries, key) {
        Some(BValue::Integer(n)) => if 0 <= n <= usize::MAX {
            Some(n as nat)
        } else {
            None
        },
        _ => None,
    }
}

/// The digests of 20 bytes each that `pieces` is made of, in order.
pub open spec fn split_hashes(pieces: Seq<u8>) -> Seq<Seq<u8>> {
    Seq::new((pieces.len() / 20) as nat, |i: int| pieces.subrange(20 * i, 20 * i + 20))
}

/// What an `info` dictionary says of the file: its length, the length of a
/// piece and the digests of the pieces.
pub open spec fn info_fields(info: Seq<(Seq<u8>, BValue)>) -> Result<
    (nat, nat, Seq<Seq<u8>>),
    TorrentError,
> {
    match size_field(info, ascii("length"@)) {
        None => Err(TorrentError::Length),
        Some(length) => match size_field(info, ascii("piece length"@)) {
            None => Err(TorrentError::PieceLength),
            Some(piece_length) => match dict_get(info, ascii("pieces"@)) {
                Some(BValue::Bytes(pieces)) => if pieces.len() % 20 == 0 {
                    Ok((length, piece_length, split_hashes(pieces)))
                } else {
                    Err(TorrentError::Pieces)
                },
                _ => Err(TorrentError::Pieces),
            },
        },
    }
}

/// The torrent with the tracker `url` and the info hash `info_hash` that
/// an `info` dictionary describes.
pub open spec fn described_by(url: Seq<char>, info_hash: Seq<u8>, info: Seq<(Seq<u8>, BValue)>)
    -> Result<TorrentModel, TorrentError> {
    match info_fields(info) {
        Err(e) => Err(e),
        Ok((length, piece_length, piece_hashes)) => Ok(
            TorrentModel { url, length, info_hash, piece_length, piece_hashes },
        ),
    }
}

/// The torrent that the bytes of a metainfo file describe. Its info hash is
/// the SHA-1 digest of the canonical encoding of its `info` dictionary.
pub open spec fn metainfo(input: Seq<u8>) -> Result<TorrentModel, TorrentError> {
    match parsed_dict(input) {
        Err(e) => Err(TorrentError::Decode(e)),
        Ok((top, rest)) => match dict_get(top, ascii("announce"@)) {
            Some(BValue::Bytes(url)) => if !valid_utf8(url) {
                Err(TorrentError::Announce)
            } else {
                match dict_get(top, ascii("info"@)) {
                    Some(BValue::Dict(info)) => described_by(
                        decode_utf8(url),
                        sha1_of(encoded(BValue::Dict(info))),
                        info,
                    ),
                    _ => Err(TorrentError::Info),
                }
            },
            _ => Err(TorrentError::Announce),
        },
    }
}

/// The complete torrent that metadata with the SHA-1 digest `digest` gives
/// for a torrent known from a magnet link: the digest must be the info hash
/// of the link, and the metadata an `info` dictionary.
pub open spec fn with_hashed_metadata(partial: TorrentModel, digest: Seq<u8>, metadata: Seq<u8>)
    -> Result<TorrentModel, TorrentError> {
    if digest != partial.info_hash {
        Err(TorrentError::InfoHash)
    } else {
        match parsed_dict(metadata) {
            Err(e) => Err(TorrentError::Decode(e)),
            Ok((info, rest)) => described_by(partial.url, partial.info_hash, info),
        }
    }
}

/// The complete torrent that the metadata for a torrent known from a magnet
/// link gives: the metadata must have the info hash of the link as its
/// SHA-1 digest and be an `info` dictionary.
pub open spec fn with_metadata(partial: TorrentModel, metadata: Seq<u8>) -> Result<
    TorrentModel,
    TorrentError,
> {
    with_hashed_metadata(partial, sha1_of(metadata), metadata)
}

/// The parts of `s` between the occurrences of `separator`.
pub open spec fn split(s: Seq<u8>, separator: u8) -> Seq<Seq<u8>>
    decreases s.len(),
{
    match first_index_of(s, separator) {
        None => seq![s],
        Some(at) => if 0 <= at < s.len() {
            seq![s.take(at)] + split(s.skip(at + 1), separator)
        } else {
            seq![s]
        },
    }
}

/// Whether `s` begins with `prefix`.
pub open spec fn starts_with(s: Seq<u8>, prefix: Seq<u8>) -> bool {
    s.len() >= prefix.len() && s.take(prefix.len() as int) == prefix
}

/// The value of the last of `parts` that begins with `name`: what stands
/// behind the name.
pub open spec fn last_parameter(parts: Seq<Seq<u8>>, name: Seq<u8>) -> Option<Seq<u8>>
    decreases parts.len(),
{
    if parts.len() == 0 {
        None
    } else if starts_with(parts.last(), name) {
        Some(parts.last().skip(name.len() as int))
    } else {
        last_parameter(parts.drop_last(), name)
    }
}

/// What a magnet link holds: behind `magnet:?`, between `&`, the value of
/// its last `xt=urn:btih:` parameter and the value of its last `tr=`
/// parameter. Nothing for a link that does not begin with `magnet:?`.
pub open spec fn link_parameters(link: Seq<u8>) -> Option<(Option<Seq<u8>>, Option<Seq<u8>>)> {
    if !starts_with(link, ascii("magnet:?"@)) {
        None
    } else {
        let parts = split(link.skip(ascii("magnet:?"@).len() as int), AMPERSAND);
        Some(
            (last_parameter(parts, ascii("xt=urn:btih:"@)), last_parameter(parts, ascii("tr="@))),
        )
    }
}

/// The info hash that the `xt=urn:btih:` parameter of a magnet link gives:
/// the 20 bytes that it holds as 40 hexadecimal digits.
pub open spec fn link_info_hash(xt: Option<Seq<u8>>) -> Option<Seq<u8>> {
    match xt {
        Some(text) => match hex_decoded(text) {
            Some(hash) => if hash.len() == 20 {
                Some(hash)
            } else {
                None
            },
            None => None,
        },
        None => None,
    }
}

/// The tracker that the `tr=` parameter of a magnet link gives, from the
/// pairs that the parameter holds as form-encoded text: the name of the
/// first pair.
pub open spec fn link_tracker(pairs: Option<Seq<(Seq<char>, Seq<char>)>>) -> Option<Seq<char>> {
    match pairs {
        Some(pairs) => if pairs.len() > 0 {
            Some(pairs[0].0)
        } else {
            None
        },
        None => None,
    }
}

/// The torrent that an info hash and a tracker name, or the message that
/// says which of them is missing. The length is a stand-in, and nothing is
/// known of the pieces.
pub open spec fn link_torrent(info_hash: Option<Seq<u8>>, tracker: Option<Seq<char>>) -> Result<
    TorrentModel,
    Seq<char>,
> {
    match info_hash {
        None => Err("Magnet link is missing info hash!"@),
        Some(info_hash) => match tracker {
            None => Err("Magnet link is missing tracker url!"@),
            Some(url) => Ok(
                TorrentModel {
                    url,
                    length: UNKNOWN_LENGTH as nat,
                    info_hash,
                    piece_length: 0,
                    piece_hashes: Seq::empty(),
                },
            ),
        },
    }
}

/// The torrent that a magnet link names, or the message that says what the
/// link lacks.
pub open spec fn magnet(link: Seq<u8>) -> Result<TorrentModel, Seq<char>> {
    match link_parameters(link) {
        None => Err("Not a magnet link!"@),
        Some((xt, tr)) => link_torrent(
            link_info_hash(xt),
            link_tracker(
                match tr {
                    Some(text) => form_pairs(text),
                    None => None,
                },
            ),
        ),
    }
}

/// The bytes that a byte vector holds, if there is one.
pub open spec fn bytes_of(bytes: Option<Vec<u8>>) -> Option<Seq<u8>> {
    match bytes {
        Some(bytes) => Some(bytes@),
        None => None,
    }
}

/// Whether `s` begins with `prefix`.
pub fn has_prefix(s: &[u8], prefix: &[u8]) -> (found: bool)
    ensures
        found == starts_with(s@, prefix@),
{
    if s.len() < prefix.len() {
        return false;
    }
    bytes_equal(slice_subrange(s, 0, prefix.len()), prefix)
}

/// Cuts `s` at every `separator`.
pub fn split_at_each(s: &[u8], separator: u8) -> (parts: Vec<Vec<u8>>)
    ensures
        byte_strings(parts@) == split(s@, separator),
{
    let mut stream = BufferedStream::new(slice_to_vec(s));
    let mut parts: Vec<Vec<u8>> = Vec::new();
    assert(byte_strings(parts@) + split(stream@, separator) =~= split(s@, separator));
    loop
        invariant
            byte_strings(parts@) + split(stream@, separator) == split(s@, separator),
        decreases stream@.len(),
    {
        let ghost before = byte_strings(parts@);
        let ghost waiting = stream@;
        proof {
            lemma_first_index_of(waiting, separator);
        }
        match stream.read_until(separator) {
            Some(part) => {
                parts.push(part);
                assert(byte_strings(parts@) =~= before + seq![waiting.take(
                    first_index_of(waiting, separator).unwrap(),
                )]);
                assert(byte_strings(parts@) + split(stream@, separator) =~= before + split(
                    waiting,
                    separator,
                ));
            },
            None => {
                let n = stream.remaining();
                match stream.read_n_bytes(n) {
                    Some(last) => {
                        parts.push(last);
                        assert(waiting.take(n as int) =~= waiting);
                        assert(byte_strings(parts@) =~= before + seq![waiting]);
                    },
                    None => {},
                }
                return parts;
            },
        }
    }
}

/// Reads the length stored under `key`.
fn read_size(dict: &BDict, key: &[u8]) -> (size: Option<usize>)
    ensures
        match size_field(dict@, key@) {
            Some(n) => size == Some(n as usize) && n == n as usize,
            None => size is None,
        },
{
    match dict.get(key) {
        Some(BType::Number(number)) => {
            if *number >= 0 && *number <= usize::MAX as i128 {
                Some(*number as usize)
            } else {
                None
            }
        },
        _ => None,
    }
}

/// Cuts `pieces` into digests of 20 bytes.
fn read_hashes(pieces: &[u8]) -> (hashes: Vec<Vec<u8>>)
    requires
        pieces@.len() % 20 == 0,
    ensures
        byte_strings(hashes@) == split_hashes(pieces@),
{
    let count: usize = pieces.len() / 20;
    let mut hashes: Vec<Vec<u8>> = Vec::new();
    let mut i: usize = 0;
    while i < count
        invariant
            i <= count,
            20 * count == pieces.len(),
            hashes@.len() == i,
            forall|j: int|
                0 <= j < i ==> (#[trigger] hashes@[j])@ == pieces@.subrange(20 * j, 20 * j + 20),
        decreases count - i,
    {
        let hash = slice_to_vec(slice_subrange(pieces, 20 * i, 20 * i + 20));
        hashes.push(hash);
        i += 1;
    }
    assert(byte_strings(hashes@) =~= split_hashes(pieces@));
    hashes
}

/// Reads the length of the file, the length of a piece and the digests of
/// the pieces from an `info` dictionary.
fn read_info_fields(info: &BDict) -> (fields: Result<(usize, usize, Vec<Vec<u8>>), TorrentError>)
    ensures
        match info_fields(info@) {
            Ok((length, piece_length, piece_hashes)) => fields matches Ok(f) && f.0 == length
                && f.1 == piece_length && byte_strings(f.2@) == piece_hashes,
            Err(e) => fields matches Err(err) && err == e,
        },
{
    proof {
        reveal_strlit("length");
        reveal_strlit("piece length");
        reveal_strlit("pieces");
    }
    let length = match read_size(info, ascii_bytes("length")) {
        None => {
            return Err(TorrentError::Length);
        },
        Some(length) => length,
    };
    let piece_length = match read_size(info, ascii_bytes("piece length")) {
        None => {
            return Err(TorrentError::PieceLength);
        },
        Some(piece_length) => piece_length,
    };
    match info.get(ascii_bytes("pieces")) {
        Some(BType::Bytes(pieces)) => {
            if pieces.len() % 20 != 0 {
                return Err(TorrentError::Pieces);
            }
            Ok((length, piece_length, read_hashes(pieces.as_slice())))
        },
        _ => Err(TorrentError::Pieces),
    }
}

/// Finds the parameters of a magnet link that name the torrent and its
/// tracker.
pub fn read_link_parameters(link: &[u8]) -> (parameters: Option<
    (Option<Vec<u8>>, Option<Vec<u8>>),
>)
    ensures
        match link_parameters(link@) {
            Some((xt, tr)) => parameters matches Some(found) && bytes_of(found.0) == xt
                && bytes_of(found.1) == tr,
            None => parameters is None,
        },
{
    proof {
        reveal_strlit("magnet:?");
        reveal_strlit("xt=urn:btih:");
        reveal_strlit("tr=");
    }
    let scheme = ascii_bytes("magnet:?");
    if !has_prefix(link, scheme) {
        return None;
    }
    let parts = split_at_each(slice_subrange(link, scheme.len(), link.len()), AMPERSAND);
    let ghost all = byte_strings(parts@);
    let xt_name = ascii_bytes("xt=urn:btih:");
    let tr_name = ascii_bytes("tr=");
    let mut xt: Option<Vec<u8>> = None;
    let mut tr: Option<Vec<u8>> = None;
    let mut i: usize = 0;
    assert(all.take(0) =~= Seq::<Seq<u8>>::empty());
    while i < parts.len()
        invariant
            i <= parts@.len(),
            all == byte_strings(parts@),
            xt_name@ == ascii("xt=urn:btih:"@),
            tr_name@ == ascii("tr="@),
            bytes_of(xt) == last_parameter(all.take(i as int), xt_name@),
            bytes_of(tr) == last_parameter(all.take(i as int), tr_name@),
        decreases parts@.len() - i,
    {
        let part = parts[i].as_slice();
        proof {
            assert(all.take(i + 1).drop_last() =~= all.take(i as int));
            assert(all.take(i + 1).last() == part@);
        }
        if has_prefix(part, xt_name) {
            let value = slice_to_vec(slice_subrange(part, xt_name.len(), part.len()));
            assert(value@ =~= part@.skip(xt_name@.len() as int));
            xt = Some(value);
        }
        if has_prefix(part, tr_name) {
            let value = slice_to_vec(slice_subrange(part, tr_name.len(), part.len()));
            assert(value@ =~= part@.skip(tr_name@.len() as int));
            tr = Some(value);
        }
        i += 1;
    }
    assert(all.take(parts@.len() as int) =~= all);
    Some((xt, tr))
}

/// Reads the info hash from the value of the `xt=urn:btih:` parameter.
pub fn read_info_hash(xt: &Option<Vec<u8>>) -> (info_hash: Option<Vec<u8>>)
    ensures
        bytes_of(info_hash) == link_info_hash(bytes_of(*xt)),
{
    match xt {
        Some(text) => match hex_decode(text.as_slice()) {
            Some(hash) => if hash.len() == 20 {
                Some(hash)
            } else {
                None
            },
            None => None,
        },
        None => None,
    }
}

/// Takes the tracker from the pairs that the `tr=` parameter holds: the
/// name of the first pair.
pub fn read_tracker(pairs: Option<Vec<(String, String)>>) -> (tracker: Option<String>)
    ensures
        match link_tracker(pairs_view(pairs)) {
            Some(url) => tracker matches Some(t) && t@ == url,
            None => tracker is None,
        },
{
    match pairs {
        Some(pairs) => if pairs.len() > 0 {
            Some(pairs[0].0.clone())
        } else {
            None
        },
        None => None,
    }
}

impl TorrentInfo {
    /// The torrent with the tracker `url` and the info hash `info_hash`
    /// that an `info` dictionary describes.
    pub fn from_info(url: String, info_hash: Vec<u8>, info: &BDict) -> (result: Result<
        TorrentInfo,
        TorrentError,
    >)
        ensures
            match described_by(url@, info_hash@, info@) {
                Ok(torrent) => result matches Ok(info) && info@ == torrent,
                Err(e) => result matches Err(err) && err == e,
            },
            result matches Ok(info) ==> forall|i: int|
                0 <= i < info@.piece_hashes.len() ==> (#[trigger] info@.piece_hashes[i]).len()
                    == 20,
    {
        match read_info_fields(info) {
            Err(e) => Err(e),
            Ok((length, piece_length, piece_hashes)) => Ok(
                TorrentInfo { url, length, info_hash, piece_length, piece_hashes },
            ),
        }
    }

    /// Reads a torrent from the bytes of a metainfo file. On success the
    /// stream is left behind the dictionary that was read.
    pub fn from_file(file: &mut BufferedStream) -> (result: Result<TorrentInfo, TorrentError>)
        ensures
            is_tail(final(file)@, old(file)@),
            result matches Ok(info) ==> info@.has_digests(),
            match metainfo(old(file)@) {
                Ok(torrent) => result matches Ok(info) && info@ == torrent && (parsed_dict(
                    old(file)@,
                ) matches Ok((_, rest)) && final(file)@ == rest),
                Err(e) => result matches Err(err) && err == e,
            },
    {
        proof {
            reveal_strlit("announce");
            reveal_strlit("info");
        }
        let object = match decode_map(file) {
            Err(e) => {
                return Err(TorrentError::Decode(e));
            },
            Ok(object) => object,
        };
        let url = match object.get(ascii_bytes("announce")) {
            Some(BType::Bytes(bytes)) => match string_from_utf8(slice_to_vec(bytes.as_slice())) {
                None => {
                    return Err(TorrentError::Announce);
                },
                Some(url) => url,
            },
            _ => {
                return Err(TorrentError::Announce);
            },
        };
        let info = match object.get(ascii_bytes("info")) {
            Some(BType::Dict(info)) => info,
            _ => {
                return Err(TorrentError::Info);
            },
        };
        let info_hash = sha1_digest(encode_map(info).as_slice());
        TorrentInfo::from_info(url, info_hash, info)
    }

    /// Completes a torrent that is known from a magnet link with metadata
    /// whose SHA-1 digest is `digest`.
    pub fn from_hashed_metadata(partial: &TorrentInfo, digest: &[u8], metadata: Vec<u8>) -> (result:
        Result<TorrentInfo, TorrentError>)
        ensures
            match with_hashed_metadata(partial@, digest@, metadata@) {
                Ok(torrent) => result matches Ok(info) && info@ == torrent,
                Err(e) => result matches Err(err) && err == e,
            },
            result matches Ok(info) ==> forall|i: int|
                0 <= i < info@.piece_hashes.len() ==> (#[trigger] info@.piece_hashes[i]).len()
                    == 20,
    {
        if !bytes_equal(digest, partial.info_hash.as_slice()) {
            return Err(TorrentError::InfoHash);
        }
        let mut stream = BufferedStream::new(metadata);
        let info = match decode_map(&mut stream) {
            Err(e) => {
                return Err(TorrentError::Decode(e));
            },
            Ok(info) => info,
        };
        TorrentInfo::from_info(
            partial.url.clone(),
            slice_to_vec(partial.info_hash.as_slice()),
            &info,
        )
    }

    /// Completes a torrent that is known from a magnet link with the
    /// metadata that a peer sent for it: all the bytes that wait in
    /// `metadata`, which are taken from it.
    pub fn from_metadata(partial: &TorrentInfo, metadata: &mut BufferedStream) -> (result: Result<
        TorrentInfo,
        TorrentError,
    >)
        ensures
            final(metadata)@.len() == 0,
            result matches Ok(info) ==> info@.has_digests(),
            match with_metadata(partial@, old(metadata)@) {
                Ok(torrent) => result matches Ok(info) && info@ == torrent,
                Err(e) => result matches Err(err) && err == e,
            },
    {
        let n = metadata.remaining();
        let bytes = match metadata.read_n_bytes(n) {
            Some(bytes) => bytes,
            None => Vec::new(),
        };
        assert(bytes@ =~= old(metadata)@);
        let digest = sha1_digest(bytes.as_slice());
        TorrentInfo::from_hashed_metadata(partial, digest.as_slice(), bytes)
    }

    /// The torrent that an info hash and a tracker name, or the message
    /// that says which of them is missing.
    pub fn from_link_parts(info_hash: Option<Vec<u8>>, tracker: Option<String>) -> (result: Result<
        TorrentInfo,
        String,
    >)
        ensures
            match link_torrent(
                bytes_of(info_hash),
                match tracker {
                    Some(url) => Some(url@),
                    None => None,
                },
            ) {
                Ok(torrent) => result matches Ok(info) && info@ == torrent,
                Err(message) => result matches Err(text) && text@ == message,
            },
    {
        let info_hash = match info_hash {
            None => {
                return Err("Magnet link is missing info hash!".to_owned());
            },
            Some(info_hash) => info_hash,
        };
        let url = match tracker {
            None => {
                return Err("Magnet link is missing tracker url!".to_owned());
            },
            Some(url) => url,
        };
        let info = TorrentInfo {
            url,
            length: UNKNOWN_LENGTH,
            info_hash,
            piece_length: 0,
            piece_hashes: Vec::new(),
        };
        assert(byte_strings(info.piece_hashes@) =~= Seq::<Seq<u8>>::empty());
        Ok(info)
    }

    /// Reads a magnet link: `magnet:?` and parameters between `&`, of which
    /// `xt=urn:btih:` gives the info hash and `tr=` the tracker.
    pub fn from_link(link: &String) -> (result: Result<TorrentInfo, String>)
        ensures
            result matches Ok(info) ==> info@.has_digests(),
            match magnet(encode_utf8(link@)) {
                Ok(torrent) => result matches Ok(info) && info@ == torrent,
                Err(message) => result matches Err(text) && text@ == message,
            },
    {
        let (xt, tr) = match read_link_parameters(link.as_str().as_bytes()) {
            None => {
                return Err("Not a magnet link!".to_owned());
            },
            Some(parameters) => parameters,
        };
        let info_hash = read_info_hash(&xt);
        let pairs = match tr {
            Some(text) => form_decode(text.as_slice()),
            None => None,
        };
        TorrentInfo::from_link_parts(info_hash, read_tracker(pairs))
    }
}

/// The digests of the pieces as text: a line break and the digest in
/// hexadecimal for each.
pub open spec fn hashes_text(hashes: Seq<Seq<u8>>) -> Seq<char>
    decreases hashes.len(),
{
    if hashes.len() == 0 {
        Seq::empty()
    } else {
        hashes_text(hashes.drop_last()) + "\n"@ + hex_encoded(hashes.last())
    }
}

/// A torrent as text for a reader: the tracker, the length, the info hash,
/// the length of a piece and the digests of the pieces, a line for each.
pub open spec fn described(torrent: TorrentModel) -> Seq<char> {
    "Tracker URL: "@ + torrent.url + "\nLength: "@ + ascii_chars(decimal(torrent.length))
        + "\nInfo Hash: "@ + hex_encoded(torrent.info_hash) + "\nPiece Length: "@ + ascii_chars(
        decimal(torrent.piece_length),
    ) + "\nPiece Hashes:"@ + hashes_text(torrent.piece_hashes)
}

/// A length as its decimal numeral.
fn size_text(size: usize) -> (text: String)
    ensures
        text@ == ascii_chars(decimal(size as nat)),
{
    proof {
        lemma_decimal_is_ascii(size as nat);
    }
    ascii_string(format_decimal(size as u128))
}

/// Describes a torrent for a reader.
pub fn torrent_info_text(torrent_info: &TorrentInfo) -> (text: String)
    ensures
        text@ == described(torrent_info@),
{
    let mut text = String::new();
    text.append("Tracker URL: ");
    text.append(torrent_info.url.as_str());
    text.append("\nLength: ");
    text.append(size_text(torrent_info.length).as_str());
    text.append("\nInfo Hash: ");
    text.append(hex_encode(torrent_info.info_hash.as_slice()).as_str());
    text.append("\nPiece Length: ");
    text.append(size_text(torrent_info.piece_length).as_str());
    text.append("\nPiece Hashes:");
    let ghost head = text@;
    let ghost hashes = byte_strings(torrent_info.piece_hashes@);
    let mut i: usize = 0;
    assert(hashes.take(0) =~= Seq::<Seq<u8>>::empty());
    assert(text@ =~= head + hashes_text(hashes.take(0)));
    while i < torrent_info.piece_hashes.len()
        invariant
            i <= torrent_info.piece_hashes@.len(),
            hashes == byte_strings(torrent_info.piece_hashes@),
            text@ == head + hashes_text(hashes.take(i as int)),
        decreases torrent_info.piece_hashes@.len() - i,
    {
        proof {
            assert(hashes.take(i + 1).drop_last() =~= hashes.take(i as int));
            assert(hashes.take(i + 1).last() == torrent_info.piece_hashes@[i as int]@);
        }
        text.append("\n");
        text.append(hex_encode(torrent_info.piece_hashes[i].as_slice()).as_str());
        i += 1;
        assert(text@ =~= head + hashes_text(hashes.take(i as int)));
    }
    assert(hashes.take(torrent_info.piece_hashes@.len() as int) =~= hashes);
    assert(text@ =~= described(torrent_info@));
    text
}

/// Cutting a byte string that holds no separator leaves it in one part.
pub proof fn lemma_split_whole(s: Seq<u8>, separator: u8)
    requires
        forall|i: int| 0 <= i < s.len() ==> s[i] != separator,
    ensures
        split(s, separator) == seq![s],
{
    lemma_first_index_of(s, separator);
}

/// Cutting a byte string cuts off what stands in front of its first separator.
pub proof fn lemma_split_first(front: Seq<u8>, back: Seq<u8>, separator: u8)
    requires
        forall|i: int| 0 <= i < front.len() ==> front[i] != separator,
    ensures
        split(front + seq![separator] + back, separator) == seq![front] + split(back, separator),
{
    let whole = front + seq![separator] + back;
    assert forall|i: int| 0 <= i < front.len() implies whole[i] != separator by {
        assert(whole[i] == front[i]);
    }
    lemma_first_index_of_is(whole, separator, front.len() as int);
    assert(whole.take(front.len() as int) =~= front);
    assert(whole.skip(front.len() as int + 1) =~= back);
}

/// A magnet link that is made of the info hash of a torrent in hexadecimal
/// and of a tracker names that torrent: its info hash is the one that was
/// written out, and its tracker is what the form decoding of the `tr=`
/// parameter gives. Without that, the tracker is said to be missing.
pub proof fn lemma_magnet_of_hash_and_tracker(info_hash: Seq<u8>, tracker: Seq<u8>)
    requires
        info_hash.len() == 20,
        forall|i: int| 0 <= i < tracker.len() ==> tracker[i] != AMPERSAND,
    ensures
        magnet(
            ascii("magnet:?"@) + ascii("xt=urn:btih:"@) + ascii(hex_encoded(info_hash))
                + seq![AMPERSAND] + ascii("tr="@) + tracker,
        ) == match form_pairs(tracker) {
            Some(pairs) => if pairs.len() > 0 {
                Ok::<TorrentModel, Seq<char>>(
                    TorrentModel {
                        url: pairs[0].0,
                        length: UNKNOWN_LENGTH as nat,
                        info_hash,
                        piece_length: 0,
                        piece_hashes: Seq::empty(),
                    },
                )
            } else {
                Err::<TorrentModel, Seq<char>>("Magnet link is missing tracker url!"@)
            },
            None => Err::<TorrentModel, Seq<char>>("Magnet link is missing tracker url!"@),
        },
{
    reveal_strlit("magnet:?");
    reveal_strlit("xt=urn:btih:");
    reveal_strlit("tr=");
    let scheme = ascii("magnet:?"@);
    let xt = ascii("xt=urn:btih:"@);
    let digits = ascii(hex_encoded(info_hash));
    let tr = ascii("tr="@);
    let first = xt + digits;
    let second = tr + tracker;
    let link = scheme + xt + digits + seq![AMPERSAND] + tr + tracker;
    let body = link.skip(scheme.len() as int);
    assert(link.take(scheme.len() as int) =~= scheme);
    assert(body =~= first + seq![AMPERSAND] + second);
    assert forall|i: int| 0 <= i < first.len() implies first[i] != AMPERSAND by {
        if i >= xt.len() {
            let j = i - xt.len();
            let nibble: int = if j % 2 == 0 {
                info_hash[j / 2] as int / 16
            } else {
                info_hash[j / 2] as int % 16
            };
            assert(first[i] == digits[j]);
            assert(hex_encoded(info_hash)[j] == crate::primitives::hex_digit(nibble));
        } else {
            assert(first[i] == xt[i]);
        }
    }
    assert forall|i: int| 0 <= i < second.len() implies second[i] != AMPERSAND by {
        if i >= tr.len() {
            assert(second[i] == tracker[i - tr.len()]);
        } else {
            assert(second[i] == tr[i]);
        }
    }
    lemma_split_first(first, second, AMPERSAND);
    lemma_split_whole(second, AMPERSAND);
    let parts = seq![first, second];
    assert(split(body, AMPERSAND) =~= parts);
    assert(parts.drop_last() =~= seq![first]);
    assert(seq![first].drop_last() =~= Seq::<Seq<u8>>::empty());
    assert(!starts_with(second, xt)) by {
        if second.len() >= xt.len() {
            assert(second.take(xt.len() as int)[0] == 116);
            assert(xt[0] == 120);
        }
    }
    assert(!starts_with(first, tr)) by {
        assert(first.take(tr.len() as int)[0] == 120);
        assert(tr[0] == 116);
    }
    assert(starts_with(first, xt)) by {
        assert(first.take(xt.len() as int) =~= xt);
    }
    assert(first.skip(xt.len() as int) =~= digits);
    assert(starts_with(second, tr)) by {
        assert(second.take(tr.len() as int) =~= tr);
    }
    assert(second.skip(tr.len() as int) =~= tracker);
    assert(last_parameter(seq![first], xt) == Some(digits));
    assert(last_parameter(parts, xt) == Some(digits));
    assert(last_parameter(parts, tr) == Some(tracker));
    assert(link_parameters(link) == Some((Some(digits), Some(tracker))));
    lemma_hex_decoded_of_encoded(info_hash);
}

} // verus!
