//! A BitTorrent client core: a bencode codec, the torrent metainfo model and
//! the decisions of the peer wire protocol. All input and output is left to
//! the caller, who hands over the bytes read and sends the bytes produced.

pub mod buffered_stream;
pub mod decimal;
pub mod text;
pub mod bformat;
pub mod primitives;
pub mod torrent_info;
pub mod torrent_protocol;
pub mod tracker;
