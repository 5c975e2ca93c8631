//! Bencode: the value type, the decoder and the canonical encoder.

pub mod syntax;
pub mod btype;
pub mod bdecoder;
pub mod bencoder;
pub mod roundtrip;
pub mod canonical;
pub mod rendering;
