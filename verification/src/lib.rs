//! Lempel-Ziv Jaccard distance (LZJD) sketches.
//!
//! A byte stream is reduced to a bounded, strictly ascending set of 64-bit
//! hash values (an [`LZDict`]) that approximates its LZ-phrase structure;
//! two sketches are compared by the Jaccard similarity of their entries.

use vstd::prelude::*;

pub mod codec;
pub mod compare;
pub mod crc32;
pub mod hasher;
pub mod lz78;
pub mod lz_dict;
pub mod murmur3;
pub mod persist;

pub use crate::lz_dict::LZDict;

verus! {

/// Errors surfaced by sketch decoding and persisted-line parsing.
#[derive(Debug)]
pub enum LZJDError {
    /// The base64 payload was malformed.
    Base64 { err: base64::DecodeError },
    /// The decoded payload length was not a multiple of eight bytes.
    Decode,
    /// A persisted digest line did not match the `lzjd:<name>:<payload>` shape.
    Parse,
    /// Any other error, described by a message.
    Msg { msg: String },
}

} // verus!
