//! Verified codecs for HTTP/2 transports: HPACK header compression
//! (RFC 7541), the canonical HPACK Huffman code, and the Protocol Buffers
//! `proto3` wire format.
//!
//! Every executable function in this crate carries a contract that pins its
//! byte-level behaviour down, and Verus checks the implementations against
//! those contracts.

pub mod hpack;
pub mod huffman;
pub mod protos;
pub mod wire;
