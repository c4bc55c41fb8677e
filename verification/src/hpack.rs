//! HPACK (RFC 7541): header field compression for HTTP/2 — the integer and
//! string primitives, the static and dynamic indexing tables, and the
//! encoder and decoder for the header field representations.

pub mod decoder;
pub mod encoder;
pub mod errors;
pub mod primitives;
pub mod static_table;
pub mod table;
