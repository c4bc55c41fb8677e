//! Protocol Buffers (`proto3`) wire format: field keys, varints, ZigZag,
//! fixed-width little-endian values and length-delimited payloads, with a
//! streaming decoder that suspends on short input and resumes safely.

pub mod decoder;
pub mod encoder;
pub mod typ;
