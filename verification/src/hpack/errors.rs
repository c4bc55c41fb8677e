//! The error types of the HPACK encoder and decoder.

use vstd::prelude::*;

verus! {

/// Represents all errors that can be encountered while performing the
/// decoding of an HPACK header set.
#[derive(Clone, Copy, Debug, PartialEq, Eq, Structural)]
pub enum DecoderError {
    /// Indicates that the decoder received an invalid Huffman sequence.
    InvalidInput,
    /// Indicates that an invalid index was provided: the index `0`, or one
    /// beyond the unified address space.
    InvalidIndex,
    /// Indicates that an invalid prefix was provided (must be 1 to 8).
    InvalidPrefix,
    /// Indicates that the integer being decoded exceeds the five octets
    /// this implementation accepts.
    IntegerOverflow,
    /// Indicates that the buffer does not contain enough octets to complete
    /// the decoding.
    IntegerUnderflow,
    /// Indicates a dynamic table size update beyond the externally imposed
    /// limit.
    InvalidMaxDynamicSize,
}

/// Contains error options that can be encountered while performing the
/// encoding of an HPACK header set.
#[derive(Clone, Copy, Debug, PartialEq, Eq, Structural)]
pub enum EncoderError {
    /// Indicates an input byte string that cannot be Huffman encoded.
    InvalidInput,
    /// Indicates that an invalid index was provided: the index `0`, or one
    /// beyond the unified address space.
    InvalidIndex,
    /// Indicates that an invalid prefix was provided (must be 1 to 8).
    InvalidPrefix,
    /// Indicates a value too large for its integer representation, such as
    /// the length of an overlong string.
    IntegerOverflow,
}

} // verus!
