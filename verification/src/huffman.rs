//! The canonical Huffman code used by HPACK to compress string literals:
//! the fixed code table, the bitstream encoder, the table flattener that
//! builds an N-bit decode matrix, and the matrix-driven decoder.

pub mod decoder;
pub mod encoder;
pub mod flattener;
pub mod speed;
pub mod table;
