//! Tests for the error variants of the three codecs.

use httlib::hpack::decoder::Decoder as HpackDecoder;
use httlib::hpack::errors::DecoderError as HpackError;
use httlib::protos::decoder::{decode_key, decode_varint, Decoder as ProtosDecoder};
use httlib::protos::decoder::DecoderError as ProtosError;
use httlib::protos::encoder::{encode_key, Encoder, EncoderError, EncoderLit};
use httlib::protos::typ::Typ;

/// A header index outside the unified address space is rejected.
#[test]
fn hpack_rejects_invalid_index() {
    let mut decoder = HpackDecoder::default();
    let mut dst = Vec::new();
    let mut buf = vec![0x80 | 70]; // only 61 static entries, no dynamic ones
    assert_eq!(decoder.decode(&mut buf, &mut dst), Err(HpackError::InvalidIndex));
}

/// A size update beyond the protocol limit is rejected.
#[test]
fn hpack_rejects_oversized_update() {
    let mut decoder = HpackDecoder::with_dynamic_size(70);
    let mut dst = Vec::new();
    let mut buf = vec![0b0011_1111, 100]; // size update to 131 > 70
    assert_eq!(
        decoder.decode(&mut buf, &mut dst),
        Err(HpackError::InvalidMaxDynamicSize)
    );
}

/// A tag number of zero or beyond the cap cannot be encoded.
#[test]
fn protos_rejects_invalid_tag() {
    let mut dst = Vec::new();
    assert_eq!(encode_key(0, Typ::Varint, &mut dst), Err(EncoderError::InvalidTag));
    assert_eq!(
        encode_key(1 << 29, Typ::Varint, &mut dst),
        Err(EncoderError::InvalidTag)
    );
    let encoder = Encoder::default();
    assert_eq!(
        encoder.encode((0, EncoderLit::Bool(&true)), &mut dst),
        Err(EncoderError::InvalidTag)
    );
}

/// A key with tag zero, an unknown wire type, or an overlong varint is
/// rejected when decoding.
#[test]
fn protos_rejects_malformed_keys() {
    let mut dst = (0, Typ::Unknown);
    // tag 0, wire type 0
    assert_eq!(decode_key(&[0x00], &mut dst), Err(ProtosError::InvalidTag));
    // tag 1, wire type 3 is not defined
    assert_eq!(decode_key(&[0x0B], &mut dst), Err(ProtosError::InvalidInput));
    // a varint whose continuation never ends within ten octets
    let mut v = 0u64;
    let buf = [0x80u8; 11];
    assert_eq!(decode_varint(&buf, &mut v), Err(ProtosError::InvalidInput));
}

/// A malformed field leaves its bytes in the buffer and surfaces its error.
#[test]
fn protos_decoder_surfaces_errors() {
    let mut decoder = ProtosDecoder::default();
    let mut dst = vec![];
    let mut buf = vec![0x0B, 0x01]; // tag 1 with unknown wire type 3
    assert_eq!(
        decoder.decode(&mut buf, &mut dst),
        Err(ProtosError::InvalidInput)
    );
    assert_eq!(buf, vec![0x0B, 0x01]);
    assert!(dst.is_empty());
}
