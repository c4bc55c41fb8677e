//! Tests for the streaming proto3 decoder and the field-level encoder.

use httlib::protos::decoder::{
    decode_bool_list, decode_fixed32_list, decode_fixed64_list, decode_int32_list,
    decode_int64_list, decode_sfixed32_list, decode_sfixed64_list, decode_sint32,
    decode_sint32_list, decode_sint64_list, decode_uint32_list, decode_uint64_list, Decoder,
};
use httlib::protos::encoder::{Encoder, EncoderLit};
use httlib::protos::typ::Typ;

/// Should decode the supported formats from Protocol Buffers bytes; the
/// raw payloads project to the typed values through the list and scalar
/// readers.
#[test]
fn decodes_supported() {
    let mut decoder = Decoder::default();
    let mut dst = vec![];
    let mut src = vec![
        10, 3, 102, 111, 111,
        16, 1,
        26, 2, 0, 1,
        32, 1,
        42, 11, 156, 255, 255, 255, 255, 255, 255, 255, 255, 1, 100,
        48, 1,
        58, 11, 156, 255, 255, 255, 255, 255, 255, 255, 255, 1, 100,
        64, 1,
        74, 2, 1, 2,
        80, 1,
        90, 2, 1, 2,
        101, 0, 0, 128, 63,
        106, 8, 0, 0, 128, 63, 0, 0, 0, 64,
        113, 0, 0, 0, 0, 0, 0, 240, 63,
        122, 16, 0, 0, 0, 0, 0, 0, 240, 63, 0, 0, 0, 0, 0, 0, 0, 64,
        130, 1, 3, 102, 111, 111,
        136, 1, 19,
        146, 1, 2, 19, 20,
        152, 1, 19,
        162, 1, 2, 19, 20,
        173, 1, 10, 0, 0, 0,
        178, 1, 8, 1, 0, 0, 0, 2, 0, 0, 0,
        185, 1, 10, 0, 0, 0, 0, 0, 0, 0,
        194, 1, 16, 1, 0, 0, 0, 0, 0, 0, 0, 2, 0, 0, 0, 0, 0, 0, 0,
        205, 1, 246, 255, 255, 255,
        210, 1, 8, 246, 255, 255, 255, 10, 0, 0, 0,
        217, 1, 246, 255, 255, 255, 255, 255, 255, 255,
        226, 1, 16, 246, 255, 255, 255, 255, 255, 255, 255, 10, 0, 0, 0, 0, 0, 0, 0,
    ];
    decoder.decode(&mut src, &mut dst).unwrap();
    assert!(src.is_empty());
    let mut index = 0u32;
    for (tag, typ, byt) in dst.drain(..) {
        index += 1;
        assert_eq!(tag, index);
        if index == 1 {
            assert_eq!(typ, Typ::LengthDelimited);
            assert_eq!(byt, vec![102, 111, 111]);
        } else if index == 2 {
            assert_eq!(typ, Typ::Varint);
            assert_eq!(byt, vec![1]);
        } else if index == 3 {
            let mut v = vec![];
            decode_bool_list(&byt, &mut v).unwrap();
            assert_eq!(v, vec![false, true]);
        } else if index == 5 {
            let mut v = vec![];
            decode_int32_list(&byt, &mut v).unwrap();
            assert_eq!(v, vec![-100i32, 100i32]);
        } else if index == 7 {
            let mut v = vec![];
            decode_int64_list(&byt, &mut v).unwrap();
            assert_eq!(v, vec![-100i64, 100i64]);
        } else if index == 9 {
            let mut v = vec![];
            decode_uint32_list(&byt, &mut v).unwrap();
            assert_eq!(v, vec![1u32, 2u32]);
        } else if index == 11 {
            let mut v = vec![];
            decode_uint64_list(&byt, &mut v).unwrap();
            assert_eq!(v, vec![1u64, 2u64]);
        } else if index == 12 {
            assert_eq!(typ, Typ::Bit32);
            assert_eq!(f32::from_le_bytes([byt[0], byt[1], byt[2], byt[3]]), 1.0f32);
        } else if index == 14 {
            assert_eq!(typ, Typ::Bit64);
            assert_eq!(byt.len(), 8);
        } else if index == 17 {
            let mut v = 0i32;
            decode_sint32(&byt, &mut v).unwrap();
            assert_eq!(v, 19 >> 1 ^ -(19 & 1));
        } else if index == 18 {
            let mut v = vec![];
            decode_sint32_list(&byt, &mut v).unwrap();
            assert_eq!(v, vec![-10i32, 10i32]);
        } else if index == 20 {
            let mut v = vec![];
            decode_sint64_list(&byt, &mut v).unwrap();
            assert_eq!(v, vec![-10i64, 10i64]);
        } else if index == 22 {
            let mut v = vec![];
            decode_fixed32_list(&byt, &mut v).unwrap();
            assert_eq!(v, vec![1u32, 2u32]);
        } else if index == 24 {
            let mut v = vec![];
            decode_fixed64_list(&byt, &mut v).unwrap();
            assert_eq!(v, vec![1u64, 2u64]);
        } else if index == 26 {
            let mut v = vec![];
            decode_sfixed32_list(&byt, &mut v).unwrap();
            assert_eq!(v, vec![-10i32, 10i32]);
        } else if index == 28 {
            let mut v = vec![];
            decode_sfixed64_list(&byt, &mut v).unwrap();
            assert_eq!(v, vec![-10i64, 10i64]);
        }
    }
    assert_eq!(index, 28);
}

/// Should encode the supported data types into a Protocol Buffers buffer.
/// The floating point formats travel as fixed-width bit patterns.
#[test]
fn encodes_supported() {
    let encoder = Encoder::default();
    let mut dst = vec![];
    let mut size = 0;
    size += encoder.encode((1, EncoderLit::Bytes(&b"foo".to_vec())), &mut dst).unwrap();
    size += encoder.encode((2, EncoderLit::Bool(&true)), &mut dst).unwrap();
    size += encoder.encode((3, EncoderLit::BoolVec(&vec![false, true])), &mut dst).unwrap();
    size += encoder.encode((4, EncoderLit::Int32(&1i32)), &mut dst).unwrap();
    size += encoder
        .encode((5, EncoderLit::Int32Vec(&vec![-100i32, 100i32])), &mut dst)
        .unwrap();
    size += encoder.encode((6, EncoderLit::Int64(&1i64)), &mut dst).unwrap();
    size += encoder
        .encode((7, EncoderLit::Int64Vec(&vec![-100i64, 100i64])), &mut dst)
        .unwrap();
    size += encoder.encode((8, EncoderLit::UInt32(&1u32)), &mut dst).unwrap();
    size += encoder.encode((9, EncoderLit::UInt32Vec(&vec![1u32, 2u32])), &mut dst).unwrap();
    size += encoder.encode((10, EncoderLit::UInt64(&1u64)), &mut dst).unwrap();
    size += encoder.encode((11, EncoderLit::UInt64Vec(&vec![1u64, 2u64])), &mut dst).unwrap();
    size += encoder.encode((12, EncoderLit::Fixed32(&1.0f32.to_bits())), &mut dst).unwrap();
    size += encoder.encode((16, EncoderLit::Bytes(&b"foo".to_vec())), &mut dst).unwrap();
    size += encoder.encode((17, EncoderLit::SInt32(&-10)), &mut dst).unwrap();
    size += encoder
        .encode((18, EncoderLit::SInt32Vec(&vec![-10i32, 10i32])), &mut dst)
        .unwrap();
    size += encoder.encode((19, EncoderLit::SInt64(&-10)), &mut dst).unwrap();
    size += encoder
        .encode((20, EncoderLit::SInt64Vec(&vec![-10i64, 10i64])), &mut dst)
        .unwrap();
    size += encoder.encode((21, EncoderLit::Fixed32(&10)), &mut dst).unwrap();
    size += encoder.encode((22, EncoderLit::Fixed32Vec(&vec![1u32, 2u32])), &mut dst).unwrap();
    size += encoder.encode((23, EncoderLit::Fixed64(&10)), &mut dst).unwrap();
    size += encoder.encode((24, EncoderLit::Fixed64Vec(&vec![1u64, 2u64])), &mut dst).unwrap();
    size += encoder.encode((25, EncoderLit::SFixed32(&-10)), &mut dst).unwrap();
    size += encoder
        .encode((26, EncoderLit::SFixed32Vec(&vec![-10i32, 10i32])), &mut dst)
        .unwrap();
    size += encoder.encode((27, EncoderLit::SFixed64(&-10)), &mut dst).unwrap();
    size += encoder
        .encode((28, EncoderLit::SFixed64Vec(&vec![-10i64, 10i64])), &mut dst)
        .unwrap();
    assert_eq!(
        dst,
        vec![
            10, 3, 102, 111, 111,
            16, 1,
            26, 2, 0, 1,
            32, 1,
            42, 11, 156, 255, 255, 255, 255, 255, 255, 255, 255, 1, 100,
            48, 1,
            58, 11, 156, 255, 255, 255, 255, 255, 255, 255, 255, 1, 100,
            64, 1,
            74, 2, 1, 2,
            80, 1,
            90, 2, 1, 2,
            101, 0, 0, 128, 63,
            130, 1, 3, 102, 111, 111,
            136, 1, 19,
            146, 1, 2, 19, 20,
            152, 1, 19,
            162, 1, 2, 19, 20,
            173, 1, 10, 0, 0, 0,
            178, 1, 8, 1, 0, 0, 0, 2, 0, 0, 0,
            185, 1, 10, 0, 0, 0, 0, 0, 0, 0,
            194, 1, 16, 1, 0, 0, 0, 0, 0, 0, 0, 2, 0, 0, 0, 0, 0, 0, 0,
            205, 1, 246, 255, 255, 255,
            210, 1, 8, 246, 255, 255, 255, 10, 0, 0, 0,
            217, 1, 246, 255, 255, 255, 255, 255, 255, 255,
            226, 1, 16, 246, 255, 255, 255, 255, 255, 255, 255, 10, 0, 0, 0, 0, 0, 0, 0,
        ]
    );
    assert_eq!(size, dst.len());
}

/// Encode a ZigZag field and decode it back: the key octets, the value
/// octet, and the projection match the wire format.
#[test]
fn zigzag_field_roundtrip() {
    let encoder = Encoder::default();
    let mut dst = vec![];
    encoder.encode((17, EncoderLit::SInt32(&-10)), &mut dst).unwrap();
    assert_eq!(dst, vec![0x88, 0x01, 0x13]);
    let mut decoder = Decoder::default();
    let mut out = vec![];
    decoder.decode(&mut dst, &mut out).unwrap();
    assert_eq!(out.len(), 1);
    assert_eq!(out[0].0, 17);
    assert_eq!(out[0].1, Typ::Varint);
    assert_eq!(out[0].2, vec![0x13]);
    let mut v = 0i32;
    decode_sint32(&out[0].2, &mut v).unwrap();
    assert_eq!(v, -10);
}

/// Feeding a key alone consumes nothing; the continuation arrives in the
/// next chunk and completes the field.
#[test]
fn streams_partial_input() {
    let mut decoder = Decoder::default();
    let mut out = vec![];
    let mut chunk = vec![0x08, 0x96];
    let consumed = decoder.decode(&mut chunk, &mut out).unwrap();
    assert_eq!(consumed, 1); // the key was consumed, the value is pending
    assert_eq!(out.len(), 0);
    let mut chunk2 = vec![0x96, 0x01];
    decoder.decode(&mut chunk2, &mut out).unwrap();
    assert_eq!(out, vec![(1, Typ::Varint, vec![0x96, 0x01])]);
}

/// Splitting a stream into arbitrary chunks yields the same fields as
/// feeding it whole.
#[test]
fn streaming_matches_whole_input() {
    let encoder = Encoder::default();
    let mut wire = vec![];
    encoder.encode((1, EncoderLit::Bytes(&b"foo".to_vec())), &mut wire).unwrap();
    encoder.encode((2, EncoderLit::UInt32(&150u32)), &mut wire).unwrap();
    encoder.encode((3, EncoderLit::Fixed64(&7u64)), &mut wire).unwrap();

    let mut whole = vec![];
    let mut decoder = Decoder::default();
    let mut buf = wire.clone();
    decoder.decode(&mut buf, &mut whole).unwrap();

    for split in 0..wire.len() {
        let mut parts = vec![];
        let mut decoder2 = Decoder::default();
        let mut first = wire[..split].to_vec();
        decoder2.decode(&mut first, &mut parts).unwrap();
        let mut second = first;
        second.extend_from_slice(&wire[split..]);
        decoder2.decode(&mut second, &mut parts).unwrap();
        assert_eq!(parts, whole);
    }
}
