//! Tests for the proto3 wire primitives.

use httlib::protos::decoder::{
    decode_bool, decode_fixed32, decode_fixed64, decode_int32, decode_int64, decode_key,
    decode_sfixed32, decode_sfixed64, decode_sint32, decode_sint64, decode_uint32,
    decode_uint64, decode_varint,
};
use httlib::protos::encoder::{
    encode_bool, encode_bytes, encode_fixed32, encode_fixed64, encode_int32, encode_int64,
    encode_key, encode_sfixed32, encode_sfixed64, encode_sint32, encode_sint64, encode_uint32,
    encode_uint64, encode_varint,
};
use httlib::protos::typ::Typ;

/// Should decode a LEB128 encoded stream of values.
#[test]
fn decodes_varints() {
    let mut dst = 0;
    let buf = vec![0xb9];
    assert!(decode_varint(&buf, &mut dst).is_err());
    let buf = vec![0xb9, 0x60, 0x85];
    let size = decode_varint(&buf, &mut dst).unwrap();
    assert_eq!(dst, 12345);
    assert_eq!(size, 2);
    let buf = vec![0x85, 0x35, 0x85];
    let size = decode_varint(&buf, &mut dst).unwrap();
    assert_eq!(dst, 6789);
    assert_eq!(size, 2);
}

/// Should decode a field key with its tag number and wire type.
#[test]
fn decodes_key() {
    let mut dst = (0, Typ::Unknown);
    let buf = vec![0xcd, 0x83, 0x06, 0xaa];
    let size = decode_key(&buf, &mut dst).unwrap();
    assert_eq!(dst.0, 12345);
    assert_eq!(dst.1, Typ::Bit32);
    assert_eq!(size, 3);
    let buf = vec![0xaa, 0xa8, 0x03, 0x03];
    let size = decode_key(&buf, &mut dst).unwrap();
    assert_eq!(dst.0, 6789);
    assert_eq!(dst.1, Typ::LengthDelimited);
    assert_eq!(size, 3);
}

/// Should decode an encoded numeric value into the `bool` data type.
#[test]
fn decodes_bool() {
    let mut dst = true;
    let buf = vec![0x00];
    let size = decode_bool(&buf, &mut dst).unwrap();
    assert_eq!(dst, false);
    assert_eq!(size, 1);
    let buf = vec![0x01];
    let size = decode_bool(&buf, &mut dst).unwrap();
    assert_eq!(dst, true);
    assert_eq!(size, 1);
}

/// Should decode an encoded numeric value into the `int32` data type.
#[test]
fn decodes_int32() {
    let mut dst = 0;
    let buf = vec![0x80, 0x80, 0x80, 0x80, 0xf8, 0xff, 0xff, 0xff, 0xff, 0x01, 0xff];
    let size = decode_int32(&buf, &mut dst).unwrap();
    assert_eq!(dst, i32::MIN);
    assert_eq!(size, 10);
    let buf = vec![0xff, 0xff, 0xff, 0xff, 0x07];
    let size = decode_int32(&buf, &mut dst).unwrap();
    assert_eq!(dst, i32::MAX);
    assert_eq!(size, 5);
}

/// Should decode an encoded numeric value into the `int64` data type.
#[test]
fn decodes_int64() {
    let mut dst = 0;
    let buf = vec![0x80, 0x80, 0x80, 0x80, 0x80, 0x80, 0x80, 0x80, 0x80, 0x01];
    let size = decode_int64(&buf, &mut dst).unwrap();
    assert_eq!(dst, i64::MIN);
    assert_eq!(size, 10);
    let buf = vec![0xff, 0xff, 0xff, 0xff, 0xff, 0xff, 0xff, 0xff, 0x7f];
    let size = decode_int64(&buf, &mut dst).unwrap();
    assert_eq!(dst, i64::MAX);
    assert_eq!(size, 9);
}

/// Should decode an encoded numeric value into the `uint32` data type.
#[test]
fn decodes_uint32() {
    let mut dst = 0;
    let buf = vec![0x00];
    let size = decode_uint32(&buf, &mut dst).unwrap();
    assert_eq!(dst, u32::MIN);
    assert_eq!(size, 1);
    let buf = vec![0xff, 0xff, 0xff, 0xff, 0x0f];
    let size = decode_uint32(&buf, &mut dst).unwrap();
    assert_eq!(dst, u32::MAX);
    assert_eq!(size, 5);
}

/// Should decode an encoded numeric value into the `uint64` data type.
#[test]
fn decodes_uint64() {
    let mut dst = 0;
    let buf = vec![0x00];
    let size = decode_uint64(&buf, &mut dst).unwrap();
    assert_eq!(dst, u64::MIN);
    assert_eq!(size, 1);
    let buf = vec![0xff, 0xff, 0xff, 0xff, 0xff, 0xff, 0xff, 0xff, 0xff, 0x01];
    let size = decode_uint64(&buf, &mut dst).unwrap();
    assert_eq!(dst, u64::MAX);
    assert_eq!(size, 10);
}

/// Should decode an encoded numeric value into the `sint32` data type.
#[test]
fn decodes_sint32() {
    let mut dst = 0;
    let buf = vec![0xff, 0xff, 0xff, 0xff, 0x0f];
    let size = decode_sint32(&buf, &mut dst).unwrap();
    assert_eq!(dst, i32::MIN);
    assert_eq!(size, 5);
    let buf = vec![0xfe, 0xff, 0xff, 0xff, 0x0f];
    let size = decode_sint32(&buf, &mut dst).unwrap();
    assert_eq!(dst, i32::MAX);
    assert_eq!(size, 5);
}

/// Should decode an encoded numeric value into the `sint64` data type.
#[test]
fn decodes_sint64() {
    let mut dst = 0;
    let buf = vec![0xff, 0xff, 0xff, 0xff, 0xff, 0xff, 0xff, 0xff, 0xff, 0x01];
    let size = decode_sint64(&buf, &mut dst).unwrap();
    assert_eq!(dst, i64::MIN);
    assert_eq!(size, 10);
    let buf = vec![0xfe, 0xff, 0xff, 0xff, 0xff, 0xff, 0xff, 0xff, 0xff, 0x01];
    let size = decode_sint64(&buf, &mut dst).unwrap();
    assert_eq!(dst, i64::MAX);
    assert_eq!(size, 10);
}

/// Should decode an encoded numeric value into the `fixed32` data type.
#[test]
fn decodes_fixed32() {
    let mut dst = 0;
    let buf = vec![0x00];
    assert!(decode_fixed32(&buf, &mut dst).is_err());
    let buf = vec![0x00, 0x00, 0x00, 0x00];
    let size = decode_fixed32(&buf, &mut dst).unwrap();
    assert_eq!(dst, u32::MIN);
    assert_eq!(size, 4);
    let buf = vec![0xff, 0xff, 0xff, 0xff];
    let size = decode_fixed32(&buf, &mut dst).unwrap();
    assert_eq!(dst, u32::MAX);
    assert_eq!(size, 4);
}

/// Should decode an encoded numeric value into the `fixed64` data type.
#[test]
fn decodes_fixed64() {
    let mut dst = 0;
    let buf = vec![0x00];
    assert!(decode_fixed64(&buf, &mut dst).is_err());
    let buf = vec![0x00, 0x00, 0x00, 0x00, 0x00, 0x00, 0x00, 0x00, 0xff];
    let size = decode_fixed64(&buf, &mut dst).unwrap();
    assert_eq!(dst, u64::MIN);
    assert_eq!(size, 8);
    let buf = vec![0xff, 0xff, 0xff, 0xff, 0xff, 0xff, 0xff, 0xff, 0xff];
    let size = decode_fixed64(&buf, &mut dst).unwrap();
    assert_eq!(dst, u64::MAX);
    assert_eq!(size, 8);
}

/// Should decode an encoded numeric value into the `sfixed32` data type.
#[test]
fn decodes_sfixed32() {
    let mut dst = 0;
    let buf = vec![0x00];
    assert!(decode_sfixed32(&buf, &mut dst).is_err());
    let buf = vec![0x00, 0x00, 0x00, 0x80];
    let size = decode_sfixed32(&buf, &mut dst).unwrap();
    assert_eq!(dst, i32::MIN);
    assert_eq!(size, 4);
    let buf = vec![0xff, 0xff, 0xff, 0x7f];
    let size = decode_sfixed32(&buf, &mut dst).unwrap();
    assert_eq!(dst, i32::MAX);
    assert_eq!(size, 4);
}

/// Should decode an encoded numeric value into the `sfixed64` data type.
#[test]
fn decodes_sfixed64() {
    let mut dst = 0;
    let buf = vec![0x00];
    assert!(decode_sfixed64(&buf, &mut dst).is_err());
    let buf = vec![0x00, 0x00, 0x00, 0x00, 0x00, 0x00, 0x00, 0x80];
    let size = decode_sfixed64(&buf, &mut dst).unwrap();
    assert_eq!(dst, i64::MIN);
    assert_eq!(size, 8);
    let buf = vec![0xff, 0xff, 0xff, 0xff, 0xff, 0xff, 0xff, 0x7f];
    let size = decode_sfixed64(&buf, &mut dst).unwrap();
    assert_eq!(dst, i64::MAX);
    assert_eq!(size, 8);
}

/// Should encode a number into the LEB128 wire format.
#[test]
fn encodes_varints() {
    let mut dst = vec![];
    let size = encode_varint(u64::MIN, &mut dst).unwrap();
    assert_eq!(dst, vec![0]);
    assert_eq!(size, 1);
    dst.clear();
    let size = encode_varint(u64::MAX, &mut dst).unwrap();
    assert_eq!(dst, vec![255, 255, 255, 255, 255, 255, 255, 255, 255, 1]);
    assert_eq!(size, 10);
}

/// Should encode a field key with its tag number and wire type.
#[test]
fn encodes_key() {
    let mut dst = vec![];
    let size = encode_key(123456789, Typ::Varint, &mut dst).unwrap();
    assert_eq!(dst, vec![168, 209, 249, 214, 3]);
    assert_eq!(size, 5);
    dst.clear();
    let size = encode_key(1234, Typ::Bit32, &mut dst).unwrap();
    assert_eq!(dst, vec![149, 77]);
    assert_eq!(size, 2);
}

/// Should encode a numeric value as the `int32` data type.
#[test]
fn encodes_int32() {
    let mut dst = vec![];
    let size = encode_int32(i32::MIN, &mut dst).unwrap();
    assert_eq!(dst, vec![128, 128, 128, 128, 248, 255, 255, 255, 255, 1]);
    assert_eq!(size, 10);
    dst.clear();
    let size = encode_int32(i32::MAX, &mut dst).unwrap();
    assert_eq!(dst, vec![255, 255, 255, 255, 7]);
    assert_eq!(size, 5);
}

/// Should encode a numeric value as the `uint32` data type.
#[test]
fn encodes_uint32() {
    let mut dst = vec![];
    let size = encode_uint32(u32::MIN, &mut dst).unwrap();
    assert_eq!(dst, vec![0]);
    assert_eq!(size, 1);
    dst.clear();
    let size = encode_uint32(u32::MAX, &mut dst).unwrap();
    assert_eq!(dst, vec![255, 255, 255, 255, 15]);
    assert_eq!(size, 5);
}

/// Should encode a numeric value as the `sint32` data type.
#[test]
fn encodes_sint32() {
    let mut dst = vec![];
    let size = encode_sint32(i32::MIN, &mut dst).unwrap();
    assert_eq!(dst, vec![255, 255, 255, 255, 15]);
    assert_eq!(size, 5);
    dst.clear();
    let size = encode_sint32(i32::MAX, &mut dst).unwrap();
    assert_eq!(dst, vec![254, 255, 255, 255, 15]);
    assert_eq!(size, 5);
}

/// Should encode a numeric value as the `int64` data type.
#[test]
fn encodes_int64() {
    let mut dst = vec![];
    let size = encode_int64(i64::MIN, &mut dst).unwrap();
    assert_eq!(dst, vec![128, 128, 128, 128, 128, 128, 128, 128, 128, 1]);
    assert_eq!(size, 10);
    dst.clear();
    let size = encode_int64(i64::MAX, &mut dst).unwrap();
    assert_eq!(dst, vec![255, 255, 255, 255, 255, 255, 255, 255, 127]);
    assert_eq!(size, 9);
}

/// Should encode a numeric value as the `uint64` data type.
#[test]
fn encodes_uint64() {
    let mut dst = vec![];
    let size = encode_uint64(u64::MIN, &mut dst).unwrap();
    assert_eq!(dst, vec![0]);
    assert_eq!(size, 1);
    dst.clear();
    let size = encode_uint64(u64::MAX, &mut dst).unwrap();
    assert_eq!(dst, vec![255, 255, 255, 255, 255, 255, 255, 255, 255, 1]);
    assert_eq!(size, 10);
}

/// Should encode a numeric value as the `sint64` data type.
#[test]
fn encodes_sint64() {
    let mut dst = vec![];
    let size = encode_sint64(i64::MIN, &mut dst).unwrap();
    assert_eq!(dst, vec![255, 255, 255, 255, 255, 255, 255, 255, 255, 1]);
    assert_eq!(size, 10);
    dst.clear();
    let size = encode_sint64(i64::MAX, &mut dst).unwrap();
    assert_eq!(dst, vec![254, 255, 255, 255, 255, 255, 255, 255, 255, 1]);
    assert_eq!(size, 10);
}

/// Should encode a boolean value as the `bool` data type.
#[test]
fn encodes_bool() {
    let mut dst = vec![];
    let size = encode_bool(true, &mut dst).unwrap();
    assert_eq!(dst, vec![1]);
    assert_eq!(size, 1);
    dst.clear();
    let size = encode_bool(false, &mut dst).unwrap();
    assert_eq!(dst, vec![0]);
    assert_eq!(size, 1);
}

/// Should encode a numeric value as the `fixed64` data type.
#[test]
fn encodes_fixed64() {
    let mut dst = vec![];
    let size = encode_fixed64(u64::MIN, &mut dst).unwrap();
    assert_eq!(dst, vec![0, 0, 0, 0, 0, 0, 0, 0]);
    assert_eq!(size, 8);
    dst.clear();
    let size = encode_fixed64(u64::MAX, &mut dst).unwrap();
    assert_eq!(dst, vec![255, 255, 255, 255, 255, 255, 255, 255]);
    assert_eq!(size, 8);
}

/// Should encode a numeric value as the `sfixed64` data type.
#[test]
fn encodes_sfixed64() {
    let mut dst = vec![];
    let size = encode_sfixed64(i64::MIN, &mut dst).unwrap();
    assert_eq!(dst, vec![0, 0, 0, 0, 0, 0, 0, 128]);
    assert_eq!(size, 8);
    dst.clear();
    let size = encode_sfixed64(i64::MAX, &mut dst).unwrap();
    assert_eq!(dst, vec![255, 255, 255, 255, 255, 255, 255, 127]);
    assert_eq!(size, 8);
}

/// Should encode a numeric value as the `fixed32` data type.
#[test]
fn encodes_fixed32() {
    let mut dst = vec![];
    let size = encode_fixed32(u32::MIN, &mut dst).unwrap();
    assert_eq!(dst, vec![0, 0, 0, 0]);
    assert_eq!(size, 4);
    dst.clear();
    let size = encode_fixed32(u32::MAX, &mut dst).unwrap();
    assert_eq!(dst, vec![255, 255, 255, 255]);
    assert_eq!(size, 4);
}

/// Should encode a numeric value as the `sfixed32` data type.
#[test]
fn encodes_sfixed32() {
    let mut dst = vec![];
    let size = encode_sfixed32(i32::MIN, &mut dst).unwrap();
    assert_eq!(dst, vec![0, 0, 0, 128]);
    assert_eq!(size, 4);
    dst.clear();
    let size = encode_sfixed32(i32::MAX, &mut dst).unwrap();
    assert_eq!(dst, vec![255, 255, 255, 127]);
    assert_eq!(size, 4);
}

/// Should encode a byte string as the raw `bytes` data type.
#[test]
fn primitives_encodes_bytes() {
    let mut dst = vec![];
    let size = encode_bytes(vec![1, 2, 3, 4, 5], &mut dst).unwrap();
    assert_eq!(dst, vec![5, 1, 2, 3, 4, 5]);
    assert_eq!(size, 6);
}
