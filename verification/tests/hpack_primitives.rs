//! Tests for the HPACK integer and string primitives.

use httlib::hpack::errors::DecoderError;
use httlib::hpack::primitives::{decode_integer, decode_string, encode_integer, encode_string};
use httlib::huffman::speed::DecoderSpeed;

/// Decodes a HPACK integer representation sequence into an integer.
#[test]
fn decodes_integer() {
    let examples = vec![
        (vec![10], 5, 10, 1),
        (vec![31, 154, 10], 5, 1337, 3),
        (vec![31 + 32, 154, 10], 5, 1337, 3),
        (vec![31 + 64, 154, 10], 5, 1337, 3),
        (vec![31, 154, 10, 111, 22], 5, 1337, 3),
        (vec![42], 8, 42, 1),
        (vec![127, 0], 7, 127, 2),
        (vec![255, 0], 7, 127, 2),
        (vec![254], 8, 254, 1),
        (vec![1], 8, 1, 1),
        (vec![0], 8, 0, 1),
        (vec![127, 128, 1], 7, 255, 3),
        (vec![0xFF, 0xFF, 0xFF, 0xFF, 0xFF - 128], 8, 268435710, 5),
    ];
    for (mut value, prefix, res, size) in examples {
        let mut dst = 0;
        let total = decode_integer(&mut value, &mut dst, prefix).unwrap();
        assert_eq!(dst, res);
        assert_eq!(total, size);
    }
}

/// Encodes an integer into the integer representation defined by HPACK.
#[test]
fn encodes_integer() {
    let examples = vec![
        (10, 0, 5, vec![10]),
        (1337, 0, 5, vec![31, 154, 10]),
        (42, 0, 8, vec![0b00101010]),
        (127, 0, 7, vec![127, 0]),
        (255, 0, 8, vec![255, 0]),
        (254, 0, 8, vec![254]),
        (1, 0, 8, vec![1]),
        (0, 0, 8, vec![0]),
        (255, 0, 7, vec![127, 128, 1]),
        (10, 0b10000000, 5, vec![0b10001010]),
        (10, 0b01000000, 5, vec![0b01001010]),
        (10, 0b00010000, 5, vec![0b00001010]),
        (1337, 0b01000000, 5, vec![0b01011111, 0b10011010, 0b00001010]),
    ];
    for (value, flags, prefix, res) in examples {
        let mut dst = Vec::new();
        encode_integer(value, flags, prefix, &mut dst).unwrap();
        assert_eq!(dst, res);
    }
}

/// Decodes a HPACK string representation sequence into a string.
#[test]
fn decodes_string() {
    let examples: Vec<(&[u8], Vec<u8>)> = vec![
        (b"foo", vec![3, 102, 111, 111]),
        (b"foo", vec![130, 148, 231]),
    ];
    for (value, mut bytes) in examples {
        let mut dst = Vec::new();
        decode_string(&mut bytes, DecoderSpeed::FourBits, &mut dst).unwrap();
        assert_eq!(dst, value);
    }
}

/// Encodes a string into the string representation defined by HPACK.
#[test]
fn encodes_string() {
    let examples: Vec<(Vec<u8>, bool, Vec<u8>)> = vec![
        (b"foo".to_vec(), false, vec![3, 102, 111, 111]),
        (b"foo".to_vec(), true, vec![130, 148, 231]),
    ];
    for (value, huffman, bytes) in examples {
        let mut dst = Vec::new();
        encode_string(value, huffman, &mut dst).unwrap();
        assert_eq!(dst, bytes);
    }
}

/// A prefix width outside one to eight is rejected.
#[test]
fn rejects_invalid_prefix() {
    let mut dst = Vec::new();
    assert!(encode_integer(5, 0, 0, &mut dst).is_err());
    assert!(encode_integer(5, 0, 9, &mut dst).is_err());
    let mut val = 0;
    assert!(decode_integer(&mut vec![1], &mut val, 0).is_err());
    assert!(decode_integer(&mut vec![1], &mut val, 9).is_err());
}

/// A continuation beyond five octets is rejected; a short one underflows.
#[test]
fn rejects_overlong_and_short_integers() {
    let mut val = 0;
    let mut buf = vec![255, 255, 255, 255, 255, 255];
    assert_eq!(
        decode_integer(&mut buf, &mut val, 8),
        Err(DecoderError::IntegerOverflow)
    );
    let mut buf = vec![255, 255];
    assert_eq!(
        decode_integer(&mut buf, &mut val, 8),
        Err(DecoderError::IntegerUnderflow)
    );
}
