//! Tests for the Huffman encoder, flattener and decoder.

use httlib::huffman::decoder::{decode, DecodeReader};
use httlib::huffman::table::{check_prefix_free, ENCODE_TABLE};
use httlib::huffman::encoder::encode;
use httlib::huffman::flattener::{flatten, generate_coding_paths};
use httlib::huffman::speed::DecoderSpeed;

/// Should encode ASCII characters into the Huffman format.
#[test]
fn mod_encodes_bytes() {
    let mut dst = Vec::new();
    for b in 0x20u8..0x7F {
        encode(&[b], &mut dst).unwrap();
    }
    assert_eq!(
        dst,
        vec![
            83, 254, 63, 254, 127, 255, 175, 255, 207, 87, 248, 255, 95, 254, 191, 254, 255,
            249, 255, 127, 250, 91, 95, 99, 7, 15, 23, 103, 107, 111, 115, 119, 123, 127, 185,
            251, 255, 249, 131, 255, 191, 255, 63, 255, 215, 135, 187, 189, 191, 193, 195, 197,
            199, 201, 203, 205, 207, 209, 211, 213, 215, 217, 219, 221, 223, 225, 227, 229,
            252, 231, 253, 255, 223, 255, 254, 31, 255, 231, 255, 243, 139, 255, 251, 31, 143,
            39, 147, 47, 151, 155, 159, 55, 233, 235, 163, 167, 171, 63, 175, 237, 179, 71, 79,
            183, 239, 241, 243, 245, 247, 255, 253, 255, 159, 255, 247, 255, 239,
        ]
    );

    dst.clear();
    encode(b"Hello world!", &mut dst).unwrap();
    assert_eq!(dst, &[198, 90, 40, 58, 158, 15, 101, 18, 127, 31]);
}

fn sample_encoding_table() -> Vec<(u8, u32)> {
    vec![
        (13, 0x1ff8),
        (23, 0x7fffd8),
        (28, 0xfffffe2),
        (28, 0xfffffe3),
        (28, 0xfffffe4),
        (28, 0xfffffe5),
        (28, 0xfffffe6),
        (28, 0xfffffe7),
        (28, 0xfffffe8),
    ]
}

/// Should generate a translation matrix for reading 1 bit at a time.
#[test]
fn mod_flattens_1bits() {
    let table = flatten(&sample_encoding_table(), DecoderSpeed::OneBit);
    assert_eq!(table.len(), 41);
    let target = &table[2][1];
    assert_eq!(target.0, Some(3));
    assert_eq!(target.1, None);
    assert_eq!(target.2, 0);
}

/// Should generate a translation matrix for reading 2 bits at a time.
#[test]
fn mod_flattens_2bits() {
    let table = flatten(&sample_encoding_table(), DecoderSpeed::TwoBits);
    assert_eq!(table.len(), 20);
    let target = &table[1][3];
    assert_eq!(target.0, Some(2));
    assert_eq!(target.1, None);
    assert_eq!(target.2, 0);
}

/// Should generate a translation matrix for reading 3 bits at a time.
#[test]
fn mod_flattens_3bits() {
    let table = flatten(&sample_encoding_table(), DecoderSpeed::ThreeBits);
    assert_eq!(table.len(), 16);
    let target = &table[1][7];
    assert_eq!(target.0, Some(2));
    assert_eq!(target.1, None);
    assert_eq!(target.2, 0);
}

/// Should generate a translation matrix for reading 4 bits at a time.
#[test]
fn mod_flattens_4bits() {
    let table = flatten(&sample_encoding_table(), DecoderSpeed::FourBits);
    assert_eq!(table.len(), 9);
    let target = &table[1][15];
    assert_eq!(target.0, Some(2));
    assert_eq!(target.1, None);
    assert_eq!(target.2, 0);
}

/// Should generate a translation matrix for reading 5 bits at a time.
#[test]
fn mod_flattens_5bits() {
    let table = flatten(&sample_encoding_table(), DecoderSpeed::FiveBits);
    assert_eq!(table.len(), 8);
    let target = &table[1][31];
    assert_eq!(target.0, Some(2));
    assert_eq!(target.1, None);
    assert_eq!(target.2, 0);
}

/// Should generate all key path variants for codings with leftover bits.
#[test]
fn mod_generates_coding_paths() {
    assert_eq!(
        generate_coding_paths(&(14, 12345), 4),
        vec![
            vec![12, 0, 14, 4],
            vec![12, 0, 14, 5],
            vec![12, 0, 14, 6],
            vec![12, 0, 14, 7],
        ]
    );
    assert_eq!(
        generate_coding_paths(&(13, 2616), 4),
        vec![
            vec![5, 1, 12, 0],
            vec![5, 1, 12, 1],
            vec![5, 1, 12, 2],
            vec![5, 1, 12, 3],
            vec![5, 1, 12, 4],
            vec![5, 1, 12, 5],
            vec![5, 1, 12, 6],
            vec![5, 1, 12, 7],
        ]
    );
}

/// Should generate all key path variants for codings with leftover bits.
#[test]
fn flattener_generates_coding_paths() {
    assert_eq!(
        generate_coding_paths(&(14, 12345), 4),
        vec![
            vec![12, 0, 14, 4],
            vec![12, 0, 14, 5],
            vec![12, 0, 14, 6],
            vec![12, 0, 14, 7],
        ]
    );
    assert_eq!(
        generate_coding_paths(&(13, 2616), 4),
        vec![
            vec![5, 1, 12, 0],
            vec![5, 1, 12, 1],
            vec![5, 1, 12, 2],
            vec![5, 1, 12, 3],
            vec![5, 1, 12, 4],
            vec![5, 1, 12, 5],
            vec![5, 1, 12, 6],
            vec![5, 1, 12, 7],
        ]
    );
}

/// The flattener builds a matrix for the sample table at 2-bit width.
#[test]
fn decoder_flattens_2bits() {
    let table = flatten(&sample_encoding_table(), DecoderSpeed::TwoBits);
    assert!(table.len() > 0);
}

/// Decode "Hello world!" back from its encoding with the 4-bit matrix.
#[test]
fn decodes_hello_world() {
    let src = vec![198, 90, 40, 58, 158, 15, 101, 18, 127, 31];
    let mut dst = Vec::new();
    decode(&src, &mut dst, DecoderSpeed::FourBits).unwrap();
    assert_eq!(dst, b"Hello world!".to_vec());
}

/// Round trip across every read width.
#[test]
fn roundtrips_at_all_speeds() {
    let samples: Vec<&[u8]> = vec![
        b"",
        b"a",
        b"Hello world!",
        b"www.example.com",
        b"no-cache",
        b"!#$%&'()*+,-./0123456789:;<=>?@ABCXYZ[]^_`abcxyz{|}~",
    ];
    for speed in DecoderSpeed::known() {
        for sample in &samples {
            let mut enc = Vec::new();
            encode(sample, &mut enc).unwrap();
            let mut dec = Vec::new();
            decode(&enc, &mut dec, speed).unwrap();
            assert_eq!(&dec, sample);
        }
    }
}

/// A stream that walks into the EOS code is rejected.
#[test]
fn rejects_eos_and_bad_padding() {
    // 0xFF 0xFF 0xFF 0xFF: thirty ones walk into EOS
    let mut dst = Vec::new();
    assert!(decode(&[0xFF, 0xFF, 0xFF, 0xFF], &mut dst, DecoderSpeed::FiveBits).is_err());
    // '0' is 00000: the trailing bits 010 are not an all-ones padding
    let mut dst = Vec::new();
    assert!(decode(&[0x02], &mut dst, DecoderSpeed::OneBit).is_err());
}

/// No symbol's code in the canonical table is a prefix of another
/// symbol's: the verified checker accepts the table.
#[test]
fn table_is_prefix_free() {
    assert!(check_prefix_free(&ENCODE_TABLE));
}

/// The reader decodes a split stream byte by byte.
#[test]
fn reader_decodes_in_pieces() {
    let mut enc = Vec::new();
    encode(b"custom-key", &mut enc).unwrap();
    let mut reader = DecodeReader::new(DecoderSpeed::ThreeBits);
    let mut dst = Vec::new();
    for byte in enc {
        reader.decode(byte, &mut dst).unwrap();
    }
    reader.finalize(&mut dst).unwrap();
    assert_eq!(dst, b"custom-key".to_vec());
}
