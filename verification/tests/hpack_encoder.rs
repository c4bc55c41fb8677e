//! Tests for the HPACK encoder.

use httlib::hpack::decoder::Decoder;
use httlib::hpack::encoder::{Encoder, EncoderInput};

/// Should encode a header that exists in the indexing table into the
/// indexed header field representation.
#[test]
fn encodes_indexed() {
    let mut encoder = Encoder::default();
    // add a dynamic header through a literal field with indexing
    let mut seed = Vec::new();
    encoder
        .encode(
            EncoderInput::Literal(b"name62".to_vec(), b"value62".to_vec(), 0x4),
            &mut seed,
        )
        .unwrap();
    let fields = vec![
        (2, vec![0x80 | 2]),
        (3, vec![0x80 | 3]),
        (14, vec![0x80 | 14]),
        (62, vec![0x80 | 62]),
    ];
    for (index, res) in fields {
        let mut dst = Vec::new();
        encoder.encode(EncoderInput::Indexed(index), &mut dst).unwrap();
        assert_eq!(dst, res);
    }
}

/// Should encode a header with an indexed name into a literal field with
/// incremental indexing, inserting it into the indexing table.
#[test]
fn encodes_indexed_name_with_indexing() {
    let mut encoder = Encoder::default();
    let mut dst = Vec::new();
    encoder
        .encode(
            EncoderInput::IndexedName(2, b"PATCH".to_vec(), 0x2 | 0x4),
            &mut dst,
        )
        .unwrap();
    assert_eq!(dst[0] & 0b01000000, 64);
    assert_eq!(dst[1] & 0b10000000, 128);
    assert_eq!(&dst[2..], vec![215, 14, 251, 216, 255]);
    // the header entered the table at index 62
    let mut probe = Vec::new();
    encoder.encode(EncoderInput::Indexed(62), &mut probe).unwrap();
    assert_eq!(probe, vec![0x80 | 62]);
    let mut decoder = Decoder::default();
    let mut wire = dst.clone();
    let mut out = Vec::new();
    decoder.decode(&mut wire, &mut out).unwrap();
    assert_eq!(out[0].0, b":method".to_vec());
    assert_eq!(out[0].1, b"PATCH".to_vec());
}

/// Should encode a header given in bytes into a literal field with
/// incremental indexing, inserting it into the indexing table.
#[test]
fn encodes_literal_with_indexing() {
    let mut encoder = Encoder::default();
    let mut dst = Vec::new();
    encoder
        .encode(
            EncoderInput::Literal(b"foo".to_vec(), b"bar".to_vec(), 0x4 | 0x1 | 0x2),
            &mut dst,
        )
        .unwrap();
    assert_eq!(dst[0], 0b01000000);
    assert_eq!(&dst[1..4], vec![130, 148, 231]);
    assert_eq!(&dst[4..], vec![131, 140, 118, 127]);
    let mut probe = Vec::new();
    encoder.encode(EncoderInput::Indexed(62), &mut probe).unwrap();
    assert_eq!(probe, vec![0x80 | 62]);
}

/// Should encode a header with an indexed name into a literal field without
/// indexing; the indexing table is not altered.
#[test]
fn encodes_indexed_name_without_indexing() {
    let mut encoder = Encoder::default();
    let mut dst = Vec::new();
    encoder
        .encode(EncoderInput::IndexedName(13, b"PATCH".to_vec(), 0x0), &mut dst)
        .unwrap();
    assert_eq!(dst[0], 13);
    assert_eq!(&dst[1..], vec![5, 80, 65, 84, 67, 72]);
    let mut probe = Vec::new();
    assert!(encoder.encode(EncoderInput::Indexed(62), &mut probe).is_err());
}

/// Should encode a header given in bytes into a literal field without
/// indexing.
#[test]
fn encodes_literal_without_indexing() {
    let mut encoder = Encoder::default();
    let mut dst = Vec::new();
    encoder
        .encode(
            EncoderInput::Literal(b"foo".to_vec(), b"bar".to_vec(), 0x1),
            &mut dst,
        )
        .unwrap();
    assert_eq!(dst[0], 0);
    assert_eq!(&dst[2..4], vec![148, 231]);
    assert_eq!(&dst[4..], vec![3, 98, 97, 114]);
}

/// Should encode a header with an indexed name into a never indexed literal
/// field.
#[test]
fn encodes_indexed_name_never_indexed() {
    let mut encoder = Encoder::default();
    let mut dst = Vec::new();
    encoder
        .encode(EncoderInput::IndexedName(13, b"PATCH".to_vec(), 0x8), &mut dst)
        .unwrap();
    assert_eq!(dst[0] & 0b00010000, 16);
    assert_eq!(&dst[1..], vec![5, 80, 65, 84, 67, 72]);
}

/// Should encode a header given in bytes into a never indexed literal
/// field.
#[test]
fn encodes_literal_never_indexed() {
    let mut encoder = Encoder::default();
    let mut dst = Vec::new();
    encoder
        .encode(
            EncoderInput::Literal(b"foo".to_vec(), b"bar".to_vec(), 0x8),
            &mut dst,
        )
        .unwrap();
    assert_eq!(dst[0], 0b00010000);
    assert_eq!(&dst[1..5], vec![3, 102, 111, 111]);
    assert_eq!(&dst[5..], vec![3, 98, 97, 114]);
}

/// Should pick the best representation by searching the indexing table.
#[test]
fn encodes_literal_automatically() {
    let mut encoder = Encoder::default();
    let fields = vec![
        (
            EncoderInput::Literal(b":method".to_vec(), b"GET".to_vec(), 0x10),
            vec![130],
        ),
        (
            EncoderInput::Literal(b":method".to_vec(), b"DELETE".to_vec(), 0x10 | 0x4),
            vec![66, 6, 68, 69, 76, 69, 84, 69],
        ),
        (
            EncoderInput::Literal(b"a".to_vec(), b"b".to_vec(), 0x10 | 0x1),
            vec![0, 129, 31, 1, 98],
        ),
    ];
    for (field, res) in fields {
        let mut dst = Vec::new();
        encoder.encode(field, &mut dst).unwrap();
        assert_eq!(dst, res);
    }
    // the table was altered only once: 62 resolves, 63 does not
    let mut probe = Vec::new();
    encoder.encode(EncoderInput::Indexed(62), &mut probe).unwrap();
    assert!(encoder.encode(EncoderInput::Indexed(63), &mut probe).is_err());
}

/// Should encode a dynamic table size update signal.
#[test]
fn updates_max_dynamic_size() {
    let mut encoder = Encoder::with_dynamic_size(70);
    let mut seed = Vec::new();
    encoder
        .encode(EncoderInput::Literal(b"a".to_vec(), b"a".to_vec(), 0x4), &mut seed)
        .unwrap();
    encoder
        .encode(EncoderInput::Literal(b"b".to_vec(), b"b".to_vec(), 0x4), &mut seed)
        .unwrap();
    let mut dst = Vec::new();
    encoder.update_max_dynamic_size(50, &mut dst).unwrap();
    assert_eq!(dst[0] & 0b00100000, 32);
    assert_eq!(dst, vec![63, 19]);
    // one header was evicted: index 62 resolves, 63 does not
    let mut probe = Vec::new();
    encoder.encode(EncoderInput::Indexed(62), &mut probe).unwrap();
    assert!(encoder.encode(EncoderInput::Indexed(63), &mut probe).is_err());
}

fn hex_to_bytes(parts: &[&str]) -> Vec<u8> {
    let joined: String = parts.concat();
    let chars: Vec<char> = joined.chars().collect();
    let mut out = Vec::new();
    let mut i = 0;
    while i + 1 < chars.len() + 1 {
        if i + 2 > chars.len() {
            break;
        }
        let hi = chars[i].to_digit(16).unwrap() as u8;
        let lo = chars[i + 1].to_digit(16).unwrap() as u8;
        out.push(hi * 16 + lo);
        i += 2;
    }
    out
}

/// Should encode and decode the example requests and responses of the
/// protocol specification, with and without Huffman coding, with parallel
/// encoder and decoder instances staying in lockstep.
#[test]
fn encodes_and_decodes_requests() {
    let examples: Vec<Vec<(Vec<(Vec<u8>, Vec<u8>, u8)>, Vec<&str>)>> = vec![
        vec![
            (
                vec![
                    (b":method".to_vec(), b"GET".to_vec(), 20),
                    (b":scheme".to_vec(), b"http".to_vec(), 20),
                    (b":path".to_vec(), b"/".to_vec(), 20),
                    (b":authority".to_vec(), b"www.example.com".to_vec(), 20),
                ],
                vec![
                    "8286", "8441", "0f77", "7777", "2e65", "7861", "6d70", "6c65", "2e63",
                    "6f6d",
                ],
            ),
            (
                vec![
                    (b":method".to_vec(), b"GET".to_vec(), 20),
                    (b":scheme".to_vec(), b"http".to_vec(), 20),
                    (b":path".to_vec(), b"/".to_vec(), 20),
                    (b":authority".to_vec(), b"www.example.com".to_vec(), 20),
                    (b"cache-control".to_vec(), b"no-cache".to_vec(), 20),
                ],
                vec!["8286", "84be", "5808", "6e6f", "2d63", "6163", "6865"],
            ),
            (
                vec![
                    (b":method".to_vec(), b"GET".to_vec(), 20),
                    (b":scheme".to_vec(), b"https".to_vec(), 20),
                    (b":path".to_vec(), b"/index.html".to_vec(), 20),
                    (b":authority".to_vec(), b"www.example.com".to_vec(), 20),
                    (b"custom-key".to_vec(), b"custom-value".to_vec(), 20),
                ],
                vec![
                    "8287", "85bf", "400a", "6375", "7374", "6f6d", "2d6b", "6579", "0c63",
                    "7573", "746f", "6d2d", "7661", "6c75", "65",
                ],
            ),
        ],
        vec![
            (
                vec![
                    (b":method".to_vec(), b"GET".to_vec(), 23),
                    (b":scheme".to_vec(), b"http".to_vec(), 23),
                    (b":path".to_vec(), b"/".to_vec(), 23),
                    (b":authority".to_vec(), b"www.example.com".to_vec(), 23),
                ],
                vec![
                    "8286", "8441", "8cf1", "e3c2", "e5f2", "3a6b", "a0ab", "90f4", "ff",
                ],
            ),
            (
                vec![
                    (b":method".to_vec(), b"GET".to_vec(), 23),
                    (b":scheme".to_vec(), b"http".to_vec(), 23),
                    (b":path".to_vec(), b"/".to_vec(), 23),
                    (b":authority".to_vec(), b"www.example.com".to_vec(), 23),
                    (b"cache-control".to_vec(), b"no-cache".to_vec(), 23),
                ],
                vec!["8286", "84be", "5886", "a8eb", "1064", "9cbf"],
            ),
            (
                vec![
                    (b":method".to_vec(), b"GET".to_vec(), 23),
                    (b":scheme".to_vec(), b"https".to_vec(), 23),
                    (b":path".to_vec(), b"/index.html".to_vec(), 23),
                    (b":authority".to_vec(), b"www.example.com".to_vec(), 23),
                    (b"custom-key".to_vec(), b"custom-value".to_vec(), 23),
                ],
                vec![
                    "8287", "85bf", "4088", "25a8", "49e9", "5ba9", "7d7f", "8925", "a849",
                    "e95b", "b8e8", "b4bf",
                ],
            ),
        ],
        vec![
            (
                vec![
                    (b":status".to_vec(), b"302".to_vec(), 20),
                    (b"cache-control".to_vec(), b"private".to_vec(), 20),
                    (
                        b"date".to_vec(),
                        b"Mon, 21 Oct 2013 20:13:21 GMT".to_vec(),
                        20,
                    ),
                    (b"location".to_vec(), b"https://www.example.com".to_vec(), 20),
                ],
                vec![
                    "4803", "3330", "3258", "0770", "7269", "7661", "7465", "611d", "4d6f",
                    "6e2c", "2032", "3120", "4f63", "7420", "3230", "3133", "2032", "303a",
                    "3133", "3a32", "3120", "474d", "546e", "1768", "7474", "7073", "3a2f",
                    "2f77", "7777", "2e65", "7861", "6d70", "6c65", "2e63", "6f6d",
                ],
            ),
            (
                vec![
                    (b":status".to_vec(), b"307".to_vec(), 20),
                    (b"cache-control".to_vec(), b"private".to_vec(), 20),
                    (
                        b"date".to_vec(),
                        b"Mon, 21 Oct 2013 20:13:21 GMT".to_vec(),
                        20,
                    ),
                    (b"location".to_vec(), b"https://www.example.com".to_vec(), 20),
                ],
                vec!["4803", "3330", "37c1", "c0bf"],
            ),
        ],
    ];

    for requests in examples {
        let mut encoder = Encoder::default();
        let mut decoder = Decoder::default();
        for (fields, wire) in requests {
            let mut dst0 = Vec::new();
            for field in fields.clone() {
                encoder
                    .encode(EncoderInput::Literal(field.0, field.1, field.2), &mut dst0)
                    .unwrap();
            }
            assert_eq!(dst0, hex_to_bytes(&wire));
            let mut dst1 = Vec::new();
            decoder.decode(&mut dst0, &mut dst1).unwrap();
            for (i, _h) in dst1.iter().enumerate() {
                assert_eq!(fields[i].0, dst1[i].0);
                assert_eq!(fields[i].1, dst1[i].1);
            }
        }
    }
}
