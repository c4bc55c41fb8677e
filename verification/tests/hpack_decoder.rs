//! Tests for the HPACK decoder.

use httlib::hpack::decoder::Decoder;
use httlib::hpack::errors::DecoderError;

/// Should decode the indexed header field representation into a header that
/// exists in the indexing table.
#[test]
fn decodes_indexed() {
    let mut decoder = Decoder::default();
    let mut dst = Vec::new();
    let mut buf = vec![0x80 | 2, 0x80 | 14];
    decoder.decode(&mut buf, &mut dst).unwrap();
    assert_eq!(
        dst,
        vec![
            (b":method".to_vec(), b"GET".to_vec(), 0x0),
            (b":status".to_vec(), b"500".to_vec(), 0x0),
        ]
    );
}

/// Should decode the literal header field representation with incremental
/// indexing where the header name is represented with an index; the new
/// headers join the indexing table.
#[test]
fn decodes_indexed_name_with_indexing() {
    let mut decoder = Decoder::default();
    let mut dst = Vec::new();
    let mut buf = vec![66, 133, 215, 14, 251, 216, 255, 78, 130, 108, 1];
    decoder.decode(&mut buf, &mut dst).unwrap();
    assert_eq!(
        dst,
        vec![
            (b":method".to_vec(), b"PATCH".to_vec(), 0x4),
            (b":status".to_vec(), b"501".to_vec(), 0x4),
        ]
    );
    // both headers entered the indexing table: indices 62 and 63 now resolve
    let mut probe = vec![0x80 | 62, 0x80 | 63];
    let mut out = Vec::new();
    decoder.decode(&mut probe, &mut out).unwrap();
    assert_eq!(out[0].0, b":status".to_vec());
    assert_eq!(out[1].0, b":method".to_vec());
}

/// Should decode the literal header field representation with incremental
/// indexing where name and value are provided in bytes.
#[test]
fn decodes_literal_with_indexing() {
    let mut decoder = Decoder::default();
    let mut dst = Vec::new();
    let mut buf = vec![
        64, 131, 148, 231, 7, 131, 148, 231, 15, 64, 131, 140, 118, 3, 131, 140, 118, 7,
    ];
    decoder.decode(&mut buf, &mut dst).unwrap();
    assert_eq!(
        dst,
        vec![
            (b"foo0".to_vec(), b"foo1".to_vec(), 0x4),
            (b"bar0".to_vec(), b"bar1".to_vec(), 0x4),
        ]
    );
    let mut probe = vec![0x80 | 62, 0x80 | 63];
    let mut out = Vec::new();
    decoder.decode(&mut probe, &mut out).unwrap();
    assert_eq!(out[0].0, b"bar0".to_vec());
    assert_eq!(out[1].0, b"foo0".to_vec());
}

/// Should decode the literal header field representation without indexing
/// where the header name is represented with an index; the indexing table
/// is not altered.
#[test]
fn decodes_indexed_name_without_indexing() {
    let mut decoder = Decoder::default();
    let mut dst = Vec::new();
    let mut buf = vec![2, 5, 80, 65, 84, 67, 72, 14, 130, 108, 1];
    decoder.decode(&mut buf, &mut dst).unwrap();
    assert_eq!(
        dst,
        vec![
            (b":method".to_vec(), b"PATCH".to_vec(), 0x0),
            (b":status".to_vec(), b"501".to_vec(), 0x0),
        ]
    );
    // table not altered: index 62 is still invalid
    let mut probe = vec![0x80 | 62];
    let mut out = Vec::new();
    assert_eq!(
        decoder.decode(&mut probe, &mut out),
        Err(DecoderError::InvalidIndex)
    );
}

/// Should decode the literal header field representation without indexing
/// where name and value are provided in bytes.
#[test]
fn decodes_literal_without_indexing() {
    let mut decoder = Decoder::default();
    let mut dst = Vec::new();
    let mut buf = vec![
        0, 4, 102, 111, 111, 48, 4, 98, 97, 114, 48, 0, 131, 148, 231, 15, 131, 140, 118, 7,
    ];
    decoder.decode(&mut buf, &mut dst).unwrap();
    assert_eq!(
        dst,
        vec![
            (b"foo0".to_vec(), b"bar0".to_vec(), 0x0),
            (b"foo1".to_vec(), b"bar1".to_vec(), 0x0),
        ]
    );
}

/// Should decode the never indexed literal header field representation
/// where the header name is represented with an index.
#[test]
fn decodes_indexed_name_never_indexed() {
    let mut decoder = Decoder::default();
    let mut dst = Vec::new();
    let mut buf = vec![18, 5, 80, 65, 84, 67, 72, 30, 130, 108, 1];
    decoder.decode(&mut buf, &mut dst).unwrap();
    assert_eq!(
        dst,
        vec![
            (b":method".to_vec(), b"PATCH".to_vec(), 0x8),
            (b":status".to_vec(), b"501".to_vec(), 0x8),
        ]
    );
}

/// Should decode the never indexed literal header field representation
/// where name and value are provided in bytes.
#[test]
fn decodes_literal_never_indexed() {
    let mut decoder = Decoder::default();
    let mut dst = Vec::new();
    let mut buf = vec![
        16, 4, 102, 111, 111, 48, 4, 98, 97, 114, 48, 16, 4, 102, 111, 111, 49, 4, 98, 97, 114,
        49,
    ];
    decoder.decode(&mut buf, &mut dst).unwrap();
    assert_eq!(
        dst,
        vec![
            (b"foo0".to_vec(), b"bar0".to_vec(), 0x8),
            (b"foo1".to_vec(), b"bar1".to_vec(), 0x8),
        ]
    );
}

/// Should decode the exact number of headers asked for and no more.
#[test]
fn decodes_exact() {
    let mut decoder = Decoder::default();
    let mut dst = Vec::new();
    let mut buf = vec![0x80 | 2, 0x80 | 14];
    decoder.decode_exact(&mut buf, &mut dst, 1).unwrap();
    assert_eq!(dst.len(), 1);
}

/// Should decode a dynamic table size update signal and apply the new size
/// to the underlying table, evicting a header.
#[test]
fn decodes_max_dynamic_size() {
    let mut decoder = Decoder::with_dynamic_size(70);
    // two 34-octet headers enter through literal fields with indexing
    let mut seed = vec![64, 1, 97, 1, 97, 64, 1, 98, 1, 98];
    let mut out = Vec::new();
    decoder.decode(&mut seed, &mut out).unwrap();
    let mut dst = Vec::new();
    decoder.decode(&mut vec![63, 19], &mut dst).unwrap(); // set size to 50
    assert_eq!(dst, vec![]);
    // one header was evicted: index 62 resolves, index 63 does not
    let mut probe = vec![0x80 | 62];
    let mut ok = Vec::new();
    decoder.decode(&mut probe, &mut ok).unwrap();
    assert_eq!(ok[0].0, b"b".to_vec());
    let mut probe = vec![0x80 | 63];
    let mut out2 = Vec::new();
    assert_eq!(
        decoder.decode(&mut probe, &mut out2),
        Err(DecoderError::InvalidIndex)
    );
}

/// Decode the two static indexed fields of the protocol example.
#[test]
fn decodes_static_pair() {
    let mut decoder = Decoder::default();
    let mut dst = Vec::new();
    let mut buf = vec![0x82, 0x8E];
    decoder.decode(&mut buf, &mut dst).unwrap();
    assert_eq!(
        dst,
        vec![
            (b":method".to_vec(), b"GET".to_vec(), 0x0),
            (b":status".to_vec(), b"500".to_vec(), 0x0),
        ]
    );
}
