//! Tests for the HPACK dynamic table and the unified index address space.

use httlib::hpack::table::{DynamicTable, Table};

/// A header should be added to the beginning of the table and the existing
/// header indexes should be moved. Each added entry should increase the
/// table size and length.
#[test]
fn dynamic_inserts_new_headers() {
    let mut tbl = DynamicTable::default();
    assert_eq!(tbl.len(), 0);
    assert_eq!(tbl.size(), 0);
    tbl.insert(b"a0".to_vec(), b"b0".to_vec());
    assert_eq!(tbl.len(), 1);
    assert_eq!(tbl.size(), 36);
    tbl.insert(b"a1".to_vec(), b"b1".to_vec());
    assert_eq!(tbl.len(), 2);
    assert_eq!(tbl.size(), 72);
    let h1 = tbl.get(0).unwrap();
    let h0 = tbl.get(1).unwrap();
    assert_eq!(vec![h1.0, h1.1], vec![b"a1".to_vec(), b"b1".to_vec()]);
    assert_eq!(vec![h0.0, h0.1], vec![b"a0".to_vec(), b"b0".to_vec()]);
}

/// When the maximum table capacity is reached while adding a new header,
/// entries should be evicted from the end of the table. Adding an entry
/// larger than the maximum size should cause the table to be emptied.
#[test]
fn evicts_headers_on_insert() {
    let mut tbl = DynamicTable::with_size(36);
    tbl.insert(b"a0".to_vec(), b"b0".to_vec());
    assert_eq!(tbl.len(), 1);
    assert_eq!(tbl.size(), 36);
    tbl.insert(b"a1".to_vec(), b"b1".to_vec());
    assert_eq!(tbl.len(), 1);
    assert_eq!(tbl.size(), 36);
    tbl.insert(b"big".to_vec(), b"big".to_vec());
    assert_eq!(tbl.len(), 0);
    assert_eq!(tbl.size(), 0);
}

/// When the maximum table capacity is decreased, entries should be evicted
/// from the end of the table until the table fits the new size.
#[test]
fn evicts_headers_on_size_update() {
    let mut tbl = DynamicTable::with_size(108);
    tbl.insert(b"a0".to_vec(), b"b0".to_vec());
    tbl.insert(b"a1".to_vec(), b"b1".to_vec());
    tbl.insert(b"a2".to_vec(), b"b2".to_vec());
    assert_eq!(tbl.len(), 3);
    assert_eq!(tbl.size(), 108);
    tbl.update_max_size(40);
    assert_eq!(tbl.len(), 1);
    assert_eq!(tbl.size(), 36);
    let h2 = tbl.get(0).unwrap();
    assert_eq!(vec![h2.0, h2.1], vec![b"a2".to_vec(), b"b2".to_vec()]);
}

/// A header should be added to the beginning of the dynamic table: the
/// first added header has index 62, and the combined length grows.
#[test]
fn mod_inserts_new_headers() {
    let mut tbl = Table::default();
    assert_eq!(tbl.len(), 61);
    assert_eq!(tbl.dynamic_len(), 0);
    assert_eq!(tbl.dynamic_size(), 0);
    tbl.insert(b"a0".to_vec(), b"b0".to_vec());
    assert_eq!(tbl.len(), 62);
    assert_eq!(tbl.dynamic_len(), 1);
    assert_eq!(tbl.dynamic_size(), 36);
    tbl.insert(b"a1".to_vec(), b"b1".to_vec());
    assert_eq!(tbl.len(), 63);
    assert_eq!(tbl.dynamic_len(), 2);
    assert_eq!(tbl.dynamic_size(), 72);
}

/// The table should find headers by index in the static or the dynamic
/// half; index 0 is always absent.
#[test]
fn find_header_by_index() {
    let mut tbl = Table::default();
    tbl.insert(b"a0".to_vec(), b"b0".to_vec());
    assert_eq!(tbl.get(0), None);
    let h1 = tbl.get(1).unwrap();
    assert_eq!(vec![h1.0, h1.1], vec![b":authority".to_vec(), vec![]]);
    let h2 = tbl.get(2).unwrap();
    assert_eq!(vec![h2.0, h2.1], vec![b":method".to_vec(), b"GET".to_vec()]);
    let h61 = tbl.get(61).unwrap();
    assert_eq!(vec![h61.0, h61.1], vec![b"www-authenticate".to_vec(), vec![]]);
    let h62 = tbl.get(62).unwrap();
    assert_eq!(vec![h62.0, h62.1], vec![b"a0".to_vec(), b"b0".to_vec()]);
}

/// The table should prefer a full match anywhere over an earlier name-only
/// match, and report absence when no name matches.
#[test]
fn find_header_match() {
    let mut tbl = Table::default();
    tbl.insert(b"a".to_vec(), b"b".to_vec());
    tbl.insert(b"a".to_vec(), b"c".to_vec());
    let m = tbl.find(b":method", b"POST").unwrap();
    assert_eq!(m.0, 3);
    assert_eq!(m.1, true);
    let m = tbl.find(b"a", b"b").unwrap();
    assert_eq!(m.0, 63);
    assert_eq!(m.1, true);
    let m = tbl.find(b":method", b"DELETE").unwrap();
    assert_eq!(m.0, 2);
    assert_eq!(m.1, false);
    let m = tbl.find(b"a", b"x").unwrap();
    assert_eq!(m.0, 62);
    assert_eq!(m.1, false);
    let m = tbl.find(b"x", b"x");
    assert_eq!(m, None);
}
