use vexra::cells::{
    collect_tombstones, decode_metadata_cell, decode_vector_cell, encode_metadata_cell, encode_vector_cell,
    is_tombstone, live_metadata_entries, live_vector_entries, make_tombstone_cell,
};
use vexra::format::PageType;
use vexra::page_cache::{new_page_data, CachedPage};

fn f32_bytes(v: &[f32]) -> Vec<u8> {
    v.iter().flat_map(|x| x.to_le_bytes()).collect()
}

#[test]
fn vector_cell_roundtrip() {
    let bytes = f32_bytes(&[1.0, -2.5, 3.25]);
    let cell = encode_vector_cell("doc-1", 42, &bytes);
    assert_eq!(cell.len(), 4 + 5 + 8 + 4 + 12);
    assert_eq!(&cell[..4], &[5, 0, 0, 0]);
    let (id, internal, v) = decode_vector_cell(&cell).unwrap();
    assert_eq!(id, "doc-1");
    assert_eq!(internal, 42);
    assert_eq!(v, bytes);
}

#[test]
fn truncated_or_invalid_vector_cells_do_not_decode() {
    let cell = encode_vector_cell("doc-1", 42, &f32_bytes(&[1.0, 2.0]));
    assert!(decode_vector_cell(&cell[..cell.len() - 1]).is_none());
    assert!(decode_vector_cell(&cell[..10]).is_none());
    let mut bad = cell.clone();
    bad[4] = 0xFF;
    assert!(decode_vector_cell(&bad).is_none());
}

#[test]
fn metadata_cell_roundtrip() {
    let json = br#"{"category":"tech"}"#;
    let cell = encode_metadata_cell("a", json);
    let (id, body) = decode_metadata_cell(&cell).unwrap();
    assert_eq!(id, "a");
    assert_eq!(body, json.to_vec());
}

#[test]
fn tombstones_hold_only_the_id() {
    let t = make_tombstone_cell("gone");
    assert_eq!(t, vec![4, 0, 0, 0, b'g', b'o', b'n', b'e']);
    assert!(is_tombstone(&t, 4));
    let cell = encode_vector_cell("gone", 1, &f32_bytes(&[1.0]));
    assert!(!is_tombstone(&cell, 4));
}

#[test]
fn deleted_documents_are_not_loaded() {
    let mut page = CachedPage { page_id: 1, data: new_page_data(4096, PageType::Vector, 0), dirty: false };
    assert!(page.write_cell(4096, &encode_vector_cell("a", 1, &f32_bytes(&[1.0, 0.0])), None));
    assert!(page.write_cell(4096, &encode_vector_cell("b", 2, &f32_bytes(&[0.0, 1.0])), None));
    assert!(page.write_cell(4096, &make_tombstone_cell("a"), None));
    assert_eq!(collect_tombstones(&page), vec!["a".to_string()]);
    let live = live_vector_entries(&page);
    assert_eq!(live.len(), 1);
    assert_eq!(live[0].0, "b");
    assert_eq!(live[0].1, 2);
    assert_eq!(live[0].2, f32_bytes(&[0.0, 1.0]));
}

#[test]
fn documents_written_again_after_deletion_are_loaded() {
    let mut page = CachedPage { page_id: 1, data: new_page_data(4096, PageType::Vector, 0), dirty: false };
    assert!(page.write_cell(4096, &encode_vector_cell("a", 1, &f32_bytes(&[1.0, 0.0, 0.0])), None));
    assert!(page.write_cell(4096, &make_tombstone_cell("a"), None));
    assert!(page.write_cell(4096, &encode_vector_cell("a", 2, &f32_bytes(&[1.0, 0.0, 0.0])), None));
    let live = live_vector_entries(&page);
    assert_eq!(live.len(), 1);
    assert_eq!((live[0].0.as_str(), live[0].1), ("a", 2));
}

#[test]
fn deleted_metadata_is_not_loaded_until_written_again() {
    let mut page = CachedPage { page_id: 2, data: new_page_data(4096, PageType::Metadata, 0), dirty: false };
    assert!(page.write_cell(4096, &encode_metadata_cell("a", br#"{"v":1}"#), None));
    assert!(page.write_cell(4096, &encode_metadata_cell("b", br#"{"v":2}"#), None));
    assert!(page.write_cell(4096, &make_tombstone_cell("a"), None));
    let live = live_metadata_entries(&page);
    assert_eq!(live, vec![("b".to_string(), br#"{"v":2}"#.to_vec())]);
    assert!(page.write_cell(4096, &encode_metadata_cell("a", br#"{"v":3}"#), None));
    let live = live_metadata_entries(&page);
    assert_eq!(live.len(), 2);
    assert_eq!(live[1], ("a".to_string(), br#"{"v":3}"#.to_vec()));
}
