use vexra::encoding::{bytes_for_f32, f32_count_from_bytes, read_u32_le, read_u64_le, write_u32_le, write_u64_le};
use vexra::format::{
    decode_cell_pointers, encode_cell_pointer, read_cell_data, read_cell_pointers, read_cell_pointers_raw,
    read_page_header, write_page_header, CellPointer, DbHeader, PageHeader, PageType, DATA_START_OFFSET,
    DB_HEADER_SIZE,
};

#[test]
fn test_write_read_u32() {
    let mut buf = [0u8; 16];
    write_u32_le(&mut buf, 0, 0xDEAD_BEEF);
    assert_eq!(read_u32_le(&buf, 0), Some(0xDEAD_BEEF));
}

#[test]
fn test_write_read_u64() {
    let mut buf = [0u8; 16];
    write_u64_le(&mut buf, 0, 0x1234_5678_9ABC_DEF0);
    assert_eq!(read_u64_le(&buf, 0), Some(0x1234_5678_9ABC_DEF0));
}

#[test]
fn test_bytes_for_f32() {
    assert_eq!(bytes_for_f32(100), 400);
    assert_eq!(f32_count_from_bytes(400), 100);
}

#[test]
fn read_past_end_is_none() {
    let buf = [1u8; 6];
    assert_eq!(read_u32_le(&buf, 3), None);
    assert_eq!(read_u64_le(&buf, 0), None);
    assert_eq!(read_u32_le(&buf, 2), Some(0x0101_0101));
}

#[test]
fn write_u32_is_little_endian() {
    let mut buf = [0u8; 6];
    write_u32_le(&mut buf, 1, 0x0403_0201);
    assert_eq!(buf, [0, 1, 2, 3, 4, 0]);
}

#[test]
fn test_page_header_serialize_roundtrip() {
    let header = PageHeader::new(PageType::Vector, 42);
    let mut buf = [0u8; 16];
    header.serialize_to(&mut buf);

    let decoded = PageHeader::deserialize_from(&buf).unwrap();
    assert_eq!(decoded.page_type, PageType::Vector.to_u8());
    assert_eq!(decoded.collection_id, 42);
    assert_eq!(decoded.free_space_offset, DATA_START_OFFSET);
    assert_eq!(decoded.num_cells, 0);
}

#[test]
fn test_db_header_serialize_roundtrip() {
    let header = DbHeader::new(4096);
    let mut buf = [0u8; DB_HEADER_SIZE];
    header.serialize_to(&mut buf);

    let decoded = DbHeader::deserialize_from(&buf).unwrap();
    assert!(decoded.validate_magic());
    assert!(decoded.validate_version());
    assert_eq!(decoded.page_size, 4096);
    assert_eq!(decoded.page_count, 1);
}

#[test]
fn test_db_header_checksum_roundtrip() {
    let mut header = DbHeader::new(4096);
    header.update_checksum();
    assert!(header.verify_checksum());

    // Corrupt the header
    header.format_version = 99;
    assert!(!header.verify_checksum());
}

#[test]
fn test_page_header_has_room() {
    let header = PageHeader::new(PageType::Vector, 1);
    // Data starts at DATA_START_OFFSET = 1040, leaving 4096-1040=3056 bytes
    assert!(header.has_room(4096, 100));
    assert!(header.has_room(4096, 3000));
    assert!(!header.has_room(4096, 4000));
}

#[test]
fn test_cell_pointer_encode_decode() {
    let ptr: CellPointer = (100, 50);
    let encoded = encode_cell_pointer(ptr);
    let decoded = decode_cell_pointers(&encoded);
    assert_eq!(decoded.len(), 1);
    assert_eq!(decoded[0], ptr);
}

#[test]
fn db_header_short_buffer_is_none() {
    let buf = [0u8; 99];
    assert!(DbHeader::deserialize_from(&buf).is_none());
    assert!(PageHeader::deserialize_from(&buf[..15]).is_none());
}

#[test]
fn db_header_layout_is_fixed() {
    let header = DbHeader::new_at(512, 0x0102_0304_0506_0708);
    let mut buf = [0xFFu8; 120];
    header.serialize_to(&mut buf);
    assert_eq!(&buf[0..11], b"EmbedDB v1\0");
    assert_eq!(&buf[11..16], &[0u8; 5]);
    assert_eq!(&buf[16..20], &[1, 0, 0, 0]);
    assert_eq!(&buf[20..24], &[0, 2, 0, 0]);
    assert_eq!(&buf[24..32], &[1, 0, 0, 0, 0, 0, 0, 0]);
    assert_eq!(&buf[48..56], &[8, 7, 6, 5, 4, 3, 2, 1]);
    assert_eq!(&buf[100..120], &[0xFFu8; 20]);
    let back = DbHeader::deserialize_from(&buf).unwrap();
    assert_eq!(back.created_at, 0x0102_0304_0506_0708);
    assert_eq!(DbHeader::serialized_size(), 100);
}

#[test]
fn bad_magic_and_version_are_rejected() {
    let mut header = DbHeader::new_at(4096, 0);
    header.magic[0] = b'X';
    assert!(!header.validate_magic());
    header.format_version = 2;
    assert!(!header.validate_version());
}

#[test]
fn checksum_changes_when_a_covered_field_changes() {
    let mut a = DbHeader::new_at(4096, 7);
    a.update_checksum();
    let mut b = a;
    b.page_count = 2;
    b.update_checksum();
    assert_ne!(a.checksum, b.checksum);
    assert_eq!(a.checksum, crc32fast::hash(&{
        let mut buf = [0u8; 100];
        let mut z = a;
        z.checksum = 0;
        z.serialize_to(&mut buf);
        buf
    }[..64]));
}

#[test]
fn page_type_codes() {
    assert_eq!(PageType::from_u8(0), Some(PageType::Free));
    assert_eq!(PageType::from_u8(4), Some(PageType::Catalog));
    assert_eq!(PageType::from_u8(5), None);
    assert_eq!(PageType::HnswEdge.to_u8(), 2);
}

#[test]
fn free_space_truncates_and_floors_at_zero() {
    let h = PageHeader::new(PageType::Vector, 1);
    assert_eq!(h.free_space(4096), 3056);
    assert_eq!(h.free_space(1000), 0);
    assert_eq!(h.free_space(1040 + 70000), (70000u32 % 65536) as u16);
}

#[test]
fn page_header_bytes_and_helpers() {
    let mut h = PageHeader::new(PageType::Metadata, 0x0A0B0C0D);
    h.num_cells = 2;
    h.flags = 0x0102;
    let mut page = vec![0u8; 64];
    write_page_header(&mut page, &h);
    assert_eq!(&page[0..16], &[3, 0x0D, 0x0C, 0x0B, 0x0A, 0x10, 0x04, 2, 0, 0, 0, 0, 0, 0x02, 0x01, 0]);
    let back = read_page_header(&page).unwrap();
    assert_eq!(back, h);
    let mut short = vec![9u8; 10];
    write_page_header(&mut short, &h);
    assert_eq!(short, vec![9u8; 10]);
    assert!(read_page_header(&short).is_none());

    page[16..20].copy_from_slice(&encode_cell_pointer((40, 3)));
    page[20..24].copy_from_slice(&encode_cell_pointer((60, 10)));
    page[40..43].copy_from_slice(b"abc");
    assert_eq!(read_cell_pointers_raw(&h, &page).len(), 8);
    let ptrs = read_cell_pointers(&h, &page);
    assert_eq!(ptrs, vec![(40, 3), (60, 10)]);
    assert_eq!(read_cell_data(&page, ptrs[0]), b"abc");
    assert_eq!(read_cell_data(&page, ptrs[1]), b"");
}

#[test]
fn page_crc_checks() {
    let mut h = PageHeader::new(PageType::Vector, 1);
    let mut page = vec![7u8; 32];
    h.compute_crc(&page);
    // What `compute_crc` sets, `verify_crc` accepts.
    assert!(h.verify_crc(&page));
    let mut expect = vec![0u8; 16];
    let mut zero = h;
    zero.crc32 = 0;
    zero.serialize_to(&mut expect);
    expect.extend_from_slice(&page[16..]);
    assert_eq!(h.crc32, crc32fast::hash(&expect));
    h.serialize_to(&mut page);
    let mut zeroed = h;
    zeroed.crc32 = 0;
    let mut all = vec![0u8; 16];
    zeroed.serialize_to(&mut all);
    all.extend_from_slice(&page[16..]);
    let mut k = h;
    k.crc32 = crc32fast::hash(&all);
    assert!(k.verify_crc(&page));
    k.crc32 ^= 1;
    assert!(!k.verify_crc(&page));
}
