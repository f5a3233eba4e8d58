use vexra::format::{DbHeader, PageType, DATA_START_OFFSET};
use vexra::page_cache::{new_page_data, page_zero_data, CacheConfig, CachedPage, PageTable};

const PAGE: u32 = 4096;

fn vector_page(id: u64) -> CachedPage {
    CachedPage { page_id: id, data: new_page_data(PAGE, PageType::Vector, 3), dirty: false }
}

#[test]
fn new_pages_start_empty() {
    let page = vector_page(1);
    assert_eq!(page.data.len(), PAGE as usize);
    let h = page.header();
    assert_eq!(h.page_type, PageType::Vector.to_u8());
    assert_eq!(h.collection_id, 3);
    assert_eq!(h.num_cells, 0);
    assert_eq!(h.free_space_offset, DATA_START_OFFSET);
    assert_eq!(page.cell_data(0), None);
}

#[test]
fn page_zero_has_a_catalog_header() {
    let page = CachedPage { page_id: 0, data: page_zero_data(PAGE, &DbHeader::new(PAGE)), dirty: false };
    assert_eq!(page.header().page_type, PageType::Catalog.to_u8());
    assert_eq!(page.header().num_cells, 0);
}

#[test]
fn written_cells_read_back() {
    let mut page = vector_page(1);
    assert!(page.write_cell(PAGE, b"hello", None));
    assert!(page.write_cell(PAGE, b"world!", None));
    assert!(page.dirty);
    let h = page.header();
    assert_eq!(h.num_cells, 2);
    assert_eq!(h.free_space_offset, DATA_START_OFFSET + 11);
    assert_eq!(page.cell_data(0), Some(b"hello".to_vec()));
    assert_eq!(page.cell_data(1), Some(b"world!".to_vec()));
    assert_eq!(page.cell_data(2), None);
}

#[test]
fn rewriting_a_slot_points_it_at_the_new_cell() {
    let mut page = vector_page(1);
    assert!(page.write_cell(PAGE, b"old", None));
    assert!(page.write_cell(PAGE, b"new!", Some(0)));
    assert_eq!(page.header().num_cells, 1);
    assert_eq!(page.cell_data(0), Some(b"new!".to_vec()));
}

#[test]
fn a_full_page_refuses_the_cell_unchanged() {
    let mut page = vector_page(1);
    let big = vec![7u8; (PAGE - DATA_START_OFFSET as u32) as usize];
    assert!(page.write_cell(PAGE, &big, None));
    let before = page.data.clone();
    assert!(!page.write_cell(PAGE, b"x", None));
    assert_eq!(page.data, before);
}

#[test]
fn mark_dirty_sets_the_flag() {
    let mut page = vector_page(4);
    page.mark_dirty();
    assert!(page.dirty);
    assert_eq!(page.page_id, 4);
}

#[test]
fn cache_config_defaults() {
    let c = CacheConfig::default();
    assert_eq!(c.max_pages, 16384);
    assert_eq!(c.page_size, 4096);
}

#[test]
fn page_table_evicts_only_clean_pages_other_than_zero() {
    let mut table = PageTable::new(2);
    table.insert(CachedPage { page_id: 0, data: page_zero_data(PAGE, &DbHeader::new(PAGE)), dirty: false });
    let mut dirty = vector_page(1);
    dirty.mark_dirty();
    table.insert(dirty);
    // Full, and nothing may be evicted: the table grows.
    table.insert(vector_page(2));
    assert_eq!(table.pages.len(), 3);
    // Page 2 is clean: it is the one evicted for page 3.
    table.insert(vector_page(3));
    assert_eq!(table.pages.len(), 3);
    assert!(table.find(2).is_none());
    assert!(table.find(0).is_some() && table.find(1).is_some() && table.find(3).is_some());
    assert_eq!(table.dirty_page_ids(), vec![1]);
}

#[test]
fn page_table_writes_cells_through() {
    let mut table = PageTable::new(8);
    table.insert(vector_page(5));
    assert_eq!(table.write_cell(5, PAGE, b"abc", None), Some(true));
    assert_eq!(table.write_cell(6, PAGE, b"abc", None), None);
    let page = table.get(5).unwrap();
    assert_eq!(page.cell_data(0), Some(b"abc".to_vec()));
    assert_eq!(table.dirty_page_ids(), vec![5]);
    // Inserting a page with the same ID replaces it.
    table.insert(vector_page(5));
    assert_eq!(table.pages.len(), 1);
    assert_eq!(table.get(5).unwrap().cell_data(0), None);
}
