//! Cached pages and the page table of the cache.
//!
//! A cached page is the in-memory copy of one page of the database file.
//! This module reads cells out of a cached page, writes cells into it,
//! builds the images of fresh pages, and keeps the table of cached pages
//! with its eviction rule. Reading and writing the file itself is left to
//! the caller.

use vstd::prelude::*;
use crate::bytes::{lemma_u16_roundtrip, splice, u16_of_le};
use crate::format::{
    cell_bytes, cell_pointer_bytes, cell_pointers_raw, db_header_bytes, decode_pointers,
    decoded_pointer, encode_cell_pointer, fresh_page_header, lemma_db_header_bytes_prefix,
    lemma_page_header_bytes_len, lemma_page_header_roundtrip, page_header_bytes,
    parse_page_header, put_bytes, read_cell_data, read_cell_pointers, read_page_header,
    spec_has_room, DbHeader, PageHeader, PageType, DATA_START_OFFSET, DB_HEADER_SIZE,
    DEFAULT_PAGE_SIZE, MAX_CELLS_PER_PAGE, PAGE_HEADER_SIZE,
};

verus! {

/// An in-memory cached page.
#[derive(Clone)]
pub struct CachedPage {
    /// The page's identifier.
    pub page_id: u64,
    /// Raw page data.
    pub data: Vec<u8>,
    /// Whether the page has been modified since it was read from disk.
    pub dirty: bool,
}

/// The header of the page with this ID and data. Page 0 stores the
/// database header instead of a page header, so it gets a synthetic catalog
/// header.
pub open spec fn header_of(page_id: u64, data: Seq<u8>) -> PageHeader {
    if page_id == 0 {
        fresh_page_header(PageType::Catalog, 0)
    } else {
        parse_page_header(data)
    }
}

/// The header of a cached page.
pub open spec fn cached_header(p: CachedPage) -> PageHeader {
    header_of(p.page_id, p.data@)
}

/// The bytes of the cell with the given index in the page with this ID and
/// data, if the page has it.
pub open spec fn cell_of(page_id: u64, data: Seq<u8>, index: u16) -> Option<Seq<u8>> {
    let h = header_of(page_id, data);
    let ptrs = decode_pointers(cell_pointers_raw(h, data));
    if index >= h.num_cells || index >= ptrs.len() {
        None
    } else {
        Some(cell_bytes(data, ptrs[index as int]))
    }
}

/// Whether the header of a cached page can be read.
pub open spec fn header_readable(p: CachedPage) -> bool {
    p.page_id == 0 || p.data@.len() >= PAGE_HEADER_SIZE
}

/// The bytes of the cell with the given index, if the cached page has it.
pub open spec fn spec_cell_data(p: CachedPage, index: u16) -> Option<Seq<u8>> {
    cell_of(p.page_id, p.data@, index)
}

/// Where a cell write puts the cell pointer.
pub open spec fn pointer_slot(h: PageHeader, cell_index: Option<u16>) -> int {
    16 + 4 * match cell_index {
        Some(i) => i,
        None => h.num_cells,
    }
}

/// The header of a page after a cell of `len` bytes was written to it.
pub open spec fn header_after_write(h: PageHeader, len: u16, cell_index: Option<u16>) -> PageHeader {
    PageHeader {
        free_space_offset: (h.free_space_offset + len) as u16,
        num_cells: if cell_index is None {
            (h.num_cells + 1) as u16
        } else {
            h.num_cells
        },
        ..h
    }
}

/// The conditions under which writing a cell does not fail on a bound or
/// an arithmetic overflow: the header can be read, and when the page has
/// room, the cell, its pointer and the header all fit in the page data and
/// in 16-bit offsets.
pub open spec fn write_cell_in_bounds(
    p: CachedPage,
    page_size: u32,
    len: int,
    cell_index: Option<u16>,
) -> bool {
    &&& header_readable(p)
    &&& {
        let h = cached_header(p);
        spec_has_room(h, page_size, len as u16) ==> {
            &&& len <= u16::MAX
            &&& h.free_space_offset + len <= u16::MAX
            &&& h.free_space_offset + len <= p.data@.len()
            &&& pointer_slot(h, cell_index) <= u16::MAX
            &&& pointer_slot(h, cell_index) + 4 <= p.data@.len()
            &&& PAGE_HEADER_SIZE <= p.data@.len()
        }
    }
}

/// The page data after a cell was written: the cell at the free-space
/// offset, its pointer in its slot, and the updated header at the start.
pub open spec fn data_after_write(
    p: CachedPage,
    cell: Seq<u8>,
    cell_index: Option<u16>,
) -> Seq<u8> {
    let h = cached_header(p);
    let start = h.free_space_offset;
    let with_cell = splice(p.data@, start as int, cell);
    let with_ptr = splice(
        with_cell,
        pointer_slot(h, cell_index),
        cell_pointer_bytes((start, cell.len() as u16)),
    );
    splice(with_ptr, 0, page_header_bytes(header_after_write(h, cell.len() as u16, cell_index)))
}

impl CachedPage {
    /// Get the page header (synthetic for page 0).
    pub fn header(&self) -> (r: PageHeader)
        requires
            header_readable(*self),
        ensures
            r == cached_header(*self),
    {
        if self.page_id == 0 {
            return PageHeader::new(PageType::Catalog, 0);
        }
        match read_page_header(self.data.as_slice()) {
            Some(h) => h,
            None => {
                proof {
                    assert(false);
                }
                PageHeader::new(PageType::Catalog, 0)
            },
        }
    }

    /// Get a copy of the data of the cell with the given index.
    pub fn cell_data(&self, index: u16) -> (r: Option<Vec<u8>>)
        requires
            header_readable(*self),
        ensures
            r matches Some(v) ==> spec_cell_data(*self, index) == Some(v@),
            r is None ==> spec_cell_data(*self, index) is None,
    {
        let header = self.header();
        if index >= header.num_cells {
            return None;
        }
        let pointers = read_cell_pointers(&header, self.data.as_slice());
        if (index as usize) < pointers.len() {
            let ptr = pointers[index as usize];
            let bytes = read_cell_data(self.data.as_slice(), ptr);
            Some(crate::wal::copy_range(bytes, 0, bytes.len()))
        } else {
            None
        }
    }

    /// Mark the page as dirty.
    pub fn mark_dirty(&mut self)
        ensures
            *final(self) == (CachedPage { dirty: true, ..*old(self) }),
    {
        self.dirty = true;
    }

    /// Write a cell into this page: the cell data goes to the free-space
    /// offset, its pointer to slot `cell_index` (a new slot after the last
    /// cell when `None`), and the header is updated in place. Returns false,
    /// changing nothing, when the page is full or lacks the room.
    pub fn write_cell(&mut self, page_size: u32, cell_data: &[u8], cell_index: Option<u16>) -> (r:
        bool)
        requires
            write_cell_in_bounds(*old(self), page_size, cell_data@.len() as int, cell_index),
        ensures
            r == spec_has_room(cached_header(*old(self)), page_size, cell_data@.len() as u16),
            !r ==> *final(self) == *old(self),
            r ==> final(self).page_id == old(self).page_id && final(self).dirty && final(self).data@
                == data_after_write(*old(self), cell_data@, cell_index),
    {
        let needed = cell_data.len() as u16;
        let header = self.header();
        if header.num_cells >= MAX_CELLS_PER_PAGE {
            return false;
        }
        if !header.has_room(page_size, needed) {
            return false;
        }
        let ghost d0 = self.data@;
        let cell_idx = match cell_index {
            Some(i) => i,
            None => header.num_cells,
        };
        let cell_start = header.free_space_offset;
        let cell_end = cell_start + needed;
        put_bytes(self.data.as_mut_slice(), cell_start as usize, cell_data);
        let ptr_offset = (PAGE_HEADER_SIZE + cell_idx * 4) as usize;
        let encoded = encode_cell_pointer((cell_start, needed));
        put_bytes(self.data.as_mut_slice(), ptr_offset, &encoded);
        let mut new_header = header;
        new_header.free_space_offset = cell_end;
        if cell_index.is_none() {
            new_header.num_cells = new_header.num_cells + 1;
        }
        new_header.serialize_to(self.data.as_mut_slice());
        self.mark_dirty();
        proof {
            assert(needed == cell_data@.len());
            assert(new_header == header_after_write(header, needed, cell_index));
        }
        true
    }
}

/// After a cell is appended to a page (not page 0) whose data area starts
/// past the pointer slots, reading the cell back at the new index gives
/// exactly the bytes that were written.
pub proof fn lemma_write_then_read_cell(p: CachedPage, page_size: u32, cell: Seq<u8>)
    requires
        p.page_id != 0,
        write_cell_in_bounds(p, page_size, cell.len() as int, None),
        spec_has_room(cached_header(p), page_size, cell.len() as u16),
        cached_header(p).free_space_offset >= DATA_START_OFFSET,
    ensures
        cell_of(p.page_id, data_after_write(p, cell, None), cached_header(p).num_cells) == Some(cell),
{
    let h = cached_header(p);
    let n = h.num_cells;
    let len = cell.len() as u16;
    let start = h.free_space_offset;
    let d0 = p.data@;
    let d1 = splice(d0, start as int, cell);
    let ptr = cell_pointer_bytes((start, len));
    lemma_u16_roundtrip(start);
    lemma_u16_roundtrip(len);
    let slot = 16 + 4 * n;
    let d2 = splice(d1, slot, ptr);
    let h2 = header_after_write(h, len, None);
    lemma_page_header_bytes_len(h2);
    lemma_page_header_roundtrip(h2);
    let d3 = splice(d2, 0, page_header_bytes(h2));
    assert(d3 == data_after_write(p, cell, None));
    assert(d3.subrange(0, 16) =~= page_header_bytes(h2));
    assert(parse_page_header(d3) == parse_page_header(d3.subrange(0, 16))) by {
        let b = d3.subrange(0, 16);
        assert(b.subrange(1, 5) =~= d3.subrange(1, 5));
        assert(b.subrange(5, 7) =~= d3.subrange(5, 7));
        assert(b.subrange(7, 9) =~= d3.subrange(7, 9));
        assert(b.subrange(9, 13) =~= d3.subrange(9, 13));
        assert(b.subrange(13, 15) =~= d3.subrange(13, 15));
    }
    assert(header_of(p.page_id, d3) == h2);
    let raw = cell_pointers_raw(h2, d3);
    assert(raw == d3.subrange(16, 16 + 4 * (n + 1)));
    assert(raw.subrange(4 * n, 4 * n + 2) =~= ptr.subrange(0, 2));
    assert(ptr.subrange(0, 2) =~= crate::bytes::le_u16(start));
    assert(raw.subrange(4 * n + 2, 4 * n + 4) =~= ptr.subrange(2, 4));
    assert(ptr.subrange(2, 4) =~= crate::bytes::le_u16(len));
    let ptrs = decode_pointers(raw);
    assert(ptrs[n as int] == decoded_pointer(raw, n as int));
    assert(ptrs[n as int] == (start, len));
    assert(cell_bytes(d3, (start, len)) =~= cell);
}

/// Cell `i` of the page lies in the data area, below the free space.
pub open spec fn cell_in_data_area(p: CachedPage, i: int) -> bool {
    let h = cached_header(p);
    let ptrs = decode_pointers(cell_pointers_raw(h, p.data@));
    &&& 0 <= i < h.num_cells
    &&& i < ptrs.len()
    &&& DATA_START_OFFSET <= ptrs[i].0
    &&& ptrs[i].0 + ptrs[i].1 <= h.free_space_offset
}

/// Appending a cell leaves every earlier cell that lies in the data area
/// readable as it was.
pub proof fn lemma_write_keeps_cells(p: CachedPage, page_size: u32, cell: Seq<u8>, i: int)
    requires
        p.page_id != 0,
        write_cell_in_bounds(p, page_size, cell.len() as int, None),
        spec_has_room(cached_header(p), page_size, cell.len() as u16),
        cached_header(p).free_space_offset >= DATA_START_OFFSET,
        cell_in_data_area(p, i),
    ensures
        cell_of(p.page_id, data_after_write(p, cell, None), i as u16) == cell_of(p.page_id, p.data@, i as u16),
{
    let h = cached_header(p);
    let n = h.num_cells;
    let len = cell.len() as u16;
    let start = h.free_space_offset;
    let d0 = p.data@;
    let d1 = splice(d0, start as int, cell);
    let ptr = cell_pointer_bytes((start, len));
    let slot = 16 + 4 * n;
    let d2 = splice(d1, slot, ptr);
    let h2 = header_after_write(h, len, None);
    lemma_page_header_bytes_len(h2);
    lemma_page_header_roundtrip(h2);
    let d3 = splice(d2, 0, page_header_bytes(h2));
    assert(d3 == data_after_write(p, cell, None));
    assert(parse_page_header(d3) == parse_page_header(d3.subrange(0, 16))) by {
        let b = d3.subrange(0, 16);
        assert(b.subrange(1, 5) =~= d3.subrange(1, 5));
        assert(b.subrange(5, 7) =~= d3.subrange(5, 7));
        assert(b.subrange(7, 9) =~= d3.subrange(7, 9));
        assert(b.subrange(9, 13) =~= d3.subrange(9, 13));
        assert(b.subrange(13, 15) =~= d3.subrange(13, 15));
    }
    assert(d3.subrange(0, 16) =~= page_header_bytes(h2));
    assert(header_of(p.page_id, d3) == h2);
    let raw0 = cell_pointers_raw(h, d0);
    let raw3 = cell_pointers_raw(h2, d3);
    assert(raw0 == d0.subrange(16, 16 + 4 * n));
    assert(raw3 == d3.subrange(16, 16 + 4 * (n + 1)));
    assert(raw3.subrange(4 * i, 4 * i + 4) =~= raw0.subrange(4 * i, 4 * i + 4)) by {
        assert forall|t: int| 0 <= t < 4 implies #[trigger] raw3.subrange(4 * i, 4 * i + 4)[t]
            == raw0.subrange(4 * i, 4 * i + 4)[t] by {
            assert(d3[16 + 4 * i + t] == d2[16 + 4 * i + t]);
            assert(d2[16 + 4 * i + t] == d1[16 + 4 * i + t]);
            assert(d1[16 + 4 * i + t] == d0[16 + 4 * i + t]);
        }
    }
    assert(raw3.subrange(4 * i, 4 * i + 2) =~= raw3.subrange(4 * i, 4 * i + 4).subrange(0, 2));
    assert(raw0.subrange(4 * i, 4 * i + 2) =~= raw0.subrange(4 * i, 4 * i + 4).subrange(0, 2));
    assert(raw3.subrange(4 * i + 2, 4 * i + 4) =~= raw3.subrange(4 * i, 4 * i + 4).subrange(2, 4));
    assert(raw0.subrange(4 * i + 2, 4 * i + 4) =~= raw0.subrange(4 * i, 4 * i + 4).subrange(2, 4));
    let q = decode_pointers(raw0)[i];
    assert(decode_pointers(raw3)[i] == decoded_pointer(raw3, i));
    assert(decode_pointers(raw0)[i] == decoded_pointer(raw0, i));
    assert(decode_pointers(raw3)[i] == q);
    assert(cell_bytes(d3, q) =~= cell_bytes(d0, q)) by {
        assert forall|t: int| 0 <= t < q.1 implies #[trigger] cell_bytes(d3, q)[t] == cell_bytes(d0, q)[t] by {
            let t = q.0 + t;
            assert(d3[t] == d2[t]);
            assert(d2[t] == d1[t]);
            assert(d1[t] == d0[t]);
        }
    }
}


// ---------------------------------------------------------------------------
// Fresh page images
// ---------------------------------------------------------------------------

/// `n` zero bytes.
pub open spec fn zeros(n: int) -> Seq<u8> {
    Seq::new(n as nat, |i: int| 0u8)
}

/// The image of a freshly allocated page: its header, then zeros.
pub fn new_page_data(page_size: u32, page_type: PageType, collection_id: u32) -> (r: Vec<u8>)
    requires
        page_size >= PAGE_HEADER_SIZE,
    ensures
        r@ == page_header_bytes(fresh_page_header(page_type, collection_id)) + zeros(
            page_size - PAGE_HEADER_SIZE,
        ),
{
    let mut page_data: Vec<u8> = vec![0u8; page_size as usize];
    let ghost z = page_data@;
    let page_header = PageHeader::new(page_type, collection_id);
    page_header.serialize_to(page_data.as_mut_slice());
    proof {
        lemma_page_header_bytes_len(page_header);
        assert(page_data@ =~= page_header_bytes(page_header) + zeros(page_size - PAGE_HEADER_SIZE));
    }
    page_data
}

/// The image of page 0 of a new database: the database header, then zeros.
pub fn page_zero_data(page_size: u32, db_header: &DbHeader) -> (r: Vec<u8>)
    requires
        page_size >= DB_HEADER_SIZE,
    ensures
        r@ == db_header_bytes(*db_header) + zeros(page_size - DB_HEADER_SIZE),
{
    let mut page_data: Vec<u8> = vec![0u8; page_size as usize];
    db_header.serialize_to(page_data.as_mut_slice());
    proof {
        lemma_db_header_bytes_prefix(*db_header);
        assert(page_data@ =~= db_header_bytes(*db_header) + zeros(page_size - DB_HEADER_SIZE));
    }
    page_data
}

// ---------------------------------------------------------------------------
// Cache configuration and page table
// ---------------------------------------------------------------------------

/// Configuration for the page cache.
#[derive(Debug, Clone)]
pub struct CacheConfig {
    /// Maximum number of pages to keep in memory.
    pub max_pages: usize,
    /// Page size in bytes (must match the database file).
    pub page_size: u32,
}

impl Default for CacheConfig {
    fn default() -> (r: Self)
        ensures
            r.max_pages == 16384,
            r.page_size == DEFAULT_PAGE_SIZE,
    {
        CacheConfig { max_pages: 16384, page_size: DEFAULT_PAGE_SIZE }
    }
}

/// The IDs of a list of pages.
pub open spec fn page_ids(pages: Seq<CachedPage>) -> Seq<u64> {
    pages.map_values(|p: CachedPage| p.page_id)
}

/// Whether a page may be evicted: it is clean and is not page 0.
pub open spec fn evictable(p: CachedPage) -> bool {
    p.page_id != 0 && !p.dirty
}

/// The pages held in memory, at most one per page ID.
pub struct PageTable {
    /// Number of pages past which an insertion first evicts one.
    pub max_pages: usize,
    /// The cached pages.
    pub pages: Vec<CachedPage>,
}

impl PageTable {
    /// No two cached pages share an ID.
    pub open spec fn wf(&self) -> bool {
        forall|i: int, j: int|
            0 <= i < j < self.pages@.len() ==> (#[trigger] self.pages@[i]).page_id
                != (#[trigger] self.pages@[j]).page_id
    }

    /// Whether a page with this ID is cached.
    pub open spec fn holds(&self, page_id: u64) -> bool {
        exists|i: int| 0 <= i < self.pages@.len() && (#[trigger] self.pages@[i]).page_id == page_id
    }

    /// An empty table.
    pub fn new(max_pages: usize) -> (r: Self)
        ensures
            r.wf(),
            r.max_pages == max_pages,
            r.pages@.len() == 0,
    {
        PageTable { max_pages, pages: Vec::new() }
    }

    /// The position of the page with this ID, if it is cached.
    pub fn find(&self, page_id: u64) -> (r: Option<usize>)
        ensures
            r matches Some(i) ==> i < self.pages@.len() && self.pages@[i as int].page_id == page_id,
            r is None ==> !self.holds(page_id),
    {
        let n = self.pages.len();
        let mut i: usize = 0;
        while i < n
            invariant
                n == self.pages@.len(),
                i <= n,
                forall|j: int| 0 <= j < i ==> (#[trigger] self.pages@[j]).page_id != page_id,
            decreases n - i,
        {
            if self.pages[i].page_id == page_id {
                return Some(i);
            }
            i += 1;
        }
        None
    }

    /// The cached page with this ID, if any.
    pub fn get(&self, page_id: u64) -> (r: Option<&CachedPage>)
        ensures
            r matches Some(p) ==> p.page_id == page_id && self.pages@.contains(*p),
            r is None ==> !self.holds(page_id),
    {
        match self.find(page_id) {
            Some(i) => Some(&self.pages[i]),
            None => None,
        }
    }

    /// The position of the first page that may be evicted, if any.
    fn eviction_victim(&self) -> (r: Option<usize>)
        ensures
            r matches Some(i) ==> i < self.pages@.len() && evictable(self.pages@[i as int]),
            r is None ==> forall|j: int|
                0 <= j < self.pages@.len() ==> !evictable(#[trigger] self.pages@[j]),
    {
        let n = self.pages.len();
        let mut i: usize = 0;
        while i < n
            invariant
                n == self.pages@.len(),
                i <= n,
                forall|j: int| 0 <= j < i ==> !evictable(#[trigger] self.pages@[j]),
            decreases n - i,
        {
            if self.pages[i].page_id != 0 && !self.pages[i].dirty {
                return Some(i);
            }
            i += 1;
        }
        None
    }

    /// Writes a cell into the cached page with this ID (see
    /// `CachedPage::write_cell`); `None`, changing nothing, when the page is
    /// not cached.
    pub fn write_cell(&mut self, page_id: u64, page_size: u32, cell_data: &[u8], cell_index: Option<
        u16,
    >) -> (r: Option<bool>)
        requires
            old(self).wf(),
            forall|k: int|
                0 <= k < old(self).pages@.len() && (#[trigger] old(self).pages@[k]).page_id
                    == page_id ==> write_cell_in_bounds(
                    old(self).pages@[k],
                    page_size,
                    cell_data@.len() as int,
                    cell_index,
                ),
        ensures
            final(self).wf(),
            final(self).max_pages == old(self).max_pages,
            r is None <==> !old(self).holds(page_id),
            r is None ==> final(self).pages@ == old(self).pages@,
            forall|k: int|
                0 <= k < old(self).pages@.len() && (#[trigger] old(self).pages@[k]).page_id
                    == page_id ==> {
                    let before = old(self).pages@[k];
                    let after = final(self).pages@[k];
                    let wrote = spec_has_room(
                        cached_header(before),
                        page_size,
                        cell_data@.len() as u16,
                    );
                    &&& r == Some(wrote)
                    &&& final(self).pages@ == old(self).pages@.update(k, after)
                    &&& !wrote ==> after == before
                    &&& wrote ==> after.page_id == page_id && after.dirty && after.data@
                        == data_after_write(before, cell_data@, cell_index)
                },
    {
        let ghost p0 = self.pages@;
        match self.find(page_id) {
            None => None,
            Some(i) => {
                let mut pg = self.pages.remove(i);
                let wrote = pg.write_cell(page_size, cell_data, cell_index);
                self.pages.insert(i, pg);
                proof {
                    assert(self.pages@ =~= p0.update(i as int, pg));
                    assert forall|k: int|
                        0 <= k < p0.len() && (#[trigger] p0[k]).page_id == page_id implies k
                        == i by {
                        if k != i {
                            if k < i {
                                assert(p0[k].page_id != p0[i as int].page_id);
                            } else {
                                assert(p0[i as int].page_id != p0[k].page_id);
                            }
                        }
                    }
                    assert forall|a: int, b: int|
                        0 <= a < b < self.pages@.len() implies (#[trigger] self.pages@[a]).page_id
                            != (#[trigger] self.pages@[b]).page_id by {
                        assert(p0[a].page_id != p0[b].page_id);
                    }
                }
                Some(wrote)
            },
        }
    }

    /// The IDs of the dirty cached pages, in table order.
    pub fn dirty_page_ids(&self) -> (r: Vec<u64>)
        ensures
            forall|id: u64|
                r@.contains(id) <==> exists|k: int|
                    0 <= k < self.pages@.len() && (#[trigger] self.pages@[k]).page_id == id
                        && self.pages@[k].dirty,
    {
        let n = self.pages.len();
        let mut out: Vec<u64> = Vec::new();
        let mut i: usize = 0;
        while i < n
            invariant
                n == self.pages@.len(),
                i <= n,
                forall|id: u64|
                    out@.contains(id) <==> exists|k: int|
                        0 <= k < i && (#[trigger] self.pages@[k]).page_id == id
                            && self.pages@[k].dirty,
            decreases n - i,
        {
            let ghost o0 = out@;
            if self.pages[i].dirty {
                out.push(self.pages[i].page_id);
            }
            proof {
                assert forall|id: u64|
                    out@.contains(id) <==> exists|k: int|
                        0 <= k < i + 1 && (#[trigger] self.pages@[k]).page_id == id
                            && self.pages@[k].dirty by {
                    if out@.contains(id) {
                        if o0.contains(id) {
                            let k = choose|k: int|
                                0 <= k < i && (#[trigger] self.pages@[k]).page_id == id
                                    && self.pages@[k].dirty;
                            assert(0 <= k < i + 1);
                        } else {
                            let m = choose|m: int| 0 <= m < out@.len() && out@[m] == id;
                            if m < o0.len() {
                                assert(o0[m] == id);
                                assert(o0.contains(id));
                            }
                            assert(self.pages@[i as int].page_id == id);
                        }
                    }
                    if exists|k: int|
                        0 <= k < i + 1 && (#[trigger] self.pages@[k]).page_id == id
                            && self.pages@[k].dirty {
                        let k = choose|k: int|
                            0 <= k < i + 1 && (#[trigger] self.pages@[k]).page_id == id
                                && self.pages@[k].dirty;
                        if k < i {
                            assert(o0.contains(id));
                            let m = choose|m: int| 0 <= m < o0.len() && o0[m] == id;
                            assert(out@[m] == id);
                        } else {
                            assert(out@[out@.len() - 1] == id);
                        }
                    }
                }
            }
            i += 1;
        }
        out
    }

    /// Caches `page`, replacing any cached page with the same ID. When the
    /// table is full it first evicts one clean page other than page 0, if
    /// there is one; dirty pages and page 0 are never evicted.
    #[verifier::spinoff_prover]
    pub fn insert(&mut self, page: CachedPage)
        requires
            old(self).wf(),
        ensures
            final(self).wf(),
            final(self).max_pages == old(self).max_pages,
            final(self).pages@.contains(page),
            old(self).pages@.len() <= final(self).pages@.len() <= old(self).pages@.len() + 1,
            old(self).holds(page.page_id) || old(self).pages@.len() < old(self).max_pages ==> forall|
                q: CachedPage|
                old(self).pages@.contains(q) && q.page_id != page.page_id
                    ==> #[trigger] final(self).pages@.contains(q),
            forall|q: CachedPage|
                old(self).pages@.contains(q) && q.page_id != page.page_id && !evictable(q)
                    ==> #[trigger] final(self).pages@.contains(q),
            forall|q: CachedPage|
                #[trigger] final(self).pages@.contains(q) ==> q == page || (old(
                    self,
                ).pages@.contains(q) && q.page_id != page.page_id),
            !old(self).holds(page.page_id) && old(self).pages@.len() >= old(self).max_pages ==> (
            final(self).pages@.len() == old(self).pages@.len() <==> exists|j: int|
                0 <= j < old(self).pages@.len() && evictable(#[trigger] old(self).pages@[j])),
    {
        let ghost p0 = self.pages@;
        match self.find(page.page_id) {
            Some(i) => {
                self.pages.set(i, page);
                proof {
                    assert(self.pages@[i as int] == page);
                    assert forall|q: CachedPage|
                        p0.contains(q) && q.page_id != page.page_id implies #[trigger] self.pages@.contains(q) by {
                        let k = choose|k: int| 0 <= k < p0.len() && p0[k] == q;
                        assert(self.pages@[k] == q);
                    }
                    assert forall|q: CachedPage| #[trigger] self.pages@.contains(q) implies q == page
                        || (p0.contains(q) && q.page_id != page.page_id) by {
                        let k = choose|k: int| 0 <= k < self.pages@.len() && self.pages@[k] == q;
                        if k != i {
                            assert(p0[k] == q);
                            assert(p0[k].page_id != p0[i as int].page_id);
                        }
                    }
                }
            },
            None => {
                let ghost mut removed: int = -1;
                if self.pages.len() >= self.max_pages {
                    match self.eviction_victim() {
                        Some(v) => {
                            self.pages.remove(v);
                            proof {
                                removed = v as int;
                            }
                        },
                        None => {},
                    }
                }
                let ghost p1 = self.pages@;
                proof {
                    assert(removed == -1 ==> p1 == p0);
                    assert(removed != -1 ==> 0 <= removed < p0.len() && evictable(p0[removed])
                        && p1 == p0.remove(removed));
                    assert forall|k: int| 0 <= k < p1.len() implies #[trigger] p1[k] == p0[
                        if removed != -1 && k >= removed { k + 1 } else { k }] by {}
                    assert forall|q: CachedPage|
                        p0.contains(q) && !evictable(q) implies #[trigger] p1.contains(q) by {
                        let k = choose|k: int| 0 <= k < p0.len() && p0[k] == q;
                        if removed != -1 {
                            if k < removed {
                                assert(p1[k] == q);
                            } else {
                                assert(k != removed);
                                assert(p1[k - 1] == q);
                            }
                        }
                    }
                    assert forall|q: CachedPage| #[trigger] p1.contains(q) implies p0.contains(q) by {
                        let k = choose|k: int| 0 <= k < p1.len() && p1[k] == q;
                        if removed != -1 && k >= removed {
                            assert(p0[k + 1] == q);
                        } else {
                            assert(p0[k] == q);
                        }
                    }
                    assert forall|a: int, b: int|
                        0 <= a < b < p1.len() implies (#[trigger] p1[a]).page_id != (#[trigger] p1[b]).page_id by {
                        let a2 = if removed != -1 && a >= removed { a + 1 } else { a };
                        let b2 = if removed != -1 && b >= removed { b + 1 } else { b };
                        assert(p1[a] == p0[a2]);
                        assert(p1[b] == p0[b2]);
                        assert(p0[a2].page_id != p0[b2].page_id);
                    }
                }
                self.pages.push(page);
                proof {
                    assert(self.pages@ == p1.push(page));
                    assert(self.pages@[p1.len() as int] == page);
                    assert forall|a: int, b: int|
                        0 <= a < b < self.pages@.len() implies (#[trigger] self.pages@[a]).page_id
                            != (#[trigger] self.pages@[b]).page_id by {
                        if b == p1.len() {
                            assert(p1.contains(p1[a]));
                            assert(p0.contains(p1[a]));
                        } else {
                            assert(p1[a].page_id != p1[b].page_id);
                        }
                    }
                    assert forall|q: CachedPage|
                        p0.contains(q) && q.page_id != page.page_id && !evictable(q) implies #[trigger] self.pages@.contains(q) by {
                        assert(p1.contains(q));
                        let k = choose|k: int| 0 <= k < p1.len() && p1[k] == q;
                        assert(self.pages@[k] == q);
                    }
                    if p0.len() < self.max_pages {
                        assert forall|q: CachedPage|
                            p0.contains(q) && q.page_id != page.page_id implies #[trigger] self.pages@.contains(q) by {
                            let k = choose|k: int| 0 <= k < p0.len() && p0[k] == q;
                            assert(self.pages@[k] == q);
                        }
                    }
                    assert forall|q: CachedPage| #[trigger] self.pages@.contains(q) implies q == page
                        || (p0.contains(q) && q.page_id != page.page_id) by {
                        let k = choose|k: int| 0 <= k < self.pages@.len() && self.pages@[k] == q;
                        if k < p1.len() {
                            assert(p1[k] == q);
                            assert(p1.contains(q));
                            assert(p0.contains(q));
                        }
                    }
                }
            },
        }
    }
}

} // verus!
