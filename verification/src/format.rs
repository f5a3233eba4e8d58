//! On-disk page layout and type definitions.
//!
//! The database file is a sequence of fixed-size pages. Page 0 starts with
//! the 100-byte database header. Every other page starts with a 16-byte page
//! header, followed by the cell pointer array (up to 256 pointers of four
//! bytes each) and then the cell data, which grows upward from
//! `DATA_START_OFFSET`.

use vstd::prelude::*;
use crate::bytes::{
    get_u16, get_u32, get_u64, le_u16, le_u32, le_u64, lemma_u16_bytes_roundtrip, lemma_u16_roundtrip,
    lemma_u32_bytes_roundtrip, lemma_u32_roundtrip, lemma_u64_bytes_roundtrip, lemma_u64_roundtrip,
    put_u16, put_u32, put_u64, splice, u16_of_le, u32_of_le, u64_of_le,
};
use crate::crc::{crc32, crc32_hash};

verus! {

/// Size of the page header in bytes.
pub const PAGE_HEADER_SIZE: u16 = 16;

/// Size of the database file header in bytes.
pub const DB_HEADER_SIZE: usize = 100;

/// Size of a single cell pointer in bytes (two `u16`s).
pub const CELL_POINTER_SIZE: usize = 4;

/// Maximum number of cells per page.
pub const MAX_CELLS_PER_PAGE: u16 = 256;

/// Offset where cell data begins on a fresh page: after the header and the
/// room reserved for `MAX_CELLS_PER_PAGE` cell pointers (16 + 256 * 4).
pub const DATA_START_OFFSET: u16 = 1040;

/// Current version of the on-disk format.
pub const FORMAT_VERSION: u32 = 1;

/// Default page size in bytes.
pub const DEFAULT_PAGE_SIZE: u32 = 4096;

/// Maximum number of pages a single database file can contain (2^32).
pub const MAX_PAGES: u64 = 4294967296;

/// Cell pointer: (offset from page start, length in bytes).
pub type CellPointer = (u16, u16);

/// The magic bytes that open every database file: `"EmbedDB v1\0"`.
pub open spec fn spec_magic() -> Seq<u8> {
    seq![69u8, 109u8, 98u8, 101u8, 100u8, 68u8, 66u8, 32u8, 118u8, 49u8, 0u8]
}

/// The 16-byte magic field of a fresh header: the magic bytes, zero-padded.
pub open spec fn spec_magic_field() -> Seq<u8> {
    spec_magic() + Seq::new(5, |i: int| 0u8)
}

// ---------------------------------------------------------------------------
// Page types
// ---------------------------------------------------------------------------

/// Identifies the type of data stored on a page.
#[derive(Debug, Clone, Copy, PartialEq, Eq, Structural)]
pub enum PageType {
    /// Free / unallocated page.
    Free,
    /// Vector data page.
    Vector,
    /// HNSW edge page: adjacency list fragments.
    HnswEdge,
    /// Metadata page.
    Metadata,
    /// Collection catalog page.
    Catalog,
}

/// The byte that identifies a page type on disk.
pub open spec fn page_type_code(t: PageType) -> u8 {
    match t {
        PageType::Free => 0u8,
        PageType::Vector => 1u8,
        PageType::HnswEdge => 2u8,
        PageType::Metadata => 3u8,
        PageType::Catalog => 4u8,
    }
}

/// The page type a byte identifies, if any.
pub open spec fn page_type_of_code(v: u8) -> Option<PageType> {
    if v == 0 {
        Some(PageType::Free)
    } else if v == 1 {
        Some(PageType::Vector)
    } else if v == 2 {
        Some(PageType::HnswEdge)
    } else if v == 3 {
        Some(PageType::Metadata)
    } else if v == 4 {
        Some(PageType::Catalog)
    } else {
        None
    }
}

impl PageType {
    /// The byte that identifies this page type on disk.
    pub fn to_u8(self) -> (r: u8)
        ensures
            r == page_type_code(self),
    {
        match self {
            PageType::Free => 0,
            PageType::Vector => 1,
            PageType::HnswEdge => 2,
            PageType::Metadata => 3,
            PageType::Catalog => 4,
        }
    }

    /// Convert a byte into a page type, if it identifies one.
    pub fn from_u8(v: u8) -> (r: Option<Self>)
        ensures
            r == page_type_of_code(v),
    {
        match v {
            0 => Some(PageType::Free),
            1 => Some(PageType::Vector),
            2 => Some(PageType::HnswEdge),
            3 => Some(PageType::Metadata),
            4 => Some(PageType::Catalog),
            _ => None,
        }
    }
}

/// Every page type survives the trip through its byte code, and exactly the
/// bytes 0 to 4 are codes.
pub proof fn lemma_page_type_code_roundtrip(t: PageType, v: u8)
    ensures
        page_type_of_code(page_type_code(t)) == Some(t),
        page_type_of_code(v) is Some <==> v <= 4,
        page_type_of_code(v) matches Some(u) ==> page_type_code(u) == v,
{
}

// ---------------------------------------------------------------------------
// Database header (first 100 bytes of page 0)
// ---------------------------------------------------------------------------

/// The database file header, stored in the first 100 bytes of the file.
///
/// Binary layout (100 bytes, little-endian):
/// magic (16) at 0, format_version (4) at 16, page_size (4) at 20,
/// page_count (8) at 24, catalog_root_page (8) at 32, wal_sequence (8) at 40,
/// created_at (8) at 48, last_checkpoint (8) at 56, checksum (4) at 64,
/// reserved (32) at 68.
#[derive(Debug, Clone, Copy)]
pub struct DbHeader {
    /// Magic bytes: "EmbedDB v1\0" plus 5 zero bytes.
    pub magic: [u8; 16],
    /// Format version number.
    pub format_version: u32,
    /// Page size in bytes.
    pub page_size: u32,
    /// Total number of pages in the file.
    pub page_count: u64,
    /// Page ID of the first collection catalog page.
    pub catalog_root_page: u64,
    /// WAL sequence number (0 if no WAL).
    pub wal_sequence: u64,
    /// Creation timestamp (Unix epoch seconds).
    pub created_at: u64,
    /// Last checkpoint timestamp (Unix epoch seconds).
    pub last_checkpoint: u64,
    /// CRC32 checksum of the first 64 header bytes.
    pub checksum: u32,
    /// Reserved for future use.
    pub _reserved: [u8; 32],
}

/// The first 64 bytes of a serialized header: everything the checksum covers.
pub open spec fn db_header_prefix(h: DbHeader) -> Seq<u8> {
    h.magic@ + le_u32(h.format_version) + le_u32(h.page_size) + le_u64(h.page_count) + le_u64(
        h.catalog_root_page,
    ) + le_u64(h.wal_sequence) + le_u64(h.created_at) + le_u64(h.last_checkpoint)
}

/// The 100-byte serialized form of a header.
pub open spec fn db_header_bytes(h: DbHeader) -> Seq<u8> {
    db_header_prefix(h) + le_u32(h.checksum) + h._reserved@
}

/// `h` is the header that the first 100 bytes of `b` encode.
pub open spec fn db_header_matches(h: DbHeader, b: Seq<u8>) -> bool {
    &&& h.magic@ == b.subrange(0, 16)
    &&& h.format_version == u32_of_le(b.subrange(16, 20))
    &&& h.page_size == u32_of_le(b.subrange(20, 24))
    &&& h.page_count == u64_of_le(b.subrange(24, 32))
    &&& h.catalog_root_page == u64_of_le(b.subrange(32, 40))
    &&& h.wal_sequence == u64_of_le(b.subrange(40, 48))
    &&& h.created_at == u64_of_le(b.subrange(48, 56))
    &&& h.last_checkpoint == u64_of_le(b.subrange(56, 64))
    &&& h.checksum == u32_of_le(b.subrange(64, 68))
    &&& h._reserved@ == b.subrange(68, 100)
}

/// `a` and `b` agree on every field but the checksum.
pub open spec fn db_header_same_but_checksum(a: DbHeader, b: DbHeader) -> bool {
    &&& a.magic == b.magic
    &&& a.format_version == b.format_version
    &&& a.page_size == b.page_size
    &&& a.page_count == b.page_count
    &&& a.catalog_root_page == b.catalog_root_page
    &&& a.wal_sequence == b.wal_sequence
    &&& a.created_at == b.created_at
    &&& a.last_checkpoint == b.last_checkpoint
    &&& a._reserved == b._reserved
}

/// A fresh header: the magic, the current format version, one page, and
/// zero in every other field but the page size and creation time.
pub open spec fn db_header_is_fresh(h: DbHeader, page_size: u32, created_at: u64) -> bool {
    &&& h.magic@ == spec_magic_field()
    &&& h.format_version == FORMAT_VERSION
    &&& h.page_size == page_size
    &&& h.page_count == 1
    &&& h.catalog_root_page == 0
    &&& h.wal_sequence == 0
    &&& h.created_at == created_at
    &&& h.last_checkpoint == 0
    &&& h.checksum == 0
    &&& h._reserved@ == Seq::new(32, |i: int| 0u8)
}

/// Copies `src` into `buf` starting at `off`.
pub(crate) fn put_bytes(buf: &mut [u8], off: usize, src: &[u8])
    requires
        off + src@.len() <= old(buf).len(),
    ensures
        final(buf)@ == splice(old(buf)@, off as int, src@),
{
    let n = src.len();
    let mut i: usize = 0;
    while i < n
        invariant
            n == src@.len(),
            i <= n,
            off + n <= buf.len(),
            buf@.len() == old(buf)@.len(),
            forall|j: int| 0 <= j < off ==> buf@[j] == old(buf)@[j],
            forall|j: int| off + n <= j < buf@.len() ==> buf@[j] == old(buf)@[j],
            forall|j: int| 0 <= j < i ==> buf@[off + j] == src@[j],
        decreases n - i,
    {
        buf[off + i] = src[i];
        i += 1;
    }
    assert(buf@ =~= splice(old(buf)@, off as int, src@));
}

/// The magic field of a fresh header.
fn fresh_magic() -> (m: [u8; 16])
    ensures
        m@ == spec_magic_field(),
{
    let mut m = [0u8; 16];
    m[0] = 69;
    m[1] = 109;
    m[2] = 98;
    m[3] = 101;
    m[4] = 100;
    m[5] = 68;
    m[6] = 66;
    m[7] = 32;
    m[8] = 118;
    m[9] = 49;
    m[10] = 0;
    assert(m@ =~= spec_magic_field());
    m
}

/// Reads the system clock as whole seconds since the Unix epoch, via
/// `std::time::SystemTime::now` and `duration_since(UNIX_EPOCH)`
/// (0 when the clock reads earlier than the epoch). Nothing is promised
/// of the value: it is the time.
#[verifier::external_body]
fn system_clock_secs() -> u64 {
    std::time::SystemTime::now().duration_since(std::time::UNIX_EPOCH).unwrap_or_default().as_secs()
}

/// Get the current Unix timestamp in seconds.
pub fn current_timestamp() -> u64 {
    system_clock_secs()
}

impl Default for DbHeader {
    fn default() -> (h: Self)
        ensures
            db_header_is_fresh(h, DEFAULT_PAGE_SIZE, 0),
    {
        let h = DbHeader {
            magic: fresh_magic(),
            format_version: FORMAT_VERSION,
            page_size: DEFAULT_PAGE_SIZE,
            page_count: 1,
            catalog_root_page: 0,
            wal_sequence: 0,
            created_at: 0,
            last_checkpoint: 0,
            checksum: 0,
            _reserved: [0u8; 32],
        };
        assert(h._reserved@ =~= Seq::new(32, |i: int| 0u8));
        h
    }
}

impl DbHeader {
    /// Create a fresh header for the given page size, stamped with the
    /// current time.
    pub fn new(page_size: u32) -> (h: Self)
        ensures
            db_header_is_fresh(h, page_size, h.created_at),
    {
        let created_at = current_timestamp();
        Self::new_at(page_size, created_at)
    }

    /// Create a fresh header for the given page size and creation time.
    pub fn new_at(page_size: u32, created_at: u64) -> (h: Self)
        ensures
            db_header_is_fresh(h, page_size, created_at),
    {
        let d = Self::default();
        DbHeader { page_size, created_at, ..d }
    }

    /// Serialize into the first `DB_HEADER_SIZE` bytes of `buf`.
    #[verifier::spinoff_prover]
    #[verifier::rlimit(40)]
    pub fn serialize_to(&self, buf: &mut [u8])
        requires
            old(buf).len() >= DB_HEADER_SIZE,
        ensures
            final(buf)@ == splice(old(buf)@, 0, db_header_bytes(*self)),
    {
        let ghost b0 = buf@;
        put_bytes(buf, 0, &self.magic);
        put_u32(buf, 16, self.format_version);
        put_u32(buf, 20, self.page_size);
        put_u64(buf, 24, self.page_count);
        put_u64(buf, 32, self.catalog_root_page);
        put_u64(buf, 40, self.wal_sequence);
        put_u64(buf, 48, self.created_at);
        put_u64(buf, 56, self.last_checkpoint);
        put_u32(buf, 64, self.checksum);
        put_bytes(buf, 68, &self._reserved);
        assert(buf@ =~= splice(b0, 0, db_header_bytes(*self)));
    }

    /// Deserialize from a buffer of at least `DB_HEADER_SIZE` bytes.
    pub fn deserialize_from(buf: &[u8]) -> (r: Option<Self>)
        ensures
            buf@.len() < DB_HEADER_SIZE ==> r is None,
            buf@.len() >= DB_HEADER_SIZE ==> (r matches Some(h) && db_header_matches(h, buf@)),
    {
        if buf.len() < DB_HEADER_SIZE {
            return None;
        }
        let mut magic = [0u8; 16];
        let mut i: usize = 0;
        while i < 16
            invariant
                i <= 16,
                buf@.len() >= DB_HEADER_SIZE,
                forall|j: int| 0 <= j < i ==> magic@[j] == buf@[j],
            decreases 16 - i,
        {
            magic[i] = buf[i];
            i += 1;
        }
        let format_version = get_u32(buf, 16);
        let page_size = get_u32(buf, 20);
        let page_count = get_u64(buf, 24);
        let catalog_root_page = get_u64(buf, 32);
        let wal_sequence = get_u64(buf, 40);
        let created_at = get_u64(buf, 48);
        let last_checkpoint = get_u64(buf, 56);
        let checksum = get_u32(buf, 64);
        let mut reserved = [0u8; 32];
        let mut k: usize = 0;
        while k < 32
            invariant
                k <= 32,
                buf@.len() >= DB_HEADER_SIZE,
                forall|j: int| 0 <= j < k ==> reserved@[j] == buf@[68 + j],
            decreases 32 - k,
        {
            reserved[k] = buf[68 + k];
            k += 1;
        }
        assert(magic@ =~= buf@.subrange(0, 16));
        assert(reserved@ =~= buf@.subrange(68, 100));
        Some(
            DbHeader {
                magic,
                format_version,
                page_size,
                page_count,
                catalog_root_page,
                wal_sequence,
                created_at,
                last_checkpoint,
                checksum,
                _reserved: reserved,
            },
        )
    }

    /// Whether the first 11 magic bytes are `"EmbedDB v1\0"`.
    pub fn validate_magic(&self) -> (r: bool)
        ensures
            r == (self.magic@.subrange(0, 11) == spec_magic()),
    {
        let expected = fresh_magic();
        let mut i: usize = 0;
        while i < 11
            invariant
                i <= 11,
                expected@ == spec_magic_field(),
                forall|j: int| 0 <= j < i ==> self.magic@[j] == spec_magic()[j],
            decreases 11 - i,
        {
            if self.magic[i] != expected[i] {
                assert(self.magic@.subrange(0, 11)[i as int] != spec_magic()[i as int]);
                return false;
            }
            i += 1;
        }
        assert(self.magic@.subrange(0, 11) =~= spec_magic());
        true
    }

    /// Whether the format version is the current one.
    pub fn validate_version(&self) -> (r: bool)
        ensures
            r == (self.format_version == FORMAT_VERSION),
    {
        self.format_version == FORMAT_VERSION
    }

    /// Compute the CRC32 checksum over the first 64 serialized header bytes
    /// and store it in the checksum field.
    pub fn update_checksum(&mut self)
        ensures
            db_header_same_but_checksum(*final(self), *old(self)),
            final(self).checksum == crc32(db_header_prefix(*old(self))),
    {
        self.checksum = 0;
        let mut buf = [0u8; DB_HEADER_SIZE];
        let ghost b0 = buf@;
        self.serialize_to(&mut buf);
        proof {
            lemma_db_header_bytes_prefix(*self);
            assert(buf@.subrange(0, 64) =~= db_header_prefix(*self));
        }
        self.checksum = crc32_hash(&buf[0..64]);
    }

    /// Whether the stored checksum is the CRC32 of the first 64 serialized
    /// header bytes (computed with the checksum field set to zero).
    pub fn verify_checksum(&self) -> (r: bool)
        ensures
            r == (crc32(db_header_prefix(*self)) == self.checksum),
    {
        let stored = self.checksum;
        let mut copy = *self;
        copy.checksum = 0;
        let mut buf = [0u8; DB_HEADER_SIZE];
        copy.serialize_to(&mut buf);
        proof {
            lemma_db_header_bytes_prefix(copy);
            assert(buf@.subrange(0, 64) =~= db_header_prefix(copy));
            assert(db_header_prefix(copy) =~= db_header_prefix(*self));
        }
        crc32_hash(&buf[0..64]) == stored
    }

    /// Size of the serialized header in bytes.
    pub fn serialized_size() -> (r: usize)
        ensures
            r == DB_HEADER_SIZE,
    {
        DB_HEADER_SIZE
    }
}

/// The serialized header is 100 bytes long and begins with its 64-byte prefix.
pub proof fn lemma_db_header_bytes_prefix(h: DbHeader)
    ensures
        db_header_prefix(h).len() == 64,
        db_header_bytes(h).len() == DB_HEADER_SIZE,
        db_header_bytes(h).subrange(0, 64) == db_header_prefix(h),
{
    lemma_u32_roundtrip(h.format_version);
    lemma_u32_roundtrip(h.page_size);
    lemma_u32_roundtrip(h.checksum);
    lemma_u64_roundtrip(h.page_count);
    lemma_u64_roundtrip(h.catalog_root_page);
    lemma_u64_roundtrip(h.wal_sequence);
    lemma_u64_roundtrip(h.created_at);
    lemma_u64_roundtrip(h.last_checkpoint);
    assert(db_header_bytes(h).subrange(0, 64) =~= db_header_prefix(h));
}

/// Serializing a header and reading it back gives the same header: the
/// bytes written by `serialize_to` describe exactly one header, `h`.
pub proof fn lemma_db_header_roundtrip(h: DbHeader, g: DbHeader)
    ensures
        db_header_matches(h, db_header_bytes(h)),
        db_header_matches(g, db_header_bytes(h)) ==> g == h,
{
    lemma_db_header_bytes_prefix(h);
    let b = db_header_bytes(h);
    lemma_u32_roundtrip(h.format_version);
    lemma_u32_roundtrip(h.page_size);
    lemma_u32_roundtrip(h.checksum);
    lemma_u64_roundtrip(h.page_count);
    lemma_u64_roundtrip(h.catalog_root_page);
    lemma_u64_roundtrip(h.wal_sequence);
    lemma_u64_roundtrip(h.created_at);
    lemma_u64_roundtrip(h.last_checkpoint);
    assert(b.subrange(0, 16) =~= h.magic@);
    assert(b.subrange(16, 20) =~= le_u32(h.format_version));
    assert(b.subrange(20, 24) =~= le_u32(h.page_size));
    assert(b.subrange(24, 32) =~= le_u64(h.page_count));
    assert(b.subrange(32, 40) =~= le_u64(h.catalog_root_page));
    assert(b.subrange(40, 48) =~= le_u64(h.wal_sequence));
    assert(b.subrange(48, 56) =~= le_u64(h.created_at));
    assert(b.subrange(56, 64) =~= le_u64(h.last_checkpoint));
    assert(b.subrange(64, 68) =~= le_u32(h.checksum));
    assert(b.subrange(68, 100) =~= h._reserved@);
    if db_header_matches(g, b) {
        assert(g.magic =~= h.magic);
        assert(g._reserved =~= h._reserved);
    }
}

/// Reading a header out of 100 bytes and serializing it again gives those
/// bytes back.
pub proof fn lemma_db_header_bytes_roundtrip(h: DbHeader, b: Seq<u8>)
    requires
        b.len() == DB_HEADER_SIZE,
        db_header_matches(h, b),
    ensures
        db_header_bytes(h) == b,
{
    lemma_u32_bytes_roundtrip(b.subrange(16, 20));
    lemma_u32_bytes_roundtrip(b.subrange(20, 24));
    lemma_u64_bytes_roundtrip(b.subrange(24, 32));
    lemma_u64_bytes_roundtrip(b.subrange(32, 40));
    lemma_u64_bytes_roundtrip(b.subrange(40, 48));
    lemma_u64_bytes_roundtrip(b.subrange(48, 56));
    lemma_u64_bytes_roundtrip(b.subrange(56, 64));
    lemma_u32_bytes_roundtrip(b.subrange(64, 68));
    assert(db_header_bytes(h) =~= b);
}

/// After `update_checksum`, `verify_checksum` holds.
pub proof fn lemma_db_header_checksum_verifies(before: DbHeader, after: DbHeader)
    requires
        db_header_same_but_checksum(after, before),
        after.checksum == crc32(db_header_prefix(before)),
    ensures
        crc32(db_header_prefix(after)) == after.checksum,
{
    assert(db_header_prefix(after) =~= db_header_prefix(before));
}

// ---------------------------------------------------------------------------
// Page header (first 16 bytes of every page)
// ---------------------------------------------------------------------------

/// The page header, stored at the beginning of every page.
///
/// Binary layout (16 bytes, little-endian): page_type (1) at 0,
/// collection_id (4) at 1, free_space_offset (2) at 5, num_cells (2) at 7,
/// crc32 (4) at 9, flags (2) at 13, pad (1) at 15.
#[derive(Debug, Clone, Copy, PartialEq, Eq, Structural)]
pub struct PageHeader {
    /// Type of data on this page.
    pub page_type: u8,
    /// Collection ID this page belongs to (0 for catalog pages).
    pub collection_id: u32,
    /// Offset from page start to the beginning of free space.
    pub free_space_offset: u16,
    /// Number of cells stored on this page.
    pub num_cells: u16,
    /// CRC32 checksum of page data.
    pub crc32: u32,
    /// Bit flags (bit 0: dirty, bits 1-15: reserved).
    pub flags: u16,
    /// Padding to 16 bytes.
    pub _pad: u8,
}

/// The 16-byte serialized form of a page header.
pub open spec fn page_header_bytes(h: PageHeader) -> Seq<u8> {
    seq![h.page_type] + le_u32(h.collection_id) + le_u16(h.free_space_offset) + le_u16(h.num_cells)
        + le_u32(h.crc32) + le_u16(h.flags) + seq![h._pad]
}

/// The page header that the first 16 bytes of `b` encode.
pub open spec fn parse_page_header(b: Seq<u8>) -> PageHeader {
    PageHeader {
        page_type: b[0],
        collection_id: u32_of_le(b.subrange(1, 5)),
        free_space_offset: u16_of_le(b.subrange(5, 7)),
        num_cells: u16_of_le(b.subrange(7, 9)),
        crc32: u32_of_le(b.subrange(9, 13)),
        flags: u16_of_le(b.subrange(13, 15)),
        _pad: b[15],
    }
}

/// The header of a fresh page of the given type.
pub open spec fn fresh_page_header(page_type: PageType, collection_id: u32) -> PageHeader {
    PageHeader {
        page_type: page_type_code(page_type),
        collection_id,
        free_space_offset: DATA_START_OFFSET,
        num_cells: 0,
        crc32: 0,
        flags: 0,
        _pad: 0,
    }
}

/// Whether a page with header `h` can take a cell of `needed` bytes.
pub open spec fn spec_has_room(h: PageHeader, page_size: u32, needed: u16) -> bool {
    h.num_cells < MAX_CELLS_PER_PAGE && h.free_space_offset + needed <= page_size
}

impl PageHeader {
    /// Create a new page header for the given page type.
    pub fn new(page_type: PageType, collection_id: u32) -> (h: Self)
        ensures
            h == fresh_page_header(page_type, collection_id),
    {
        PageHeader {
            page_type: page_type.to_u8(),
            collection_id,
            free_space_offset: DATA_START_OFFSET,
            num_cells: 0,
            crc32: 0,
            flags: 0,
            _pad: 0,
        }
    }

    /// Serialize into the first 16 bytes of `buf`.
    pub fn serialize_to(&self, buf: &mut [u8])
        requires
            old(buf).len() >= PAGE_HEADER_SIZE,
        ensures
            final(buf)@ == splice(old(buf)@, 0, page_header_bytes(*self)),
    {
        let ghost b0 = buf@;
        buf[0] = self.page_type;
        put_u32(buf, 1, self.collection_id);
        put_u16(buf, 5, self.free_space_offset);
        put_u16(buf, 7, self.num_cells);
        put_u32(buf, 9, self.crc32);
        put_u16(buf, 13, self.flags);
        buf[15] = self._pad;
        assert(buf@ =~= splice(b0, 0, page_header_bytes(*self)));
    }

    /// Deserialize from a buffer of at least 16 bytes.
    pub fn deserialize_from(buf: &[u8]) -> (r: Option<Self>)
        ensures
            buf@.len() < PAGE_HEADER_SIZE ==> r is None,
            buf@.len() >= PAGE_HEADER_SIZE ==> r == Some(parse_page_header(buf@)),
    {
        if buf.len() < 16 {
            return None;
        }
        Some(
            PageHeader {
                page_type: buf[0],
                collection_id: get_u32(buf, 1),
                free_space_offset: get_u16(buf, 5),
                num_cells: get_u16(buf, 7),
                crc32: get_u32(buf, 9),
                flags: get_u16(buf, 13),
                _pad: buf[15],
            },
        )
    }

    /// Whether the page has room for `needed` bytes of cell data.
    pub fn has_room(&self, page_size: u32, needed: u16) -> (r: bool)
        ensures
            r == spec_has_room(*self, page_size, needed),
    {
        if self.num_cells >= MAX_CELLS_PER_PAGE {
            return false;
        }
        self.free_space_offset as u32 + needed as u32 <= page_size
    }

    /// The free space left on this page, truncated to 16 bits.
    pub fn free_space(&self, page_size: u32) -> (r: u16)
        ensures
            self.free_space_offset >= page_size ==> r == 0,
            self.free_space_offset < page_size ==> r == (page_size - self.free_space_offset) as u16,
    {
        let used = self.free_space_offset as u32;
        if used >= page_size {
            return 0;
        }
        (page_size - used) as u16
    }

    /// The bytes a page checksum covers: the header serialized with a zero
    /// CRC field, then the page data past the header.
    fn crc_input(&self, page_data: &[u8]) -> (r: Vec<u8>)
        requires
            page_data.len() >= PAGE_HEADER_SIZE,
        ensures
            r@ == crc_covered(*self, page_data@),
    {
        let mut copy = *self;
        copy.crc32 = 0;
        let mut header_buf = [0u8; 16];
        copy.serialize_to(&mut header_buf);
        let mut all: Vec<u8> = Vec::new();
        all.extend_from_slice(&header_buf);
        all.extend_from_slice(&page_data[16..page_data.len()]);
        proof {
            lemma_page_header_bytes_len(copy);
            assert(header_buf@ =~= page_header_bytes(copy));
            assert(page_data@.subrange(16, page_data@.len() as int) =~= page_data@.skip(16));
            assert(all@ =~= page_header_bytes(copy) + page_data@.skip(16));
        }
        all
    }

    /// Compute and set the CRC32 of the page: of the header with a zero CRC
    /// field followed by the page data past the header.
    pub fn compute_crc(&mut self, page_data: &[u8])
        requires
            page_data.len() >= PAGE_HEADER_SIZE,
        ensures
            *final(self) == (PageHeader { crc32: crc32(crc_covered(*old(self), page_data@)), ..*old(self) }),
    {
        self.crc32 = 0;
        let all = self.crc_input(page_data);
        let crc = crc32_hash(all.as_slice());
        self.crc32 = crc;
    }

    /// Whether the stored CRC32 is the checksum of the header (serialized
    /// with a zero CRC field) followed by the page data past the header.
    pub fn verify_crc(&self, page_data: &[u8]) -> (r: bool)
        requires
            page_data.len() >= PAGE_HEADER_SIZE,
        ensures
            r == (crc32(crc_covered(*self, page_data@)) == self.crc32),
    {
        let expected = self.crc32;
        let all = self.crc_input(page_data);
        crc32_hash(all.as_slice()) == expected
    }
}

/// A serialized page header is 16 bytes long.
pub proof fn lemma_page_header_bytes_len(h: PageHeader)
    ensures
        page_header_bytes(h).len() == PAGE_HEADER_SIZE,
{
    lemma_u32_roundtrip(h.collection_id);
    lemma_u32_roundtrip(h.crc32);
    lemma_u16_roundtrip(h.free_space_offset);
    lemma_u16_roundtrip(h.num_cells);
    lemma_u16_roundtrip(h.flags);
}

/// Serializing a page header and reading it back gives the same header.
pub proof fn lemma_page_header_roundtrip(h: PageHeader)
    ensures
        parse_page_header(page_header_bytes(h)) == h,
{
    lemma_page_header_bytes_len(h);
    lemma_u32_roundtrip(h.collection_id);
    lemma_u32_roundtrip(h.crc32);
    lemma_u16_roundtrip(h.free_space_offset);
    lemma_u16_roundtrip(h.num_cells);
    lemma_u16_roundtrip(h.flags);
    let b = page_header_bytes(h);
    assert(b.subrange(1, 5) =~= le_u32(h.collection_id));
    assert(b.subrange(5, 7) =~= le_u16(h.free_space_offset));
    assert(b.subrange(7, 9) =~= le_u16(h.num_cells));
    assert(b.subrange(9, 13) =~= le_u32(h.crc32));
    assert(b.subrange(13, 15) =~= le_u16(h.flags));
}

/// Reading a page header out of 16 bytes and serializing it again gives
/// those bytes back.
pub proof fn lemma_page_header_bytes_roundtrip(b: Seq<u8>)
    requires
        b.len() == PAGE_HEADER_SIZE,
    ensures
        page_header_bytes(parse_page_header(b)) == b,
{
    lemma_u32_bytes_roundtrip(b.subrange(1, 5));
    lemma_u16_bytes_roundtrip(b.subrange(5, 7));
    lemma_u16_bytes_roundtrip(b.subrange(7, 9));
    lemma_u32_bytes_roundtrip(b.subrange(9, 13));
    lemma_u16_bytes_roundtrip(b.subrange(13, 15));
    assert(page_header_bytes(parse_page_header(b)) =~= b);
}

// ---------------------------------------------------------------------------
// Cell pointers and cells
// ---------------------------------------------------------------------------

/// The raw cell pointer bytes of a page: `num_cells` four-byte pointers
/// after the header, or nothing when the page is too short to hold them.
pub open spec fn cell_pointers_raw(header: PageHeader, data: Seq<u8>) -> Seq<u8> {
    let end = 16 + header.num_cells * 4;
    if end > data.len() {
        Seq::empty()
    } else {
        data.subrange(16, end)
    }
}

/// The `i`-th cell pointer encoded in `raw`.
pub open spec fn decoded_pointer(raw: Seq<u8>, i: int) -> CellPointer {
    (u16_of_le(raw.subrange(4 * i, 4 * i + 2)), u16_of_le(raw.subrange(4 * i + 2, 4 * i + 4)))
}

/// The cell pointers encoded in `raw`, four bytes each; a trailing partial
/// pointer is ignored.
pub open spec fn decode_pointers(raw: Seq<u8>) -> Seq<CellPointer> {
    Seq::new(raw.len() / 4, |i: int| decoded_pointer(raw, i))
}

/// The four-byte encoding of a cell pointer.
pub open spec fn cell_pointer_bytes(ptr: CellPointer) -> Seq<u8> {
    le_u16(ptr.0) + le_u16(ptr.1)
}

/// The bytes of the cell that `ptr` points to, or nothing when the cell
/// would run past the end of the page.
pub open spec fn cell_bytes(data: Seq<u8>, ptr: CellPointer) -> Seq<u8> {
    let end = ptr.0 + ptr.1;
    if end > data.len() {
        Seq::empty()
    } else {
        data.subrange(ptr.0 as int, end)
    }
}

/// The bytes a page checksum covers: the header serialized with a zero
/// CRC field, then the page data past the header.
pub open spec fn crc_covered(h: PageHeader, page_data: Seq<u8>) -> Seq<u8> {
    page_header_bytes(PageHeader { crc32: 0, ..h }) + page_data.skip(16)
}

/// A header whose CRC `compute_crc` set passes `verify_crc` on the same
/// page data.
pub proof fn lemma_compute_then_verify(h: PageHeader, page_data: Seq<u8>)
    ensures
        ({
            let h2 = PageHeader { crc32: crc32(crc_covered(h, page_data)), ..h };
            crc32(crc_covered(h2, page_data)) == h2.crc32
        }),
{
    let h2 = PageHeader { crc32: crc32(crc_covered(h, page_data)), ..h };
    assert(PageHeader { crc32: 0, ..h2 } == PageHeader { crc32: 0, ..h });
}

/// Read a page header from a byte slice.
pub fn read_page_header(data: &[u8]) -> (r: Option<PageHeader>)
    ensures
        data@.len() < PAGE_HEADER_SIZE ==> r is None,
        data@.len() >= PAGE_HEADER_SIZE ==> r == Some(parse_page_header(data@)),
{
    if data.len() < 16 {
        return None;
    }
    let r = PageHeader::deserialize_from(&data[0..16]);
    proof {
        assert(data@.subrange(0, 16).subrange(1, 5) =~= data@.subrange(1, 5));
        assert(data@.subrange(0, 16).subrange(5, 7) =~= data@.subrange(5, 7));
        assert(data@.subrange(0, 16).subrange(7, 9) =~= data@.subrange(7, 9));
        assert(data@.subrange(0, 16).subrange(9, 13) =~= data@.subrange(9, 13));
        assert(data@.subrange(0, 16).subrange(13, 15) =~= data@.subrange(13, 15));
    }
    r
}

/// Write a page header to the first 16 bytes of `data`, if it is that long.
pub fn write_page_header(data: &mut [u8], header: &PageHeader)
    ensures
        old(data)@.len() >= PAGE_HEADER_SIZE ==> final(data)@ == splice(
            old(data)@,
            0,
            page_header_bytes(*header),
        ),
        old(data)@.len() < PAGE_HEADER_SIZE ==> final(data)@ == old(data)@,
{
    if data.len() >= 16 {
        header.serialize_to(data);
    }
}

/// Read the cell pointers of a page as raw bytes.
pub fn read_cell_pointers_raw<'a>(header: &PageHeader, data: &'a [u8]) -> (r: &'a [u8])
    ensures
        r@ == cell_pointers_raw(*header, data@),
{
    let end: usize = 16 + header.num_cells as usize * CELL_POINTER_SIZE;
    if end > data.len() {
        return &data[0..0];
    }
    &data[16..end]
}

/// Decode cell pointers from raw bytes into (offset, length) pairs.
pub fn decode_cell_pointers(raw: &[u8]) -> (r: Vec<CellPointer>)
    ensures
        r@ == decode_pointers(raw@),
{
    let n = raw.len() / CELL_POINTER_SIZE;
    let mut out: Vec<CellPointer> = Vec::new();
    let mut i: usize = 0;
    while i < n
        invariant
            n == raw@.len() / 4,
            raw@.len() == raw.len(),
            i <= n,
            out@.len() == i,
            forall|j: int| 0 <= j < i ==> out@[j] == decoded_pointer(raw@, j),
        decreases n - i,
    {
        assert(4 * i + 4 <= raw@.len()) by (nonlinear_arith)
            requires
                i < n,
                n == raw@.len() / 4,
        ;
        let offset = get_u16(raw, 4 * i);
        let len = get_u16(raw, 4 * i + 2);
        out.push((offset, len));
        i += 1;
    }
    assert(out@ =~= decode_pointers(raw@));
    out
}

/// Encode a cell pointer to raw bytes.
pub fn encode_cell_pointer(ptr: CellPointer) -> (r: [u8; 4])
    ensures
        r@ == cell_pointer_bytes(ptr),
{
    let mut buf = [0u8; 4];
    buf[0] = (ptr.0 & 0xff) as u8;
    buf[1] = ((ptr.0 >> 8u16) & 0xff) as u8;
    buf[2] = (ptr.1 & 0xff) as u8;
    buf[3] = ((ptr.1 >> 8u16) & 0xff) as u8;
    assert(buf@ =~= cell_pointer_bytes(ptr));
    buf
}

/// Decoding an encoded cell pointer gives it back.
pub proof fn lemma_cell_pointer_roundtrip(ptr: CellPointer)
    ensures
        decode_pointers(cell_pointer_bytes(ptr)) == seq![ptr],
{
    lemma_u16_roundtrip(ptr.0);
    lemma_u16_roundtrip(ptr.1);
    let b = cell_pointer_bytes(ptr);
    assert(b.subrange(0, 2) =~= le_u16(ptr.0));
    assert(b.subrange(2, 4) =~= le_u16(ptr.1));
    assert(decode_pointers(b) =~= seq![ptr]);
}

/// Read the cell pointers of a page as decoded pairs.
pub fn read_cell_pointers(header: &PageHeader, data: &[u8]) -> (r: Vec<CellPointer>)
    ensures
        r@ == decode_pointers(cell_pointers_raw(*header, data@)),
{
    let raw = read_cell_pointers_raw(header, data);
    decode_cell_pointers(raw)
}

/// The data of the cell `ptr` points to (empty when it runs past the page).
pub fn read_cell_data<'a>(data: &'a [u8], ptr: CellPointer) -> (r: &'a [u8])
    ensures
        r@ == cell_bytes(data@, ptr),
{
    let start = ptr.0 as usize;
    let end = start + ptr.1 as usize;
    if end > data.len() {
        return &data[0..0];
    }
    &data[start..end]
}

} // verus!
