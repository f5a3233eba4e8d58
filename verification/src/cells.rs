//! The cells a collection stores on its pages.
//!
//! Every cell starts with the document ID, prefixed by its length:
//! `[id_len: u32][id bytes]`. A vector cell goes on with
//! `[internal_id: u64][count: u32][count packed little-endian f32s]`, a
//! metadata cell with the JSON text of the metadata. A cell that holds the
//! ID and nothing else is a tombstone: it marks the document as deleted.

use vstd::prelude::*;
use vstd::string::StringSliceAdditionalSpecFns;
use vstd::utf8::{decode_utf8, valid_utf8};
use crate::bytes::{get_u32, get_u64, le_u32, le_u64, lemma_u32_roundtrip, lemma_u64_roundtrip, u32_of_le, u64_of_le};
use crate::page_cache::{cached_header, cell_of, header_readable, CachedPage};
use crate::wal::copy_range;

verus! {

/// Calls `std::str::from_utf8`, which succeeds exactly when `bytes` are
/// valid UTF-8, and copies the text into a `String`. The contract states
/// validity and the decoded text with vstd's UTF-8 definitions.
#[verifier::external_body]
fn utf8_to_string(bytes: &[u8]) -> (r: Option<String>)
    ensures
        r is Some <==> valid_utf8(bytes@),
        r matches Some(s) ==> s@ == decode_utf8(bytes@),
{
    std::str::from_utf8(bytes).ok().map(|s| s.to_string())
}

/// `[len as u32][bytes]`: a byte string prefixed by its length.
pub open spec fn id_prefixed(id: Seq<u8>) -> Seq<u8> {
    le_u32(id.len() as u32) + id
}

/// The bytes of a vector cell.
pub open spec fn vector_cell_bytes(id: Seq<u8>, internal_id: u64, vector_bytes: Seq<u8>) -> Seq<u8> {
    id_prefixed(id) + le_u64(internal_id) + le_u32((vector_bytes.len() / 4) as u32) + vector_bytes
}

/// The ID length a cell announces in its first four bytes.
pub open spec fn announced_id_len(cell: Seq<u8>) -> int {
    u32_of_le(cell.subrange(0, 4)) as int
}

/// Whether a cell is a tombstone: it holds its ID and nothing else.
pub open spec fn is_tombstone_cell(cell: Seq<u8>) -> bool {
    cell.len() >= 4 && cell.len() == 4 + announced_id_len(cell)
}

/// What a vector cell decodes to: the document ID, the internal ID and the
/// packed vector bytes; `None` when the cell is truncated or its ID is not
/// UTF-8. Bytes past the vector are ignored.
pub open spec fn decode_vector_cell_spec(cell: Seq<u8>) -> Option<(Seq<char>, u64, Seq<u8>)> {
    if cell.len() < 12 {
        None
    } else {
        let id_len = announced_id_len(cell);
        if cell.len() < 4 + id_len + 8 + 4 {
            None
        } else if !valid_utf8(cell.subrange(4, 4 + id_len)) {
            None
        } else {
            let pos = 4 + id_len;
            let internal_id = u64_of_le(cell.subrange(pos, pos + 8));
            let count = u32_of_le(cell.subrange(pos + 8, pos + 12)) as int;
            let start = pos + 12;
            if start + 4 * count > cell.len() {
                None
            } else {
                Some(
                    (
                        decode_utf8(cell.subrange(4, 4 + id_len)),
                        internal_id,
                        cell.subrange(start, start + 4 * count),
                    ),
                )
            }
        }
    }
}

/// What a metadata cell decodes to: the document ID and the JSON bytes;
/// `None` when the cell is truncated or its ID is not UTF-8.
pub open spec fn decode_metadata_cell_spec(cell: Seq<u8>) -> Option<(Seq<char>, Seq<u8>)> {
    if cell.len() < 4 {
        None
    } else {
        let id_len = announced_id_len(cell);
        if cell.len() < 4 + id_len || !valid_utf8(cell.subrange(4, 4 + id_len)) {
            None
        } else {
            Some((decode_utf8(cell.subrange(4, 4 + id_len)), cell.subrange(4 + id_len, cell.len() as int)))
        }
    }
}

/// Appends `[len as u32][bytes]` to `buf`.
fn push_id_prefixed(buf: &mut Vec<u8>, id: &[u8])
    ensures
        final(buf)@ == old(buf)@ + id_prefixed(id@),
{
    let len = id.len() as u32;
    buf.push((len & 0xff) as u8);
    buf.push(((len >> 8u32) & 0xff) as u8);
    buf.push(((len >> 16u32) & 0xff) as u8);
    buf.push(((len >> 24u32) & 0xff) as u8);
    buf.extend_from_slice(id);
    assert(buf@ =~= old(buf)@ + id_prefixed(id@));
}

/// Appends the little-endian image of a `u64` to `buf`.
fn push_u64(buf: &mut Vec<u8>, x: u64)
    ensures
        final(buf)@ == old(buf)@ + le_u64(x),
{
    buf.push((x & 0xff) as u8);
    buf.push(((x >> 8u64) & 0xff) as u8);
    buf.push(((x >> 16u64) & 0xff) as u8);
    buf.push(((x >> 24u64) & 0xff) as u8);
    buf.push(((x >> 32u64) & 0xff) as u8);
    buf.push(((x >> 40u64) & 0xff) as u8);
    buf.push(((x >> 48u64) & 0xff) as u8);
    buf.push(((x >> 56u64) & 0xff) as u8);
    assert(buf@ =~= old(buf)@ + le_u64(x));
}

/// Appends the little-endian image of a `u32` to `buf`.
fn push_u32(buf: &mut Vec<u8>, x: u32)
    ensures
        final(buf)@ == old(buf)@ + le_u32(x),
{
    buf.push((x & 0xff) as u8);
    buf.push(((x >> 8u32) & 0xff) as u8);
    buf.push(((x >> 16u32) & 0xff) as u8);
    buf.push(((x >> 24u32) & 0xff) as u8);
    assert(buf@ =~= old(buf)@ + le_u32(x));
}

/// Encodes a vector cell. `vector_bytes` are the vector's elements as
/// packed little-endian `f32`s.
pub fn encode_vector_cell(doc_id: &str, internal_id: u64, vector_bytes: &[u8]) -> (r: Vec<u8>)
    ensures
        r@ == vector_cell_bytes(doc_id.spec_bytes(), internal_id, vector_bytes@),
{
    let id_bytes = doc_id.as_bytes();
    let mut buf: Vec<u8> = Vec::new();
    push_id_prefixed(&mut buf, id_bytes);
    push_u64(&mut buf, internal_id);
    push_u32(&mut buf, (vector_bytes.len() / 4) as u32);
    buf.extend_from_slice(vector_bytes);
    assert(buf@ =~= vector_cell_bytes(doc_id.spec_bytes(), internal_id, vector_bytes@));
    buf
}

/// Decodes a vector cell (see `decode_vector_cell_spec`).
pub fn decode_vector_cell(data: &[u8]) -> (r: Option<(String, u64, Vec<u8>)>)
    ensures
        match r {
            Some((id, internal_id, v)) => decode_vector_cell_spec(data@) == Some(
                (id@, internal_id, v@),
            ),
            None => decode_vector_cell_spec(data@) is None,
        },
{
    if data.len() < 12 {
        return None;
    }
    let id_len = get_u32(data, 0) as usize;
    if data.len() < 16 || data.len() - 16 < id_len {
        return None;
    }
    let id_bytes = &data[4..4 + id_len];
    let doc_id = match utf8_to_string(id_bytes) {
        Some(s) => s,
        None => {
            return None;
        },
    };
    let pos = 4 + id_len;
    let internal_id = get_u64(data, pos);
    let count = get_u32(data, pos + 8) as usize;
    let start = pos + 12;
    if (data.len() - start) / 4 < count {
        proof {
            assert((data@.len() - start) / 4 < count ==> start + 4 * count > data@.len()) by (nonlinear_arith);
        }
        return None;
    }
    proof {
        assert((data@.len() - start) / 4 >= count ==> start + 4 * count <= data@.len()) by (nonlinear_arith);
    }
    let vector = copy_range(data, start, 4 * count);
    Some((doc_id, internal_id, vector))
}

/// Encodes a metadata cell: the ID, then the JSON text of the metadata.
pub fn encode_metadata_cell(id: &str, json_bytes: &[u8]) -> (r: Vec<u8>)
    ensures
        r@ == id_prefixed(id.spec_bytes()) + json_bytes@,
{
    let mut buf: Vec<u8> = Vec::new();
    push_id_prefixed(&mut buf, id.as_bytes());
    buf.extend_from_slice(json_bytes);
    assert(buf@ =~= id_prefixed(id.spec_bytes()) + json_bytes@);
    buf
}

/// Decodes a metadata cell (see `decode_metadata_cell_spec`).
pub fn decode_metadata_cell(data: &[u8]) -> (r: Option<(String, Vec<u8>)>)
    ensures
        match r {
            Some((id, json)) => decode_metadata_cell_spec(data@) == Some((id@, json@)),
            None => decode_metadata_cell_spec(data@) is None,
        },
{
    if data.len() < 4 {
        return None;
    }
    let id_len = get_u32(data, 0) as usize;
    if data.len() - 4 < id_len {
        return None;
    }
    let doc_id = match utf8_to_string(&data[4..4 + id_len]) {
        Some(s) => s,
        None => {
            return None;
        },
    };
    let json = copy_range(data, 4 + id_len, data.len() - (4 + id_len));
    Some((doc_id, json))
}

/// A tombstone cell: the ID with no payload, marking the document deleted.
pub fn make_tombstone_cell(id: &str) -> (r: Vec<u8>)
    ensures
        r@ == id_prefixed(id.spec_bytes()),
{
    let mut buf: Vec<u8> = Vec::new();
    push_id_prefixed(&mut buf, id.as_bytes());
    buf
}

/// Whether a cell whose ID is `id_len` bytes long holds nothing but its ID.
pub fn is_tombstone(data: &[u8], id_len: usize) -> (r: bool)
    requires
        id_len <= usize::MAX - 4,
    ensures
        r == (data@.len() == 4 + id_len),
{
    data.len() == 4 + id_len
}

/// Decoding an encoded vector cell gives back the ID, the internal ID and
/// the vector bytes, for any ID and any vector of whole `f32`s whose
/// lengths fit the cell's 32-bit length fields.
pub proof fn lemma_vector_cell_roundtrip(id: Seq<char>, internal_id: u64, vector_bytes: Seq<u8>)
    requires
        vstd::utf8::encode_utf8(id).len() <= u32::MAX,
        vector_bytes.len() % 4 == 0,
        vector_bytes.len() / 4 <= u32::MAX,
    ensures
        decode_vector_cell_spec(vector_cell_bytes(vstd::utf8::encode_utf8(id), internal_id, vector_bytes))
            == Some((id, internal_id, vector_bytes)),
{
    let b = vstd::utf8::encode_utf8(id);
    vstd::utf8::encode_utf8_valid_utf8(id);
    vstd::utf8::encode_utf8_decode_utf8(id);
    let n = b.len() as u32;
    let count = (vector_bytes.len() / 4) as u32;
    lemma_u32_roundtrip(n);
    lemma_u32_roundtrip(count);
    lemma_u64_roundtrip(internal_id);
    let c = vector_cell_bytes(b, internal_id, vector_bytes);
    let pos: int = 4 + b.len() as int;
    let cnt: int = count as int;
    assert(c.subrange(0, 4) =~= le_u32(n));
    assert(c.subrange(4, pos) =~= b);
    assert(c.subrange(pos, pos + 8) =~= le_u64(internal_id));
    assert(c.subrange(pos + 8, pos + 12) =~= le_u32(count));
    assert(c.subrange(pos + 12, pos + 12 + 4 * cnt) =~= vector_bytes);
}

/// A tombstone cell is recognized as one, and announces its ID.
pub proof fn lemma_tombstone_recognized(id: Seq<u8>)
    requires
        id.len() <= u32::MAX,
    ensures
        is_tombstone_cell(id_prefixed(id)),
        id_prefixed(id).subrange(4, 4 + id.len() as int) == id,
{
    lemma_u32_roundtrip(id.len() as u32);
    assert(id_prefixed(id).subrange(0, 4) =~= le_u32(id.len() as u32));
    assert(id_prefixed(id).subrange(4, 4 + id.len() as int) =~= id);
}

// ---------------------------------------------------------------------------
// Reading a collection's data page
// ---------------------------------------------------------------------------

/// The document ID a tombstone cell marks as deleted, if it is UTF-8.
pub open spec fn tombstone_of(cell: Seq<u8>) -> Option<Seq<char>> {
    if is_tombstone_cell(cell) && valid_utf8(cell.subrange(4, cell.len() as int)) {
        Some(decode_utf8(cell.subrange(4, cell.len() as int)))
    } else {
        None
    }
}

/// Whether cell `i` of the page is a tombstone for `id`.
pub open spec fn tombstone_at(p: CachedPage, i: int, id: Seq<char>) -> bool {
    match cell_of(p.page_id, p.data@, i as u16) {
        Some(c) => tombstone_of(c) == Some(id),
        None => false,
    }
}

/// Whether one of the first `n` cells of the page is a tombstone for `id`.
pub open spec fn tombstoned_in(p: CachedPage, n: int, id: Seq<char>) -> bool {
    exists|i: int| 0 <= i < n && #[trigger] tombstone_at(p, i, id)
}

/// Whether the page holds a tombstone for `id`.
pub open spec fn tombstoned(p: CachedPage, id: Seq<char>) -> bool {
    tombstoned_in(p, cached_header(p).num_cells as int, id)
}

/// Whether a cell after cell `i` of the page is a tombstone for `id`.
pub open spec fn tombstoned_after(p: CachedPage, i: int, id: Seq<char>) -> bool {
    exists|j: int| i < j < cached_header(p).num_cells && #[trigger] tombstone_at(p, j, id)
}

/// The live vector entries among the first `n` cells of a page: the
/// decodable vector cells, in order, that are not tombstones and that no
/// later cell of the page marks as deleted. A document deleted and then
/// written again is live through its later cell.
pub open spec fn live_entries(p: CachedPage, n: int) -> Seq<(Seq<char>, u64, Seq<u8>)>
    decreases n,
{
    if n <= 0 {
        Seq::empty()
    } else {
        let prev = live_entries(p, n - 1);
        match cell_of(p.page_id, p.data@, (n - 1) as u16) {
            Some(c) => if c.len() >= 4 && is_tombstone_cell(c) {
                prev
            } else {
                match decode_vector_cell_spec(c) {
                    Some(e) => if tombstoned_after(p, n - 1, e.0) {
                        prev
                    } else {
                        prev.push(e)
                    },
                    None => prev,
                }
            },
            None => prev,
        }
    }
}

/// The IDs of the documents whose tombstones the page holds.
pub fn collect_tombstones(pg: &CachedPage) -> (r: Vec<String>)
    requires
        header_readable(*pg),
    ensures
        forall|id: Seq<char>|
            tombstoned(*pg, id) <==> exists|k: int| 0 <= k < r@.len() && (#[trigger] r@[k])@ == id,
{
    let header = pg.header();
    let mut set: Vec<String> = Vec::new();
    let mut i: u16 = 0;
    while i < header.num_cells
        invariant
            header_readable(*pg),
            header == cached_header(*pg),
            i <= header.num_cells,
            forall|id: Seq<char>|
                tombstoned_in(*pg, i as int, id) <==> exists|k: int|
                    0 <= k < set@.len() && (#[trigger] set@[k])@ == id,
        decreases header.num_cells - i,
    {
        let ghost s0 = set@;
        let cell = pg.cell_data(i);
        let mut added = false;
        if let Some(data) = cell {
            if data.len() >= 4 {
                let id_len = get_u32(data.as_slice(), 0) as usize;
                if data.len() - 4 == id_len {
                    if let Some(id) = utf8_to_string(&data.as_slice()[4..4 + id_len]) {
                        set.push(id);
                        added = true;
                    }
                }
            }
        }
        proof {
            let ip1: int = i + 1;
            assert forall|id: Seq<char>|
                #[trigger] tombstoned_in(*pg, ip1, id) <==> exists|k: int|
                    0 <= k < set@.len() && (#[trigger] set@[k])@ == id by {
                if tombstoned_in(*pg, ip1, id) {
                    let j = choose|j: int|
                        0 <= j < i + 1 && #[trigger] tombstone_at(*pg, j, id);
                    if j < i {
                        assert(tombstoned_in(*pg, i as int, id));
                        let k = choose|k: int| 0 <= k < s0.len() && (#[trigger] s0[k])@ == id;
                        assert(set@[k] == s0[k]);
                    } else {
                        assert(j == i);
                        assert(set@[set@.len() - 1]@ == id);
                    }
                }
                if exists|k: int| 0 <= k < set@.len() && (#[trigger] set@[k])@ == id {
                    let k = choose|k: int| 0 <= k < set@.len() && (#[trigger] set@[k])@ == id;
                    if k < s0.len() {
                        assert(s0[k] == set@[k]);
                        assert(tombstoned_in(*pg, i as int, id));
                        let j = choose|j: int|
                            0 <= j < i && #[trigger] tombstone_at(*pg, j, id);
                        assert(0 <= j < i + 1);
                    } else {
                        assert(added);
                        assert(tombstone_at(*pg, i as int, id));
                    }
                }
            }
        }
        i += 1;
    }
    set
}

/// The document ID that cell `i` of the page is a tombstone for, if it is
/// one.
fn tombstone_id_at(pg: &CachedPage, i: u16) -> (r: Option<String>)
    requires
        header_readable(*pg),
    ensures
        r matches Some(s) ==> tombstone_at(*pg, i as int, s@),
        r is None ==> forall|id: Seq<char>| !tombstone_at(*pg, i as int, id),
{
    if let Some(data) = pg.cell_data(i) {
        if data.len() >= 4 {
            let id_len = get_u32(data.as_slice(), 0) as usize;
            if data.len() - 4 == id_len {
                return utf8_to_string(&data.as_slice()[4..4 + id_len]);
            }
        }
    }
    None
}

/// Whether a cell after cell `i` of the page is a tombstone for `id`.
fn tombstoned_after_exec(pg: &CachedPage, i: u16, id: &String) -> (r: bool)
    requires
        header_readable(*pg),
    ensures
        r == tombstoned_after(*pg, i as int, id@),
{
    let n = pg.header().num_cells;
    let mut j: u32 = i as u32 + 1;
    while j < n as u32
        invariant
            header_readable(*pg),
            n == cached_header(*pg).num_cells,
            i < j,
            forall|k: int| i < k < j ==> !(#[trigger] tombstone_at(*pg, k, id@)),
        decreases n - j,
    {
        if let Some(t) = tombstone_id_at(pg, j as u16) {
            if t == *id {
                assert(tombstone_at(*pg, j as int, id@));
                return true;
            }
        }
        j += 1;
    }
    false
}

/// The live vector entries of a data page (see `live_entries`): what
/// loading a collection puts back into its index.
pub fn live_vector_entries(pg: &CachedPage) -> (r: Vec<(String, u64, Vec<u8>)>)
    requires
        header_readable(*pg),
    ensures
        r@.len() == live_entries(*pg, cached_header(*pg).num_cells as int).len(),
        forall|k: int|
            0 <= k < r@.len() ==> ({
                let e = #[trigger] r@[k];
                (e.0@, e.1, e.2@) == live_entries(*pg, cached_header(*pg).num_cells as int)[k]
            }),
{
    let header = pg.header();
    let mut out: Vec<(String, u64, Vec<u8>)> = Vec::new();
    let mut i: u16 = 0;
    while i < header.num_cells
        invariant
            header_readable(*pg),
            header == cached_header(*pg),
            i <= header.num_cells,
            out@.len() == live_entries(*pg, i as int).len(),
            forall|k: int|
                0 <= k < out@.len() ==> ({
                    let e = #[trigger] out@[k];
                    (e.0@, e.1, e.2@) == live_entries(*pg, i as int)[k]
                }),
        decreases header.num_cells - i,
    {
        let ghost o0 = out@;
        if let Some(data) = pg.cell_data(i) {
            let mut skip = false;
            if data.len() >= 4 {
                let id_len = get_u32(data.as_slice(), 0) as usize;
                skip = data.len() - 4 == id_len;
            }
            if !skip {
                if let Some((doc_id, internal_id, vector)) = decode_vector_cell(data.as_slice()) {
                    if !tombstoned_after_exec(pg, i, &doc_id) {
                        out.push((doc_id, internal_id, vector));
                    }
                }
            }
        }
        proof {
            assert forall|k: int| 0 <= k < out@.len() implies ({
                let e = #[trigger] out@[k];
                (e.0@, e.1, e.2@) == live_entries(*pg, i + 1)[k]
            }) by {
                if k < o0.len() {
                    assert(out@[k] == o0[k]);
                }
            }
        }
        i += 1;
    }
    out
}

/// The live metadata entries among the first `n` cells of a page: the
/// decodable metadata cells, in order, that are not tombstones and that no
/// later cell of the page marks as deleted.
pub open spec fn live_metadata(p: CachedPage, n: int) -> Seq<(Seq<char>, Seq<u8>)>
    decreases n,
{
    if n <= 0 {
        Seq::empty()
    } else {
        let prev = live_metadata(p, n - 1);
        match cell_of(p.page_id, p.data@, (n - 1) as u16) {
            Some(c) => if is_tombstone_cell(c) {
                prev
            } else {
                match decode_metadata_cell_spec(c) {
                    Some(e) => if tombstoned_after(p, n - 1, e.0) {
                        prev
                    } else {
                        prev.push(e)
                    },
                    None => prev,
                }
            },
            None => prev,
        }
    }
}

/// The live metadata entries of a metadata page (see `live_metadata`):
/// the document IDs and JSON bytes that loading a collection restores.
pub fn live_metadata_entries(pg: &CachedPage) -> (r: Vec<(String, Vec<u8>)>)
    requires
        header_readable(*pg),
    ensures
        r@.len() == live_metadata(*pg, cached_header(*pg).num_cells as int).len(),
        forall|k: int|
            0 <= k < r@.len() ==> ({
                let e = #[trigger] r@[k];
                (e.0@, e.1@) == live_metadata(*pg, cached_header(*pg).num_cells as int)[k]
            }),
{
    let header = pg.header();
    let mut out: Vec<(String, Vec<u8>)> = Vec::new();
    let mut i: u16 = 0;
    while i < header.num_cells
        invariant
            header_readable(*pg),
            header == cached_header(*pg),
            i <= header.num_cells,
            out@.len() == live_metadata(*pg, i as int).len(),
            forall|k: int|
                0 <= k < out@.len() ==> ({
                    let e = #[trigger] out@[k];
                    (e.0@, e.1@) == live_metadata(*pg, i as int)[k]
                }),
        decreases header.num_cells - i,
    {
        let ghost o0 = out@;
        if let Some(data) = pg.cell_data(i) {
            let mut skip = false;
            if data.len() >= 4 {
                let id_len = get_u32(data.as_slice(), 0) as usize;
                skip = data.len() - 4 == id_len;
            }
            if !skip {
                if let Some((doc_id, json)) = decode_metadata_cell(data.as_slice()) {
                    if !tombstoned_after_exec(pg, i, &doc_id) {
                        out.push((doc_id, json));
                    }
                }
            }
        }
        proof {
            assert forall|k: int| 0 <= k < out@.len() implies ({
                let e = #[trigger] out@[k];
                (e.0@, e.1@) == live_metadata(*pg, i + 1)[k]
            }) by {
                if k < o0.len() {
                    assert(out@[k] == o0[k]);
                }
            }
        }
        i += 1;
    }
    out
}

/// Metadata written before a tombstone for its document is not among the
/// entries that loading the page restores.
pub proof fn lemma_deleted_metadata_not_loaded(p: CachedPage, n: int, id: Seq<char>, t: int)
    requires
        0 <= t < cached_header(p).num_cells,
        tombstone_at(p, t, id),
        n <= t,
    ensures
        forall|k: int| 0 <= k < live_metadata(p, n).len() ==> (#[trigger] live_metadata(p, n)[k]).0 != id,
    decreases n,
{
    if n > 0 {
        lemma_deleted_metadata_not_loaded(p, n - 1, id, t);
        let prev = live_metadata(p, n - 1);
        let cur = live_metadata(p, n);
        assert forall|k: int| 0 <= k < cur.len() implies (#[trigger] cur[k]).0 != id by {
            if k < prev.len() {
                assert(cur[k] == prev[k]);
            } else {
                assert(!tombstoned_after(p, n - 1, cur[k].0));
                if cur[k].0 == id {
                    assert(tombstone_at(p, t, cur[k].0));
                }
            }
        }
    }
}

/// A vector cell written before a tombstone for its document is not among
/// the entries that loading the page restores.
pub proof fn lemma_tombstoned_not_loaded(p: CachedPage, n: int, id: Seq<char>, t: int)
    requires
        0 <= t < cached_header(p).num_cells,
        tombstone_at(p, t, id),
        n <= t,
    ensures
        forall|k: int| 0 <= k < live_entries(p, n).len() ==> (#[trigger] live_entries(p, n)[k]).0 != id,
    decreases n,
{
    if n > 0 {
        lemma_tombstoned_not_loaded(p, n - 1, id, t);
        let prev = live_entries(p, n - 1);
        let cur = live_entries(p, n);
        assert forall|k: int| 0 <= k < cur.len() implies (#[trigger] cur[k]).0 != id by {
            if k < prev.len() {
                assert(cur[k] == prev[k]);
            } else {
                assert(!tombstoned_after(p, n - 1, cur[k].0));
                if cur[k].0 == id {
                    assert(tombstone_at(p, t, cur[k].0));
                }
            }
        }
    }
}

/// A vector cell that no later cell marks as deleted is among the entries
/// that loading the page restores: a document deleted and then written
/// again comes back.
pub proof fn lemma_rewritten_loaded(p: CachedPage, n: int, i: int)
    requires
        0 <= i < n <= cached_header(p).num_cells,
        cell_of(p.page_id, p.data@, i as u16) is Some,
        !is_tombstone_cell(cell_of(p.page_id, p.data@, i as u16).unwrap()),
        decode_vector_cell_spec(cell_of(p.page_id, p.data@, i as u16).unwrap()) is Some,
        !tombstoned_after(
            p,
            i,
            decode_vector_cell_spec(cell_of(p.page_id, p.data@, i as u16).unwrap()).unwrap().0,
        ),
    ensures
        live_entries(p, n).contains(
            decode_vector_cell_spec(cell_of(p.page_id, p.data@, i as u16).unwrap()).unwrap(),
        ),
    decreases n,
{
    let e = decode_vector_cell_spec(cell_of(p.page_id, p.data@, i as u16).unwrap()).unwrap();
    let cur = live_entries(p, n);
    if i == n - 1 {
        assert(cur[cur.len() - 1] == e);
    } else {
        lemma_rewritten_loaded(p, n - 1, i);
        let prev = live_entries(p, n - 1);
        let w = choose|w: int| 0 <= w < prev.len() && prev[w] == e;
        assert(cur[w] == prev[w]);
    }
}

/// Live vector entries come in cell order: those of the first `n` cells
/// are the first entries of those of the first `m` cells, for `n <= m`,
/// so an entry from an earlier cell always precedes one from a later cell.
pub proof fn lemma_live_entries_in_cell_order(p: CachedPage, n: int, m: int)
    requires
        n <= m,
    ensures
        live_entries(p, n).len() <= live_entries(p, m).len(),
        live_entries(p, m).take(live_entries(p, n).len() as int) == live_entries(p, n),
    decreases m - n,
{
    if n < m && m > 0 {
        lemma_live_entries_in_cell_order(p, n, m - 1);
        let a = live_entries(p, n);
        let b = live_entries(p, m - 1);
        let c = live_entries(p, m);
        assert(c == b || c == b.push(c.last()));
        assert(c.take(a.len() as int) =~= b.take(a.len() as int));
    } else if n < m {
        assert(live_entries(p, n) == live_entries(p, m));
    } else {
        assert(live_entries(p, m).take(live_entries(p, m).len() as int) =~= live_entries(p, m));
    }
}

/// Live metadata entries come in cell order: those of the first `n` cells
/// are the first entries of those of the first `m` cells, for `n <= m`, so
/// the metadata of a later cell is restored after that of an earlier one.
pub proof fn lemma_live_metadata_in_cell_order(p: CachedPage, n: int, m: int)
    requires
        n <= m,
    ensures
        live_metadata(p, n).len() <= live_metadata(p, m).len(),
        live_metadata(p, m).take(live_metadata(p, n).len() as int) == live_metadata(p, n),
    decreases m - n,
{
    if n < m && m > 0 {
        lemma_live_metadata_in_cell_order(p, n, m - 1);
        let a = live_metadata(p, n);
        let b = live_metadata(p, m - 1);
        let c = live_metadata(p, m);
        assert(c == b || c == b.push(c.last()));
        assert(c.take(a.len() as int) =~= b.take(a.len() as int));
    } else if n < m {
        assert(live_metadata(p, n) == live_metadata(p, m));
    } else {
        assert(live_metadata(p, m).take(live_metadata(p, m).len() as int) =~= live_metadata(p, m));
    }
}

/// A metadata cell that is not a tombstone and that no later cell marks as
/// deleted is among the entries that loading the page restores: metadata
/// written again for the same document is restored, not dropped.
pub proof fn lemma_rewritten_metadata_loaded(p: CachedPage, n: int, i: int)
    requires
        0 <= i < n <= cached_header(p).num_cells,
        cell_of(p.page_id, p.data@, i as u16) is Some,
        !is_tombstone_cell(cell_of(p.page_id, p.data@, i as u16).unwrap()),
        decode_metadata_cell_spec(cell_of(p.page_id, p.data@, i as u16).unwrap()) is Some,
        !tombstoned_after(
            p,
            i,
            decode_metadata_cell_spec(cell_of(p.page_id, p.data@, i as u16).unwrap()).unwrap().0,
        ),
    ensures
        live_metadata(p, n).contains(
            decode_metadata_cell_spec(cell_of(p.page_id, p.data@, i as u16).unwrap()).unwrap(),
        ),
    decreases n,
{
    let e = decode_metadata_cell_spec(cell_of(p.page_id, p.data@, i as u16).unwrap()).unwrap();
    let cur = live_metadata(p, n);
    if i == n - 1 {
        assert(cur[cur.len() - 1] == e);
    } else {
        lemma_rewritten_metadata_loaded(p, n - 1, i);
        let prev = live_metadata(p, n - 1);
        let w = choose|w: int| 0 <= w < prev.len() && prev[w] == e;
        assert(cur[w] == prev[w]);
    }
}

} // verus!
