//! Write-ahead log: the byte format of the log, the state that numbers
//! and salts its frames, the scan that reads frames back, and the replay
//! of frames onto the database image.
//!
//! Log header (32 bytes, little-endian): magic, version, page_size,
//! checkpoint sequence, salt1, salt2 (four bytes each), then a `u64` CRC32
//! of those 24 bytes.
//!
//! Frame (28 + page_size bytes): page_number (4), db_size_after (8),
//! salt1 (4), salt2 (4), checksum1 (4), checksum2 (4), page data.

use vstd::prelude::*;
use crate::bytes::{
    get_u32, get_u64, le_u32, le_u64, lemma_u32_roundtrip, lemma_u64_roundtrip, put_u32, put_u64,
    u32_of_le, u64_of_le,
};
use crate::crc::{crc32, crc32_hash};
use crate::doc_ids::{decimal, decimal_string};
use crate::error::StorageError;

verus! {

/// WAL magic number.
pub const WAL_MAGIC: u32 = 0x377F_0683;

/// Current WAL format version.
pub const WAL_VERSION: u32 = 1;

/// Size of the WAL header in bytes.
pub const WAL_HEADER_SIZE: usize = 32;

/// Size of a frame header (without page data) in bytes.
pub const WAL_FRAME_HEADER_SIZE: usize = 28;

/// Number of frames after which a checkpoint is due.
pub const DEFAULT_CHECKPOINT_THRESHOLD: u64 = 1000;

/// A single WAL frame: a modified page and its metadata.
#[derive(Debug, Clone)]
pub struct WalFrame {
    /// Page number being modified.
    pub page_number: u32,
    /// Database size (in pages) after this frame is committed.
    pub db_size_after: u64,
    /// Full page data.
    pub page_data: Vec<u8>,
}

impl View for WalFrame {
    type V = (u32, u64, Seq<u8>);

    open spec fn view(&self) -> (u32, u64, Seq<u8>) {
        (self.page_number, self.db_size_after, self.page_data@)
    }
}

// ---------------------------------------------------------------------------
// Byte format
// ---------------------------------------------------------------------------

/// The bytes one frame checksum covers.
pub open spec fn checksum_input(page_number: u32, salt: u32, frame_seq: u32, data: Seq<u8>) -> Seq<
    u8,
> {
    le_u32(page_number) + le_u32(salt) + le_u32(frame_seq) + data
}

/// The two checksums of a frame: one salted with `salt1`, one with `salt2`.
pub open spec fn frame_checksums(
    page_number: u32,
    data: Seq<u8>,
    salt1: u32,
    salt2: u32,
    frame_seq: u32,
) -> (u32, u32) {
    (
        crc32(checksum_input(page_number, salt1, frame_seq, data)),
        crc32(checksum_input(page_number, salt2, frame_seq, data)),
    )
}

/// The 28-byte header of a frame as the log stores it (checksums computed
/// with frame sequence 0).
pub open spec fn frame_header_bytes(
    page_number: u32,
    db_size_after: u64,
    salt1: u32,
    salt2: u32,
    data: Seq<u8>,
) -> Seq<u8> {
    let sums = frame_checksums(page_number, data, salt1, salt2, 0);
    le_u32(page_number) + le_u64(db_size_after) + le_u32(salt1) + le_u32(salt2) + le_u32(sums.0)
        + le_u32(sums.1)
}

/// A whole frame as the log stores it.
pub open spec fn frame_bytes(frame: (u32, u64, Seq<u8>), salt1: u32, salt2: u32) -> Seq<u8> {
    frame_header_bytes(frame.0, frame.1, salt1, salt2, frame.2) + frame.2
}

/// Frames stored one after another.
pub open spec fn frames_bytes(frames: Seq<(u32, u64, Seq<u8>)>, salt1: u32, salt2: u32) -> Seq<u8>
    decreases frames.len(),
{
    if frames.len() == 0 {
        Seq::empty()
    } else {
        frame_bytes(frames[0], salt1, salt2) + frames_bytes(frames.drop_first(), salt1, salt2)
    }
}

/// The first 24 bytes of a log header: everything its checksum covers.
pub open spec fn wal_header_fields(page_size: u32, checkpoint_seq: u32, salt1: u32, salt2: u32) -> Seq<
    u8,
> {
    le_u32(WAL_MAGIC) + le_u32(WAL_VERSION) + le_u32(page_size) + le_u32(checkpoint_seq) + le_u32(
        salt1,
    ) + le_u32(salt2)
}

/// A 32-byte log header.
pub open spec fn wal_header_bytes(page_size: u32, checkpoint_seq: u32, salt1: u32, salt2: u32) -> Seq<
    u8,
> {
    let fields = wal_header_fields(page_size, checkpoint_seq, salt1, salt2);
    fields + le_u64(crc32(fields) as u64)
}

/// The frames a scan of the log finds from `offset` on: it stops at the
/// first frame that is incomplete or whose checksums do not match.
pub open spec fn scan_frames(wal: Seq<u8>, offset: int, page_size: u32, salt1: u32, salt2: u32) -> Seq<
    (u32, u64, Seq<u8>),
>
    decreases wal.len() - offset,
{
    if offset < 0 || offset + 28 > wal.len() {
        Seq::empty()
    } else {
        let page_number = u32_of_le(wal.subrange(offset, offset + 4));
        let db_size_after = u64_of_le(wal.subrange(offset + 4, offset + 12));
        let stored1 = u32_of_le(wal.subrange(offset + 20, offset + 24));
        let stored2 = u32_of_le(wal.subrange(offset + 24, offset + 28));
        let page_offset = offset + 28;
        if page_offset + page_size > wal.len() {
            Seq::empty()
        } else {
            let data = wal.subrange(page_offset, page_offset + page_size);
            if frame_checksums(page_number, data, salt1, salt2, 0) != (stored1, stored2) {
                Seq::empty()
            } else {
                seq![(page_number, db_size_after, data)] + scan_frames(
                    wal,
                    page_offset + page_size,
                    page_size,
                    salt1,
                    salt2,
                )
            }
        }
    }
}

/// Computes the two frame checksums.
pub fn compute_frame_checksum(
    page_number: u32,
    page_data: &[u8],
    salt1: u32,
    salt2: u32,
    frame_seq: u32,
) -> (r: (u32, u32))
    ensures
        r == frame_checksums(page_number, page_data@, salt1, salt2, frame_seq),
{
    let mut input1: Vec<u8> = vec![0u8; 12];
    put_u32(input1.as_mut_slice(), 0, page_number);
    put_u32(input1.as_mut_slice(), 4, salt1);
    put_u32(input1.as_mut_slice(), 8, frame_seq);
    let mut input2: Vec<u8> = vec![0u8; 12];
    put_u32(input2.as_mut_slice(), 0, page_number);
    put_u32(input2.as_mut_slice(), 4, salt2);
    put_u32(input2.as_mut_slice(), 8, frame_seq);
    input1.extend_from_slice(page_data);
    input2.extend_from_slice(page_data);
    proof {
        lemma_u32_roundtrip(page_number);
        lemma_u32_roundtrip(salt1);
        lemma_u32_roundtrip(salt2);
        lemma_u32_roundtrip(frame_seq);
        assert(input1@ =~= checksum_input(page_number, salt1, frame_seq, page_data@));
        assert(input2@ =~= checksum_input(page_number, salt2, frame_seq, page_data@));
    }
    (crc32_hash(input1.as_slice()), crc32_hash(input2.as_slice()))
}

/// Builds the 28-byte header of a frame.
pub fn build_frame_header(
    page_number: u32,
    db_size_after: u64,
    salt1: u32,
    salt2: u32,
    page_data: &[u8],
) -> (r: Vec<u8>)
    ensures
        r@ == frame_header_bytes(page_number, db_size_after, salt1, salt2, page_data@),
{
    let mut header: Vec<u8> = vec![0u8; WAL_FRAME_HEADER_SIZE];
    put_u32(header.as_mut_slice(), 0, page_number);
    put_u64(header.as_mut_slice(), 4, db_size_after);
    put_u32(header.as_mut_slice(), 12, salt1);
    put_u32(header.as_mut_slice(), 16, salt2);
    let (checksum1, checksum2) = compute_frame_checksum(page_number, page_data, salt1, salt2, 0);
    put_u32(header.as_mut_slice(), 20, checksum1);
    put_u32(header.as_mut_slice(), 24, checksum2);
    proof {
        lemma_u32_roundtrip(page_number);
        lemma_u64_roundtrip(db_size_after);
        lemma_u32_roundtrip(salt1);
        lemma_u32_roundtrip(salt2);
        lemma_u32_roundtrip(checksum1);
        lemma_u32_roundtrip(checksum2);
        assert(header@ =~= frame_header_bytes(
            page_number,
            db_size_after,
            salt1,
            salt2,
            page_data@,
        ));
    }
    header
}

/// Builds a 32-byte log header.
pub fn build_wal_header(page_size: u32, checkpoint_seq: u32, salt1: u32, salt2: u32) -> (r: Vec<u8>)
    ensures
        r@ == wal_header_bytes(page_size, checkpoint_seq, salt1, salt2),
{
    let mut header: Vec<u8> = vec![0u8; WAL_HEADER_SIZE];
    put_u32(header.as_mut_slice(), 0, WAL_MAGIC);
    put_u32(header.as_mut_slice(), 4, WAL_VERSION);
    put_u32(header.as_mut_slice(), 8, page_size);
    put_u32(header.as_mut_slice(), 12, checkpoint_seq);
    put_u32(header.as_mut_slice(), 16, salt1);
    put_u32(header.as_mut_slice(), 20, salt2);
    proof {
        lemma_u32_roundtrip(WAL_MAGIC);
        lemma_u32_roundtrip(WAL_VERSION);
        lemma_u32_roundtrip(page_size);
        lemma_u32_roundtrip(checkpoint_seq);
        lemma_u32_roundtrip(salt1);
        lemma_u32_roundtrip(salt2);
        assert(header@.subrange(0, 24) =~= wal_header_fields(page_size, checkpoint_seq, salt1, salt2));
    }
    let checksum = crc32_hash(&header.as_slice()[0..24]) as u64;
    put_u64(header.as_mut_slice(), 24, checksum);
    proof {
        lemma_u64_roundtrip(checksum);
        assert(header@ =~= wal_header_bytes(page_size, checkpoint_seq, salt1, salt2));
    }
    header
}

/// The upper-case hexadecimal digit for `d` below 16.
pub open spec fn upper_hex_digit(d: nat) -> char {
    if d < 10 {
        (48 + d) as char
    } else {
        (55 + d) as char
    }
}

/// The last `width` upper-case hexadecimal digits of `n`, zero-padded.
pub open spec fn upper_hex(n: nat, width: nat) -> Seq<char>
    decreases width,
{
    if width == 0 {
        Seq::empty()
    } else {
        upper_hex(n / 16, (width - 1) as nat).push(upper_hex_digit(n % 16))
    }
}

/// The message for a log header whose magic number is `magic`.
pub open spec fn bad_magic_text(magic: u32) -> Seq<char> {
    "Invalid WAL magic: 0x"@ + upper_hex(magic as nat, 8)
}

/// The message for a log header whose version is `version`.
pub open spec fn bad_version_text(version: u32) -> Seq<char> {
    "Unsupported WAL version: "@ + decimal(version as nat)
}

/// The upper-case hexadecimal digit for `d` below 16, as text.
fn upper_hex_digit_str(d: u32) -> (r: &'static str)
    requires
        d < 16,
    ensures
        r@ == seq![upper_hex_digit(d as nat)],
{
    match d {
        0 => {
            proof {
                reveal_strlit("0");
            }
            "0"
        },
        1 => {
            proof {
                reveal_strlit("1");
            }
            "1"
        },
        2 => {
            proof {
                reveal_strlit("2");
            }
            "2"
        },
        3 => {
            proof {
                reveal_strlit("3");
            }
            "3"
        },
        4 => {
            proof {
                reveal_strlit("4");
            }
            "4"
        },
        5 => {
            proof {
                reveal_strlit("5");
            }
            "5"
        },
        6 => {
            proof {
                reveal_strlit("6");
            }
            "6"
        },
        7 => {
            proof {
                reveal_strlit("7");
            }
            "7"
        },
        8 => {
            proof {
                reveal_strlit("8");
            }
            "8"
        },
        9 => {
            proof {
                reveal_strlit("9");
            }
            "9"
        },
        10 => {
            proof {
                reveal_strlit("A");
            }
            "A"
        },
        11 => {
            proof {
                reveal_strlit("B");
            }
            "B"
        },
        12 => {
            proof {
                reveal_strlit("C");
            }
            "C"
        },
        13 => {
            proof {
                reveal_strlit("D");
            }
            "D"
        },
        14 => {
            proof {
                reveal_strlit("E");
            }
            "E"
        },
        _ => {
            proof {
                reveal_strlit("F");
            }
            "F"
        },
    }
}

/// `{:08X}` of `n`: its last eight upper-case hexadecimal digits,
/// zero-padded.
fn upper_hex8(n: u32) -> (r: String)
    ensures
        r@ == upper_hex(n as nat, 8),
{
    let mut acc = String::new();
    let mut cur: u32 = n;
    let mut w: u32 = 0;
    while w < 8
        invariant
            w <= 8,
            upper_hex(n as nat, 8) == upper_hex(cur as nat, (8 - w) as nat) + acc@,
        decreases 8 - w,
    {
        let d = cur % 16;
        let ghost k = (8 - w - 1) as nat;
        assert(upper_hex(cur as nat, (8 - w) as nat) == upper_hex((cur / 16) as nat, k).push(
            upper_hex_digit(d as nat),
        ));
        let ghost a0 = acc@;
        acc = String::from_str(upper_hex_digit_str(d)).concat(acc.as_str());
        assert(upper_hex((cur / 16) as nat, k).push(upper_hex_digit(d as nat)) + a0 =~= upper_hex(
            (cur / 16) as nat,
            k,
        ) + acc@);
        cur = cur / 16;
        w += 1;
    }
    assert(upper_hex(cur as nat, 0) =~= Seq::<char>::empty());
    assert(acc@ =~= upper_hex(n as nat, 8));
    acc
}

/// The message for a log header with the wrong magic number.
fn bad_magic_message(magic: u32) -> (r: String)
    ensures
        r@ == bad_magic_text(magic),
{
    String::from_str("Invalid WAL magic: 0x").concat(upper_hex8(magic).as_str())
}

/// The message for a log header with an unknown version.
fn bad_version_message(version: u32) -> (r: String)
    ensures
        r@ == bad_version_text(version),
{
    String::from_str("Unsupported WAL version: ").concat(decimal_string(version as u64).as_str())
}

/// Reads a log header and returns its salts.
///
/// Fails with `WalCorrupted` when the magic number or the version is wrong.
pub fn parse_wal_header(header: &[u8]) -> (r: Result<(u32, u32), StorageError>)
    requires
        header@.len() >= WAL_HEADER_SIZE,
    ensures
        u32_of_le(header@.subrange(0, 4)) != WAL_MAGIC ==> (r matches Err(StorageError::WalCorrupted(msg))
            && msg@ == bad_magic_text(u32_of_le(header@.subrange(0, 4)))),
        u32_of_le(header@.subrange(0, 4)) == WAL_MAGIC && u32_of_le(header@.subrange(4, 8))
            != WAL_VERSION ==> (r matches Err(StorageError::WalCorrupted(msg))
            && msg@ == bad_version_text(u32_of_le(header@.subrange(4, 8)))),
        u32_of_le(header@.subrange(0, 4)) == WAL_MAGIC && u32_of_le(header@.subrange(4, 8))
            == WAL_VERSION ==> r == Ok::<(u32, u32), StorageError>(
            (u32_of_le(header@.subrange(16, 20)), u32_of_le(header@.subrange(20, 24))),
        ),
{
    let magic = get_u32(header, 0);
    if magic != WAL_MAGIC {
        return Err(StorageError::WalCorrupted(bad_magic_message(magic)));
    }
    let version = get_u32(header, 4);
    if version != WAL_VERSION {
        return Err(StorageError::WalCorrupted(bad_version_message(version)));
    }
    let s1 = get_u32(header, 16);
    let s2 = get_u32(header, 20);
    Ok((s1, s2))
}

/// Reading back a header that `build_wal_header` wrote gives its salts.
pub proof fn lemma_wal_header_roundtrip(page_size: u32, checkpoint_seq: u32, salt1: u32, salt2: u32)
    ensures
        ({
            let h = wal_header_bytes(page_size, checkpoint_seq, salt1, salt2);
            &&& h.len() == WAL_HEADER_SIZE
            &&& u32_of_le(h.subrange(0, 4)) == WAL_MAGIC
            &&& u32_of_le(h.subrange(4, 8)) == WAL_VERSION
            &&& u32_of_le(h.subrange(16, 20)) == salt1
            &&& u32_of_le(h.subrange(20, 24)) == salt2
        }),
{
    let h = wal_header_bytes(page_size, checkpoint_seq, salt1, salt2);
    lemma_u32_roundtrip(WAL_MAGIC);
    lemma_u32_roundtrip(WAL_VERSION);
    lemma_u32_roundtrip(page_size);
    lemma_u32_roundtrip(checkpoint_seq);
    lemma_u32_roundtrip(salt1);
    lemma_u32_roundtrip(salt2);
    lemma_u64_roundtrip(crc32(wal_header_fields(page_size, checkpoint_seq, salt1, salt2)) as u64);
    assert(h.subrange(0, 4) =~= le_u32(WAL_MAGIC));
    assert(h.subrange(4, 8) =~= le_u32(WAL_VERSION));
    assert(h.subrange(16, 20) =~= le_u32(salt1));
    assert(h.subrange(20, 24) =~= le_u32(salt2));
}

// ---------------------------------------------------------------------------
// Reading frames back
// ---------------------------------------------------------------------------

/// A copy of `len` bytes of `src` starting at `start`.
pub(crate) fn copy_range(src: &[u8], start: usize, len: usize) -> (r: Vec<u8>)
    requires
        start + len <= src@.len(),
    ensures
        r@ == src@.subrange(start as int, start + len),
{
    let mut out: Vec<u8> = Vec::with_capacity(len);
    let mut i: usize = 0;
    while i < len
        invariant
            start + len <= src.len(),
            i <= len,
            out@ == src@.subrange(start as int, start + i),
        decreases len - i,
    {
        out.push(src[start + i]);
        i += 1;
        assert(out@ =~= src@.subrange(start as int, start + i));
    }
    out
}

/// The views of a list of frames.
pub open spec fn frame_views(frames: Seq<WalFrame>) -> Seq<(u32, u64, Seq<u8>)> {
    frames.map_values(|f: WalFrame| f@)
}

/// Reads every valid frame of a log image, in order, starting after the
/// header; the scan stops at an incomplete frame or a checksum mismatch.
pub fn read_all_frames(wal: &[u8], page_size: u32, salt1: u32, salt2: u32) -> (r: Vec<WalFrame>)
    ensures
        frame_views(r@) == scan_frames(wal@, WAL_HEADER_SIZE as int, page_size, salt1, salt2),
{
    let file_len = wal.len();
    let ps = page_size as usize;
    let mut offset: usize = WAL_HEADER_SIZE;
    let mut frames: Vec<WalFrame> = Vec::new();
    loop
        invariant
            file_len == wal@.len(),
            ps == page_size,
            offset >= WAL_HEADER_SIZE,
            frame_views(frames@) + scan_frames(wal@, offset as int, page_size, salt1, salt2)
                == scan_frames(wal@, WAL_HEADER_SIZE as int, page_size, salt1, salt2),
        ensures
            frame_views(frames@) == scan_frames(wal@, WAL_HEADER_SIZE as int, page_size, salt1, salt2),
        decreases file_len - offset,
    {
        if !(offset <= file_len && file_len - offset >= WAL_FRAME_HEADER_SIZE) {
            proof {
                assert(scan_frames(wal@, offset as int, page_size, salt1, salt2) =~= Seq::empty());
                assert(frame_views(frames@) + Seq::empty() =~= frame_views(frames@));
            }
            break ;
        }
        let page_number = get_u32(wal, offset);
        let db_size_after = get_u64(wal, offset + 4);
        let stored_cs1 = get_u32(wal, offset + 20);
        let stored_cs2 = get_u32(wal, offset + 24);
        let page_offset = offset + WAL_FRAME_HEADER_SIZE;
        if file_len - page_offset < ps {
            proof {
                assert(scan_frames(wal@, offset as int, page_size, salt1, salt2) =~= Seq::empty());
                assert(frame_views(frames@) + Seq::empty() =~= frame_views(frames@));
            }
            break ;
        }
        let page_data: Vec<u8> = copy_range(wal, page_offset, ps);
        let (cs1, cs2) = compute_frame_checksum(page_number, page_data.as_slice(), salt1, salt2, 0);
        if cs1 != stored_cs1 || cs2 != stored_cs2 {
            proof {
                assert(scan_frames(wal@, offset as int, page_size, salt1, salt2) =~= Seq::empty());
                assert(frame_views(frames@) + Seq::empty() =~= frame_views(frames@));
            }
            break ;
        }
        let ghost before = frames@;
        frames.push(WalFrame { page_number, db_size_after, page_data });
        proof {
            let rest = scan_frames(wal@, (page_offset + ps) as int, page_size, salt1, salt2);
            assert(frames@ =~= before.push(frames@.last()));
            assert(frame_views(frames@) =~= frame_views(before).push(
                (page_number, db_size_after, page_data@),
            ));
            assert(frame_views(frames@) + rest =~= frame_views(before) + (seq![
                (page_number, db_size_after, page_data@),
            ] + rest));
        }
        offset = page_offset + ps;
    }
    frames
}

} // verus!

verus! {

/// The header of a frame is 28 bytes long, and the fields it stores read
/// back as the values it was built from.
pub proof fn lemma_frame_header_fields(
    page_number: u32,
    db_size_after: u64,
    salt1: u32,
    salt2: u32,
    data: Seq<u8>,
)
    ensures
        ({
            let h = frame_header_bytes(page_number, db_size_after, salt1, salt2, data);
            let sums = frame_checksums(page_number, data, salt1, salt2, 0);
            &&& h.len() == WAL_FRAME_HEADER_SIZE
            &&& u32_of_le(h.subrange(0, 4)) == page_number
            &&& u64_of_le(h.subrange(4, 12)) == db_size_after
            &&& u32_of_le(h.subrange(20, 24)) == sums.0
            &&& u32_of_le(h.subrange(24, 28)) == sums.1
        }),
{
    let h = frame_header_bytes(page_number, db_size_after, salt1, salt2, data);
    let sums = frame_checksums(page_number, data, salt1, salt2, 0);
    lemma_u32_roundtrip(page_number);
    lemma_u64_roundtrip(db_size_after);
    lemma_u32_roundtrip(salt1);
    lemma_u32_roundtrip(salt2);
    lemma_u32_roundtrip(sums.0);
    lemma_u32_roundtrip(sums.1);
    assert(h.subrange(0, 4) =~= le_u32(page_number));
    assert(h.subrange(4, 12) =~= le_u64(db_size_after));
    assert(h.subrange(20, 24) =~= le_u32(sums.0));
    assert(h.subrange(24, 28) =~= le_u32(sums.1));
}

/// A scan that reaches a whole, well-formed frame reads it and goes on
/// right after it.
proof fn lemma_scan_one_frame(
    wal: Seq<u8>,
    off: int,
    f: (u32, u64, Seq<u8>),
    page_size: u32,
    salt1: u32,
    salt2: u32,
)
    requires
        0 <= off,
        f.2.len() == page_size,
        off + WAL_FRAME_HEADER_SIZE + page_size <= wal.len(),
        wal.subrange(off, off + WAL_FRAME_HEADER_SIZE + page_size) == frame_bytes(f, salt1, salt2),
    ensures
        scan_frames(wal, off, page_size, salt1, salt2) == seq![f] + scan_frames(
            wal,
            off + WAL_FRAME_HEADER_SIZE + page_size,
            page_size,
            salt1,
            salt2,
        ),
{
    let fb = frame_bytes(f, salt1, salt2);
    let h = frame_header_bytes(f.0, f.1, salt1, salt2, f.2);
    lemma_frame_header_fields(f.0, f.1, salt1, salt2, f.2);
    let w = wal.subrange(off, off + WAL_FRAME_HEADER_SIZE + page_size);
    assert(w == h + f.2);
    assert(wal.subrange(off, off + 4) =~= w.subrange(0, 4));
    assert(w.subrange(0, 4) =~= h.subrange(0, 4));
    assert(wal.subrange(off + 4, off + 12) =~= w.subrange(4, 12));
    assert(w.subrange(4, 12) =~= h.subrange(4, 12));
    assert(wal.subrange(off + 20, off + 24) =~= w.subrange(20, 24));
    assert(w.subrange(20, 24) =~= h.subrange(20, 24));
    assert(wal.subrange(off + 24, off + 28) =~= w.subrange(24, 28));
    assert(w.subrange(24, 28) =~= h.subrange(24, 28));
    assert(wal.subrange(off + 28, off + 28 + page_size) =~= w.subrange(28, 28 + page_size));
    assert(w.subrange(28, 28 + page_size) =~= f.2);
}

/// Replaying a log reads back exactly the frames that were appended to it,
/// in order: whatever precedes them, and even when a crash left a partial
/// frame (shorter than a whole frame) at the end.
#[verifier::spinoff_prover]
#[verifier::rlimit(40)]
pub proof fn lemma_scan_reads_back_frames(
    prefix: Seq<u8>,
    frames: Seq<(u32, u64, Seq<u8>)>,
    tail: Seq<u8>,
    page_size: u32,
    salt1: u32,
    salt2: u32,
)
    requires
        forall|i: int| 0 <= i < frames.len() ==> (#[trigger] frames[i]).2.len() == page_size,
        tail.len() < WAL_FRAME_HEADER_SIZE + page_size,
    ensures
        scan_frames(
            prefix + frames_bytes(frames, salt1, salt2) + tail,
            prefix.len() as int,
            page_size,
            salt1,
            salt2,
        ) == frames,
    decreases frames.len(),
{
    let wal = prefix + frames_bytes(frames, salt1, salt2) + tail;
    let off = prefix.len() as int;
    if frames.len() == 0 {
        assert(wal =~= prefix + tail);
        assert(scan_frames(wal, off, page_size, salt1, salt2) =~= Seq::empty());
    } else {
        let f = frames[0];
        let rest = frames.drop_first();
        let fb = frame_bytes(f, salt1, salt2);
        let p2 = prefix + fb;
        lemma_frame_header_fields(f.0, f.1, salt1, salt2, f.2);
        assert(fb.len() == WAL_FRAME_HEADER_SIZE + page_size);
        assert forall|i: int| 0 <= i < rest.len() implies (#[trigger] rest[i]).2.len()
            == page_size by {
            assert(rest[i] == frames[i + 1]);
        }
        assert(wal =~= p2 + frames_bytes(rest, salt1, salt2) + tail);
        lemma_scan_reads_back_frames(p2, rest, tail, page_size, salt1, salt2);
        assert(wal.subrange(off, off + WAL_FRAME_HEADER_SIZE + page_size) =~= fb);
        lemma_scan_one_frame(wal, off, f, page_size, salt1, salt2);
        assert(seq![f] + rest =~= frames);
    }
}

// ---------------------------------------------------------------------------
// Replaying frames onto the database image
// ---------------------------------------------------------------------------

/// `db` after writing `data` at byte offset `off`; a write past the end
/// extends the image, with zero bytes filling any gap.
pub open spec fn write_at(db: Seq<u8>, off: int, data: Seq<u8>) -> Seq<u8> {
    let ext = if db.len() < off {
        db + Seq::new((off - db.len()) as nat, |i: int| 0u8)
    } else {
        db
    };
    if off + data.len() >= ext.len() {
        ext.take(off) + data
    } else {
        ext.take(off) + data + ext.skip(off + data.len())
    }
}

/// `db` after writing each frame's page at its place, in order.
pub open spec fn replay(db: Seq<u8>, frames: Seq<(u32, u64, Seq<u8>)>, page_size: u32) -> Seq<u8>
    decreases frames.len(),
{
    if frames.len() == 0 {
        db
    } else {
        let f = frames.last();
        write_at(replay(db, frames.drop_last(), page_size), f.0 * page_size, f.2)
    }
}

/// Writes `data` into the image at byte offset `off`, extending it as needed.
pub fn write_page_image(db: &mut Vec<u8>, off: usize, data: &[u8])
    requires
        off + data@.len() <= usize::MAX,
    ensures
        final(db)@ == write_at(old(db)@, off as int, data@),
{
    let ghost d0 = db@;
    while db.len() < off
        invariant
            d0.len() <= off ==> db@ == d0 + Seq::new((db@.len() - d0.len()) as nat, |i: int| 0u8),
            d0.len() > off ==> db@ == d0,
            db@.len() <= off || db@ == d0,
        decreases off - db@.len(),
    {
        db.push(0u8);
        proof {
            assert(db@ =~= d0 + Seq::new((db@.len() - d0.len()) as nat, |i: int| 0u8));
        }
    }
    let ghost ext = db@;
    proof {
        if d0.len() < off {
            assert(ext =~= d0 + Seq::new((off - d0.len()) as nat, |i: int| 0u8));
        } else {
            assert(ext =~= d0);
        }
    }
    let n = data.len();
    let mut i: usize = 0;
    while i < n
        invariant
            n == data@.len(),
            off + n <= usize::MAX,
            ext.len() >= off,
            i <= n,
            db@.len() == if off + i > ext.len() { off + i } else { ext.len() as int },
            forall|j: int| 0 <= j < off ==> db@[j] == ext[j],
            forall|j: int| 0 <= j < i ==> db@[off + j] == data@[j],
            forall|j: int| off + i <= j < db@.len() ==> db@[j] == ext[j],
        decreases n - i,
    {
        if off + i < db.len() {
            db.set(off + i, data[i]);
        } else {
            db.push(data[i]);
        }
        i += 1;
    }
    proof {
        let w = write_at(d0, off as int, data@);
        if off + n >= ext.len() {
            assert(db@ =~= ext.take(off as int) + data@);
        } else {
            assert(db@ =~= ext.take(off as int) + data@ + ext.skip(off + n));
        }
    }
}

/// Whether every frame's page lies within the addressable range.
pub open spec fn frames_fit(frames: Seq<(u32, u64, Seq<u8>)>, page_size: u32) -> bool {
    forall|i: int|
        0 <= i < frames.len() ==> (#[trigger] frames[i]).0 * page_size + frames[i].2.len()
            <= usize::MAX
}

/// Writes each frame's page data at `page_number * page_size`, in order.
pub fn apply_frames(db: &mut Vec<u8>, frames: &Vec<WalFrame>, page_size: u32)
    requires
        frames_fit(frame_views(frames@), page_size),
    ensures
        final(db)@ == replay(old(db)@, frame_views(frames@), page_size),
{
    let ghost d0 = db@;
    let n = frames.len();
    let mut i: usize = 0;
    while i < n
        invariant
            n == frames@.len(),
            i <= n,
            frames_fit(frame_views(frames@), page_size),
            db@ == replay(d0, frame_views(frames@).take(i as int), page_size),
        decreases n - i,
    {
        let frame = &frames[i];
        proof {
            assert(frame_views(frames@)[i as int] == frame@);
            assert(frame.page_number * page_size + frame.page_data@.len() <= usize::MAX);
            assert(frame.page_number * page_size <= usize::MAX);
        }
        let off = (frame.page_number as u64 * page_size as u64) as usize;
        write_page_image(db, off, frame.page_data.as_slice());
        proof {
            let t = frame_views(frames@).take(i + 1);
            assert(t.drop_last() =~= frame_views(frames@).take(i as int));
            assert(t.last() == frame@);
        }
        i += 1;
    }
    assert(frame_views(frames@).take(n as int) =~= frame_views(frames@));
}

/// After a page is written, reading it back gives exactly what was written,
/// and every byte before it keeps its value.
pub proof fn lemma_write_at_reads_back(db: Seq<u8>, off: int, data: Seq<u8>)
    requires
        0 <= off,
    ensures
        write_at(db, off, data).subrange(off, off + data.len()) == data,
        forall|j: int|
            0 <= j < off && j < db.len() ==> #[trigger] write_at(db, off, data)[j] == db[j],
        forall|j: int|
            off + data.len() <= j < db.len() ==> #[trigger] write_at(db, off, data)[j] == db[j],
        write_at(db, off, data).len() == if off + data.len() > db.len() {
            off + data.len()
        } else {
            db.len() as int
        },
{
    let w = write_at(db, off, data);
    assert(w.subrange(off, off + data.len()) =~= data);
}

/// A later write of the same length to the same place hides the earlier one.
pub proof fn lemma_write_at_overwrites(db: Seq<u8>, off: int, d1: Seq<u8>, d2: Seq<u8>)
    requires
        0 <= off,
        d1.len() == d2.len(),
    ensures
        write_at(write_at(db, off, d1), off, d2) == write_at(db, off, d2),
{
    assert(write_at(write_at(db, off, d1), off, d2) =~= write_at(db, off, d2));
}

/// Replaying one frame more writes that frame's page over the image that
/// the earlier frames left: frames are applied in log order.
pub proof fn lemma_replay_push(
    db: Seq<u8>,
    frames: Seq<(u32, u64, Seq<u8>)>,
    f: (u32, u64, Seq<u8>),
    page_size: u32,
)
    ensures
        replay(db, frames.push(f), page_size) == write_at(
            replay(db, frames, page_size),
            f.0 * page_size,
            f.2,
        ),
{
    assert(frames.push(f).drop_last() =~= frames);
}

/// Replaying a log in which the last frame writes page `f.0` leaves that
/// page holding exactly the last frame's data, whatever earlier frames
/// wrote there: the newest image of a page wins.
pub proof fn lemma_replay_last_frame_wins(
    db: Seq<u8>,
    frames: Seq<(u32, u64, Seq<u8>)>,
    f: (u32, u64, Seq<u8>),
    page_size: u32,
)
    ensures
        replay(db, frames.push(f), page_size).subrange(
            f.0 * page_size,
            f.0 * page_size + f.2.len(),
        ) == f.2,
{
    lemma_replay_push(db, frames, f, page_size);
    lemma_write_at_reads_back(replay(db, frames, page_size), f.0 * page_size, f.2);
}

/// Replaying two logs one after the other is replaying their frames
/// together, the first log's frames first.
pub proof fn lemma_replay_append(
    db: Seq<u8>,
    first: Seq<(u32, u64, Seq<u8>)>,
    second: Seq<(u32, u64, Seq<u8>)>,
    page_size: u32,
)
    ensures
        replay(db, first + second, page_size) == replay(
            replay(db, first, page_size),
            second,
            page_size,
        ),
    decreases second.len(),
{
    if second.len() == 0 {
        assert(first + second =~= first);
    } else {
        let init = second.drop_last();
        lemma_replay_append(db, first, init, page_size);
        assert((first + second).drop_last() =~= first + init);
        assert((first + second).last() == second.last());
    }
}

// ---------------------------------------------------------------------------
// Log state and recovery decisions
// ---------------------------------------------------------------------------

/// Calls `fastrand::u32(..)`, which draws a `u32` from the thread-local
/// random generator. Nothing is promised of the value.
#[verifier::external_body]
fn random_u32() -> u32 {
    fastrand::u32(..)
}

/// The in-memory state of a write-ahead log: its page size, the salts that
/// tie frames to this log, the sequence of the last frame, and the number
/// of frames since the last checkpoint.
pub struct WalState {
    pub page_size: u32,
    pub sequence: u64,
    pub salt1: u32,
    pub salt2: u32,
    pub frame_count: u64,
    pub checkpoint_threshold: u64,
}

impl WalState {
    /// A fresh log state with two random salts.
    pub fn new(page_size: u32) -> (r: Self)
        ensures
            r.page_size == page_size,
            r.sequence == 0,
            r.frame_count == 0,
            r.checkpoint_threshold == DEFAULT_CHECKPOINT_THRESHOLD,
    {
        let salt1 = random_u32();
        let salt2 = random_u32();
        Self::with_salts(page_size, salt1, salt2)
    }

    /// A fresh log state with the given salts.
    pub fn with_salts(page_size: u32, salt1: u32, salt2: u32) -> (r: Self)
        ensures
            r == (WalState {
                page_size,
                sequence: 0,
                salt1,
                salt2,
                frame_count: 0,
                checkpoint_threshold: DEFAULT_CHECKPOINT_THRESHOLD,
            }),
    {
        WalState {
            page_size,
            sequence: 0,
            salt1,
            salt2,
            frame_count: 0,
            checkpoint_threshold: DEFAULT_CHECKPOINT_THRESHOLD,
        }
    }

    /// The header this log writes at its start.
    pub fn header_bytes(&self) -> (r: Vec<u8>)
        ensures
            r@ == wal_header_bytes(self.page_size, self.sequence as u32, self.salt1, self.salt2),
    {
        build_wal_header(self.page_size, self.sequence as u32, self.salt1, self.salt2)
    }

    /// Numbers the next frame and returns its sequence number with the
    /// bytes to append to the log file: the frame header, then the page.
    pub fn append_frame(&mut self, page_number: u32, page_data: &[u8], db_size_after: u64) -> (r: (
        u64,
        Vec<u8>,
    ))
        requires
            old(self).sequence < u64::MAX,
            old(self).frame_count < u64::MAX,
        ensures
            final(self).sequence == old(self).sequence + 1,
            final(self).frame_count == old(self).frame_count + 1,
            final(self).page_size == old(self).page_size,
            final(self).salt1 == old(self).salt1,
            final(self).salt2 == old(self).salt2,
            final(self).checkpoint_threshold == old(self).checkpoint_threshold,
            r.0 == final(self).sequence,
            r.1@ == frame_bytes((page_number, db_size_after, page_data@), old(self).salt1, old(self).salt2),
    {
        self.sequence = self.sequence + 1;
        let frame_seq = self.sequence;
        let mut bytes = build_frame_header(page_number, db_size_after, self.salt1, self.salt2, page_data);
        bytes.extend_from_slice(page_data);
        assert(bytes@ =~= frame_bytes((page_number, db_size_after, page_data@), self.salt1, self.salt2));
        self.frame_count = self.frame_count + 1;
        (frame_seq, bytes)
    }

    /// Whether the number of frames since the last checkpoint has reached
    /// the threshold.
    pub fn needs_checkpoint(&self) -> (r: bool)
        ensures
            r == (self.frame_count >= self.checkpoint_threshold),
    {
        self.frame_count >= self.checkpoint_threshold
    }

    /// Resets the counters after a checkpoint.
    pub fn reset_counters(&mut self)
        ensures
            *final(self) == (WalState { sequence: 0, frame_count: 0, ..*old(self) }),
    {
        self.sequence = 0;
        self.frame_count = 0;
    }

    /// Adopts the salts of an existing log, so its frames can be checked.
    pub fn use_salts(&mut self, salt1: u32, salt2: u32)
        ensures
            *final(self) == (WalState { salt1, salt2, ..*old(self) }),
    {
        self.salt1 = salt1;
        self.salt2 = salt2;
    }
}

/// What recovery does with a log file found at startup.
pub enum RecoveryPlan {
    /// Nothing to replay; leave the files as they are.
    Nothing,
    /// The log header is unreadable: delete the log.
    Discard,
    /// Replay these frames, which were checked with these salts, onto the
    /// database, then rewrite the log empty.
    Replay { salt1: u32, salt2: u32, frames: Vec<WalFrame> },
}

/// What recovery does with a log image, as a value.
pub enum RecoverySpec {
    Nothing,
    Discard,
    Replay(u32, u32, Seq<(u32, u64, Seq<u8>)>),
}

/// What recovery does with a log image: nothing when the log holds no
/// more than a header, when its salts are both zero, or when it holds no
/// valid frame; discard it when its header is corrupted; otherwise replay
/// the frames that the header's salts validate.
pub open spec fn recovery_plan(wal: Seq<u8>, page_size: u32) -> RecoverySpec {
    if wal.len() <= WAL_HEADER_SIZE {
        RecoverySpec::Nothing
    } else {
        let magic = u32_of_le(wal.subrange(0, 4));
        let version = u32_of_le(wal.subrange(4, 8));
        let s1 = u32_of_le(wal.subrange(16, 20));
        let s2 = u32_of_le(wal.subrange(20, 24));
        let frames = scan_frames(wal, WAL_HEADER_SIZE as int, page_size, s1, s2);
        if magic != WAL_MAGIC || version != WAL_VERSION {
            RecoverySpec::Discard
        } else if (s1 == 0 && s2 == 0) || frames.len() == 0 {
            RecoverySpec::Nothing
        } else {
            RecoverySpec::Replay(s1, s2, frames)
        }
    }
}

/// A log written as a header with nonzero salts, then frames of whole
/// pages with those salts, maybe followed by the torn start of one more
/// frame, is recovered by replaying exactly those frames.
pub proof fn lemma_written_log_recovers(
    page_size: u32,
    checkpoint_seq: u32,
    salt1: u32,
    salt2: u32,
    frames: Seq<(u32, u64, Seq<u8>)>,
    tail: Seq<u8>,
)
    requires
        !(salt1 == 0 && salt2 == 0),
        frames.len() >= 1,
        forall|i: int| 0 <= i < frames.len() ==> (#[trigger] frames[i]).2.len() == page_size,
        tail.len() < WAL_FRAME_HEADER_SIZE + page_size,
    ensures
        recovery_plan(
            wal_header_bytes(page_size, checkpoint_seq, salt1, salt2) + frames_bytes(
                frames,
                salt1,
                salt2,
            ) + tail,
            page_size,
        ) == RecoverySpec::Replay(salt1, salt2, frames),
{
    let h = wal_header_bytes(page_size, checkpoint_seq, salt1, salt2);
    let wal = h + frames_bytes(frames, salt1, salt2) + tail;
    lemma_wal_header_roundtrip(page_size, checkpoint_seq, salt1, salt2);
    lemma_scan_reads_back_frames(h, frames, tail, page_size, salt1, salt2);
    let f0 = frames[0];
    assert(frames_bytes(frames, salt1, salt2).len() > 0) by {
        assert(frames_bytes(frames, salt1, salt2) == frame_bytes(f0, salt1, salt2) + frames_bytes(
            frames.drop_first(),
            salt1,
            salt2,
        ));
        lemma_frame_header_fields(f0.0, f0.1, salt1, salt2, f0.2);
    }
    assert(wal.subrange(0, 4) =~= h.subrange(0, 4));
    assert(wal.subrange(4, 8) =~= h.subrange(4, 8));
    assert(wal.subrange(16, 20) =~= h.subrange(16, 20));
    assert(wal.subrange(20, 24) =~= h.subrange(20, 24));
}

/// A log that holds only its header, as after a checkpoint, makes
/// recovery do nothing.
pub proof fn lemma_header_only_log_recovers_nothing(
    page_size: u32,
    checkpoint_seq: u32,
    salt1: u32,
    salt2: u32,
)
    ensures
        recovery_plan(wal_header_bytes(page_size, checkpoint_seq, salt1, salt2), page_size)
            == RecoverySpec::Nothing,
{
    lemma_wal_header_roundtrip(page_size, checkpoint_seq, salt1, salt2);
}

/// Decides what recovery does with a log image (see `recovery_plan`).
pub fn plan_recovery(wal: &[u8], page_size: u32) -> (r: RecoveryPlan)
    ensures
        match recovery_plan(wal@, page_size) {
            RecoverySpec::Nothing => r is Nothing,
            RecoverySpec::Discard => r is Discard,
            RecoverySpec::Replay(s1, s2, frames) => r matches RecoveryPlan::Replay {
                salt1,
                salt2,
                frames: fs,
            } && salt1 == s1 && salt2 == s2 && frame_views(fs@) == frames,
        },
{
    if wal.len() <= WAL_HEADER_SIZE {
        return RecoveryPlan::Nothing;
    }
    let (salt1, salt2) = match parse_wal_header(wal) {
        Ok(salts) => salts,
        Err(_) => {
            return RecoveryPlan::Discard;
        },
    };
    if salt1 == 0 && salt2 == 0 {
        return RecoveryPlan::Nothing;
    }
    let frames = read_all_frames(wal, page_size, salt1, salt2);
    if frames.len() == 0 {
        return RecoveryPlan::Nothing;
    }
    RecoveryPlan::Replay { salt1, salt2, frames }
}

} // verus!
