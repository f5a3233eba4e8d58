use vexra::error::StorageError;
use vexra::wal::{
    apply_frames, build_wal_header, parse_wal_header, plan_recovery, read_all_frames, RecoveryPlan,
    WalState, DEFAULT_CHECKPOINT_THRESHOLD, WAL_FRAME_HEADER_SIZE, WAL_HEADER_SIZE,
};

const PAGE: u32 = 4096;

/// A log image with a header and one frame per page given.
fn log_with(state: &mut WalState, pages: &[(u32, Vec<u8>, u64)]) -> Vec<u8> {
    let mut wal = state.header_bytes();
    for (page_number, data, db_size_after) in pages {
        let (_, bytes) = state.append_frame(*page_number, data, *db_size_after);
        wal.extend_from_slice(&bytes);
    }
    wal
}

#[test]
fn wal_header_roundtrip() {
    let header = build_wal_header(PAGE, 3, 0x1111, 0x2222);
    assert_eq!(header.len(), WAL_HEADER_SIZE);
    assert_eq!(parse_wal_header(&header), Ok((0x1111, 0x2222)));
}

#[test]
fn wal_header_with_bad_magic_or_version_is_corrupted() {
    let mut header = build_wal_header(PAGE, 0, 1, 2);
    header[0] ^= 0xFF;
    assert!(matches!(parse_wal_header(&header), Err(StorageError::WalCorrupted(_))));
    let mut header = build_wal_header(PAGE, 0, 1, 2);
    header[4] = 9;
    match parse_wal_header(&header) {
        Err(StorageError::WalCorrupted(msg)) => assert_eq!(msg, "Unsupported WAL version: 9"),
        other => panic!("{:?}", other),
    }
}

#[test]
fn appended_frames_read_back_in_order() {
    let mut state = WalState::with_salts(PAGE, 7, 9);
    let a = vec![0xCDu8; PAGE as usize];
    let b = vec![0x42u8; PAGE as usize];
    let wal = log_with(&mut state, &[(0, a.clone(), 1), (2, b.clone(), 3)]);
    assert_eq!(wal.len(), WAL_HEADER_SIZE + 2 * (WAL_FRAME_HEADER_SIZE + PAGE as usize));
    assert_eq!(state.sequence, 2);
    assert_eq!(state.frame_count, 2);

    let frames = read_all_frames(&wal, PAGE, 7, 9);
    assert_eq!(frames.len(), 2);
    assert_eq!((frames[0].page_number, frames[0].db_size_after), (0, 1));
    assert_eq!(frames[0].page_data, a);
    assert_eq!((frames[1].page_number, frames[1].db_size_after), (2, 3));
    assert_eq!(frames[1].page_data, b);
}

#[test]
fn scan_stops_at_torn_or_foreign_frames() {
    let mut state = WalState::with_salts(PAGE, 7, 9);
    let wal = log_with(
        &mut state,
        &[(0, vec![1u8; PAGE as usize], 1), (1, vec![2u8; PAGE as usize], 2)],
    );
    // A torn last frame is ignored.
    let torn = &wal[..wal.len() - 1];
    assert_eq!(read_all_frames(torn, PAGE, 7, 9).len(), 1);
    // Other salts match no frame.
    assert_eq!(read_all_frames(&wal, PAGE, 7, 8).len(), 0);
    // A flipped data byte fails the checksum, and the scan stops there.
    let mut bad = wal.clone();
    bad[WAL_HEADER_SIZE + WAL_FRAME_HEADER_SIZE + 5] ^= 1;
    assert_eq!(read_all_frames(&bad, PAGE, 7, 9).len(), 0);
}

#[test]
fn recovery_replays_frames_onto_the_database() {
    let mut state = WalState::with_salts(PAGE, 5, 6);
    let modified = vec![0xCDu8; PAGE as usize];
    let wal = log_with(&mut state, &[(0, modified.clone(), 1)]);
    match plan_recovery(&wal, PAGE) {
        RecoveryPlan::Replay { salt1, salt2, frames } => {
            assert_eq!((salt1, salt2), (5, 6));
            let mut db = vec![0xABu8; PAGE as usize];
            apply_frames(&mut db, &frames, PAGE);
            assert_eq!(db, modified);
        }
        _ => panic!("expected a replay"),
    }
}

#[test]
fn recovery_extends_the_database_for_later_pages() {
    let mut state = WalState::with_salts(PAGE, 5, 6);
    let page = vec![0x42u8; PAGE as usize];
    let wal = log_with(&mut state, &[(2, page.clone(), 3)]);
    let frames = read_all_frames(&wal, PAGE, 5, 6);
    let mut db = vec![1u8; PAGE as usize];
    apply_frames(&mut db, &frames, PAGE);
    assert_eq!(db.len(), 3 * PAGE as usize);
    assert_eq!(&db[..PAGE as usize], &vec![1u8; PAGE as usize][..]);
    assert_eq!(&db[PAGE as usize..2 * PAGE as usize], &vec![0u8; PAGE as usize][..]);
    assert_eq!(&db[2 * PAGE as usize..], &page[..]);
}

#[test]
fn recovery_of_empty_or_corrupted_logs() {
    let state = WalState::with_salts(PAGE, 5, 6);
    let header_only = state.header_bytes();
    assert!(matches!(plan_recovery(&header_only, PAGE), RecoveryPlan::Nothing));
    let mut junk = header_only.clone();
    junk.extend_from_slice(&[0u8; 10]);
    assert!(matches!(plan_recovery(&junk, PAGE), RecoveryPlan::Nothing));
    junk[0] ^= 0xFF;
    assert!(matches!(plan_recovery(&junk, PAGE), RecoveryPlan::Discard));
    let zero_salts = WalState::with_salts(PAGE, 0, 0);
    let mut s = zero_salts;
    let wal = log_with(&mut s, &[(0, vec![3u8; PAGE as usize], 1)]);
    assert!(matches!(plan_recovery(&wal, PAGE), RecoveryPlan::Nothing));
}

#[test]
fn checkpoint_threshold_and_reset() {
    let mut state = WalState::with_salts(PAGE, 1, 2);
    assert_eq!(state.checkpoint_threshold, DEFAULT_CHECKPOINT_THRESHOLD);
    assert!(!state.needs_checkpoint());
    state.checkpoint_threshold = 2;
    let _ = state.append_frame(0, &[0u8; 8], 1);
    assert!(!state.needs_checkpoint());
    let (seq, _) = state.append_frame(0, &[0u8; 8], 1);
    assert_eq!(seq, 2);
    assert!(state.needs_checkpoint());
    state.reset_counters();
    assert_eq!((state.sequence, state.frame_count), (0, 0));
    assert_eq!((state.salt1, state.salt2), (1, 2));
}

#[test]
fn fresh_logs_get_random_salts() {
    let a = WalState::new(PAGE);
    let b = WalState::new(PAGE);
    assert_eq!(a.page_size, PAGE);
    assert!((a.salt1, a.salt2) != (b.salt1, b.salt2));
}

#[test]
fn wal_header_bad_magic_message_names_the_magic() {
    let mut header = build_wal_header(PAGE, 0, 1, 2);
    header[0..4].copy_from_slice(&0x00AB_00CDu32.to_le_bytes());
    match parse_wal_header(&header) {
        Err(StorageError::WalCorrupted(msg)) => assert_eq!(msg, "Invalid WAL magic: 0x00AB00CD"),
        other => panic!("{:?}", other),
    }
}
