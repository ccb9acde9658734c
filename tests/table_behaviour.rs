use indexedlog::checksum_table::{path_appendext, ChecksumTable, Error, DEFAULT_CHUNK_SIZE_LOG};
use std::hash::Hasher;

const TWENTY: &[u8] = b"01234567890123456789";

fn xxh64(bytes: &[u8]) -> u64 {
    let mut h = twox_hash::XxHash64::with_seed(0);
    h.write(bytes);
    h.finish()
}

fn le(v: u64) -> Vec<u8> {
    v.to_le_bytes().to_vec()
}

fn loaded(data: &[u8], sidecar: Option<Vec<u8>>) -> ChecksumTable {
    ChecksumTable::new("main", Some(data), sidecar).expect("load")
}

#[test]
fn empty_range_passes_anywhere() {
    let mut table = loaded(TWENTY, None);
    assert!(table.check_range(TWENTY, 0, 0).is_ok());
    assert!(table.check_range(TWENTY, 1000, 0).is_ok());
    assert!(table.check_range(TWENTY, u64::MAX, 0).is_ok());
    table.update(TWENTY, Some(3)).unwrap();
    assert!(table.check_range(TWENTY, 20, 0).is_ok());
    assert!(table.check_range(TWENTY, 21, 0).is_ok());
}

#[test]
fn uncovered_range_fails_and_names_the_range() {
    let mut table = loaded(TWENTY, None);
    table.update(TWENTY, Some(3)).unwrap();
    match table.check_range(TWENTY, 15, 6) {
        Err(Error::Checksum { path, start, end }) => {
            assert_eq!(path, "main");
            assert_eq!((start, end), (15, 21));
        }
        other => panic!("unexpected {:?}", other),
    }
    // The end of a range past u64::MAX is reported as u64::MAX.
    match table.check_range(TWENTY, u64::MAX, 2) {
        Err(Error::Checksum { start, end, .. }) => assert_eq!((start, end), (u64::MAX, u64::MAX)),
        other => panic!("unexpected {:?}", other),
    }
}

#[test]
fn range_past_the_given_bytes_fails() {
    let mut table = loaded(TWENTY, None);
    table.update(TWENTY, Some(3)).unwrap();
    assert!(table.check_range(&TWENTY[..12], 0, 12).is_err());
    assert!(table.check_range(&TWENTY[..12], 0, 13).is_err());
    assert!(table.check_range(TWENTY, 0, 13).is_ok());
}

#[test]
fn missing_primary_file_is_not_found() {
    match ChecksumTable::new("gone", None, Some(le(3))) {
        Err(Error::NotFound { path }) => assert_eq!(path, "gone"),
        _ => panic!("expected NotFound"),
    }
}

#[test]
fn table_without_sidecar_covers_nothing() {
    let mut table = loaded(TWENTY, None);
    assert_eq!(table.covered_length(), 0);
    assert_eq!(table.chunk_size_log(), DEFAULT_CHUNK_SIZE_LOG);
    assert_eq!(table.chunk_size_log(), 20);
    assert!(table.check_range(TWENTY, 0, 1).is_err());
    // An empty sidecar file counts as none.
    let mut table = loaded(TWENTY, Some(Vec::new()));
    assert_eq!(table.covered_length(), 0);
    assert!(table.check_range(TWENTY, 0, 1).is_err());
}

#[test]
fn sidecar_bytes_are_header_then_checksums() {
    let mut table = loaded(b"abcde", None);
    assert!(table.update(b"abcde", Some(2)).unwrap());
    let mut expected = le(2);
    expected.extend(le(5));
    expected.extend(le(xxh64(b"abcd")));
    expected.extend(le(xxh64(b"e")));
    assert_eq!(table.to_sidecar(), expected);
    assert!(table.check_range(b"abcde", 0, 5).is_ok());
}

#[test]
fn loading_reads_sidecar_written_by_hand() {
    let mut sidecar = le(2);
    sidecar.extend(le(5));
    sidecar.extend(le(xxh64(b"abcd")));
    sidecar.extend(le(xxh64(b"e")));
    // Bytes after the last checksum are ignored.
    sidecar.extend([9, 9, 9]);
    let mut table = loaded(b"abcde", Some(sidecar.clone()));
    assert_eq!(table.covered_length(), 5);
    assert_eq!(table.chunk_size_log(), 2);
    assert!(table.check_range(b"abcde", 0, 5).is_ok());

    // A wrong checksum for the last chunk fails only ranges that touch it.
    let n = sidecar.len();
    sidecar[n - 4] ^= 1;
    let mut table = loaded(b"abcde", Some(sidecar));
    assert!(table.check_range(b"abcde", 0, 4).is_ok());
    assert!(table.check_range(b"abcde", 3, 2).is_err());
    assert!(table.check_range(b"abcde", 4, 1).is_err());
}

#[test]
fn stored_length_is_cut_to_the_primary_file() {
    let mut sidecar = le(2);
    sidecar.extend(le(100));
    sidecar.extend(le(xxh64(b"abcd")));
    sidecar.extend(le(xxh64(b"e")));
    let mut table = loaded(b"abcde", Some(sidecar));
    assert_eq!(table.covered_length(), 5);
    assert!(table.check_range(b"abcde", 0, 5).is_ok());
    assert!(table.check_range(b"abcde", 0, 6).is_err());
}

#[test]
fn short_sidecar_is_rejected() {
    match ChecksumTable::new("main", Some(TWENTY), Some(vec![1, 2, 3])) {
        Err(Error::SidecarTooShort { path }) => assert_eq!(path, "main"),
        _ => panic!("expected SidecarTooShort"),
    }
    // Header without its covered length.
    assert!(matches!(
        ChecksumTable::new("main", Some(TWENTY), Some(le(3))),
        Err(Error::SidecarTooShort { .. })
    ));
    // Header announcing three chunks, with two checksums.
    let mut sidecar = le(3);
    sidecar.extend(le(20));
    sidecar.extend(le(1));
    sidecar.extend(le(2));
    assert!(matches!(
        ChecksumTable::new("main", Some(TWENTY), Some(sidecar)),
        Err(Error::SidecarTooShort { .. })
    ));
}

#[test]
fn sidecar_with_huge_chunk_size_is_rejected() {
    let mut sidecar = le(32);
    sidecar.extend(le(0));
    match ChecksumTable::new("main", Some(TWENTY), Some(sidecar)) {
        Err(Error::InvalidChunkSizeLog { path, chunk_size_log }) => {
            assert_eq!(path, "main");
            assert_eq!(chunk_size_log, 32);
        }
        _ => panic!("expected InvalidChunkSizeLog"),
    }
    // 31 is the largest accepted exponent.
    let mut sidecar = le(31);
    sidecar.extend(le(0));
    let table = loaded(TWENTY, Some(sidecar));
    assert_eq!(table.chunk_size_log(), 31);
}

#[test]
fn update_rejects_huge_chunk_size() {
    let mut table = loaded(TWENTY, None);
    match table.update(TWENTY, Some(32)) {
        Err(Error::ChunkSizeLogTooLarge { requested }) => assert_eq!(requested, 32),
        _ => panic!("expected ChunkSizeLogTooLarge"),
    }
    assert_eq!(table.covered_length(), 0);
    assert!(table.update(TWENTY, Some(31)).unwrap());
    assert!(table.check_range(TWENTY, 0, 20).is_ok());
}

#[test]
fn update_without_change_reports_nothing_to_write() {
    let mut table = loaded(TWENTY, None);
    assert!(table.update(TWENTY, Some(3)).unwrap());
    assert!(!table.update(TWENTY, None).unwrap());
    assert!(!table.update(TWENTY, Some(3)).unwrap());
    // Another chunk size rebuilds the table even without new bytes.
    assert!(table.update(TWENTY, Some(4)).unwrap());
    assert_eq!(table.chunk_size_log(), 4);
}

#[test]
fn reload_gives_same_outcomes() {
    let data: Vec<u8> = (0..37u8).collect();
    let mut table = loaded(&data, None);
    table.update(&data, Some(3)).unwrap();
    let mut again = loaded(&data, Some(table.to_sidecar()));
    assert_eq!(again.covered_length(), table.covered_length());
    assert_eq!(again.chunk_size_log(), table.chunk_size_log());
    assert_eq!(again.to_sidecar(), table.to_sidecar());
    for offset in 0..40u64 {
        for length in 0..40u64 {
            assert_eq!(
                again.check_range(&data, offset, length).is_ok(),
                table.check_range(&data, offset, length).is_ok()
            );
        }
    }
}

#[test]
fn corruption_is_seen_by_the_same_table() {
    let mut data = TWENTY.to_vec();
    let mut table = loaded(&data, None);
    table.update(&data, Some(2)).unwrap();
    data[9] = b'x';
    assert!(matches!(table.check_range(&data, 8, 1), Err(Error::Checksum { start: 8, end: 9, .. })));
    assert!(table.check_range(&data, 0, 8).is_ok());
    assert!(table.check_range(&data, 12, 8).is_ok());
    // A chunk once found intact is not hashed again.
    let mut table = loaded(TWENTY, Some(table.to_sidecar()));
    assert!(table.check_range(TWENTY, 8, 4).is_ok());
    assert!(table.check_range(&data, 8, 4).is_ok());
}

#[test]
fn truncated_file_fails_update() {
    let mut table = loaded(TWENTY, None);
    table.update(TWENTY, Some(2)).unwrap();
    match table.update(&TWENTY[..19], None) {
        Err(Error::Truncated { path }) => assert_eq!(path, "main"),
        _ => panic!("expected Truncated"),
    }
    assert!(matches!(table.update(&TWENTY[..10], Some(4)), Err(Error::Truncated { .. })));
    // The failed updates left the table as it was.
    assert_eq!(table.covered_length(), 20);
    assert!(table.check_range(TWENTY, 0, 20).is_ok());
    // Checks against the shorter file fail past its end.
    assert!(table.check_range(&TWENTY[..19], 0, 20).is_err());
}

#[test]
fn failed_update_keeps_table() {
    let mut table = loaded(TWENTY, None);
    table.update(TWENTY, Some(3)).unwrap();
    let before = table.to_sidecar();
    let mut changed = TWENTY.to_vec();
    changed[18] = b'x';
    changed.extend_from_slice(b"more");
    match table.update(&changed, None) {
        Err(Error::Checksum { start, end, .. }) => assert_eq!((start, end), (16, 20)),
        _ => panic!("expected Checksum"),
    }
    assert_eq!(table.to_sidecar(), before);
    assert_eq!(table.covered_length(), 20);
}

#[test]
fn clear_then_update_rebuilds_everything() {
    let mut table = loaded(TWENTY, None);
    table.update(TWENTY, Some(3)).unwrap();
    table.clear();
    assert_eq!(table.covered_length(), 0);
    assert!(table.check_range(TWENTY, 0, 1).is_err());
    // Earlier bytes changed: without clear() the update would refuse them.
    let mut changed = b"abcdefghijklmnopqrstuvwxyz".to_vec();
    changed[3] = 0;
    assert!(table.update(&changed, None).unwrap());
    assert_eq!(table.covered_length(), 26);
    for offset in 0..26u64 {
        assert!(table.check_range(&changed, offset, 26 - offset).is_ok());
    }
}

#[test]
fn paths_and_settings() {
    let table = loaded(TWENTY, None);
    assert_eq!(table.path(), "main");
    assert_eq!(table.checksum_path(), "main.sum");
    assert!(!table.fsync_enabled());
    let table = table.fsync(true);
    assert!(table.fsync_enabled());
    let table = ChecksumTable::new("data.idx", Some(&[]), None).unwrap();
    assert_eq!(table.checksum_path(), "data.idx.sum");
}

#[test]
fn extension_goes_after_the_file_name() {
    assert_eq!(path_appendext("a.tar.gz", "sum"), "a.tar.gz.sum");
    assert_eq!(path_appendext("x/data", "sum"), "x/data.sum");
    assert_eq!(path_appendext("x/.hidden", "sum"), "x/.hidden.sum");
    assert_eq!(path_appendext("dir/", "sum"), "dir.sum");
    assert_eq!(path_appendext("dir//", "sum"), "dir.sum");
    assert_eq!(path_appendext("a/.", "sum"), "a.sum");
    assert_eq!(path_appendext("a/./", "sum"), "a.sum");
    assert_eq!(path_appendext("/abs/f", "sum"), "/abs/f.sum");
    // Paths without a file name stay as they are.
    assert_eq!(path_appendext("/", "sum"), "/");
    assert_eq!(path_appendext("..", "sum"), "..");
    assert_eq!(path_appendext("a/..", "sum"), "a/..");
    assert_eq!(path_appendext(".", "sum"), ".");
    assert_eq!(path_appendext("", "sum"), "");
}

#[test]
fn clone_is_independent() {
    let mut table = loaded(TWENTY, None);
    table.update(TWENTY, Some(2)).unwrap();
    assert!(table.check_range(TWENTY, 0, 8).is_ok());
    let mut copy = table.clone();
    let mut longer = TWENTY.to_vec();
    longer.extend_from_slice(TWENTY);
    table.update(&longer, None).unwrap();
    assert_eq!(table.covered_length(), 40);
    assert_eq!(copy.covered_length(), 20);
    assert!(copy.check_range(&longer, 0, 20).is_ok());
    assert!(copy.check_range(&longer, 0, 21).is_err());
    assert_eq!(copy.checksum_path(), "main.sum");
}
