use indexedlog::checksum_table::{ChecksumTable, Error};

/// The primary file and its sidecar file, as a file system would hold them.
struct Files {
    main: Option<Vec<u8>>,
    sum: Option<Vec<u8>>,
}

impl Files {
    fn empty() -> Files {
        Files { main: Some(Vec::new()), sum: None }
    }

    fn write_all(&mut self, bytes: &[u8]) {
        self.main.as_mut().unwrap().extend_from_slice(bytes);
    }

    fn write_at(&mut self, at: usize, bytes: &[u8]) {
        let main = self.main.as_mut().unwrap();
        for (i, b) in bytes.iter().enumerate() {
            if at + i < main.len() {
                main[at + i] = *b;
            } else {
                main.push(*b);
            }
        }
    }

    fn set_len(&mut self, len: usize) {
        self.main.as_mut().unwrap().truncate(len);
    }

    fn len(&self) -> usize {
        self.main.as_ref().unwrap().len()
    }

    fn view(&self) -> &[u8] {
        self.main.as_deref().unwrap()
    }

    fn table(&self) -> Result<ChecksumTable, Error> {
        ChecksumTable::new("main", self.main.as_deref(), self.sum.clone())
    }

    /// Updates the table from the primary file and writes the sidecar file.
    fn update(&mut self, table: &mut ChecksumTable, log: Option<u32>) -> Result<bool, Error> {
        let changed = table.update(self.view(), log)?;
        if changed {
            self.sum = Some(table.to_sidecar());
        }
        Ok(changed)
    }
}

fn setup() -> Files {
    // Checksum a non-existed file is an error.
    assert!(ChecksumTable::new("non-existed", None, None).is_err());
    Files::empty()
}

#[test]
fn test_non_existed() {
    assert!(ChecksumTable::new("non-existed", None, None).is_err());
}

#[test]
fn test_empty() {
    let files = setup();
    let mut table = files.table().expect("checksum on an empty file is okay");
    assert!(table.check_range(files.view(), 0, 0).is_ok());
    assert!(table.check_range(files.view(), 0, 1).is_err());
    assert!(table.check_range(files.view(), 1, 0).is_ok());
    assert!(table.check_range(files.view(), 1, 1).is_err());
}

#[test]
fn test_update_from_empty() {
    let mut files = setup();
    files.write_all(b"01234567890123456789");
    let mut table = files.table().unwrap();
    files.update(&mut table, Some(7)).expect("update");
    assert!(table.check_range(files.view(), 1, 19).is_ok());
    assert!(table.check_range(files.view(), 1, 20).is_err());
    assert!(table.check_range(files.view(), 19, 1).is_ok());
    assert!(table.check_range(files.view(), 0, 1).is_ok());
    assert!(table.check_range(files.view(), 0, 21).is_err());
}

#[test]
fn test_incremental_update() {
    let mut files = setup();
    files.write_all(b"01234567890123456789");
    let mut table = files.table().unwrap();
    files.update(&mut table, Some(3)).expect("update");
    assert!(table.check_range(files.view(), 0, 20).is_ok());
    files.write_all(b"01234567890123456789");
    assert!(table.check_range(files.view(), 20, 1).is_err());
    files.update(&mut table, None).expect("update");
    assert!(table.check_range(files.view(), 20, 20).is_ok());
}

#[test]
fn test_change_chunk_size() {
    let mut files = setup();
    files.write_all(b"01234567890123456789");
    let mut table = files.table().unwrap();
    files.update(&mut table, Some(2)).expect("update");
    for &chunk_size in &[1, 2, 3, 4] {
        files.update(&mut table, Some(chunk_size)).expect("update");
        assert!(table.check_range(files.view(), 0, 20).is_ok());
        assert!(table.check_range(files.view(), 0, 21).is_err());
    }
}

#[test]
fn test_reload_from_disk() {
    let mut files = setup();
    files.write_all(b"01234567890123456789");
    let mut table = files.table().unwrap();
    files.update(&mut table, Some(3)).expect("update");
    assert!(table.check_range(files.view(), 0, 20).is_ok());
    assert!(table.check_range(files.view(), 0, 21).is_err());
    let mut table = files.table().unwrap();
    assert!(table.check_range(files.view(), 0, 20).is_ok());
    assert!(table.check_range(files.view(), 0, 21).is_err());
}

#[test]
fn test_broken_byte() {
    let mut files = setup();
    files.write_all(b"01234567890123456789");
    let mut table = files.table().unwrap();
    files.update(&mut table, Some(1)).expect("update");
    // Corruption: Corrupt the file at byte 5
    files.write_at(5, &[1]);
    let err = table.check_range(files.view(), 0, 10).unwrap_err();
    assert!(matches!(err, Error::Checksum { start: 0, end: 10, .. }));
    assert!(table.check_range(files.view(), 5, 1).is_err());
    // Byte 4 is not corrupted. But the same chunk is corrupted.
    assert!(table.check_range(files.view(), 4, 1).is_err());
    assert!(table.check_range(files.view(), 7, 13).is_ok());
    assert!(table.check_range(files.view(), 0, 4).is_ok());
}

#[test]
fn test_truncate() {
    let mut files = setup();
    files.write_all(b"01234567890123456789");
    let mut table = files.table().unwrap();
    files.update(&mut table, Some(1)).expect("update");
    files.set_len(19);
    let mut table = files.table().unwrap();
    assert!(table.check_range(files.view(), 0, 20).is_err());
    assert!(table.check_range(files.view(), 0, 19).is_err());
    assert!(table.check_range(files.view(), 0, 18).is_ok());
}

#[test]
fn test_broken_during_update() {
    let mut files = setup();
    files.write_all(b"01234567890123456789");
    let mut table = files.table().unwrap();
    files.update(&mut table, Some(3)).expect("update");
    files.write_at(files.len() - 1, b"x0123");
    files.update(&mut table, None).expect_err("broken during update");
    files.update(&mut table, Some(3)).expect_err("broken during update");
    // With clear(), update can work.
    table.clear();
    files.update(&mut table, Some(3)).expect("update");
    // If chunk boundary aligns with the broken range, corruption won't be detected.
    assert_eq!(files.len() - 1, 23);
    files.write_at(files.len() - 1, b"x123451234512345");
    files.update(&mut table, None).expect("update");
    // But explicitly verifying it will reveal the problem.
    assert!(table.check_range(files.view(), 23, 1).is_err());
    // Update with a different chunk_size will also cause an error.
    files.update(&mut table, Some(2)).expect_err("broken during update");
}
