use os_exercises::fd_table::{FdTable, File};
use std::sync::{Arc, Mutex};

struct MockFile {
    id: usize,
    write_log: Mutex<Vec<Vec<u8>>>,
}

impl MockFile {
    fn new(id: usize) -> Arc<Self> {
        Arc::new(Self {
            id,
            write_log: Mutex::new(vec![]),
        })
    }
}

impl File for MockFile {
    fn read(&self, buf: &mut [u8]) -> isize {
        buf[0] = self.id as u8;
        1
    }
    fn write(&self, buf: &[u8]) -> isize {
        self.write_log.lock().unwrap().push(buf.to_vec());
        buf.len() as isize
    }
}

fn id_of(file: &Arc<dyn File>) -> u8 {
    let mut buf = [0u8; 1];
    file.read(&mut buf);
    buf[0]
}

#[test]
fn test_alloc_basic() {
    let mut table = FdTable::new();
    let fd = table.alloc_fd(MockFile::new(0));
    assert_eq!(fd, 0, "first fd should be 0");
    let fd2 = table.alloc_fd(MockFile::new(1));
    assert_eq!(fd2, 1, "second fd should be 1");
}

#[test]
fn test_get() {
    let mut table = FdTable::new();
    let file = MockFile::new(42);
    let fd = table.alloc_fd(file);
    let got = table.get(fd);
    assert!(got.is_some(), "get should return Some");
    let mut buf = [0u8; 1];
    got.unwrap().read(&mut buf);
    assert_eq!(buf[0], 42);
}

#[test]
fn test_get_invalid() {
    let table = FdTable::new();
    assert!(table.get(0).is_none());
    assert!(table.get(999).is_none());
}

#[test]
fn test_close_and_reuse() {
    let mut table = FdTable::new();
    let fd0 = table.alloc_fd(MockFile::new(0)); // fd=0
    let fd1 = table.alloc_fd(MockFile::new(1)); // fd=1
    let fd2 = table.alloc_fd(MockFile::new(2)); // fd=2

    assert!(table.close(fd1), "closing fd=1 should succeed");
    assert!(
        table.get(fd1).is_none(),
        "get should return None after close"
    );

    // Next allocation should reuse fd=1 (smallest free)
    let fd_new = table.alloc_fd(MockFile::new(99));
    assert_eq!(fd_new, fd1, "should reuse the smallest closed fd");

    let _ = (fd0, fd2);
}

#[test]
fn test_close_invalid() {
    let mut table = FdTable::new();
    assert!(
        !table.close(0),
        "closing non-existent fd should return false"
    );
}

#[test]
fn test_count() {
    let mut table = FdTable::new();
    assert_eq!(table.count(), 0);
    let fd0 = table.alloc_fd(MockFile::new(0));
    let fd1 = table.alloc_fd(MockFile::new(1));
    assert_eq!(table.count(), 2);
    table.close(fd0);
    assert_eq!(table.count(), 1);
    table.close(fd1);
    assert_eq!(table.count(), 0);
}

#[test]
fn test_write_through_fd() {
    let mut table = FdTable::new();
    let file = MockFile::new(0);
    let fd = table.alloc_fd(file);
    let f = table.get(fd).unwrap();
    let n = f.write(b"hello");
    assert_eq!(n, 5);
}

#[test]
fn grows_past_initial_slots() {
    let mut table = FdTable::new();
    for expected in 0..6usize {
        assert_eq!(table.alloc_fd(MockFile::new(expected)), expected);
    }
    assert_eq!(table.count(), 6);
    assert_eq!(id_of(&table.get(5).unwrap()), 5);
    assert!(table.get(6).is_none());
}

#[test]
fn reuses_lowest_of_several_closed() {
    let mut table = FdTable::new();
    for i in 0..6usize {
        table.alloc_fd(MockFile::new(i));
    }
    assert!(table.close(4));
    assert!(table.close(1));
    assert!(table.close(5));
    assert_eq!(table.count(), 3);
    assert_eq!(table.alloc_fd(MockFile::new(10)), 1);
    assert_eq!(table.alloc_fd(MockFile::new(11)), 4);
    assert_eq!(table.alloc_fd(MockFile::new(12)), 5);
    assert_eq!(table.alloc_fd(MockFile::new(13)), 6);
    assert_eq!(id_of(&table.get(4).unwrap()), 11);
}

#[test]
fn double_close_fails_and_get_is_none() {
    let mut table = FdTable::new();
    let fd = table.alloc_fd(MockFile::new(3));
    assert!(table.close(fd));
    assert!(!table.close(fd));
    assert!(table.get(fd).is_none());
    assert_eq!(table.count(), 0);
}

#[test]
fn close_then_alloc_restores_same_fd() {
    let mut table = FdTable::new();
    let a = table.alloc_fd(MockFile::new(7));
    let b = table.alloc_fd(MockFile::new(8));
    assert!(table.close(b));
    assert_eq!(table.alloc_fd(MockFile::new(9)), b);
    assert_eq!(id_of(&table.get(a).unwrap()), 7);
    assert_eq!(id_of(&table.get(b).unwrap()), 9);
}

#[test]
fn close_out_of_range_fails() {
    let mut table = FdTable::default();
    assert!(!table.close(4));
    assert!(!table.close(usize::MAX));
    assert_eq!(table.count(), 0);
}

#[test]
fn empty_table_of_concrete_files() {
    let mut table: FdTable<MockFile> = FdTable::empty();
    assert_eq!(table.count(), 0);
    assert_eq!(table.alloc_fd(MockFile::new(5)), 0);
    assert_eq!(table.alloc_fd(MockFile::new(6)), 1);
    assert!(table.close(0));
    assert_eq!(table.alloc_fd(MockFile::new(7)), 0);
    let mut buf = [0u8; 1];
    table.get(0).unwrap().read(&mut buf);
    assert_eq!(buf[0], 7);
    assert_eq!(table.count(), 2);
}

#[test]
fn history_decides_what_get_returns() {
    let mut table = FdTable::new();
    let a = table.alloc_fd(MockFile::new(1));
    let b = table.alloc_fd(MockFile::new(2));
    assert!(table.close(a));
    assert!(!table.close(a));
    let c = table.alloc_fd(MockFile::new(3));
    assert_eq!(c, a);
    assert_eq!(id_of(&table.get(a).unwrap()), 3);
    assert_eq!(id_of(&table.get(b).unwrap()), 2);
    assert!(table.count() >= a && table.count() == 2);
}
