use std::collections::VecDeque;

use message_history::retain::{retain_newest_row, retain_row, RawHistoryBatchEntry};

const KIB_64: usize = 64 * 1024;

fn row(offset: usize, byte_position: u64, len: usize) -> RawHistoryBatchEntry {
    RawHistoryBatchEntry { offset, byte_position, bytes: vec![b'x'; len] }
}

fn offsets(rows: &VecDeque<RawHistoryBatchEntry>) -> Vec<usize> {
    rows.iter().map(|row| row.offset).collect()
}

#[test]
fn retain_row_drops_the_oldest_row_past_the_row_cap() {
    let mut suffix = VecDeque::new();
    let mut suffix_bytes = 0;
    for offset in 0..130 {
        retain_row(&mut suffix, &mut suffix_bytes, offset, offset as u64 * 3, vec![b'x'; 3]);
    }
    assert_eq!(offsets(&suffix), (2..130).collect::<Vec<usize>>());
    assert_eq!(suffix_bytes, 128 * 3);
    assert_eq!(suffix[0], row(2, 6, 3));
}

#[test]
fn retain_row_drops_oldest_rows_past_the_byte_cap() {
    let mut suffix = VecDeque::new();
    let mut suffix_bytes = 0;
    for offset in 0..4 {
        retain_row(&mut suffix, &mut suffix_bytes, offset, 0, vec![b'x'; 20_000]);
    }
    assert_eq!(offsets(&suffix), vec![1, 2, 3]);
    assert_eq!(suffix_bytes, 60_000);
    retain_row(&mut suffix, &mut suffix_bytes, 4, 0, vec![b'x'; 45_536]);
    assert_eq!(offsets(&suffix), vec![3, 4]);
    assert_eq!(suffix_bytes, KIB_64);
}

#[test]
fn retain_row_keeps_an_oversized_row_alone_until_the_next_row() {
    let mut suffix = VecDeque::new();
    let mut suffix_bytes = 0;
    retain_row(&mut suffix, &mut suffix_bytes, 0, 0, vec![b'x'; 5]);
    retain_row(&mut suffix, &mut suffix_bytes, 1, 5, vec![b'x'; KIB_64 + 1]);
    assert_eq!(offsets(&suffix), vec![1]);
    assert_eq!(suffix_bytes, KIB_64 + 1);
    retain_row(&mut suffix, &mut suffix_bytes, 2, 9, vec![b'x'; 4]);
    assert_eq!(offsets(&suffix), vec![2]);
    assert_eq!(suffix_bytes, 4);
}

#[test]
fn retain_row_counts_anew_from_an_oversized_row() {
    let mut suffix = VecDeque::from(vec![row(0, 0, 5), row(1, 5, 6)]);
    let mut suffix_bytes = usize::MAX;
    retain_row(&mut suffix, &mut suffix_bytes, 2, 11, vec![b'x'; KIB_64 + 1]);
    assert_eq!(suffix, VecDeque::from(vec![row(2, 11, KIB_64 + 1)]));
    assert_eq!(suffix_bytes, KIB_64 + 1);
}

#[test]
fn retain_newest_row_takes_an_oversized_row_only_first() {
    let mut entries = Vec::new();
    let mut entries_bytes = 0;
    assert!(!retain_newest_row(&mut entries, &mut entries_bytes, row(3, 0, KIB_64 + 1)));
    assert_eq!(entries, vec![row(3, 0, KIB_64 + 1)]);
    assert_eq!(entries_bytes, 0);

    let mut entries = vec![row(4, 0, 10)];
    let mut entries_bytes = 10;
    assert!(!retain_newest_row(&mut entries, &mut entries_bytes, row(3, 0, KIB_64 + 1)));
    assert_eq!(entries, vec![row(4, 0, 10)]);
    assert_eq!(entries_bytes, 10);
}

#[test]
fn retain_newest_row_fills_up_to_the_byte_cap() {
    let mut entries = Vec::new();
    let mut entries_bytes = 0;
    assert!(retain_newest_row(&mut entries, &mut entries_bytes, row(3, 0, KIB_64 - 1)));
    assert!(!retain_newest_row(&mut entries, &mut entries_bytes, row(2, 0, 2)));
    assert!(retain_newest_row(&mut entries, &mut entries_bytes, row(2, 0, 1)));
    assert_eq!(entries_bytes, KIB_64);
    assert_eq!(entries.len(), 2);
}

#[test]
fn retain_newest_row_fills_up_to_the_row_cap() {
    let mut entries = Vec::new();
    let mut entries_bytes = 0;
    for offset in (1..129).rev() {
        assert!(retain_newest_row(&mut entries, &mut entries_bytes, row(offset, 0, 1)));
    }
    assert!(!retain_newest_row(&mut entries, &mut entries_bytes, row(0, 0, 1)));
    assert_eq!(entries.len(), 128);
    assert_eq!(entries_bytes, 128);
}
