use message_history::backward::{scan_batch_backward, BackwardScan};
use message_history::forward::{scan_batch_forward, ForwardScan};
use message_history::lookup::{scan_batch, ScanPlan};
use message_history::retain::RawHistoryBatchEntry;
use message_history::HistoryBatchCursor;

fn row(offset: usize, byte_position: u64, bytes: &[u8]) -> RawHistoryBatchEntry {
    RawHistoryBatchEntry { offset, byte_position, bytes: bytes.to_vec() }
}

#[test]
fn initial_cursor_is_scanned_forward() {
    assert_eq!(scan_batch(HistoryBatchCursor::new(3), 100), ScanPlan::Forward);
}

#[test]
fn forward_scan_joins_rows_across_chunks() {
    let mut scan = ForwardScan::new(9, 8);
    scan_batch_forward(&mut scan, b"a");
    assert!(!scan.is_done());
    scan_batch_forward(&mut scan, b"b\n\ncd");
    assert_eq!(scan.position(), 6);
    scan_batch_forward(&mut scan, b"\ne");
    assert!(!scan.is_done());
    scan_batch_forward(&mut scan, b"");
    assert!(scan.is_done());
    let raw = scan.finish();
    assert_eq!(
        raw.entries,
        vec![row(3, 7, b"e"), row(2, 4, b"cd\n"), row(1, 3, b"\n"), row(0, 0, b"ab\n")]
    );
    assert_eq!(raw.file_len, 8);
}

#[test]
fn forward_scan_is_done_at_the_requested_row() {
    let mut scan = ForwardScan::new(1, 8);
    scan_batch_forward(&mut scan, b"a\nb\nc\nd\n");
    assert!(scan.is_done());
    assert_eq!(scan.finish().entries, vec![row(1, 2, b"b\n"), row(0, 0, b"a\n")]);
}

#[test]
fn forward_scan_ignores_an_empty_tail() {
    let mut scan = ForwardScan::new(5, 2);
    scan_batch_forward(&mut scan, b"a\n");
    scan_batch_forward(&mut scan, b"");
    assert_eq!(scan.finish().entries, vec![row(0, 0, b"a\n")]);
}

#[test]
fn backward_scan_reads_right_before_what_it_has() {
    let contents = b"a\nbb\nccc\n";
    let mut scan = BackwardScan::new(2, 9, 9);
    assert_eq!(scan.next_read(4), Some((5, 4)));
    scan_batch_backward(&mut scan, &contents[5..9]);
    assert_eq!(scan.next_read(4), Some((1, 4)));
    scan_batch_backward(&mut scan, &contents[1..5]);
    assert_eq!(scan.next_read(4), Some((0, 1)));
    assert_eq!(scan.remaining(), 1);
    scan_batch_backward(&mut scan, &contents[0..1]);
    assert_eq!(scan.next_read(4), None);
    assert_eq!(
        scan.finish().entries,
        vec![row(2, 5, b"ccc\n"), row(1, 2, b"bb\n"), row(0, 0, b"a\n")]
    );
}

#[test]
fn backward_scan_stops_at_offset_zero() {
    let mut scan = BackwardScan::new(0, 9, 9);
    scan_batch_backward(&mut scan, b"b\nccc\n");
    assert_eq!(scan.next_read(4), None);
    assert_eq!(scan.finish().entries, vec![row(0, 5, b"ccc\n")]);
}

#[test]
fn backward_scan_takes_an_unterminated_row() {
    let mut scan = BackwardScan::new(4, 4, 9);
    scan_batch_backward(&mut scan, b"a\nbb");
    assert_eq!(scan.finish().entries, vec![row(4, 2, b"bb"), row(3, 0, b"a\n")]);
}

#[test]
fn backward_scan_of_nothing_finds_nothing() {
    let scan = BackwardScan::new(4, 0, 9);
    assert_eq!(scan.next_read(4), None);
    assert!(scan.finish().entries.is_empty());
}

#[test]
fn backward_scan_keeps_blank_rows() {
    let mut scan = BackwardScan::new(2, 4, 4);
    scan_batch_backward(&mut scan, b"a\n\n\n");
    assert_eq!(
        scan.finish().entries,
        vec![row(2, 3, b"\n"), row(1, 2, b"\n"), row(0, 0, b"a\n")]
    );
}
