use std::collections::VecDeque;

use message_history::batch::{
    finish_batch, finish_forward_batch, parse_entry, RawHistoryBatch,
};
use message_history::retain::RawHistoryBatchEntry;
use message_history::{HistoryBatch, HistoryBatchEntry};
use serde_json::Value;

fn parse_json(record: &[u8]) -> Option<Value> {
    serde_json::from_slice(record).ok()
}

fn keep(record: &[u8]) -> Option<Vec<u8>> {
    Some(record.to_vec())
}

fn row(offset: usize, byte_position: u64, bytes: &[u8]) -> RawHistoryBatchEntry {
    RawHistoryBatchEntry { offset, byte_position, bytes: bytes.to_vec() }
}

#[test]
fn parse_entry_strips_one_line_ending() {
    assert_eq!(parse_entry(b"abc\n", &keep), Some(b"abc".to_vec()));
    assert_eq!(parse_entry(b"abc\r\n", &keep), Some(b"abc".to_vec()));
    assert_eq!(parse_entry(b"abc\r", &keep), Some(b"abc".to_vec()));
    assert_eq!(parse_entry(b"abc", &keep), Some(b"abc".to_vec()));
    assert_eq!(parse_entry(b"abc\r\r\n", &keep), Some(b"abc\r".to_vec()));
    assert_eq!(parse_entry(b"abc\n\r", &keep), Some(b"abc\n".to_vec()));
    assert_eq!(parse_entry(b"\n", &keep), Some(Vec::new()));
    assert_eq!(parse_entry(b"", &keep), Some(Vec::new()));
}

#[test]
fn parse_entry_gives_none_for_a_malformed_record() {
    assert_eq!(parse_entry(b"{\"text\"\n", &parse_json), None);
    assert_eq!(parse_entry(b"\n", &parse_json), None);
    assert_eq!(parse_entry(b"12\r\n", &parse_json), Some(Value::from(12)));
}

#[test]
fn default_batch_is_empty_and_final() {
    let batch: HistoryBatch<Value> = HistoryBatch::default();
    assert_eq!(batch.entries, Vec::new());
    assert_eq!(batch.next_older_cursor, None);
}

#[test]
fn finish_forward_batch_turns_rows_newest_first() {
    let suffix: VecDeque<RawHistoryBatchEntry> =
        VecDeque::from(vec![row(3, 9, b"a\n"), row(4, 11, b"b\n"), row(5, 13, b"c\n")]);
    let raw = finish_forward_batch(suffix, 15);
    assert_eq!(raw.file_len, 15);
    assert_eq!(raw.entries, vec![row(5, 13, b"c\n"), row(4, 11, b"b\n"), row(3, 9, b"a\n")]);
}

#[test]
fn finish_batch_keeps_malformed_rows_and_continues_before_the_oldest() {
    let raw = RawHistoryBatch {
        entries: vec![row(5, 13, b"7\n"), row(4, 11, b"[\n"), row(3, 9, b"8\n")],
        file_len: 15,
    };
    let batch = finish_batch(raw, &parse_json);
    assert_eq!(
        batch.entries,
        vec![
            HistoryBatchEntry { offset: 5, entry: Some(Value::from(7)) },
            HistoryBatchEntry { offset: 4, entry: None },
            HistoryBatchEntry { offset: 3, entry: Some(Value::from(8)) },
        ]
    );
    let next = batch.next_older_cursor.unwrap();
    assert_eq!(next.end_offset(), 2);
    assert_eq!(next.byte_position(), Some(9));
}

#[test]
fn finish_batch_has_no_successor_at_offset_zero_or_without_rows() {
    let raw = RawHistoryBatch { entries: vec![row(0, 0, b"7\n")], file_len: 2 };
    assert_eq!(finish_batch(raw, &parse_json).next_older_cursor, None);
    let raw = RawHistoryBatch { entries: Vec::new(), file_len: 2 };
    let batch = finish_batch(raw, &parse_json);
    assert!(batch.entries.is_empty());
    assert_eq!(batch.next_older_cursor, None);
}
