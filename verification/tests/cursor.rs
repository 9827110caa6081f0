use message_history::HistoryBatchCursor;

#[test]
fn initial_cursor_has_no_byte_position() {
    let cursor = HistoryBatchCursor::new(7);
    assert_eq!(cursor.end_offset(), 7);
    assert_eq!(cursor.byte_position(), None);
}

#[test]
fn cursors_are_equal_where_they_say_the_same() {
    assert_eq!(HistoryBatchCursor::new(7), HistoryBatchCursor::new(7));
    assert_ne!(HistoryBatchCursor::new(7), HistoryBatchCursor::new(8));
}
