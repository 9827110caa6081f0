use message_history::lookup::{
    lookup_batch_from_file, HistoryLookup, LookupAction, LookupError, LookupEvent, LookupRequest,
};
use message_history::{lookup_batch, HistoryBatch, HistoryBatchCursor};
use serde_json::Value;

fn parse_json(record: &[u8]) -> Option<Value> {
    serde_json::from_slice(record).ok()
}

/// A history file in memory.
struct Memory {
    contents: Vec<u8>,
    identity: Option<u64>,
    position: usize,
    chunk: usize,
    refusals: usize,
    fail_at: Option<LookupAction>,
    actions: Vec<LookupAction>,
}

impl Memory {
    fn new(contents: &[u8]) -> Memory {
        Memory {
            contents: contents.to_vec(),
            identity: Some(42),
            position: 0,
            chunk: 8192,
            refusals: 0,
            fail_at: None,
            actions: Vec::new(),
        }
    }

    fn perform(&mut self, action: LookupAction) -> LookupEvent {
        self.actions.push(action);
        if self.fail_at == Some(action) {
            return LookupEvent::Failed;
        }
        match action {
            LookupAction::OpenFile => LookupEvent::Opened { identity: self.identity },
            LookupAction::TryLockShared => {
                if self.refusals > 0 {
                    self.refusals -= 1;
                    LookupEvent::WouldBlock
                } else {
                    LookupEvent::Locked
                }
            }
            LookupAction::Sleep => LookupEvent::Slept,
            LookupAction::ReadFileLen => LookupEvent::FileLen(self.contents.len() as u64),
            LookupAction::Rewind => {
                self.position = 0;
                LookupEvent::Rewound
            }
            LookupAction::ReadNext => {
                let end = self.contents.len().min(self.position + self.chunk);
                let bytes = self.contents[self.position..end].to_vec();
                self.position = end;
                LookupEvent::Read(bytes)
            }
            LookupAction::ReadRange { start, len } => {
                let start = start as usize;
                LookupEvent::Read(self.contents[start..start + len].to_vec())
            }
            LookupAction::Finish => unreachable!(),
        }
    }

    fn run(&mut self, log_id: u64, cursor: HistoryBatchCursor) -> HistoryLookup {
        self.actions = Vec::new();
        let mut lookup = HistoryLookup::new(LookupRequest {
            log_id,
            cursor,
            max_retries: 3,
            read_buffer_size: self.chunk,
        });
        loop {
            let action = lookup.next_action();
            if action == LookupAction::Finish {
                return lookup;
            }
            let event = self.perform(action);
            assert!(lookup.accepts(&event));
            lookup = lookup_batch_from_file(lookup, event);
        }
    }

    fn lookup(&mut self, cursor: HistoryBatchCursor) -> HistoryBatch<Value> {
        lookup_batch(self.run(42, cursor), &parse_json)
    }
}

fn numbered(count: usize) -> Vec<u8> {
    let mut contents = Vec::new();
    for number in 0..count {
        contents.extend_from_slice(format!("{number}\n").as_bytes());
    }
    contents
}

fn offsets(batch: &HistoryBatch<Value>) -> Vec<usize> {
    batch.entries.iter().map(|entry| entry.offset).collect()
}

fn descending(from: usize, to: usize) -> Vec<usize> {
    (to..=from).rev().collect()
}

fn filler(len: usize) -> Vec<u8> {
    let mut row = vec![b'1'; len - 1];
    row.push(b'\n');
    row
}

#[test]
fn initial_lookup_returns_newest_rows_first() {
    let mut file = Memory::new(&numbered(5));
    let batch = file.lookup(HistoryBatchCursor::new(3));
    assert_eq!(offsets(&batch), vec![3, 2, 1, 0]);
    assert_eq!(batch.entries[0].entry, Some(Value::from(3)));
    assert_eq!(batch.entries[3].entry, Some(Value::from(0)));
    assert_eq!(batch.next_older_cursor, None);
}

#[test]
fn batch_holds_at_most_128_rows() {
    let mut file = Memory::new(&numbered(300));
    let batch = file.lookup(HistoryBatchCursor::new(299));
    assert_eq!(offsets(&batch), descending(299, 172));
    let next = batch.next_older_cursor.unwrap();
    assert_eq!(next.end_offset(), 171);
    assert_eq!(next.byte_position(), Some(numbered(172).len() as u64));
}

#[test]
fn paging_visits_every_row_once_from_newest_to_oldest() {
    let mut file = Memory::new(&numbered(300));
    let mut cursor = HistoryBatchCursor::new(299);
    let mut visited = Vec::new();
    let mut sizes = Vec::new();
    loop {
        let batch = file.lookup(cursor);
        for entry in &batch.entries {
            assert_eq!(entry.entry, Some(Value::from(entry.offset)));
        }
        sizes.push(batch.entries.len());
        visited.extend(offsets(&batch));
        match batch.next_older_cursor {
            Some(next) => cursor = next,
            None => break,
        }
    }
    assert_eq!(visited, descending(299, 0));
    assert_eq!(sizes, vec![128, 128, 44]);
}

#[test]
fn paging_1024_rows_after_the_newest_takes_eight_batches() {
    let mut file = Memory::new(&numbered(1_024));
    let mut cursor = Some(HistoryBatchCursor::new(1_022));
    let mut batches = 0;
    while let Some(next) = cursor {
        cursor = file.lookup(next).next_older_cursor;
        batches += 1;
    }
    assert_eq!(batches, 8);
}

#[test]
fn continuation_reads_backward_and_equals_a_rescan() {
    for chunk in [1, 5, 64, 8192] {
        let mut file = Memory::new(&numbered(300));
        file.chunk = chunk;
        let next = file.lookup(HistoryBatchCursor::new(250)).next_older_cursor.unwrap();
        let continued = file.lookup(next);
        assert!(!file.actions.contains(&LookupAction::Rewind));
        let rescanned = file.lookup(HistoryBatchCursor::new(next.end_offset()));
        assert!(file.actions.contains(&LookupAction::Rewind));
        assert_eq!(continued, rescanned);
        assert_eq!(offsets(&continued), descending(122, 0));
    }
}

#[test]
fn reads_may_be_cut_anywhere() {
    let mut contents = numbered(200);
    contents.extend_from_slice(b"\n\r\n{]\n\"last\"");
    let whole = Memory::new(&contents).lookup(HistoryBatchCursor::new(500));
    for chunk in [1, 2, 3, 17, 100] {
        let mut file = Memory::new(&contents);
        file.chunk = chunk;
        assert_eq!(file.lookup(HistoryBatchCursor::new(500)), whole);
    }
    assert_eq!(offsets(&whole), descending(203, 76));
    assert_eq!(whole.entries[0].entry, Some(Value::from("last")));
    assert_eq!(whole.entries[1].entry, None);
}

#[test]
fn continuation_reads_only_as_much_as_the_batch_needs() {
    let mut file = Memory::new(&numbered(3_000));
    file.chunk = 256;
    let next = file.lookup(HistoryBatchCursor::new(2_999)).next_older_cursor.unwrap();
    let batch = file.lookup(next);
    assert_eq!(batch.entries.len(), 128);
    let reads = file
        .actions
        .iter()
        .filter(|action| matches!(action, LookupAction::ReadRange { .. }))
        .count();
    assert_eq!(reads, 3);
}

#[test]
fn byte_cap_cuts_a_batch_short() {
    let mut contents = Vec::new();
    for _ in 0..100 {
        contents.extend_from_slice(&filler(1_000));
    }
    let mut file = Memory::new(&contents);
    let batch = file.lookup(HistoryBatchCursor::new(99));
    assert_eq!(offsets(&batch), descending(99, 35));
    let next = batch.next_older_cursor.unwrap();
    assert_eq!(next.byte_position(), Some(35_000));
    assert_eq!(offsets(&file.lookup(next)), descending(34, 0));
}

#[test]
fn row_of_exactly_64_kib_is_not_oversized() {
    let mut contents = numbered(2);
    contents.extend_from_slice(&filler(64 * 1024));
    let batch = Memory::new(&contents).lookup(HistoryBatchCursor::new(2));
    assert_eq!(offsets(&batch), vec![2]);
    assert_eq!(batch.next_older_cursor.unwrap().byte_position(), Some(4));
}

#[test]
fn oversized_newest_row_is_alone() {
    let mut contents = numbered(2);
    contents.extend_from_slice(&filler(70_000));
    contents.extend_from_slice(b"7\n");
    let mut file = Memory::new(&contents);
    let newest = file.lookup(HistoryBatchCursor::new(3));
    assert_eq!(offsets(&newest), vec![3]);
    let oversized = file.lookup(newest.next_older_cursor.unwrap());
    assert_eq!(offsets(&oversized), vec![2]);
    assert_eq!(oversized, file.lookup(HistoryBatchCursor::new(2)));
    let oldest = file.lookup(oversized.next_older_cursor.unwrap());
    assert_eq!(offsets(&oldest), vec![1, 0]);
    assert_eq!(oldest.next_older_cursor, None);
}

#[test]
fn malformed_rows_keep_their_offsets() {
    let mut file = Memory::new(b"0\nnot json\n2\r\n\n4\n");
    let batch = file.lookup(HistoryBatchCursor::new(4));
    assert_eq!(offsets(&batch), vec![4, 3, 2, 1, 0]);
    let entries: Vec<Option<Value>> =
        batch.entries.into_iter().map(|entry| entry.entry).collect();
    assert_eq!(
        entries,
        vec![Some(Value::from(4)), None, Some(Value::from(2)), None, Some(Value::from(0))]
    );
}

#[test]
fn offset_past_the_end_gives_the_newest_rows() {
    let mut file = Memory::new(b"0\n1\n2");
    let batch = file.lookup(HistoryBatchCursor::new(usize::MAX));
    assert_eq!(offsets(&batch), vec![2, 1, 0]);
    assert_eq!(batch.entries[0].entry, Some(Value::from(2)));
}

#[test]
fn empty_file_gives_an_empty_batch() {
    let batch = Memory::new(b"").lookup(HistoryBatchCursor::new(0));
    assert!(batch.entries.is_empty());
    assert_eq!(batch.next_older_cursor, None);
}

#[test]
fn appended_rows_do_not_disturb_a_continuation() {
    let mut file = Memory::new(&numbered(300));
    let next = file.lookup(HistoryBatchCursor::new(299)).next_older_cursor.unwrap();
    let before = file.lookup(next);
    file.contents = numbered(400);
    let after = file.lookup(next);
    assert_eq!(before.entries, after.entries);
    assert_eq!(offsets(&after), descending(171, 44));
    assert!(!file.actions.contains(&LookupAction::Rewind));
}

#[test]
fn appended_rows_do_not_disturb_an_older_batch() {
    let mut file = Memory::new(b"0\n1\n2");
    let before = file.lookup(HistoryBatchCursor::new(1));
    file.contents.extend_from_slice(b"2\n3\n");
    assert_eq!(file.lookup(HistoryBatchCursor::new(1)), before);
    assert_eq!(file.lookup(HistoryBatchCursor::new(2)).entries[0].entry, Some(Value::from(22)));
}

#[test]
fn shorter_file_is_rescanned() {
    let mut file = Memory::new(&numbered(300));
    let next = file.lookup(HistoryBatchCursor::new(299)).next_older_cursor.unwrap();
    file.contents = numbered(299);
    let batch = file.lookup(next);
    assert!(file.actions.contains(&LookupAction::Rewind));
    assert_eq!(offsets(&batch), descending(171, 44));
    file.contents = numbered(10);
    let batch = file.lookup(next);
    assert!(file.actions.contains(&LookupAction::Rewind));
    assert_eq!(offsets(&batch), descending(9, 0));
}

#[test]
fn lock_is_retried_until_it_is_free() {
    let mut file = Memory::new(&numbered(3));
    file.refusals = 2;
    assert_eq!(offsets(&file.lookup(HistoryBatchCursor::new(2))), vec![2, 1, 0]);
    assert_eq!(
        file.actions[..7],
        [
            LookupAction::OpenFile,
            LookupAction::TryLockShared,
            LookupAction::Sleep,
            LookupAction::TryLockShared,
            LookupAction::Sleep,
            LookupAction::TryLockShared,
            LookupAction::ReadFileLen,
        ]
    );
}

#[test]
fn lock_attempts_are_bounded() {
    let mut file = Memory::new(&numbered(3));
    file.refusals = 100;
    let cursor = HistoryBatchCursor::new(2);
    let lookup = file.run(42, cursor);
    assert_eq!(lookup.failure(), Some(LookupError::LockContended));
    assert_eq!(file.refusals, 97);
    assert_eq!(file.actions.last(), Some(&LookupAction::Sleep));
    let batch: HistoryBatch<Value> = lookup_batch(lookup, &parse_json);
    assert!(batch.entries.is_empty());
    assert_eq!(batch.next_older_cursor, Some(cursor));
}

#[test]
fn failed_action_gives_an_empty_batch_that_asks_again() {
    for action in [
        LookupAction::OpenFile,
        LookupAction::TryLockShared,
        LookupAction::ReadFileLen,
        LookupAction::Rewind,
        LookupAction::ReadNext,
    ] {
        let mut file = Memory::new(&numbered(3));
        file.fail_at = Some(action);
        let cursor = HistoryBatchCursor::new(2);
        let lookup = file.run(42, cursor);
        assert_eq!(lookup.failure(), Some(LookupError::Io));
        let batch: HistoryBatch<Value> = lookup_batch(lookup, &parse_json);
        assert!(batch.entries.is_empty());
        assert_eq!(batch.next_older_cursor, Some(cursor));
    }
}

#[test]
fn failed_backward_read_gives_an_empty_batch_that_asks_again() {
    let mut file = Memory::new(&numbered(300));
    let next = file.lookup(HistoryBatchCursor::new(299)).next_older_cursor.unwrap();
    file.fail_at = Some(LookupAction::ReadRange { start: 0, len: 578 });
    let batch = file.lookup(next);
    assert_eq!(next.byte_position(), Some(578));
    assert!(batch.entries.is_empty());
    assert_eq!(batch.next_older_cursor, Some(next));
}

#[test]
fn other_log_gives_an_empty_final_batch() {
    let cursor = HistoryBatchCursor::new(2);
    for identity in [Some(7), None] {
        let mut file = Memory::new(&numbered(3));
        file.identity = identity;
        let lookup = file.run(42, cursor);
        assert_eq!(lookup.failure(), None);
        assert_eq!(file.actions, vec![LookupAction::OpenFile]);
        let batch: HistoryBatch<Value> = lookup_batch(lookup, &parse_json);
        assert_eq!(batch, HistoryBatch::default());
    }
}

#[test]
fn log_id_zero_accepts_any_file() {
    let mut file = Memory::new(&numbered(3));
    file.identity = Some(7);
    let batch: HistoryBatch<Value> =
        lookup_batch(file.run(0, HistoryBatchCursor::new(2)), &parse_json);
    assert_eq!(offsets(&batch), vec![2, 1, 0]);
}

#[test]
fn lookup_accepts_only_answers_to_what_it_asks() {
    let lookup = HistoryLookup::new(LookupRequest {
        log_id: 0,
        cursor: HistoryBatchCursor::new(0),
        max_retries: 1,
        read_buffer_size: 4,
    });
    assert!(lookup.accepts(&LookupEvent::Opened { identity: None }));
    assert!(lookup.accepts(&LookupEvent::Failed));
    assert!(!lookup.accepts(&LookupEvent::Locked));
    assert!(!lookup.accepts(&LookupEvent::Read(vec![1])));
    let lookup = lookup_batch_from_file(lookup, LookupEvent::Opened { identity: None });
    assert!(!lookup.accepts(&LookupEvent::Opened { identity: None }));
    assert!(lookup.accepts(&LookupEvent::WouldBlock));
}
