//! Batches of history records.

use std::collections::VecDeque;

use vstd::prelude::*;

use crate::cursor::{CursorView, HistoryBatchCursor};
use crate::retain::RawHistoryBatchEntry;
use crate::rows::NEWLINE;

verus! {

/// The byte that may stand before the newline of a row.
pub const CARRIAGE_RETURN: u8 = 0x0d;

/// One absolute history offset covered by a bounded lookup.
///
/// Malformed records retain their offset with `entry` set to `None`, allowing callers to continue
/// searching older valid records without changing offset semantics.
#[derive(Clone, Debug, PartialEq)]
pub struct HistoryBatchEntry<E> {
    /// Zero-based position in the history file, counted from the oldest record.
    pub offset: usize,
    /// Parsed record, or `None` when the row at `offset` is malformed.
    pub entry: Option<E>,
}

/// A bounded newest-first suffix ending at a requested absolute history offset.
///
/// `next_older_cursor` identifies the next position a caller should request after exhausting
/// `entries`. It carries a byte position because the byte cap can make a batch contain fewer than
/// 128 rows and because continuation lookups must not rescan already traversed prefixes.
#[derive(Clone, Debug, PartialEq)]
pub struct HistoryBatch<E> {
    /// Covered records in newest-to-oldest order.
    pub entries: Vec<HistoryBatchEntry<E>>,
    /// Next position to request after exhausting `entries`.
    pub next_older_cursor: Option<HistoryBatchCursor>,
}

impl<E> Default for HistoryBatch<E> {
    /// A batch that covers nothing and has no successor.
    fn default() -> (batch: Self)
        ensures
            batch.entries@ == Seq::<HistoryBatchEntry<E>>::empty(),
            batch.next_older_cursor is None,
    {
        HistoryBatch { entries: Vec::new(), next_older_cursor: None }
    }
}

/// What a scan of the history file found.
#[derive(Debug, PartialEq, Eq)]
pub struct RawHistoryBatch {
    /// The rows to return, in newest-to-oldest order.
    pub entries: Vec<RawHistoryBatchEntry>,
    /// How long the file was.
    pub file_len: u64,
}

/// What a raw row says.
pub struct RawRow {
    /// The position of the row among all rows.
    pub offset: int,
    /// The position of its first byte in the file.
    pub byte_position: int,
    /// Its bytes.
    pub bytes: Seq<u8>,
}

impl View for RawHistoryBatchEntry {
    type V = RawRow;

    open spec fn view(&self) -> RawRow {
        RawRow {
            offset: self.offset as int,
            byte_position: self.byte_position as int,
            bytes: self.bytes@,
        }
    }
}

/// What each of `entries` says.
pub open spec fn raw_rows(entries: Seq<RawHistoryBatchEntry>) -> Seq<RawRow> {
    Seq::new(entries.len(), |i: int| entries[i]@)
}

/// `bytes` without `suffix` at its end.
pub open spec fn strip_byte(bytes: Seq<u8>, suffix: u8) -> Seq<u8> {
    if bytes.len() > 0 && bytes.last() == suffix {
        bytes.drop_last()
    } else {
        bytes
    }
}

/// The record in a row: what is left without the line ending.
pub open spec fn row_payload(row: Seq<u8>) -> Seq<u8> {
    strip_byte(strip_byte(row, NEWLINE), CARRIAGE_RETURN)
}

/// Whether `parse` can give `entry` for a record.
pub open spec fn parses_to<E, F: Fn(&[u8]) -> Option<E>>(
    parse: F,
    record: Seq<u8>,
    entry: Option<E>,
) -> bool {
    exists|bytes: &[u8]| bytes@ == record && #[trigger] call_ensures(parse, (bytes,), entry)
}

/// Whether `parse` can be called on any record.
pub open spec fn parses_any<E, F: Fn(&[u8]) -> Option<E>>(parse: F) -> bool {
    forall|bytes: &[u8]| #[trigger] call_requires(parse, (bytes,))
}

/// What `cursor` says, if there is one.
pub open spec fn cursor_view(cursor: Option<HistoryBatchCursor>) -> Option<CursorView> {
    match cursor {
        Some(cursor) => Some(cursor@),
        None => None,
    }
}

/// Where the batch after one with these rows, newest first, starts: at the row
/// before the oldest one, if there is such a row.
pub open spec fn older_cursor(rows: Seq<RawRow>, file_len: int) -> Option<CursorView> {
    if rows.len() > 0 && rows.last().offset > 0 {
        Some(CursorView::anchored(rows.last().offset - 1, rows.last().byte_position, file_len))
    } else {
        None
    }
}

/// Whether `batch` holds these rows, newest first, as `parse` reads them.
pub open spec fn is_batch<E, F: Fn(&[u8]) -> Option<E>>(
    batch: HistoryBatch<E>,
    rows: Seq<RawRow>,
    file_len: int,
    parse: F,
) -> bool {
    &&& batch.entries@.len() == rows.len()
    &&& forall|i: int|
        0 <= i < rows.len() ==> (#[trigger] batch.entries@[i]).offset == rows[i].offset
            && parses_to(parse, row_payload(rows[i].bytes), batch.entries@[i].entry)
    &&& cursor_view(batch.next_older_cursor) == older_cursor(rows, file_len)
}

/// Removes `suffix` from the end of `bytes`, if it is there.
fn strip_suffix(bytes: &[u8], suffix: u8) -> (stripped: &[u8])
    ensures
        stripped@ == strip_byte(bytes@, suffix),
{
    let len: usize = bytes.len();
    if len > 0 && bytes[len - 1] == suffix {
        let stripped = vstd::slice::slice_subrange(bytes, 0, len - 1);
        proof {
            assert(stripped@ =~= bytes@.drop_last());
        }
        stripped
    } else {
        bytes
    }
}

/// A row is its record and one of four endings, and the record ends in nothing that
/// the ending could have taken.
pub proof fn lemma_payload_and_ending(row: Seq<u8>)
    ensures
        ({
            let record = row_payload(row);
            ||| row == record + seq![0x0du8, 0x0au8]
            ||| row == record.push(0x0du8)
            ||| row == record.push(0x0au8) && !(record.len() > 0 && record.last() == 0x0du8)
            ||| row == record && !(record.len() > 0 && (record.last() == 0x0du8 || record.last()
                == 0x0au8))
        }),
{
    let record = row_payload(row);
    let line = strip_byte(row, NEWLINE);
    if line.len() < row.len() {
        assert(line.push(0x0au8) =~= row);
        if record.len() < line.len() {
            assert(record + seq![0x0du8, 0x0au8] =~= row);
        }
    } else if record.len() < line.len() {
        assert(record.push(0x0du8) =~= row);
    }
}

/// A record is read back whole from its row, whichever line ending it was written
/// with. At most one newline and one carriage return before it are taken off.
pub proof fn law_record_is_read_back_whole(record: Seq<u8>)
    ensures
        row_payload(record + seq![0x0du8, 0x0au8]) == record,
        row_payload(record.push(0x0du8)) == record,
        !(record.len() > 0 && record.last() == 0x0du8) ==> row_payload(record.push(0x0au8))
            == record,
        !(record.len() > 0 && (record.last() == 0x0du8 || record.last() == 0x0au8))
            ==> row_payload(record) == record,
{
    let dos = record + seq![0x0du8, 0x0au8];
    assert(dos.drop_last() =~= record.push(0x0du8));
    assert(record.push(0x0du8).drop_last() =~= record);
    assert(record.push(0x0au8).drop_last() =~= record);
}

/// Nothing of a row is lost: a row is its record and its line ending.
pub proof fn law_row_is_record_and_ending(row: Seq<u8>)
    ensures
        ({
            ||| row == row_payload(row)
            ||| row == row_payload(row) + seq![0x0au8]
            ||| row == row_payload(row) + seq![0x0du8]
            ||| row == row_payload(row) + seq![0x0du8, 0x0au8]
        }),
{
    lemma_payload_and_ending(row);
    let record = row_payload(row);
    assert(record.push(0x0au8) =~= record + seq![0x0au8]);
    assert(record.push(0x0du8) =~= record + seq![0x0du8]);
}

/// A parser can be used exactly where it can be called on any bytes.
pub proof fn law_any_parser_may_be_used<E, F: Fn(&[u8]) -> Option<E>>(parse: F)
    ensures
        parses_any(parse) <==> forall|bytes: &[u8]| #[trigger] call_requires(parse, (bytes,)),
{
}

/// Parses the record in a row, which may end with a newline or with a carriage
/// return and a newline.
pub fn parse_entry<E, F: Fn(&[u8]) -> Option<E>>(raw: &[u8], parse: &F) -> (entry: Option<E>)
    requires
        parses_any(*parse),
    ensures
        parses_to(*parse, row_payload(raw@), entry),
        exists|record: &[u8]|
            {
                &&& #[trigger] call_ensures(*parse, (record,), entry)
                &&& {
                    ||| raw@ == record@ + seq![0x0du8, 0x0au8]
                    ||| raw@ == record@.push(0x0du8)
                    ||| raw@ == record@.push(0x0au8) && !(record@.len() > 0 && record@.last()
                        == 0x0du8)
                    ||| raw@ == record@ && !(record@.len() > 0 && (record@.last() == 0x0du8
                        || record@.last() == 0x0au8))
                }
            },
{
    let ghost row = raw@;
    let raw = strip_suffix(raw, NEWLINE);
    let raw = strip_suffix(raw, CARRIAGE_RETURN);
    let entry = parse(raw);
    proof {
        assert(call_ensures(*parse, (raw,), entry));
        lemma_payload_and_ending(row);
    }
    entry
}

/// Orders the rows of a forward scan, which keeps the oldest row first, as a
/// batch has them.
pub fn finish_forward_batch(suffix: VecDeque<RawHistoryBatchEntry>, file_len: u64) -> (raw:
    RawHistoryBatch)
    ensures
        raw.entries@ == suffix@.reverse(),
        raw.file_len == file_len,
{
    let ghost all = suffix@;
    let mut suffix = suffix;
    let mut entries: Vec<RawHistoryBatchEntry> = Vec::new();
    while suffix.len() > 0
        invariant
            entries@.len() + suffix@.len() == all.len(),
            suffix@ == all.take(suffix@.len() as int),
            forall|i: int| 0 <= i < entries@.len() ==> entries@[i] == all[all.len() - 1 - i],
        decreases suffix@.len(),
    {
        let ghost before = suffix@;
        if let Some(entry) = suffix.pop_back() {
            proof {
                assert(suffix@ =~= all.take(suffix@.len() as int));
                assert(entry == before.last());
            }
            entries.push(entry);
        }
    }
    proof {
        assert(entries@ =~= all.reverse());
    }
    RawHistoryBatch { entries, file_len }
}

/// Parses the rows that a scan found, and says where the next older batch starts.
pub fn finish_batch<E, F: Fn(&[u8]) -> Option<E>>(raw: RawHistoryBatch, parse: &F) -> (batch:
    HistoryBatch<E>)
    requires
        parses_any(*parse),
    ensures
        is_batch(batch, raw_rows(raw.entries@), raw.file_len as int, *parse),
        batch.entries@.len() == raw.entries@.len(),
        forall|i: int|
            0 <= i < raw.entries@.len() ==> (#[trigger] batch.entries@[i]).offset
                == raw.entries@[i].offset,
        batch.next_older_cursor is None <==> raw.entries@.len() == 0 || raw.entries@.last().offset
            == 0,
        batch.next_older_cursor matches Some(next) ==> {
            &&& next@.end_offset == raw.entries@.last().offset - 1
            &&& next@.byte_position == Some(raw.entries@.last().byte_position as int)
            &&& next@.observed_file_len == Some(raw.file_len as int)
        },
{
    let count: usize = raw.entries.len();
    let ghost rows = raw_rows(raw.entries@);
    let next_older_cursor = if count > 0 {
        let oldest = &raw.entries[count - 1];
        match oldest.offset.checked_sub(1) {
            Some(end_offset) => Some(
                HistoryBatchCursor::anchored(end_offset, oldest.byte_position, raw.file_len),
            ),
            None => None,
        }
    } else {
        None
    };
    let mut entries: Vec<HistoryBatchEntry<E>> = Vec::new();
    let mut next: usize = 0;
    while next < count
        invariant
            parses_any(*parse),
            count == raw.entries@.len(),
            rows == raw_rows(raw.entries@),
            next <= count,
            entries@.len() == next,
            forall|i: int|
                0 <= i < next ==> (#[trigger] entries@[i]).offset == rows[i].offset && parses_to(
                    *parse,
                    row_payload(rows[i].bytes),
                    entries@[i].entry,
                ),
        decreases count - next,
    {
        let row = &raw.entries[next];
        let entry = parse_entry(row.bytes.as_slice(), parse);
        entries.push(HistoryBatchEntry { offset: row.offset, entry });
        next = next + 1;
    }
    HistoryBatch { entries, next_older_cursor }
}

/// A batch has no successor exactly where it is empty or reaches back to offset
/// zero. Otherwise the next batch ends with the row right before the oldest one.
pub proof fn law_batch_says_where_to_go_on<E, F: Fn(&[u8]) -> Option<E>>(
    batch: HistoryBatch<E>,
    rows: Seq<RawRow>,
    file_len: int,
    parse: F,
)
    requires
        is_batch(batch, rows, file_len, parse),
    ensures
        batch.entries@.len() == rows.len(),
        forall|i: int|
            0 <= i < rows.len() ==> (#[trigger] batch.entries@[i]).offset == rows[i].offset,
        batch.next_older_cursor is None <==> batch.entries@.len() == 0
            || batch.entries@.last().offset == 0,
        batch.next_older_cursor matches Some(next) ==> {
            &&& next@.end_offset == batch.entries@.last().offset - 1
            &&& next@.byte_position == Some(rows.last().byte_position)
            &&& next@.observed_file_len == Some(file_len)
        },
{
    if rows.len() > 0 {
        assert(batch.entries@[rows.len() - 1].offset == rows.last().offset);
    }
}

/// What each raw entry says is what stands in it.
pub proof fn law_raw_rows_are_the_entries(entries: Seq<RawHistoryBatchEntry>)
    ensures
        raw_rows(entries).len() == entries.len(),
        forall|i: int|
            #![trigger entries[i]]
            0 <= i < entries.len() ==> {
                &&& raw_rows(entries)[i].offset == entries[i].offset
                &&& raw_rows(entries)[i].byte_position == entries[i].byte_position
                &&& raw_rows(entries)[i].bytes == entries[i].bytes@
            },
{
}

} // verus!
