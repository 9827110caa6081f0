//! What holds of every batch, and of batches that follow one another.

use vstd::prelude::*;

use crate::batch::{is_batch, older_cursor, parses_to, row_payload, HistoryBatch, RawRow};
use crate::cursor::{is_cursor, CursorView};
use crate::lookup::resume_position;
use crate::page::{page, page_len, page_through, rows_through};
use crate::rows::{
    are_rows, byte_count, closed_rows, law_rows_give_file_back, law_written_rows_are_read_back,
    lemma_closed_rows_stay, split_rows,
};
use crate::window::{
    lemma_first_fit, lemma_single_byte_count, lemma_skip_byte_count, lemma_window_start, oversized,
    window_start, within_caps, MAX_BATCH_BYTES, MAX_BATCH_ROWS,
};

verus! {

/// The bytes of each row of a batch.
pub open spec fn page_bytes(rows: Seq<RawRow>) -> Seq<Seq<u8>> {
    Seq::new(rows.len(), |i: int| rows[i].bytes)
}

/// Whether a batch keeps to the caps, or is a single row.
pub open spec fn is_bounded(rows: Seq<RawRow>) -> bool {
    &&& rows.len() <= MAX_BATCH_ROWS
    &&& rows.len() <= 1 || byte_count(page_bytes(rows)) <= MAX_BATCH_BYTES
}

/// Whether the rows of a batch follow one another from the newest one back: their
/// offsets descend by one, and each row ends where the next newer one starts.
pub open spec fn is_contiguous(rows: Seq<RawRow>) -> bool {
    forall|k: int|
        #![trigger rows[k]]
        0 < k < rows.len() ==> {
            &&& rows[k].offset == rows[k - 1].offset - 1
            &&& rows[k].byte_position + rows[k].bytes.len() == rows[k - 1].byte_position
        }
}

/// From the newest row back, a batch takes the bytes that its rows take in the
/// file.
proof fn lemma_page_bytes(rows: Seq<Seq<u8>>, newest_offset: int, end_position: int, count: int)
    requires
        0 <= count <= page_len(rows, newest_offset),
    ensures
        count <= rows.len(),
        byte_count(page_bytes(page(rows, newest_offset, end_position)).take(count)) == byte_count(
            rows.skip(rows.len() - count),
        ),
    decreases count,
{
    lemma_window_start(rows);
    let bytes = page_bytes(page(rows, newest_offset, end_position));
    if count == 0 {
        assert(bytes.take(0) =~= Seq::<Seq<u8>>::empty());
        assert(rows.skip(rows.len() as int) =~= Seq::<Seq<u8>>::empty());
    } else {
        lemma_page_bytes(rows, newest_offset, end_position, count - 1);
        let at = rows.len() - count;
        assert(bytes.take(count) =~= bytes.take(count - 1).push(bytes[count - 1]));
        bytes.take(count - 1).lemma_flatten_push(bytes[count - 1]);
        lemma_skip_byte_count(rows, at, at + 1);
        assert(rows.subrange(at, at + 1) =~= seq![rows[at]]);
        lemma_single_byte_count(rows[at]);
    }
}

/// A batch holds at most 128 rows and at most 64 KiB, unless it is a single row.
pub proof fn law_batch_is_bounded(rows: Seq<Seq<u8>>, newest_offset: int, end_position: int)
    requires
        newest_offset >= -1,
    ensures
        is_bounded(page(rows, newest_offset, end_position)),
{
    lemma_window_start(rows);
    let batch = page(rows, newest_offset, end_position);
    let count = page_len(rows, newest_offset);
    if rows.len() == 0 || !oversized(rows.last()) {
        lemma_first_fit(rows, 0);
        lemma_page_bytes(rows, newest_offset, end_position, count);
        assert(page_bytes(batch).take(count) =~= page_bytes(batch));
        lemma_skip_byte_count(rows, window_start(rows), rows.len() - count);
    }
}

/// The rows of a batch follow one another, and the newest one is the row that was
/// asked for.
pub proof fn law_batch_is_contiguous(rows: Seq<Seq<u8>>, newest_offset: int, end_position: int)
    requires
        newest_offset >= -1,
    ensures
        is_contiguous(page(rows, newest_offset, end_position)),
        ({
            let batch = page(rows, newest_offset, end_position);
            batch.len() > 0 ==> {
                &&& batch[0].offset == newest_offset
                &&& batch[0].byte_position + batch[0].bytes.len() == end_position
                &&& batch.last().offset >= 0
            }
        }),
{
    lemma_window_start(rows);
    let batch = page(rows, newest_offset, end_position);
    assert forall|k: int| 0 <= k < batch.len() implies (#[trigger] batch[k]).byte_position
        + batch[k].bytes.len() == if k == 0 {
        end_position
    } else {
        batch[k - 1].byte_position
    } by {
        let at = rows.len() - 1 - k;
        lemma_skip_byte_count(rows, at, at + 1);
        assert(rows.subrange(at, at + 1) =~= seq![rows[at]]);
        lemma_single_byte_count(rows[at]);
        if k == 0 {
            assert(rows.skip(at + 1) =~= Seq::<Seq<u8>>::empty());
        }
    }
}

/// Wherever there is a row to return, a batch returns at least the newest one, so
/// that callers always make progress.
pub proof fn law_batch_makes_progress(rows: Seq<Seq<u8>>, newest_offset: int, end_position: int)
    requires
        rows.len() > 0,
        newest_offset >= 0,
    ensures
        page(rows, newest_offset, end_position).len() > 0,
        page(rows, newest_offset, end_position)[0].offset == newest_offset,
        page(rows, newest_offset, end_position)[0].bytes == rows.last(),
{
    lemma_window_start(rows);
}

/// An oversized newest row is returned alone.
pub proof fn law_oversized_newest_row_is_alone(
    rows: Seq<Seq<u8>>,
    newest_offset: int,
    end_position: int,
)
    requires
        rows.len() > 0,
        newest_offset >= 0,
        oversized(rows.last()),
    ensures
        page(rows, newest_offset, end_position).len() == 1,
        page(rows, newest_offset, end_position)[0].bytes == rows.last(),
{
}

/// Otherwise a batch leaves a row out only where that row would exceed a cap, or
/// where all offsets down to zero are in it.
pub proof fn law_batch_is_maximal(rows: Seq<Seq<u8>>, newest_offset: int, end_position: int)
    requires
        rows.len() > 0,
        newest_offset >= 0,
        !oversized(rows.last()),
    ensures
        ({
            let count = page(rows, newest_offset, end_position).len();
            count == rows.len() || count == newest_offset + 1 || !within_caps(
                rows.skip(rows.len() - count - 1),
            )
        }),
{
    lemma_window_start(rows);
    lemma_first_fit(rows, 0);
    let start = window_start(rows);
    if start > 0 {
        assert(!within_caps(rows.skip(start - 1)));
    }
}

/// The rows that a lookup for `cursor` finds in a file, newest first.
pub open spec fn batch_rows(contents: Seq<u8>, cursor: CursorView) -> Seq<RawRow> {
    match resume_position(cursor, contents.len() as int) {
        Some(position) => page(
            split_rows(contents.take(position)),
            cursor.end_offset,
            position,
        ),
        None => page_through(contents, cursor.end_offset),
    }
}

/// Where the row at `offset` ends in the file.
pub open spec fn row_end(contents: Seq<u8>, offset: int) -> int {
    byte_count(rows_through(contents, offset)) as int
}

/// Whether `cursor` fits the file: if it knows where its row ends, that is where
/// the row ends.
pub open spec fn fits_file(contents: Seq<u8>, cursor: CursorView) -> bool {
    &&& is_cursor(cursor)
    &&& cursor.byte_position matches Some(byte_position) ==> {
        &&& cursor.end_offset < split_rows(contents).len()
        &&& byte_position == row_end(contents, cursor.end_offset)
    }
}

/// The rows through an offset are the rows of what comes before their end.
proof fn lemma_rows_before_end(contents: Seq<u8>, offset: int)
    requires
        0 <= offset < split_rows(contents).len(),
    ensures
        0 <= row_end(contents, offset) <= contents.len(),
        split_rows(contents.take(row_end(contents, offset))) == rows_through(contents, offset),
{
    let rows = split_rows(contents);
    let older = rows.take(offset + 1);
    let newer = rows.skip(offset + 1);
    law_rows_give_file_back(contents);
    assert(older + newer =~= rows);
    assert(rows_through(contents, offset) =~= older);
    vstd::seq_lib::lemma_flatten_concat(older, newer);
    assert(contents.take(row_end(contents, offset)) =~= older.flatten());
    assert(are_rows(older));
    law_written_rows_are_read_back(older);
}

/// A lookup that continues at a byte position finds what counting the rows anew
/// would find.
pub proof fn law_continuation_equals_rescan(contents: Seq<u8>, cursor: CursorView)
    requires
        fits_file(contents, cursor),
    ensures
        batch_rows(contents, cursor) == page_through(contents, cursor.end_offset),
{
    if resume_position(cursor, contents.len() as int) is Some {
        lemma_rows_before_end(contents, cursor.end_offset);
        let rows = rows_through(contents, cursor.end_offset);
        assert(rows.len() == cursor.end_offset + 1);
    }
}

/// The cursor to the next older batch fits the file, and it continues right before
/// the oldest row of this batch.
pub proof fn law_next_cursor_fits(contents: Seq<u8>, cursor: CursorView)
    requires
        fits_file(contents, cursor),
    ensures
        ({
            let rows = batch_rows(contents, cursor);
            match older_cursor(rows, contents.len() as int) {
                Some(next) => {
                    &&& fits_file(contents, next)
                    &&& resume_position(next, contents.len() as int) == next.byte_position
                    &&& next.end_offset == rows.last().offset - 1
                    &&& next.end_offset < cursor.end_offset
                },
                None => rows.len() == 0 || rows.last().offset == 0,
            }
        }),
{
    law_continuation_equals_rescan(contents, cursor);
    let rows = rows_through(contents, cursor.end_offset);
    let batch = batch_rows(contents, cursor);
    if batch.len() > 0 {
        lemma_window_start(rows);
        law_batch_is_contiguous(rows, rows.len() - 1, byte_count(rows) as int);
        let oldest = batch.last();
        if oldest.offset > 0 {
            let before = rows_through(contents, oldest.offset - 1);
            assert(before =~= rows.take(oldest.offset));
            lemma_skip_byte_count(rows, 0, oldest.offset);
            assert(rows.skip(0) =~= rows);
            assert(rows.subrange(0, oldest.offset) =~= before);
            lemma_rows_before_end(contents, oldest.offset - 1);
        }
    }
}

/// The rows of all batches that come of following the cursors, in the order in
/// which they are returned.
pub open spec fn followed(contents: Seq<u8>, cursor: CursorView) -> Seq<RawRow>
    decreases cursor.end_offset,
{
    let rows = batch_rows(contents, cursor);
    match older_cursor(rows, contents.len() as int) {
        Some(next) => if 0 <= next.end_offset < cursor.end_offset {
            rows + followed(contents, next)
        } else {
            rows
        },
        None => rows,
    }
}

/// All rows through an offset with their places in the file, newest first.
pub open spec fn all_rows_through(contents: Seq<u8>, end_offset: int) -> Seq<RawRow> {
    let rows = rows_through(contents, end_offset);
    Seq::new(
        rows.len(),
        |k: int|
            RawRow {
                offset: rows.len() - 1 - k,
                byte_position: byte_count(rows.take(rows.len() - 1 - k)) as int,
                bytes: rows[rows.len() - 1 - k],
            },
    )
}

/// Following the cursors visits every row once, from the newest one asked for to
/// the oldest one of the file.
pub proof fn law_paging_visits_every_row_once(contents: Seq<u8>, cursor: CursorView)
    requires
        fits_file(contents, cursor),
    ensures
        followed(contents, cursor) == all_rows_through(contents, cursor.end_offset),
    decreases cursor.end_offset,
{
    law_continuation_equals_rescan(contents, cursor);
    law_next_cursor_fits(contents, cursor);
    let rows = rows_through(contents, cursor.end_offset);
    let batch = batch_rows(contents, cursor);
    let all = all_rows_through(contents, cursor.end_offset);
    lemma_window_start(rows);
    if rows.len() > 0 {
        law_batch_makes_progress(rows, rows.len() - 1, byte_count(rows) as int);
    }
    assert forall|k: int| 0 <= k < batch.len() implies #[trigger] batch[k] == all[k] by {
        let at = rows.len() - 1 - k;
        lemma_skip_byte_count(rows, 0, at);
        assert(rows.skip(0) =~= rows);
        assert(rows.subrange(0, at) =~= rows.take(at));
    }
    match older_cursor(batch, contents.len() as int) {
        Some(next) => {
            law_paging_visits_every_row_once(contents, next);
            let before = rows_through(contents, next.end_offset);
            assert(before =~= rows.take(next.end_offset + 1));
            let rest = all_rows_through(contents, next.end_offset);
            assert forall|k: int| 0 <= k < rest.len() implies #[trigger] rest[k] == all[batch.len()
                + k] by {
                let at = before.len() - 1 - k;
                assert(before.take(at) =~= rows.take(at));
            }
            assert(batch + rest =~= all);
        },
        None => {
            assert(batch =~= all);
        },
    }
}

/// Rows appended to the file do not change what a continued lookup finds.
pub proof fn law_appended_rows_leave_continuation(
    contents: Seq<u8>,
    appended: Seq<u8>,
    cursor: CursorView,
)
    requires
        is_cursor(cursor),
        resume_position(cursor, contents.len() as int) is Some,
    ensures
        batch_rows(contents + appended, cursor) == batch_rows(contents, cursor),
{
    let position = resume_position(cursor, contents.len() as int)->0;
    assert((contents + appended).take(position) =~= contents.take(position));
}

/// Rows appended to the file do not change what a lookup finds that ends at a row
/// with its newline.
pub proof fn law_appended_rows_leave_older_batches(
    contents: Seq<u8>,
    appended: Seq<u8>,
    end_offset: int,
)
    requires
        0 <= end_offset < closed_rows(contents).len(),
    ensures
        page_through(contents + appended, end_offset) == page_through(contents, end_offset),
{
    lemma_rows_through_stay(contents, appended, end_offset);
}

/// The rows through an offset stay as they are once the row there is closed.
pub proof fn lemma_rows_through_stay(contents: Seq<u8>, appended: Seq<u8>, end_offset: int)
    requires
        0 <= end_offset < closed_rows(contents).len(),
    ensures
        rows_through(contents + appended, end_offset) == rows_through(contents, end_offset),
{
    lemma_closed_rows_stay(contents, appended);
    let closed = closed_rows(contents);
    let now = closed_rows(contents + appended);
    assert forall|i: int| 0 <= i <= end_offset implies now[i] == closed[i] by {
        assert(now.take(closed.len() as int)[i] == now[i]);
    }
    assert(rows_through(contents + appended, end_offset) =~= rows_through(contents, end_offset));
}

/// In a file that has become shorter than the cursor has seen it, the rows are
/// counted anew.
pub proof fn law_shorter_file_is_rescanned(contents: Seq<u8>, cursor: CursorView)
    requires
        ({
            ||| cursor.byte_position matches Some(byte_position) && byte_position > contents.len()
            ||| cursor.observed_file_len matches Some(observed) && observed > contents.len()
        }),
    ensures
        batch_rows(contents, cursor) == page_through(contents, cursor.end_offset),
{
}

/// A lookup past the newest row ends at the newest row.
pub proof fn law_offset_past_end_gives_newest_rows(contents: Seq<u8>, end_offset: int)
    requires
        end_offset >= split_rows(contents).len() - 1,
    ensures
        page_through(contents, end_offset) == page_through(
            contents,
            split_rows(contents).len() - 1,
        ),
{
}

/// A malformed row keeps its place in the batch: it has its offset, and no record.
pub proof fn law_malformed_row_keeps_its_offset<E, F: Fn(&[u8]) -> Option<E>>(
    batch: HistoryBatch<E>,
    rows: Seq<RawRow>,
    file_len: int,
    parse: F,
    at: int,
)
    requires
        is_batch(batch, rows, file_len, parse),
        0 <= at < rows.len(),
        forall|entry: Option<E>|
            parses_to(parse, row_payload(rows[at].bytes), entry) ==> entry is None,
    ensures
        batch.entries@.len() == rows.len(),
        batch.entries@[at].offset == rows[at].offset,
        batch.entries@[at].entry is None,
{
    let entry = batch.entries@[at];
    assert(parses_to(parse, row_payload(rows[at].bytes), entry.entry));
}

} // verus!
