//! Scanning a history file backward from the end of a row.

use vstd::prelude::*;

use crate::batch::{raw_rows, RawHistoryBatch, RawRow};
use crate::page::{page, page_len};
use crate::retain::{retain_newest_row, RawHistoryBatchEntry};
use crate::rows::{
    at_row_start, byte_count, closed_rows, is_row, lemma_rows_are_rows, lemma_rows_join,
    lemma_split_at_row_start, lemma_split_single_row, split_rows, NEWLINE,
};
use crate::window::{
    lemma_first_fit, lemma_first_fit_is, lemma_single_byte_count, lemma_skip_byte_count,
    lemma_window_start, oversized, window_start, within_caps, MAX_BATCH_BYTES, MAX_BATCH_ROWS,
};

verus! {

/// The rows that start within `seen`, oldest first, where more bytes may come
/// before `seen`: all but the first row, which may start earlier.
pub open spec fn known_rows(seen: Seq<u8>) -> Seq<Seq<u8>> {
    if split_rows(seen).len() == 0 {
        Seq::empty()
    } else {
        split_rows(seen).drop_first()
    }
}

/// Whether rows older than `known` have no place in the batch that ends with the
/// newest of them at offset `end_offset`: a cap is exceeded, or offset zero is
/// among them.
pub open spec fn stops(known: Seq<Seq<u8>>, end_offset: int) -> bool {
    &&& known.len() > 0
    &&& oversized(known.last()) || !within_caps(known) || known.len() > end_offset
}

/// Rows that fit into a batch are its rows.
proof fn lemma_page_of_fitting(rows: Seq<Seq<u8>>, end_offset: int)
    requires
        within_caps(rows),
        rows.len() <= end_offset + 1,
    ensures
        window_start(rows) == 0,
        page_len(rows, end_offset) == rows.len(),
        rows.len() > 0 ==> !oversized(rows.last()),
{
    assert(rows.skip(0) =~= rows);
    if rows.len() > 0 {
        lemma_skip_byte_count(rows, 0, rows.len() - 1);
        assert(rows.skip(rows.len() - 1) =~= seq![rows.last()]);
        lemma_single_byte_count(rows.last());
    }
}

/// A row that still fits extends the batch at its old end.
proof fn lemma_page_of_one_more(row: Seq<u8>, known: Seq<Seq<u8>>, end_offset: int, end_position: int)
    requires
        within_caps(seq![row] + known),
        known.len() <= end_offset,
    ensures
        within_caps(known),
        page(seq![row] + known, end_offset, end_position) == page(
            known,
            end_offset,
            end_position,
        ).push(
            RawRow {
                offset: end_offset - known.len(),
                byte_position: end_position - byte_count(seq![row] + known),
                bytes: row,
            },
        ),
{
    let rows = seq![row] + known;
    assert(rows.skip(0) =~= rows);
    assert(rows.skip(1) =~= known);
    lemma_skip_byte_count(rows, 0, 1);
    lemma_page_of_fitting(rows, end_offset);
    lemma_page_of_fitting(known, end_offset);
    let older = page(known, end_offset, end_position);
    assert forall|k: int| 0 <= k < known.len() implies #[trigger] page(
        rows,
        end_offset,
        end_position,
    )[k] == older[k] by {
        assert(rows.skip(rows.len() - 1 - k) =~= known.skip(known.len() - 1 - k));
    }
    assert(page(rows, end_offset, end_position) =~= older.push(
        RawRow {
            offset: end_offset - known.len(),
            byte_position: end_position - byte_count(rows),
            bytes: row,
        },
    ));
}

/// Once a scan may stop, older rows change nothing.
pub proof fn lemma_stop_is_final(
    older: Seq<Seq<u8>>,
    known: Seq<Seq<u8>>,
    end_offset: int,
    end_position: int,
)
    requires
        stops(known, end_offset),
        end_offset >= 0,
    ensures
        stops(older + known, end_offset),
        page(older + known, end_offset, end_position) == page(known, end_offset, end_position),
{
    let rows = older + known;
    let shift = older.len() as int;
    assert(rows.skip(shift) =~= known);
    assert(rows.skip(0) =~= rows);
    lemma_skip_byte_count(rows, 0, shift);
    lemma_window_start(known);
    lemma_window_start(rows);
    if !oversized(known.last()) {
        lemma_first_fit(known, 0);
        lemma_first_fit(rows, 0);
        let at = window_start(known);
        assert(rows.skip(shift + at) =~= known.skip(at));
        if !within_caps(known) {
            assert forall|j: int| 0 <= j < shift + at implies !within_caps(
                #[trigger] rows.skip(j),
            ) by {
                if j >= shift {
                    assert(rows.skip(j) =~= known.skip(j - shift));
                } else {
                    lemma_skip_byte_count(rows, j, shift);
                }
            }
            lemma_first_fit_is(rows, 0, shift + at);
        } else {
            lemma_skip_byte_count(known, 0, at);
            assert(known.skip(0) =~= known);
            lemma_page_of_fitting(known, known.len() as int);
            if window_start(rows) > shift {
                assert(!within_caps(rows.skip(shift)));
            }
        }
    }
    assert(page_len(rows, end_offset) == page_len(known, end_offset));
    assert forall|k: int| 0 <= k < page_len(known, end_offset) implies #[trigger] page(
        rows,
        end_offset,
        end_position,
    )[k] == page(known, end_offset, end_position)[k] by {
        assert(rows.skip(rows.len() - 1 - k) =~= known.skip(known.len() - 1 - k));
    }
    assert(page(rows, end_offset, end_position) =~= page(known, end_offset, end_position));
}

/// Bytes that are not empty have a first row.
proof fn lemma_first_row(bytes: Seq<u8>)
    requires
        bytes.len() > 0,
    ensures
        split_rows(bytes).len() > 0,
        is_row(split_rows(bytes)[0]),
        bytes == split_rows(bytes)[0] + known_rows(bytes).flatten(),
        known_rows(bytes).len() > 0 ==> split_rows(bytes)[0].last() == NEWLINE,
        split_rows(bytes) == seq![split_rows(bytes)[0]] + known_rows(bytes),
{
    lemma_rows_join(bytes);
    lemma_rows_are_rows(bytes);
    let rows = split_rows(bytes);
    if rows.len() == 0 {
        assert(rows =~= Seq::<Seq<u8>>::empty());
        assert(rows.flatten().len() == 0);
    }
    assert(rows =~= seq![rows[0]] + known_rows(bytes));
    if known_rows(bytes).len() > 0 {
        assert(rows[0] == closed_rows(bytes)[0]);
    }
}

/// The known rows stay known, and older ones come before them.
pub proof fn lemma_known_rows_stay(more: Seq<u8>, seen: Seq<u8>)
    requires
        seen.len() > 0,
    ensures
        split_rows(more + seen) == split_rows(more + split_rows(seen)[0]) + known_rows(seen),
        known_rows(more + seen) == known_rows(more + split_rows(seen)[0]) + known_rows(seen),
{
    lemma_first_row(seen);
    let first = split_rows(seen)[0];
    let rest = known_rows(seen).flatten();
    if known_rows(seen).len() == 0 {
        assert(known_rows(seen) =~= Seq::<Seq<u8>>::empty());
        assert(first + rest =~= first);
        assert(split_rows(more + first) + known_rows(seen) =~= split_rows(more + first));
        assert(known_rows(more + first) + known_rows(seen) =~= known_rows(more + first));
    } else {
        lemma_split_single_row(first);
        lemma_split_at_row_start(first, rest);
        assert(split_rows(rest) =~= known_rows(seen)) by {
            assert(split_rows(seen).drop_first() =~= split_rows(rest));
        }
        assert(at_row_start(more + first)) by {
            assert((more + first).last() == first.last());
        }
        lemma_split_at_row_start(more + first, rest);
        assert((more + first) + rest =~= more + seen);
        lemma_first_row(more + first);
        assert(known_rows(more + seen) =~= known_rows(more + first) + known_rows(seen));
    }
}

/// One more byte, at the front, lengthens the first row or completes it.
proof fn lemma_prepend_byte(byte: u8, seen: Seq<u8>)
    ensures
        ({
            let now = seq![byte] + seen;
            if seen.len() == 0 {
                split_rows(now) == seq![seq![byte]] && known_rows(now) == known_rows(seen)
            } else if byte == NEWLINE {
                split_rows(now)[0] == seq![byte] && known_rows(now) == split_rows(seen)
            } else {
                split_rows(now)[0] == seq![byte] + split_rows(seen)[0] && known_rows(now)
                    == known_rows(seen)
            }
        }),
{
    let now = seq![byte] + seen;
    let one = seq![byte];
    if seen.len() == 0 {
        assert(now =~= one);
        lemma_split_single_row(one);
        assert(known_rows(now) =~= Seq::<Seq<u8>>::empty());
        lemma_rows_join(seen);
        assert(known_rows(seen) =~= Seq::<Seq<u8>>::empty());
    } else if byte == NEWLINE {
        lemma_split_single_row(one);
        lemma_split_at_row_start(one, seen);
        assert(known_rows(now) =~= split_rows(seen));
    } else {
        lemma_first_row(seen);
        let first = one + split_rows(seen)[0];
        assert(is_row(first)) by {
            assert(first.drop_last() =~= one + split_rows(seen)[0].drop_last());
        }
        lemma_known_rows_stay(one, seen);
        lemma_split_single_row(first);
        assert(known_rows(first) =~= Seq::<Seq<u8>>::empty());
        assert(known_rows(now) =~= known_rows(seen));
    }
}

/// A scan that reads back from the end of a row and keeps rows until the batch is
/// full.
pub struct BackwardScan {
    end_offset: usize,
    end_position: u64,
    file_len: u64,
    entries: Vec<RawHistoryBatchEntry>,
    entries_bytes: usize,
    reversed_row: Vec<u8>,
    read_end: u64,
    offset: usize,
    stopped: bool,
    seen: Ghost<Seq<u8>>,
}

/// Turns a row that was collected from its end round.
fn unreverse(reversed: Vec<u8>) -> (row: Vec<u8>)
    ensures
        row@ == reversed@.reverse(),
{
    let mut row: Vec<u8> = Vec::new();
    let mut left: usize = reversed.len();
    while left > 0
        invariant
            left <= reversed@.len(),
            row@.len() + left == reversed@.len(),
            forall|i: int| 0 <= i < row@.len() ==> row@[i] == reversed@[reversed@.len() - 1 - i],
        decreases left,
    {
        left = left - 1;
        row.push(reversed[left]);
    }
    proof {
        assert(row@ =~= reversed@.reverse());
    }
    row
}

impl BackwardScan {
    /// The offset of the newest row to include.
    pub closed spec fn end_offset(self) -> int {
        self.end_offset as int
    }

    /// Where that row ends in the file.
    pub closed spec fn end_position(self) -> int {
        self.end_position as int
    }

    /// How long the file is.
    pub closed spec fn file_len(self) -> int {
        self.file_len as int
    }

    /// All bytes read so far: those that lead up to `end_position`.
    pub closed spec fn seen(self) -> Seq<u8> {
        self.seen@
    }

    /// Whether no more bytes are needed.
    pub open spec fn done(self) -> bool {
        self.seen().len() == self.end_position() || stops(
            known_rows(self.seen()),
            self.end_offset(),
        )
    }

    /// The rows found: the newest ones that fit into a batch, newest first.
    pub open spec fn found(self) -> Seq<RawRow> {
        page(
            if self.seen().len() == self.end_position() {
                split_rows(self.seen())
            } else {
                known_rows(self.seen())
            },
            self.end_offset(),
            self.end_position(),
        )
    }

    /// Whether the rows kept are those that the bytes read so far call for.
    pub closed spec fn wf(self) -> bool {
        let known = known_rows(self.seen@);
        &&& self.seen@.len() <= self.end_position
        &&& self.read_end == self.end_position - self.seen@.len()
        &&& self.stopped == stops(known, self.end_offset as int)
        &&& raw_rows(self.entries@) == page(
            known,
            self.end_offset as int,
            self.end_position as int,
        )
        &&& !self.stopped ==> self.collects(self.seen@)
    }

    /// Whether the scan stands before `seen` and has kept every row known from it.
    closed spec fn collects(self, seen: Seq<u8>) -> bool {
        let known = known_rows(seen);
        &&& within_caps(known)
        &&& raw_rows(self.entries@) == page(
            known,
            self.end_offset as int,
            self.end_position as int,
        )
        &&& self.entries_bytes == byte_count(known)
        &&& self.offset == self.end_offset - known.len()
        &&& seen.len() == 0 ==> self.reversed_row@.len() == 0
        &&& seen.len() > 0 ==> self.reversed_row@.len() > 0 && self.reversed_row@.reverse()
            == split_rows(seen)[0]
    }

    /// Starts a scan for the batch whose newest row has offset `end_offset` and ends
    /// at `end_position`.
    pub fn new(end_offset: usize, end_position: u64, file_len: u64) -> (scan: Self)
        ensures
            scan.wf(),
            scan.end_offset() == end_offset,
            scan.end_position() == end_position,
            scan.file_len() == file_len,
            scan.seen() == Seq::<u8>::empty(),
    {
        let scan = BackwardScan {
            end_offset,
            end_position,
            file_len,
            entries: Vec::new(),
            entries_bytes: 0,
            reversed_row: Vec::new(),
            read_end: end_position,
            offset: end_offset,
            stopped: false,
            seen: Ghost(Seq::empty()),
        };
        proof {
            let none = Seq::<Seq<u8>>::empty();
            lemma_rows_join(scan.seen@);
            assert(known_rows(scan.seen@) =~= none);
            lemma_page_of_fitting(none, end_offset as int);
            assert(raw_rows(scan.entries@) =~= page(none, end_offset as int, end_position as int));
        }
        scan
    }

    /// How many bytes come before those read so far.
    pub fn remaining(&self) -> (remaining: u64)
        requires
            self.wf(),
        ensures
            remaining == self.end_position() - self.seen().len(),
    {
        self.read_end
    }

    /// Where to read next, and how many bytes: the bytes right before those read so
    /// far, at most `buffer_size`. `None` if no more bytes are needed.
    pub fn next_read(&self, buffer_size: usize) -> (range: Option<(u64, usize)>)
        requires
            self.wf(),
            buffer_size > 0,
        ensures
            range is None <==> self.done(),
            range matches Some((start, len)) ==> {
                &&& 0 < len <= buffer_size
                &&& start + len == self.end_position() - self.seen().len()
                &&& len == buffer_size || start == 0
            },
    {
        if self.stopped || self.read_end == 0 {
            None
        } else if self.read_end > buffer_size as u64 {
            Some((self.read_end - buffer_size as u64, buffer_size))
        } else {
            Some((0, self.read_end as usize))
        }
    }

    /// Hands out the rows found.
    pub fn finish(self) -> (raw: RawHistoryBatch)
        requires
            self.wf(),
            self.done(),
        ensures
            raw_rows(raw.entries@) == self.found(),
            raw.file_len == self.file_len(),
    {
        let mut entries = self.entries;
        let ghost known = known_rows(self.seen@);
        let ghost rows = split_rows(self.seen@);
        let ghost end_offset = self.end_offset as int;
        let ghost end_position = self.end_position as int;
        proof {
            if self.seen@.len() > 0 {
                lemma_first_row(self.seen@);
                if self.stopped {
                    lemma_stop_is_final(seq![rows[0]], known, end_offset, end_position);
                }
            } else {
                lemma_rows_join(self.seen@);
                assert(rows =~= known);
            }
        }
        if !self.stopped && self.reversed_row.len() > 0 {
            let mut entries_bytes: usize = self.entries_bytes;
            let row = unreverse(self.reversed_row);
            let ghost before = entries@;
            let entry = RawHistoryBatchEntry { offset: self.offset, byte_position: 0, bytes: row };
            let more: bool = retain_newest_row(&mut entries, &mut entries_bytes, entry);
            proof {
                lemma_rows_join(self.seen@);
                lemma_retained(before, entry, known, end_offset, end_position, entries@, more);
            }
        }
        RawHistoryBatch { entries, file_len: self.file_len }
    }
}

/// Retaining the next older row keeps the entries up to date.
proof fn lemma_retained(
    before: Seq<RawHistoryBatchEntry>,
    entry: RawHistoryBatchEntry,
    known: Seq<Seq<u8>>,
    end_offset: int,
    end_position: int,
    after: Seq<RawHistoryBatchEntry>,
    more: bool,
)
    requires
        raw_rows(before) == page(known, end_offset, end_position),
        within_caps(known),
        known.len() <= end_offset,
        entry.offset == end_offset - known.len(),
        entry.byte_position == end_position - byte_count(seq![entry.bytes@] + known),
        if before.len() == 0 && oversized(entry.bytes@) {
            !more && after == seq![entry]
        } else if before.len() == MAX_BATCH_ROWS || byte_count(known) + entry.bytes@.len()
            > MAX_BATCH_BYTES {
            !more && after == before
        } else {
            more && after == before.push(entry)
        },
    ensures
        raw_rows(after) == page(seq![entry.bytes@] + known, end_offset, end_position),
        more ==> within_caps(seq![entry.bytes@] + known),
        byte_count(seq![entry.bytes@] + known) == entry.bytes@.len() + byte_count(known),
        (!more || entry.offset == 0) == stops(seq![entry.bytes@] + known, end_offset),
{
    let row = entry.bytes@;
    let rows = seq![row] + known;
    lemma_page_of_fitting(known, end_offset);
    assert(before.len() == raw_rows(before).len());
    vstd::seq_lib::lemma_flatten_concat(seq![row], known);
    lemma_single_byte_count(row);
    assert(rows.skip(0) =~= rows);
    assert(rows.skip(1) =~= known);
    if before.len() == 0 && oversized(row) {
        assert(rows =~= seq![row]);
        assert(window_start(rows) == 0);
        assert(raw_rows(after) =~= page(rows, end_offset, end_position));
    } else if !more {
        assert(!within_caps(rows));
        assert(known.len() > 0) by {
            if known.len() == 0 {
                assert(known =~= Seq::<Seq<u8>>::empty());
            }
        }
        assert(rows.last() == known.last());
        assert forall|j: int| 0 <= j < 1 implies !within_caps(#[trigger] rows.skip(j)) by {}
        lemma_first_fit_is(rows, 0, 1);
        let newest_first = page(rows, end_offset, end_position);
        assert forall|k: int| 0 <= k < known.len() implies #[trigger] newest_first[k] == page(
            known,
            end_offset,
            end_position,
        )[k] by {
            assert(rows.skip(rows.len() - 1 - k) =~= known.skip(known.len() - 1 - k));
        }
        assert(newest_first =~= page(known, end_offset, end_position));
    } else {
        lemma_page_of_one_more(row, known, end_offset, end_position);
        lemma_page_of_fitting(rows, end_offset);
        assert(raw_rows(after) =~= raw_rows(before).push(entry@));
    }
}

/// Hands the bytes before those read so far to the scan.
pub fn scan_batch_backward(scan: &mut BackwardScan, chunk: &[u8])
    requires
        old(scan).wf(),
        !old(scan).done(),
        old(scan).seen().len() + chunk@.len() <= old(scan).end_position(),
    ensures
        final(scan).wf(),
        final(scan).end_offset() == old(scan).end_offset(),
        final(scan).end_position() == old(scan).end_position(),
        final(scan).file_len() == old(scan).file_len(),
        final(scan).seen() == chunk@ + old(scan).seen(),
{
    let read_len: usize = chunk.len();
    let read_start: u64 = scan.read_end - read_len as u64;
    let ghost before = scan.seen@;
    let ghost whole = chunk@ + before;
    let ghost end_offset = scan.end_offset as int;
    let ghost end_position = scan.end_position as int;
    let mut index: usize = read_len;
    let ghost mut now = before;
    proof {
        scan.seen@ = whole;
        assert(chunk@.skip(read_len as int) + before =~= before);
    }
    scan.read_end = read_start;
    while index > 0
        invariant
            index <= read_len,
            read_len == chunk@.len(),
            before == old(scan).seen@,
            whole == chunk@ + before,
            now == chunk@.skip(index as int) + before,
            whole.len() <= end_position,
            read_start == end_position - whole.len(),
            end_offset == old(scan).end_offset,
            end_position == old(scan).end_position,
            scan.file_len == old(scan).file_len,
            scan.end_offset == end_offset,
            scan.end_position == end_position,
            scan.seen@ == whole,
            scan.read_end == read_start,
            !scan.stopped,
            scan.collects(now),
            !stops(known_rows(now), end_offset),
        decreases index,
    {
        index = index - 1;
        let byte: u8 = chunk[index];
        let ghost grown = seq![byte] + now;
        proof {
            assert(grown =~= chunk@.skip(index as int) + before);
            lemma_prepend_byte(byte, now);
        }
        if byte == NEWLINE && scan.reversed_row.len() > 0 {
            let mut reversed: Vec<u8> = Vec::new();
            std::mem::swap(&mut reversed, &mut scan.reversed_row);
            let row = unreverse(reversed);
            let entry = RawHistoryBatchEntry {
                offset: scan.offset,
                byte_position: read_start + index as u64 + 1,
                bytes: row,
            };
            let ghost kept = scan.entries@;
            let ghost known = known_rows(now);
            proof {
                lemma_first_row(now);
                lemma_rows_join(now);
            }
            let more: bool = retain_newest_row(&mut scan.entries, &mut scan.entries_bytes, entry);
            proof {
                lemma_retained(
                    kept,
                    entry,
                    known,
                    end_offset,
                    end_position,
                    scan.entries@,
                    more,
                );
                let rest = chunk@.take(index as int);
                assert(rest + grown =~= whole);
                lemma_first_row(grown);
                lemma_known_rows_stay(rest, grown);
                if stops(known_rows(grown), end_offset) {
                    lemma_stop_is_final(
                        known_rows(rest + split_rows(grown)[0]),
                        known_rows(grown),
                        end_offset,
                        end_position,
                    );
                }
            }
            if !more {
                scan.stopped = true;
                return ;
            }
            match scan.offset.checked_sub(1) {
                None => {
                    scan.stopped = true;
                    return ;
                },
                Some(next_offset) => {
                    scan.offset = next_offset;
                },
            }
            scan.reversed_row.push(NEWLINE);
            proof {
                assert(scan.reversed_row@.reverse() =~= seq![NEWLINE]);
            }
        } else {
            let ghost reversed = scan.reversed_row@;
            scan.reversed_row.push(byte);
            proof {
                assert(scan.reversed_row@.reverse() =~= seq![byte] + reversed.reverse());
                if now.len() == 0 {
                    assert(scan.reversed_row@.reverse() =~= seq![byte]);
                }
            }
        }
        proof {
            now = grown;
        }
    }
    proof {
        assert(chunk@.skip(0) + before =~= whole);
    }
}

} // verus!
