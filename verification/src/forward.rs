//! Scanning a history file from its start.

use std::collections::VecDeque;

use vstd::prelude::*;

use crate::batch::{finish_forward_batch, raw_rows, RawHistoryBatch, RawRow};
use crate::newlines::find_all;
use crate::page::{page, page_through, rows_through};
use crate::retain::{entry_bytes, retain_row, RawHistoryBatchEntry};
use crate::rows::{
    byte_count, closed_rows, lemma_close_row, lemma_closed_rows_stay, lemma_extend_open_row,
    lemma_rows_join, no_newline, open_row, split_rows, NEWLINE,
};
use crate::window::{
    first_fit, lemma_first_fit, lemma_first_fit_is, lemma_single_byte_count, lemma_skip_byte_count,
    lemma_window_start, oversized, window_start, within_caps,
};

verus! {

/// A scan that counts rows from the start of the file and keeps the newest ones
/// that fit into a batch.
pub struct ForwardScan {
    end_offset: usize,
    file_len: u64,
    suffix: VecDeque<RawHistoryBatchEntry>,
    suffix_bytes: usize,
    pending: Vec<u8>,
    offset: usize,
    byte_position: u64,
    position: u64,
    done: bool,
    seen: Ghost<Seq<u8>>,
}

/// Whether `entries`, oldest first, are the newest of `rows` that fit into a batch.
pub open spec fn holds_window(entries: Seq<RawHistoryBatchEntry>, rows: Seq<Seq<u8>>) -> bool {
    &&& entries.len() == rows.len() - window_start(rows)
    &&& forall|i: int|
        0 <= i < entries.len() ==> (#[trigger] entries[i])@ == (RawRow {
            offset: window_start(rows) + i,
            byte_position: byte_count(rows.take(window_start(rows) + i)) as int,
            bytes: rows[window_start(rows) + i],
        })
}

/// The window over one more row is the window over the window and that row.
pub proof fn lemma_window_of_window(rows: Seq<Seq<u8>>, row: Seq<u8>)
    ensures
        window_start(rows.push(row)) == window_start(rows) + window_start(
            rows.skip(window_start(rows)).push(row),
        ),
{
    lemma_window_start(rows);
    let start = window_start(rows);
    let all = rows.push(row);
    let kept = rows.skip(start).push(row);
    assert(kept =~= all.skip(start));
    if !oversized(row) {
        lemma_first_fit(kept, 0);
        lemma_first_fit(rows, 0);
        let at = first_fit(kept, 0);
        assert(all.skip(start + at) =~= kept.skip(at));
        assert forall|j: int| 0 <= j < start + at implies !within_caps(#[trigger] all.skip(j)) by {
            if j >= start {
                assert(all.skip(j) =~= kept.skip(j - start));
            } else {
                assert(all.skip(j) =~= rows.skip(j).push(row));
                rows.skip(j).lemma_flatten_push(row);
                if oversized(rows.last()) {
                    lemma_skip_byte_count(rows, j, rows.len() - 1);
                    assert(rows.skip(rows.len() - 1) =~= seq![rows.last()]);
                    lemma_single_byte_count(rows.last());
                } else {
                    assert(!within_caps(rows.skip(j)));
                }
            }
        }
        lemma_first_fit_is(all, 0, start + at);
    }
}

/// Retaining the next row keeps the window up to date.
proof fn lemma_retained(
    before: Seq<RawHistoryBatchEntry>,
    entry: RawHistoryBatchEntry,
    rows: Seq<Seq<u8>>,
)
    requires
        holds_window(before, rows),
        entry.offset == rows.len(),
        entry.byte_position == byte_count(rows),
    ensures
        ({
            let all = before.push(entry);
            holds_window(all.skip(window_start(entry_bytes(all))), rows.push(entry.bytes@))
        }),
{
    let row = entry.bytes@;
    let all = before.push(entry);
    let start = window_start(rows);
    lemma_window_start(rows);
    assert(entry_bytes(all) =~= rows.skip(start).push(row)) by {
        assert forall|i: int| 0 <= i < before.len() implies entry_bytes(all)[i] == rows.skip(
            start,
        ).push(row)[i] by {
            assert(before[i]@.bytes == rows[start + i]);
        }
    }
    lemma_window_of_window(rows, row);
    lemma_window_start(entry_bytes(all));
    let dropped = window_start(entry_bytes(all));
    let kept = all.skip(dropped);
    let now = rows.push(row);
    assert forall|i: int| 0 <= i < kept.len() implies (#[trigger] kept[i])@ == (RawRow {
        offset: window_start(now) + i,
        byte_position: byte_count(now.take(window_start(now) + i)) as int,
        bytes: now[window_start(now) + i],
    }) by {
        let at = window_start(now) + i;
        if at < rows.len() {
            assert(now.take(at) =~= rows.take(at));
            assert(kept[i] == before[dropped + i]);
        } else {
            assert(now.take(at) =~= rows);
            assert(kept[i] == entry);
        }
    }
}

/// The window, read from the newest row back, is the batch.
proof fn lemma_window_is_page(entries: Seq<RawHistoryBatchEntry>, rows: Seq<Seq<u8>>)
    requires
        holds_window(entries, rows),
    ensures
        raw_rows(entries.reverse()) == page(rows, rows.len() - 1, byte_count(rows) as int),
{
    lemma_window_start(rows);
    let newest_first = page(rows, rows.len() - 1, byte_count(rows) as int);
    assert forall|k: int| 0 <= k < entries.len() implies #[trigger] raw_rows(entries.reverse())[k]
        == newest_first[k] by {
        let at = rows.len() - 1 - k;
        assert(entries.reverse()[k] == entries[entries.len() - 1 - k]);
        lemma_skip_byte_count(rows, 0, at);
        assert(rows.skip(0) =~= rows);
        assert(rows.subrange(0, at) =~= rows.take(at));
    }
    assert(raw_rows(entries.reverse()) =~= newest_first);
}

impl ForwardScan {
    /// The offset of the newest row to include.
    pub closed spec fn end_offset(self) -> int {
        self.end_offset as int
    }

    /// How long the file is.
    pub closed spec fn file_len(self) -> int {
        self.file_len as int
    }

    /// All bytes read so far.
    pub closed spec fn seen(self) -> Seq<u8> {
        self.seen@
    }

    /// Whether no more bytes are needed.
    pub closed spec fn done(self) -> bool {
        self.done
    }

    /// Whether the rows kept are those that the bytes read so far call for.
    pub closed spec fn wf(self) -> bool {
        let closed = closed_rows(self.seen@);
        &&& self.suffix_bytes == byte_count(entry_bytes(self.suffix@))
        &&& self.position == self.seen@.len()
        &&& self.done ==> holds_window(
            self.suffix@,
            rows_through(self.seen@, self.end_offset as int),
        )
        &&& !self.done ==> {
            &&& holds_window(self.suffix@, closed)
            &&& self.pending@ == open_row(self.seen@)
            &&& self.offset == closed.len()
            &&& self.offset <= self.end_offset
            &&& self.byte_position == byte_count(closed)
        }
    }

    /// Starts a scan for the batch that ends at `end_offset`.
    pub fn new(end_offset: usize, file_len: u64) -> (scan: Self)
        ensures
            scan.wf(),
            scan.end_offset() == end_offset,
            scan.file_len() == file_len,
            scan.seen() == Seq::<u8>::empty(),
            !scan.done(),
    {
        let scan = ForwardScan {
            end_offset,
            file_len,
            suffix: VecDeque::new(),
            suffix_bytes: 0,
            pending: Vec::new(),
            offset: 0,
            byte_position: 0,
            position: 0,
            done: false,
            seen: Ghost(Seq::empty()),
        };
        proof {
            assert(entry_bytes(scan.suffix@) =~= Seq::<Seq<u8>>::empty());
        }
        scan
    }

    /// How many bytes have been read.
    pub fn position(&self) -> (position: u64)
        requires
            self.wf(),
        ensures
            position == self.seen().len(),
    {
        self.position
    }

    /// Whether no more bytes are needed.
    pub fn is_done(&self) -> (done: bool)
        ensures
            done == self.done(),
    {
        self.done
    }

    /// Hands out the rows found.
    pub fn finish(self) -> (raw: RawHistoryBatch)
        requires
            self.wf(),
            self.done(),
        ensures
            raw_rows(raw.entries@) == page_through(self.seen(), self.end_offset()),
            raw.file_len == self.file_len(),
    {
        proof {
            lemma_window_is_page(
                self.suffix@,
                rows_through(self.seen@, self.end_offset as int),
            );
        }
        finish_forward_batch(self.suffix, self.file_len)
    }
}

/// Between two neighbouring newlines, and before the first one, there is no newline.
proof fn lemma_no_newline_between(chunk: Seq<u8>, positions: Seq<usize>, next: int, from: int, to: int)
    requires
        0 <= next <= positions.len(),
        0 <= from <= to <= chunk.len(),
        from == if next == 0 {
            0
        } else {
            positions[next - 1] + 1
        },
        next < positions.len() ==> to <= positions[next],
        chunk.len() <= usize::MAX,
        forall|i: int, j: int|
            0 <= i < j < positions.len() ==> #[trigger] positions[i] < #[trigger] positions[j],
        forall|p: usize|
            p < chunk.len() && #[trigger] chunk[p as int] == NEWLINE ==> positions.contains(p),
    ensures
        no_newline(chunk.subrange(from, to)),
{
    let part = chunk.subrange(from, to);
    assert forall|i: int| 0 <= i < part.len() implies part[i] != NEWLINE by {
        let p = (from + i) as usize;
        if part[i] == NEWLINE {
            assert(chunk[p as int] == NEWLINE);
            let k = choose|k: int| 0 <= k < positions.len() && positions[k] == p;
            if k < next - 1 {
                assert(positions[k] < positions[next - 1]);
            } else if next < k {
                assert(positions[next] < positions[k]);
            }
        }
    }
}

/// The rows through `end_offset` are known once that many rows are closed.
proof fn lemma_rows_through_closed(bytes: Seq<u8>, more: Seq<u8>, end_offset: int)
    requires
        closed_rows(bytes).len() == end_offset + 1,
    ensures
        rows_through(bytes + more, end_offset) == closed_rows(bytes),
        closed_rows(bytes + more).len() > end_offset,
{
    lemma_closed_rows_stay(bytes, more);
    let closed = closed_rows(bytes + more);
    assert(split_rows(bytes + more).take(end_offset + 1) =~= closed.take(end_offset + 1));
    assert(rows_through(bytes + more, end_offset) =~= closed_rows(bytes));
}

/// Hands the next bytes of the file to the scan. No bytes at all mean that the
/// file has ended.
pub fn scan_batch_forward(scan: &mut ForwardScan, chunk: &[u8])
    requires
        old(scan).wf(),
        !old(scan).done(),
        old(scan).seen().len() + chunk@.len() <= u64::MAX,
    ensures
        final(scan).wf(),
        final(scan).end_offset() == old(scan).end_offset(),
        final(scan).file_len() == old(scan).file_len(),
        final(scan).seen() == old(scan).seen() + chunk@,
        final(scan).done() == (chunk@.len() == 0 || closed_rows(final(scan).seen()).len()
            > final(scan).end_offset()),
{
    let ghost before = scan.seen@;
    let ghost whole = before + chunk@;
    let ghost end_offset = scan.end_offset as int;
    let read: usize = chunk.len();
    proof {
        lemma_rows_join(before);
        lemma_rows_join(whole);
    }
    if read == 0 {
        let mut row: Vec<u8> = Vec::new();
        std::mem::swap(&mut row, &mut scan.pending);
        proof {
            assert(whole =~= before);
        }
        if !row.is_empty() {
            proof {
                lemma_retained(
                    scan.suffix@,
                    RawHistoryBatchEntry {
                        offset: scan.offset,
                        byte_position: scan.byte_position,
                        bytes: row,
                    },
                    closed_rows(before),
                );
            }
            retain_row(
                &mut scan.suffix,
                &mut scan.suffix_bytes,
                scan.offset,
                scan.byte_position,
                row,
            );
        }
        scan.done = true;
        return ;
    }
    let chunk_start: u64 = scan.position;
    scan.position = chunk_start + read as u64;
    let newlines = find_all(NEWLINE, chunk);
    let mut row_start: usize = 0;
    let mut next: usize = 0;
    let ghost mut upto = before;
    proof {
        scan.seen@ = whole;
        assert(before + chunk@.take(0) =~= before);
    }
    while next < newlines.len()
        invariant
            next <= newlines@.len(),
            row_start <= read,
            read == chunk@.len(),
            row_start == if next == 0 {
                0
            } else {
                newlines@[next - 1] + 1
            },
            forall|i: int, j: int|
                0 <= i < j < newlines@.len() ==> #[trigger] newlines@[i] < #[trigger] newlines@[j],
            forall|i: int|
                0 <= i < newlines@.len() ==> (#[trigger] newlines@[i]) < chunk@.len()
                    && chunk@[newlines@[i] as int] == NEWLINE,
            forall|p: usize|
                p < chunk@.len() && #[trigger] chunk@[p as int] == NEWLINE
                    ==> newlines@.contains(p),
            before == old(scan).seen@,
            end_offset == old(scan).end_offset,
            whole == before + chunk@,
            whole.len() <= u64::MAX,
            chunk_start == before.len(),
            upto == before + chunk@.take(row_start as int),
            scan.seen@ == whole,
            scan.position == whole.len(),
            scan.end_offset == end_offset,
            scan.file_len == old(scan).file_len,
            scan.suffix_bytes == byte_count(entry_bytes(scan.suffix@)),
            !scan.done,
            holds_window(scan.suffix@, closed_rows(upto)),
            scan.pending@ == open_row(upto),
            scan.offset == closed_rows(upto).len(),
            scan.offset <= scan.end_offset,
            scan.byte_position == byte_count(closed_rows(upto)),
        decreases newlines@.len() - next,
    {
        let newline: usize = newlines[next];
        let ghost part = chunk@.subrange(row_start as int, newline + 1);
        let ghost closed = closed_rows(upto);
        proof {
            if next > 0 {
                assert(newlines@[next - 1] < newlines@[next as int]);
            }
            lemma_no_newline_between(
                chunk@,
                newlines@,
                next as int,
                row_start as int,
                newline as int,
            );
            assert(part.drop_last() =~= chunk@.subrange(row_start as int, newline as int));
            lemma_close_row(upto, part);
        }
        let mut row: Vec<u8> = Vec::new();
        std::mem::swap(&mut row, &mut scan.pending);
        row.extend_from_slice(vstd::slice::slice_subrange(chunk, row_start, newline + 1));
        proof {
            assert(row@ =~= open_row(upto) + part);
            lemma_retained(
                scan.suffix@,
                RawHistoryBatchEntry {
                    offset: scan.offset,
                    byte_position: scan.byte_position,
                    bytes: row,
                },
                closed,
            );
        }
        retain_row(
            &mut scan.suffix,
            &mut scan.suffix_bytes,
            scan.offset,
            scan.byte_position,
            row,
        );
        proof {
            assert(upto + part =~= before + chunk@.take(newline + 1));
            upto = before + chunk@.take(newline + 1);
            lemma_rows_join(upto);
        }
        if scan.offset == scan.end_offset {
            scan.done = true;
            proof {
                let rest = chunk@.skip(newline + 1);
                assert(upto + rest =~= whole);
                lemma_rows_through_closed(upto, rest, end_offset);
            }
            return ;
        }
        scan.offset = scan.offset + 1;
        row_start = newline + 1;
        scan.byte_position = chunk_start + row_start as u64;
        next = next + 1;
    }
    proof {
        let rest = chunk@.subrange(row_start as int, read as int);
        lemma_no_newline_between(
            chunk@,
            newlines@,
            next as int,
            row_start as int,
            read as int,
        );
        assert(upto + rest =~= whole);
        lemma_extend_open_row(upto, rest);
    }
    scan.pending.extend_from_slice(vstd::slice::slice_subrange(chunk, row_start, read));
    proof {
        assert(scan.pending@ =~= open_row(whole));
    }
}

} // verus!
