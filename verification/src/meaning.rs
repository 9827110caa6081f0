//! What a batch is, said of the file alone.
//!
//! Nothing here speaks of how a batch is found.

use vstd::prelude::*;

use crate::backward::{known_rows, lemma_known_rows_stay, lemma_stop_is_final, stops, BackwardScan};
use crate::batch::RawRow;
use crate::page::{page, page_through, rows_through};
use crate::rows::{
    byte_count, closed_rows, is_row, law_rows_are_lines, lemma_close_row, lemma_extend_open_row,
    lemma_rows_are_rows, lemma_rows_join, no_newline, open_row, split_rows, NEWLINE,
};
use crate::window::{
    lemma_first_fit, lemma_skip_byte_count, lemma_window_start, oversized, window_start,
    within_caps,
};

verus! {

/// Whether `contents` is made up of `rows`: none is empty, a newline only ends a row,
/// and only the newest row may lack it.
pub open spec fn is_file(rows: Seq<Seq<u8>>, contents: Seq<u8>) -> bool {
    &&& rows.flatten() == contents
    &&& forall|i: int| 0 <= i < rows.len() ==> (#[trigger] rows[i]).len() > 0
    &&& forall|i: int, j: int|
        0 <= i < rows.len() && 0 <= j < rows[i].len() - 1 ==> #[trigger] rows[i][j] != 0x0au8
    &&& forall|i: int| 0 <= i < rows.len() - 1 ==> (#[trigger] rows[i]).last() == 0x0au8
}

/// How many bytes the newest `count` of `rows` take.
pub open spec fn newest_bytes(rows: Seq<Seq<u8>>, count: int) -> nat {
    rows.skip(rows.len() - count).flatten().len()
}

/// Whether `count` is how many of `rows`, from the newest one back, go into a batch
/// that has room for `room` offsets: at least the newest row, that one alone where
/// it has more than 64 KiB, and otherwise as many as 128 rows and 64 KiB allow.
pub open spec fn is_batch_size(rows: Seq<Seq<u8>>, count: int, room: int) -> bool {
    &&& 0 <= count <= rows.len()
    &&& count <= room
    &&& rows.len() > 0 && room > 0 ==> count > 0
    &&& rows.len() > 0 && rows.last().len() > 65536 ==> count <= 1
    &&& rows.len() > 0 && rows.last().len() <= 65536 ==> {
        &&& count <= 128
        &&& newest_bytes(rows, count) <= 65536
        &&& count == rows.len() || count == room || count == 128 || newest_bytes(rows, count + 1)
            > 65536
    }
}

/// Whether `found` is the batch that ends with the newest of `rows`, which has
/// offset `newest_offset` and ends at `end_position` in the file.
pub open spec fn is_batch_of(
    found: Seq<RawRow>,
    rows: Seq<Seq<u8>>,
    newest_offset: int,
    end_position: int,
) -> bool {
    &&& is_batch_size(rows, found.len() as int, newest_offset + 1)
    &&& forall|k: int|
        #![trigger found[k]]
        0 <= k < found.len() ==> {
            &&& found[k].offset == newest_offset - k
            &&& found[k].bytes == rows[rows.len() - 1 - k]
            &&& found[k].byte_position == end_position - newest_bytes(rows, k + 1)
        }
}

/// Two batches of the same rows are the same batch.
pub proof fn law_batch_is_determined(
    found: Seq<RawRow>,
    other: Seq<RawRow>,
    rows: Seq<Seq<u8>>,
    newest_offset: int,
    end_position: int,
)
    requires
        is_batch_of(found, rows, newest_offset, end_position),
        is_batch_of(other, rows, newest_offset, end_position),
    ensures
        found == other,
{
    let a = found.len() as int;
    let b = other.len() as int;
    if a < b {
        lemma_skip_byte_count(rows, rows.len() - b, rows.len() - a - 1);
    } else if b < a {
        lemma_skip_byte_count(rows, rows.len() - a, rows.len() - b - 1);
    }
    assert(a == b);
    assert forall|k: int| 0 <= k < found.len() implies found[k] == other[k] by {
        assert(found[k].offset == other[k].offset);
    }
    assert(found =~= other);
}

/// The caps are 128 rows and 64 KiB.
pub proof fn law_caps(rows: Seq<Seq<u8>>, row: Seq<u8>)
    ensures
        within_caps(rows) <==> rows.len() <= 128 && rows.flatten().len() <= 65536,
        oversized(row) <==> row.len() > 65536,
{
}

/// A window leaves out as few old rows as the caps allow.
pub proof fn law_window(rows: Seq<Seq<u8>>)
    ensures
        is_batch_size(rows, rows.len() - window_start(rows), rows.len() as int),
{
    lemma_window_start(rows);
    lemma_first_fit(rows, 0);
    let start = window_start(rows);
    if start > 0 && !oversized(rows.last()) {
        assert(!within_caps(rows.skip(start - 1)));
    }
}

/// A page is the batch of its rows.
pub proof fn law_page(rows: Seq<Seq<u8>>, newest_offset: int, end_position: int)
    requires
        newest_offset >= -1,
    ensures
        is_batch_of(page(rows, newest_offset, end_position), rows, newest_offset, end_position),
{
    lemma_window_start(rows);
    law_window(rows);
    let count = page(rows, newest_offset, end_position).len() as int;
    if rows.len() > 0 && !oversized(rows.last()) {
        lemma_first_fit(rows, 0);
        lemma_skip_byte_count(rows, window_start(rows), rows.len() - count);
    }
}

/// Rows counted from the start of a file: the batch for an offset ends at the row
/// there, or at the newest row where there are fewer.
pub proof fn law_page_through(rows: Seq<Seq<u8>>, contents: Seq<u8>, end_offset: int)
    requires
        is_file(rows, contents),
        end_offset >= 0,
    ensures
        ({
            let count = if end_offset < rows.len() {
                end_offset + 1
            } else {
                rows.len() as int
            };
            is_batch_of(
                page_through(contents, end_offset),
                rows.take(count),
                count - 1,
                rows.take(count).flatten().len() as int,
            )
        }),
{
    law_rows_are_lines(rows, contents);
    let through = rows_through(contents, end_offset);
    assert(through =~= rows.take(through.len() as int));
    law_page(through, through.len() - 1, byte_count(through) as int);
}

/// Of two rows, the newer one starts later.
proof fn lemma_starts_ascend(rows: Seq<Seq<u8>>, older: int, newer: int)
    requires
        0 <= older <= newer <= rows.len(),
    ensures
        rows.take(older).flatten().len() <= rows.take(newer).flatten().len(),
{
    assert(rows.take(newer) =~= rows.take(older) + rows.subrange(older, newer));
    vstd::seq_lib::lemma_flatten_concat(rows.take(older), rows.subrange(older, newer));
}

/// The rows known from the end of a file are those that start within that end.
proof fn lemma_known_rows_start_within(rows: Seq<Seq<u8>>, older: Seq<u8>, seen: Seq<u8>)
    requires
        is_file(rows, older + seen),
        seen.len() > 0,
    ensures
        ({
            let first = rows.len() - known_rows(seen).len();
            &&& 0 < first
            &&& known_rows(seen) == rows.skip(first)
            &&& forall|j: int|
                0 <= j <= rows.len() ==> (#[trigger] rows.take(j).flatten().len() > older.len()
                    <==> j >= first)
        }),
{
    law_rows_are_lines(rows, older + seen);
    lemma_rows_join(seen);
    lemma_rows_are_rows(seen);
    if split_rows(seen).len() == 0 {
        assert(split_rows(seen) =~= Seq::<Seq<u8>>::empty());
    }
    let row = split_rows(seen)[0];
    lemma_known_rows_stay(older, seen);
    let head = split_rows(older + row);
    if row.last() == NEWLINE {
        lemma_close_row(older, row);
    } else {
        assert(no_newline(row)) by {
            assert forall|i: int| 0 <= i < row.len() implies row[i] != NEWLINE by {
                if i < row.len() - 1 {
                    assert(row.drop_last()[i] == row[i]);
                }
            }
        }
        lemma_extend_open_row(older, row);
    }
    assert(head =~= closed_rows(older).push(open_row(older) + row));
    let first = head.len() as int;
    assert(rows =~= head + known_rows(seen));
    assert(rows.skip(first) =~= known_rows(seen));
    assert(rows.take(first) =~= head);
    lemma_rows_join(older + row);
    lemma_rows_join(older);
    assert(rows.take(first - 1) =~= closed_rows(older));
    assert forall|j: int| 0 <= j <= rows.len() implies (#[trigger] rows.take(j).flatten().len()
        > older.len() <==> j >= first) by {
        if j >= first {
            lemma_starts_ascend(rows, first, j);
        } else {
            lemma_starts_ascend(rows, j, first - 1);
        }
    }
}

/// Whether the bytes of a file from `read_start` on settle the batch that ends with
/// its newest row: no row that starts at or before `read_start` has a place in it.
pub open spec fn is_settled(rows: Seq<Seq<u8>>, read_start: int, end_offset: int) -> bool {
    exists|j: int|
        {
            &&& 0 <= j < rows.len()
            &&& #[trigger] rows.take(j).flatten().len() > read_start
            &&& {
                ||| rows.last().len() > 65536
                ||| rows.len() - j > 128
                ||| rows.skip(j).flatten().len() > 65536
                ||| rows.len() - j > end_offset
            }
        }
}

/// Reading back stops exactly when the batch is settled.
pub proof fn law_reading_back_stops_when_settled(
    rows: Seq<Seq<u8>>,
    older: Seq<u8>,
    seen: Seq<u8>,
    end_offset: int,
)
    requires
        is_file(rows, older + seen),
        end_offset >= 0,
    ensures
        stops(known_rows(seen), end_offset) <==> is_settled(rows, older.len() as int, end_offset),
{
    if seen.len() == 0 {
        lemma_rows_join(seen);
        if split_rows(seen).len() > 0 {
            lemma_rows_are_rows(seen);
            assert(is_row(split_rows(seen)[0]));
            split_rows(seen).lemma_flatten_and_flatten_alt_are_equivalent();
            split_rows(seen).lemma_flatten_length_ge_single_element_length(0);
        }
        assert(older + seen =~= older);
        assert forall|j: int| 0 <= j < rows.len() implies #[trigger] rows.take(j).flatten().len()
            <= older.len() by {
            lemma_starts_ascend(rows, j, rows.len() as int);
            assert(rows.take(rows.len() as int) =~= rows);
        }
    } else {
        lemma_known_rows_start_within(rows, older, seen);
        let known = known_rows(seen);
        let first = rows.len() - known.len();
        if stops(known, end_offset) {
            assert(known.last() == rows.last());
            assert(rows.take(first).flatten().len() > older.len());
        }
        if is_settled(rows, older.len() as int, end_offset) {
            let j = choose|j: int|
                {
                    &&& 0 <= j < rows.len()
                    &&& #[trigger] rows.take(j).flatten().len() > older.len()
                    &&& {
                        ||| rows.last().len() > 65536
                        ||| rows.len() - j > 128
                        ||| rows.skip(j).flatten().len() > 65536
                        ||| rows.len() - j > end_offset
                    }
                };
            assert(j >= first);
            lemma_skip_byte_count(rows, first, j);
            assert(known.last() == rows.last());
        }
    }
}

/// What a backward scan that needs no more bytes has found is the batch, whatever
/// comes before the bytes that it has read.
pub proof fn law_backward_scan_finds_the_batch(
    scan: BackwardScan,
    rows: Seq<Seq<u8>>,
    older: Seq<u8>,
)
    requires
        is_file(rows, older + scan.seen()),
        older.len() + scan.seen().len() == scan.end_position(),
        scan.end_offset() >= 0,
    ensures
        scan.done() <==> older.len() == 0 || is_settled(
            rows,
            older.len() as int,
            scan.end_offset(),
        ),
        scan.done() ==> is_batch_of(
            scan.found(),
            rows,
            scan.end_offset(),
            scan.end_position(),
        ),
{
    let seen = scan.seen();
    let end_offset = scan.end_offset();
    let end_position = scan.end_position();
    law_reading_back_stops_when_settled(rows, older, seen, end_offset);
    law_rows_are_lines(rows, older + seen);
    law_page(rows, end_offset, end_position);
    if older.len() == 0 {
        assert(older + seen =~= seen);
    } else if scan.done() {
        if seen.len() == 0 {
            lemma_rows_join(seen);
            assert(older + seen =~= older);
        } else {
            lemma_known_rows_start_within(rows, older, seen);
            let first = rows.len() - known_rows(seen).len();
            assert(rows.take(first) + known_rows(seen) =~= rows);
            lemma_stop_is_final(
                rows.take(first),
                known_rows(seen),
                end_offset,
                end_position,
            );
        }
    }
}

} // verus!
