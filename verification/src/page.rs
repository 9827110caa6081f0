//! Which rows a batch holds, with their places in the file.

use vstd::prelude::*;

use crate::batch::RawRow;
use crate::rows::{byte_count, split_rows};
use crate::window::window_start;

verus! {

/// How many of `rows`, counted from the newest one, a batch holds whose newest
/// row has offset `newest_offset`.
pub open spec fn page_len(rows: Seq<Seq<u8>>, newest_offset: int) -> int {
    let fitting = rows.len() - window_start(rows);
    if fitting <= newest_offset + 1 {
        fitting
    } else {
        newest_offset + 1
    }
}

/// The batch that ends with the newest of `rows`, newest first, where that row has
/// offset `newest_offset` and ends at `end_position` in the file.
pub open spec fn page(rows: Seq<Seq<u8>>, newest_offset: int, end_position: int) -> Seq<RawRow> {
    Seq::new(
        page_len(rows, newest_offset) as nat,
        |k: int|
            RawRow {
                offset: newest_offset - k,
                byte_position: end_position - byte_count(rows.skip(rows.len() - 1 - k)),
                bytes: rows[rows.len() - 1 - k],
            },
    )
}

/// The rows of `contents` up to offset `end_offset`, oldest first.
pub open spec fn rows_through(contents: Seq<u8>, end_offset: int) -> Seq<Seq<u8>> {
    let rows = split_rows(contents);
    if rows.len() <= end_offset + 1 {
        rows
    } else {
        rows.take(end_offset + 1)
    }
}

/// The batch that ends at offset `end_offset`, or at the newest row where there is
/// no such offset.
pub open spec fn page_through(contents: Seq<u8>, end_offset: int) -> Seq<RawRow> {
    let rows = rows_through(contents, end_offset);
    page(rows, rows.len() - 1, byte_count(rows) as int)
}

} // verus!
