//! How a history file divides into rows.
//!
//! A history file is a sequence of rows. Every row ends with a newline, except
//! that the newest row may still lack one.

use vstd::prelude::*;

verus! {

/// The byte that ends a row.
pub const NEWLINE: u8 = 0x0a;

/// The rows of `bytes` that have their newline, oldest first. A row holds its
/// newline.
pub open spec fn closed_rows(bytes: Seq<u8>) -> Seq<Seq<u8>>
    decreases bytes.len(),
{
    if bytes.len() == 0 {
        Seq::empty()
    } else if bytes.last() == NEWLINE {
        closed_rows(bytes.drop_last()).push(open_row(bytes.drop_last()).push(NEWLINE))
    } else {
        closed_rows(bytes.drop_last())
    }
}

/// What follows the last newline of `bytes`.
pub open spec fn open_row(bytes: Seq<u8>) -> Seq<u8>
    decreases bytes.len(),
{
    if bytes.len() == 0 || bytes.last() == NEWLINE {
        Seq::empty()
    } else {
        open_row(bytes.drop_last()).push(bytes.last())
    }
}

/// All rows of `bytes`, oldest first. Bytes after the last newline are the last
/// row.
pub open spec fn split_rows(bytes: Seq<u8>) -> Seq<Seq<u8>> {
    if open_row(bytes).len() == 0 {
        closed_rows(bytes)
    } else {
        closed_rows(bytes).push(open_row(bytes))
    }
}

/// How many bytes `rows` take in the file.
pub open spec fn byte_count(rows: Seq<Seq<u8>>) -> nat {
    rows.flatten().len()
}

/// Whether `bytes` can stand between two rows' boundaries as one row: it is not
/// empty, and a newline can only be its last byte.
pub open spec fn is_row(bytes: Seq<u8>) -> bool {
    &&& bytes.len() > 0
    &&& no_newline(bytes.drop_last())
}

/// Whether no byte of `bytes` is a newline.
pub open spec fn no_newline(bytes: Seq<u8>) -> bool {
    forall|i: int| 0 <= i < bytes.len() ==> bytes[i] != NEWLINE
}

/// Whether a row can start right after `bytes`.
pub open spec fn at_row_start(bytes: Seq<u8>) -> bool {
    bytes.len() == 0 || bytes.last() == NEWLINE
}

/// Bytes without a newline go to the open row.
pub proof fn lemma_extend_open_row(bytes: Seq<u8>, more: Seq<u8>)
    requires
        no_newline(more),
    ensures
        closed_rows(bytes + more) == closed_rows(bytes),
        open_row(bytes + more) == open_row(bytes) + more,
    decreases more.len(),
{
    if more.len() == 0 {
        assert(bytes + more =~= bytes);
        assert(open_row(bytes) + more =~= open_row(bytes));
    } else {
        let whole = bytes + more;
        assert(whole.drop_last() =~= bytes + more.drop_last());
        assert(no_newline(more.drop_last()));
        lemma_extend_open_row(bytes, more.drop_last());
        assert(whole.last() == more.last());
        assert(open_row(bytes) + more =~= (open_row(bytes) + more.drop_last()).push(more.last()));
    }
}

/// Bytes up to a newline close the open row.
pub proof fn lemma_close_row(bytes: Seq<u8>, more: Seq<u8>)
    requires
        is_row(more),
        more.last() == NEWLINE,
    ensures
        closed_rows(bytes + more) == closed_rows(bytes).push(open_row(bytes) + more),
        open_row(bytes + more) == Seq::<u8>::empty(),
{
    let whole = bytes + more;
    assert(whole.drop_last() =~= bytes + more.drop_last());
    lemma_extend_open_row(bytes, more.drop_last());
    assert(whole.last() == NEWLINE);
    assert((open_row(bytes) + more.drop_last()).push(NEWLINE) =~= open_row(bytes) + more);
}

/// Later bytes leave the closed rows as they are.
pub proof fn lemma_closed_rows_stay(bytes: Seq<u8>, more: Seq<u8>)
    ensures
        closed_rows(bytes).len() <= closed_rows(bytes + more).len(),
        closed_rows(bytes + more).take(closed_rows(bytes).len() as int) == closed_rows(bytes),
    decreases more.len(),
{
    if more.len() == 0 {
        assert(bytes + more =~= bytes);
    } else {
        let whole = bytes + more;
        assert(whole.drop_last() =~= bytes + more.drop_last());
        lemma_closed_rows_stay(bytes, more.drop_last());
        assert(closed_rows(whole).take(closed_rows(bytes).len() as int) =~= closed_rows(
            whole.drop_last(),
        ).take(closed_rows(bytes).len() as int));
    }
}

/// At the start of a row, the bytes before and the bytes after divide into rows
/// on their own.
pub proof fn lemma_split_at_row_start(older: Seq<u8>, newer: Seq<u8>)
    requires
        at_row_start(older),
    ensures
        closed_rows(older + newer) == closed_rows(older) + closed_rows(newer),
        open_row(older + newer) == open_row(newer),
        split_rows(older + newer) == split_rows(older) + split_rows(newer),
    decreases newer.len(),
{
    let whole = older + newer;
    if newer.len() == 0 {
        assert(whole =~= older);
        assert(closed_rows(older) + closed_rows(newer) =~= closed_rows(older));
    } else {
        assert(whole.drop_last() =~= older + newer.drop_last());
        lemma_split_at_row_start(older, newer.drop_last());
        assert(whole.last() == newer.last());
        if newer.last() == NEWLINE {
            assert(closed_rows(older) + closed_rows(newer) =~= (closed_rows(older) + closed_rows(
                newer.drop_last(),
            )).push(open_row(newer.drop_last()).push(NEWLINE)));
        }
    }
    assert(open_row(older).len() == 0);
    assert(split_rows(older + newer) =~= split_rows(older) + split_rows(newer));
}

/// A row on its own is its only row.
pub proof fn lemma_split_single_row(row: Seq<u8>)
    requires
        is_row(row),
    ensures
        split_rows(row) == seq![row],
{
    let init = row.drop_last();
    let none = Seq::<u8>::empty();
    assert(none + init =~= init);
    lemma_extend_open_row(none, init);
    assert(none + init =~= open_row(init));
    assert(init.push(row.last()) =~= row);
    assert(split_rows(row) =~= seq![row]);
}

/// Strung together, the rows give the bytes back.
pub proof fn lemma_rows_join(bytes: Seq<u8>)
    ensures
        closed_rows(bytes).flatten() + open_row(bytes) == bytes,
        split_rows(bytes).flatten() == bytes,
        byte_count(closed_rows(bytes)) + open_row(bytes).len() == bytes.len(),
        byte_count(split_rows(bytes)) == bytes.len(),
    decreases bytes.len(),
{
    broadcast use Seq::lemma_flatten_push;

    if bytes.len() == 0 {
        assert(closed_rows(bytes).flatten() + open_row(bytes) =~= bytes);
    } else {
        let init = bytes.drop_last();
        lemma_rows_join(init);
        assert(init.push(bytes.last()) =~= bytes);
        assert(closed_rows(bytes).flatten() + open_row(bytes) =~= bytes);
    }
    if open_row(bytes).len() == 0 {
        assert(closed_rows(bytes).flatten() + open_row(bytes) =~= closed_rows(bytes).flatten());
    }
}

/// Every row is a row, and every row but the last one ends with a newline.
pub proof fn lemma_rows_are_rows(bytes: Seq<u8>)
    ensures
        forall|i: int|
            0 <= i < split_rows(bytes).len() ==> is_row(#[trigger] split_rows(bytes)[i]),
        forall|i: int|
            0 <= i < closed_rows(bytes).len() ==> is_row(#[trigger] closed_rows(bytes)[i])
                && closed_rows(bytes)[i].last() == NEWLINE,
        no_newline(open_row(bytes)),
    decreases bytes.len(),
{
    if bytes.len() > 0 {
        let init = bytes.drop_last();
        lemma_rows_are_rows(init);
        if bytes.last() == NEWLINE {
            let row = open_row(init).push(NEWLINE);
            assert(row.drop_last() =~= open_row(init));
            assert(is_row(row));
        }
        assert forall|i: int| 0 <= i < closed_rows(bytes).len() implies is_row(
            #[trigger] closed_rows(bytes)[i],
        ) && closed_rows(bytes)[i].last() == NEWLINE by {
            if i < closed_rows(init).len() {
                assert(closed_rows(bytes)[i] == closed_rows(init)[i]);
            }
        }
    }
    assert forall|i: int| 0 <= i < split_rows(bytes).len() implies is_row(
        #[trigger] split_rows(bytes)[i],
    ) by {
        if i < closed_rows(bytes).len() {
            assert(split_rows(bytes)[i] == closed_rows(bytes)[i]);
        }
    }
}

/// Whether `rows` can be the rows of a file: each one is a row, and each one but
/// the newest has its newline.
pub open spec fn are_rows(rows: Seq<Seq<u8>>) -> bool {
    &&& forall|i: int| 0 <= i < rows.len() ==> is_row(#[trigger] rows[i])
    &&& forall|i: int| 0 <= i < rows.len() - 1 ==> (#[trigger] rows[i]).last() == NEWLINE
}

/// A file is its rows and nothing else: they are rows, and strung together they
/// give the file back.
pub proof fn law_rows_give_file_back(bytes: Seq<u8>)
    ensures
        are_rows(split_rows(bytes)),
        split_rows(bytes).flatten() == bytes,
{
    lemma_rows_join(bytes);
    lemma_rows_are_rows(bytes);
    assert forall|i: int| 0 <= i < split_rows(bytes).len() - 1 implies (
    #[trigger] split_rows(bytes)[i]).last() == NEWLINE by {
        assert(split_rows(bytes)[i] == closed_rows(bytes)[i]);
    }
}

/// Rows that are written one after the other are read back as they were written.
pub proof fn law_written_rows_are_read_back(rows: Seq<Seq<u8>>)
    requires
        are_rows(rows),
    ensures
        split_rows(rows.flatten()) == rows,
    decreases rows.len(),
{
    if rows.len() == 0 {
        assert(split_rows(rows.flatten()) =~= rows);
    } else {
        let older = rows.drop_last();
        law_written_rows_are_read_back(older);
        older.lemma_flatten_push(rows.last());
        assert(older.push(rows.last()) =~= rows);
        if older.len() > 0 {
            older.drop_last().lemma_flatten_push(older.last());
            assert(older.drop_last().push(older.last()) =~= older);
            assert(rows[older.len() - 1].last() == NEWLINE);
            assert(older.flatten().last() == older.last().last());
        }
        assert(at_row_start(older.flatten()));
        lemma_split_at_row_start(older.flatten(), rows.last());
        lemma_split_single_row(rows.last());
        assert(older + seq![rows.last()] =~= rows);
    }
}

/// Rows are read back from the file that they make up: no row is empty, a newline
/// ends a row, and only the newest row may lack it. Every file is made up of rows in
/// this way.
pub proof fn law_rows_are_lines(rows: Seq<Seq<u8>>, bytes: Seq<u8>)
    ensures
        (split_rows(bytes) == rows) <==> {
            &&& rows.flatten() == bytes
            &&& forall|i: int| 0 <= i < rows.len() ==> (#[trigger] rows[i]).len() > 0
            &&& forall|i: int, j: int|
                0 <= i < rows.len() && 0 <= j < rows[i].len() - 1 ==> #[trigger] rows[i][j] != 0x0au8
            &&& forall|i: int| 0 <= i < rows.len() - 1 ==> (#[trigger] rows[i]).last() == 0x0au8
        },
{
    law_rows_give_file_back(bytes);
    if split_rows(bytes) == rows {
        assert forall|i: int, j: int|
            0 <= i < rows.len() && 0 <= j < rows[i].len() - 1 implies #[trigger] rows[i][j]
            != 0x0au8 by {
            assert(is_row(rows[i]));
            assert(rows[i].drop_last()[j] == rows[i][j]);
        }
    } else if rows.flatten() == bytes && (forall|i: int|
        0 <= i < rows.len() ==> (#[trigger] rows[i]).len() > 0) && (forall|i: int, j: int|
        0 <= i < rows.len() && 0 <= j < rows[i].len() - 1 ==> #[trigger] rows[i][j] != 0x0au8) && (
    forall|i: int| 0 <= i < rows.len() - 1 ==> (#[trigger] rows[i]).last() == 0x0au8) {
        assert forall|i: int| 0 <= i < rows.len() implies is_row(#[trigger] rows[i]) by {
            let init = rows[i].drop_last();
            assert forall|j: int| 0 <= j < init.len() implies init[j] != NEWLINE by {
                assert(rows[i][j] == init[j]);
            }
        }
        law_written_rows_are_read_back(rows);
    }
}

/// As many rows are closed as there are newlines.
pub proof fn law_closed_rows_count_newlines(bytes: Seq<u8>)
    ensures
        closed_rows(bytes).len() == bytes.filter(|byte: u8| byte == 0x0au8).len(),
    decreases bytes.len(),
{
    reveal(Seq::filter);
    if bytes.len() > 0 {
        law_closed_rows_count_newlines(bytes.drop_last());
    }
}

/// Rows take the bytes that they are made of.
pub proof fn law_byte_count_is_length(rows: Seq<Seq<u8>>)
    ensures
        byte_count(rows) == rows.flatten().len(),
{
}

} // verus!
