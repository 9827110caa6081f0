//! Which rows a batch holds.
//!
//! A batch ends with a given newest row and reaches back over as many older rows
//! as its two caps allow.

use vstd::prelude::*;

use crate::rows::byte_count;

verus! {

/// The most rows that a batch holds.
pub const MAX_BATCH_ROWS: usize = 128;

/// The most bytes that the rows of a batch take, unless it is a single row.
pub const MAX_BATCH_BYTES: usize = 64 * 1024;

/// Whether `rows` fit into a batch together.
pub open spec fn within_caps(rows: Seq<Seq<u8>>) -> bool {
    &&& rows.len() <= MAX_BATCH_ROWS
    &&& byte_count(rows) <= MAX_BATCH_BYTES
}

/// Whether `row` alone is more than a batch may hold otherwise.
pub open spec fn oversized(row: Seq<u8>) -> bool {
    row.len() > MAX_BATCH_BYTES
}

/// The least index, counted from `from`, after which all of `rows` fit into a
/// batch together.
pub open spec fn first_fit(rows: Seq<Seq<u8>>, from: int) -> int
    decreases rows.len() - from,
{
    if from >= rows.len() || within_caps(rows.skip(from)) {
        from
    } else {
        first_fit(rows, from + 1)
    }
}

/// Where the batch that ends with the newest of `rows` starts: an oversized
/// newest row is alone, and any other one is joined by as many older rows as fit.
pub open spec fn window_start(rows: Seq<Seq<u8>>) -> int {
    if rows.len() > 0 && oversized(rows.last()) {
        rows.len() - 1
    } else {
        first_fit(rows, 0)
    }
}

/// `first_fit` is the index that it is named for.
pub proof fn lemma_first_fit(rows: Seq<Seq<u8>>, from: int)
    requires
        0 <= from <= rows.len(),
    ensures
        from <= first_fit(rows, from) <= rows.len(),
        within_caps(rows.skip(first_fit(rows, from))),
        forall|j: int| from <= j < first_fit(rows, from) ==> !within_caps(#[trigger] rows.skip(j)),
    decreases rows.len() - from,
{
    if from == rows.len() {
        assert(rows.skip(from) =~= Seq::<Seq<u8>>::empty());
    } else if !within_caps(rows.skip(from)) {
        lemma_first_fit(rows, from + 1);
    }
}

/// An index at which the rows fit, with none before it, is `first_fit`.
pub proof fn lemma_first_fit_is(rows: Seq<Seq<u8>>, from: int, at: int)
    requires
        0 <= from <= at <= rows.len(),
        within_caps(rows.skip(at)),
        forall|j: int| from <= j < at ==> !within_caps(#[trigger] rows.skip(j)),
    ensures
        first_fit(rows, from) == at,
    decreases at - from,
{
    if from < at {
        assert(!within_caps(rows.skip(from)));
        lemma_first_fit_is(rows, from + 1, at);
    }
}

/// Fewer rows take fewer bytes.
pub proof fn lemma_skip_byte_count(rows: Seq<Seq<u8>>, from: int, to: int)
    requires
        0 <= from <= to <= rows.len(),
    ensures
        byte_count(rows.skip(to)) <= byte_count(rows.skip(from)),
        byte_count(rows.skip(from)) == byte_count(rows.subrange(from, to)) + byte_count(
            rows.skip(to),
        ),
        within_caps(rows.skip(from)) ==> within_caps(rows.skip(to)),
{
    assert(rows.skip(from) =~= rows.subrange(from, to) + rows.skip(to));
    vstd::seq_lib::lemma_flatten_concat(rows.subrange(from, to), rows.skip(to));
}

/// A single row takes its own bytes.
pub proof fn lemma_single_byte_count(row: Seq<u8>)
    ensures
        byte_count(seq![row]) == row.len(),
{
    seq![row].lemma_flatten_one_element();
}

/// A window lies within the rows, and holds the newest row if there is one.
pub proof fn lemma_window_start(rows: Seq<Seq<u8>>)
    ensures
        0 <= window_start(rows) <= rows.len(),
        rows.len() > 0 ==> window_start(rows) < rows.len(),
{
    lemma_first_fit(rows, 0);
    if rows.len() > 0 && !oversized(rows.last()) {
        let last = rows.len() - 1;
        assert(rows.skip(last) =~= seq![rows.last()]);
        lemma_single_byte_count(rows.last());
        assert(within_caps(rows.skip(last)));
    }
}

} // verus!
