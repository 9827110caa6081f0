//! Keeping rows within the caps of a batch.

use std::collections::VecDeque;

use vstd::prelude::*;

use crate::rows::byte_count;
use crate::window::{
    lemma_first_fit_is, lemma_single_byte_count, lemma_skip_byte_count, oversized, window_start,
    within_caps, MAX_BATCH_BYTES, MAX_BATCH_ROWS,
};

verus! {

/// One row of the history file, not parsed yet.
#[derive(Debug, PartialEq, Eq)]
pub struct RawHistoryBatchEntry {
    /// Zero-based position among the rows of the file, counted from the oldest row.
    pub offset: usize,
    /// Position in the file of the first byte of the row.
    pub byte_position: u64,
    /// The bytes of the row, with its newline if it has one.
    pub bytes: Vec<u8>,
}

/// The bytes of each of `entries`.
pub open spec fn entry_bytes(entries: Seq<RawHistoryBatchEntry>) -> Seq<Seq<u8>> {
    Seq::new(entries.len(), |i: int| entries[i].bytes@)
}

/// Adds a row that is newer than the rows in `suffix`, and drops the oldest rows
/// so that the rest fit into a batch together. An oversized row displaces all
/// others, whatever `suffix_bytes` says of them.
pub fn retain_row(
    suffix: &mut VecDeque<RawHistoryBatchEntry>,
    suffix_bytes: &mut usize,
    offset: usize,
    byte_position: u64,
    bytes: Vec<u8>,
)
    requires
        !oversized(bytes@) ==> *old(suffix_bytes) == byte_count(entry_bytes(old(suffix)@)),
    ensures
        ({
            let all = old(suffix)@.push(RawHistoryBatchEntry { offset, byte_position, bytes });
            final(suffix)@ == all.skip(window_start(entry_bytes(all)))
        }),
        *final(suffix_bytes) == byte_count(entry_bytes(final(suffix)@)),
        ({
            let all = old(suffix)@.push(RawHistoryBatchEntry { offset, byte_position, bytes });
            let rows = Seq::new(all.len(), |i: int| all[i].bytes@);
            let kept = final(suffix)@.len();
            let total = all.len();
            &&& 0 < kept <= total
            &&& final(suffix)@ == all.skip(total - kept)
            &&& *final(suffix_bytes) == rows.skip(total - kept).flatten().len()
            &&& bytes@.len() > 65536 ==> kept == 1
            &&& bytes@.len() <= 65536 ==> {
                &&& kept <= 128
                &&& rows.skip(total - kept).flatten().len() <= 65536
                &&& kept == total || kept == 128 || rows.skip(total - kept - 1).flatten().len()
                    > 65536
            }
        }),
        oversized(bytes@) ==> {
            &&& final(suffix)@ == seq![RawHistoryBatchEntry { offset, byte_position, bytes }]
            &&& *final(suffix_bytes) == bytes@.len()
        },
{
    let row_bytes: usize = bytes.len();
    let ghost before = suffix@;
    let ghost all = before.push(RawHistoryBatchEntry { offset, byte_position, bytes });
    let ghost rows = entry_bytes(all);
    let ghost older = entry_bytes(before);
    proof {
        assert(rows =~= older.push(bytes@));
    }
    if row_bytes > MAX_BATCH_BYTES {
        suffix.clear();
        *suffix_bytes = row_bytes;
        suffix.push_back(RawHistoryBatchEntry { offset, byte_position, bytes });
        proof {
            assert(suffix@ =~= all.skip(all.len() - 1));
            assert(entry_bytes(suffix@) =~= seq![bytes@]);
            lemma_single_byte_count(bytes@);
            assert(rows.skip(all.len() - 1) =~= seq![bytes@]);
            assert(Seq::new(all.len(), |i: int| all[i].bytes@) =~= rows);
        }
        return ;
    }
    let ghost mut dropped: int = 0;
    proof {
        assert(suffix@ =~= before.skip(0));
        assert(older.skip(0) =~= older);
    }
    while suffix.len() >= MAX_BATCH_ROWS || *suffix_bytes > MAX_BATCH_BYTES - row_bytes
        invariant
            row_bytes == bytes@.len(),
            row_bytes <= MAX_BATCH_BYTES,
            older == entry_bytes(before),
            rows == older.push(bytes@),
            0 <= dropped <= before.len(),
            suffix@ == before.skip(dropped),
            *suffix_bytes == byte_count(older.skip(dropped)),
            forall|j: int| 0 <= j < dropped ==> !within_caps(#[trigger] rows.skip(j)),
        decreases suffix@.len(),
    {
        proof {
            if dropped == before.len() {
                assert(older.skip(dropped) =~= Seq::<Seq<u8>>::empty());
            }
            assert(rows.skip(dropped) =~= older.skip(dropped).push(bytes@));
            older.skip(dropped).lemma_flatten_push(bytes@);
            assert(!within_caps(rows.skip(dropped)));
            lemma_skip_byte_count(older, dropped, dropped + 1);
            assert(older.subrange(dropped, dropped + 1) =~= seq![older[dropped]]);
            lemma_single_byte_count(older[dropped]);
        }
        if let Some(removed) = suffix.pop_front() {
            *suffix_bytes = *suffix_bytes - removed.bytes.len();
            proof {
                dropped = dropped + 1;
                assert(suffix@ =~= before.skip(dropped));
            }
        }
    }
    proof {
        assert(rows.skip(dropped) =~= older.skip(dropped).push(bytes@));
        older.skip(dropped).lemma_flatten_push(bytes@);
        lemma_first_fit_is(rows, 0, dropped);
    }
    *suffix_bytes = *suffix_bytes + row_bytes;
    suffix.push_back(RawHistoryBatchEntry { offset, byte_position, bytes });
    proof {
        assert(suffix@ =~= all.skip(dropped));
        assert(entry_bytes(suffix@) =~= rows.skip(dropped));
        assert(Seq::new(all.len(), |i: int| all[i].bytes@) =~= rows);
        if dropped > 0 {
            assert(!within_caps(rows.skip(dropped - 1)));
        }
    }
}

/// Adds a row that is older than the rows in `entries`, if they then still fit
/// into a batch together. An oversized row is only ever the first one.
///
/// Returns whether a still older row may follow.
pub fn retain_newest_row(
    entries: &mut Vec<RawHistoryBatchEntry>,
    entries_bytes: &mut usize,
    entry: RawHistoryBatchEntry,
) -> (more: bool)
    ensures
        if old(entries)@.len() == 0 && oversized(entry.bytes@) {
            &&& !more
            &&& final(entries)@ == seq![entry]
            &&& *final(entries_bytes) == *old(entries_bytes)
        } else if old(entries)@.len() == MAX_BATCH_ROWS || *old(entries_bytes) + entry.bytes@.len()
            > MAX_BATCH_BYTES {
            &&& !more
            &&& final(entries)@ == old(entries)@
            &&& *final(entries_bytes) == *old(entries_bytes)
        } else {
            &&& more
            &&& final(entries)@ == old(entries)@.push(entry)
            &&& *final(entries_bytes) == *old(entries_bytes) + entry.bytes@.len()
        },
        more <==> old(entries)@.len() != 128 && *old(entries_bytes) + entry.bytes@.len() <= 65536
            && !(old(entries)@.len() == 0 && entry.bytes@.len() > 65536),
        more ==> final(entries)@ == old(entries)@.push(entry),
        *final(entries_bytes) == *old(entries_bytes) + if more {
            entry.bytes@.len() as int
        } else {
            0
        },
        !more && old(entries)@.len() == 0 && entry.bytes@.len() > 65536 ==> final(entries)@ == seq![
            entry,
        ],
        !more && !(old(entries)@.len() == 0 && entry.bytes@.len() > 65536) ==> final(entries)@
            == old(entries)@,
{
    let row_bytes: usize = entry.bytes.len();
    if entries.is_empty() && row_bytes > MAX_BATCH_BYTES {
        entries.push(entry);
        return false;
    }
    if entries.len() == MAX_BATCH_ROWS || entries_bytes.saturating_add(row_bytes) > MAX_BATCH_BYTES {
        return false;
    }
    *entries_bytes = *entries_bytes + row_bytes;
    entries.push(entry);
    true
}

} // verus!
