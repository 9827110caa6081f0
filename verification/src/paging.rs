//! The batches that callers get, one after the other.

use vstd::prelude::*;

use crate::agreement::after_events;
use crate::batch::{
    is_batch, law_batch_says_where_to_go_on, lemma_payload_and_ending, parses_to, row_payload,
    HistoryBatch, RawRow,
};
use crate::cursor::lemma_is_cursor;
use crate::lookup::{is_returned_for, LookupEvent, LookupRequest};
use crate::meaning::{is_batch_of, is_batch_size, is_file, newest_bytes};
use crate::runs::{
    continues, law_continuing_finds_the_batch, law_counting_finds_the_batch, performs,
};
use crate::window::lemma_skip_byte_count;

verus! {

/// Whether `entry` is what `parse` can give for the record in `row`, which is the row
/// without one newline and without one carriage return before it.
pub open spec fn is_row_parsed<E, F: Fn(&[u8]) -> Option<E>>(
    parse: F,
    row: Seq<u8>,
    entry: Option<E>,
) -> bool {
    exists|record: &[u8]|
        {
            &&& #[trigger] call_ensures(parse, (record,), entry)
            &&& {
                ||| row == record@ + seq![0x0du8, 0x0au8]
                ||| row == record@.push(0x0du8)
                ||| row == record@.push(0x0au8) && !(record@.len() > 0 && record@.last() == 0x0du8)
                ||| row == record@ && !(record@.len() > 0 && (record@.last() == 0x0du8
                    || record@.last() == 0x0au8))
            }
        }
}

/// Whether `batch` is the batch that ends with the newest of `rows`, which has offset
/// `newest_offset` and ends at `end_position` in a file of length `file_len`.
pub open spec fn is_returned<E, F: Fn(&[u8]) -> Option<E>>(
    batch: HistoryBatch<E>,
    rows: Seq<Seq<u8>>,
    newest_offset: int,
    end_position: int,
    file_len: int,
    parse: F,
) -> bool {
    let count = batch.entries@.len() as int;
    &&& is_batch_size(rows, count, newest_offset + 1)
    &&& forall|k: int|
        #![trigger batch.entries@[k]]
        0 <= k < count ==> {
            &&& batch.entries@[k].offset == newest_offset - k
            &&& is_row_parsed(parse, rows[rows.len() - 1 - k], batch.entries@[k].entry)
        }
    &&& batch.next_older_cursor is None <==> count == 0 || batch.entries@.last().offset == 0
    &&& batch.next_older_cursor matches Some(next) ==> {
        &&& next@.end_offset == batch.entries@.last().offset - 1
        &&& next@.byte_position == Some(end_position - newest_bytes(rows, count))
        &&& next@.observed_file_len == Some(file_len)
    }
}

/// The record in a row is handed to the parser whole.
pub proof fn law_whole_record_is_parsed<E, F: Fn(&[u8]) -> Option<E>>(
    parse: F,
    row: Seq<u8>,
    entry: Option<E>,
)
    requires
        parses_to(parse, row_payload(row), entry),
    ensures
        is_row_parsed(parse, row, entry),
{
    let record = choose|bytes: &[u8]|
        bytes@ == row_payload(row) && #[trigger] call_ensures(parse, (bytes,), entry);
    assert(call_ensures(parse, (record,), entry));
    lemma_payload_and_ending(row);
}

/// What is returned for the rows of a batch.
proof fn lemma_is_returned<E, F: Fn(&[u8]) -> Option<E>>(
    batch: HistoryBatch<E>,
    found: Seq<RawRow>,
    rows: Seq<Seq<u8>>,
    newest_offset: int,
    end_position: int,
    file_len: int,
    parse: F,
)
    requires
        is_batch(batch, found, file_len, parse),
        is_batch_of(found, rows, newest_offset, end_position),
    ensures
        is_returned(batch, rows, newest_offset, end_position, file_len, parse),
{
    law_batch_says_where_to_go_on(batch, found, file_len, parse);
    assert forall|k: int| 0 <= k < batch.entries@.len() implies {
        &&& (#[trigger] batch.entries@[k]).offset == newest_offset - k
        &&& is_row_parsed(parse, rows[rows.len() - 1 - k], batch.entries@[k].entry)
    } by {
        assert(found[k].bytes == rows[rows.len() - 1 - k]);
        law_whole_record_is_parsed(parse, found[k].bytes, batch.entries@[k].entry);
    }
    if found.len() > 0 {
        assert(found.last() == found[found.len() - 1]);
    }
}

/// The batch that comes of counting rows from the start of a file.
pub proof fn law_counted_batch<E, F: Fn(&[u8]) -> Option<E>>(
    request: LookupRequest,
    events: Seq<LookupEvent>,
    identity: Option<u64>,
    contents: Seq<u8>,
    rows: Seq<Seq<u8>>,
    batch: HistoryBatch<E>,
    parse: F,
)
    requires
        performs(request, events, identity, contents),
        request.read_buffer_size > 0,
        contents.len() <= u64::MAX,
        is_file(rows, contents),
        !continues(request.cursor@, contents.len() as int),
        after_events(request, events) is Found,
        is_returned_for(batch, request, after_events(request, events), parse),
    ensures
        ({
            let end_offset = request.cursor@.end_offset;
            let count = if end_offset < rows.len() {
                end_offset + 1
            } else {
                rows.len() as int
            };
            is_returned(
                batch,
                rows.take(count),
                count - 1,
                rows.take(count).flatten().len() as int,
                contents.len() as int,
                parse,
            )
        }),
{
    law_counting_finds_the_batch(request, events, identity, contents, rows);
    let end_offset = request.cursor@.end_offset;
    let count = if end_offset < rows.len() {
        end_offset + 1
    } else {
        rows.len() as int
    };
    let through = rows.take(count);
    let found = after_events(request, events)->Found_rows;
    lemma_is_returned(
        batch,
        found,
        through,
        count - 1,
        through.flatten().len() as int,
        contents.len() as int,
        parse,
    );
}

/// The batch that comes of continuing at a byte position.
pub proof fn law_continued_batch<E, F: Fn(&[u8]) -> Option<E>>(
    request: LookupRequest,
    events: Seq<LookupEvent>,
    identity: Option<u64>,
    contents: Seq<u8>,
    older: Seq<Seq<u8>>,
    batch: HistoryBatch<E>,
    parse: F,
)
    requires
        performs(request, events, identity, contents),
        request.read_buffer_size > 0,
        contents.len() <= u64::MAX,
        continues(request.cursor@, contents.len() as int),
        is_file(older, contents.take(request.cursor@.byte_position->0)),
        after_events(request, events) is Found,
        is_returned_for(batch, request, after_events(request, events), parse),
    ensures
        is_returned(
            batch,
            older,
            request.cursor@.end_offset,
            request.cursor@.byte_position->0,
            contents.len() as int,
            parse,
        ),
{
    law_continuing_finds_the_batch(request, events, identity, contents, older);
    let found = after_events(request, events)->Found_rows;
    lemma_is_returned(
        batch,
        found,
        older,
        request.cursor@.end_offset,
        request.cursor@.byte_position->0,
        contents.len() as int,
        parse,
    );
}

/// The oldest rows of a file make up its start.
proof fn lemma_oldest_rows(rows: Seq<Seq<u8>>, contents: Seq<u8>, count: int)
    requires
        is_file(rows, contents),
        0 <= count <= rows.len(),
    ensures
        rows.take(count).flatten().len() <= contents.len(),
        is_file(rows.take(count), contents.take(rows.take(count).flatten().len() as int)),
{
    let older = rows.take(count);
    assert(older + rows.skip(count) =~= rows);
    vstd::seq_lib::lemma_flatten_concat(older, rows.skip(count));
    assert(contents.take(older.flatten().len() as int) =~= older.flatten());
    assert forall|i: int, j: int|
        0 <= i < older.len() && 0 <= j < older[i].len() - 1 implies #[trigger] older[i][j]
        != 0x0au8 by {
        assert(rows[i][j] == older[i][j]);
    }
}

/// Whether `batch` is returned by a lookup that found its rows.
pub open spec fn is_looked_up<E, F: Fn(&[u8]) -> Option<E>>(
    request: LookupRequest,
    run: Seq<LookupEvent>,
    batch: HistoryBatch<E>,
    identity: Option<u64>,
    contents: Seq<u8>,
    parse: F,
) -> bool {
    &&& request.read_buffer_size > 0
    &&& performs(request, run, identity, contents)
    &&& after_events(request, run) is Found
    &&& is_returned_for(batch, request, after_events(request, run), parse)
}

/// Whether `batches` are returned by lookups of which each but the first continues
/// where the batch before it said.
pub open spec fn is_paging<E, F: Fn(&[u8]) -> Option<E>>(
    requests: Seq<LookupRequest>,
    runs: Seq<Seq<LookupEvent>>,
    batches: Seq<HistoryBatch<E>>,
    identity: Option<u64>,
    contents: Seq<u8>,
    parse: F,
) -> bool {
    &&& requests.len() == batches.len()
    &&& runs.len() == batches.len()
    &&& forall|i: int|
        0 <= i < batches.len() ==> #[trigger] is_looked_up(
            requests[i],
            runs[i],
            batches[i],
            identity,
            contents,
            parse,
        )
    &&& forall|i: int, j: int|
        #![trigger batches[i], requests[j]]
        0 <= i < j < batches.len() && j == i + 1 ==> batches[i].next_older_cursor == Some(
            requests[j].cursor,
        )
}

/// The offsets in `batches`, in the order in which they are returned.
pub open spec fn offsets<E>(batches: Seq<HistoryBatch<E>>) -> Seq<int>
    decreases batches.len(),
{
    if batches.len() == 0 {
        Seq::empty()
    } else {
        let last = batches.last().entries@;
        offsets(batches.drop_last()) + Seq::new(last.len(), |k: int| last[k].offset as int)
    }
}

/// Whether `batches` visit the offsets below `count`, from the newest one down, each
/// one once and none left out: the last batch has no successor exactly where offset
/// zero has been visited, and otherwise continues right before what it holds. Each
/// entry of the last batch is the record of the row at its offset.
pub open spec fn visits_down<E, F: Fn(&[u8]) -> Option<E>>(
    batches: Seq<HistoryBatch<E>>,
    rows: Seq<Seq<u8>>,
    count: int,
    file_len: int,
    parse: F,
) -> bool {
    let visited = offsets(batches);
    let entries = batches.last().entries@;
    let next = batches.last().next_older_cursor;
    &&& visited.len() <= count
    &&& forall|k: int| 0 <= k < visited.len() ==> #[trigger] visited[k] == count - 1 - k
    &&& next is None <==> visited.len() == count
    &&& next matches Some(next) ==> {
        &&& next@.end_offset == count - 1 - visited.len()
        &&& next@.byte_position == Some(rows.take(count - visited.len()).flatten().len() as int)
        &&& next@.observed_file_len == Some(file_len)
    }
    &&& count > 0 ==> entries.len() > 0
    &&& forall|k: int|
        #![trigger entries[k]]
        0 <= k < entries.len() ==> is_row_parsed(
            parse,
            rows[entries[k].offset as int],
            entries[k].entry,
        )
}

/// One more batch visits the offsets that come next.
proof fn lemma_visits_on<E, F: Fn(&[u8]) -> Option<E>>(
    batches: Seq<HistoryBatch<E>>,
    rows: Seq<Seq<u8>>,
    count: int,
    file_len: int,
    parse: F,
)
    requires
        batches.len() > 0,
        0 <= count <= rows.len(),
        ({
            let before = offsets(batches.drop_last());
            let left = count - before.len();
            &&& before.len() <= count
            &&& count > 0 ==> left > 0
            &&& forall|k: int| 0 <= k < before.len() ==> #[trigger] before[k] == count - 1 - k
            &&& is_returned(
                batches.last(),
                rows.take(left),
                left - 1,
                rows.take(left).flatten().len() as int,
                file_len,
                parse,
            )
        }),
    ensures
        visits_down(batches, rows, count, file_len, parse),
{
    let before = offsets(batches.drop_last());
    let left = count - before.len();
    let through = rows.take(left);
    let entries = batches.last().entries@;
    let visited = offsets(batches);
    assert(visited.len() == before.len() + entries.len());
    assert forall|k: int| 0 <= k < visited.len() implies #[trigger] visited[k] == count - 1 - k by {
        if k >= before.len() {
            assert(visited[k] == entries[k - before.len()].offset);
        } else {
            assert(visited[k] == before[k]);
        }
    }
    if entries.len() > 0 {
        assert(entries.last() == entries[entries.len() - 1]);
        let rest = left - entries.len();
        lemma_skip_byte_count(through, 0, rest);
        assert(through.skip(0) =~= through);
        assert(through.subrange(0, rest) =~= rows.take(rest));
        assert(count - visited.len() == rest);
    }
    assert forall|k: int|
        #![trigger entries[k]]
        0 <= k < entries.len() implies is_row_parsed(
        parse,
        rows[entries[k].offset as int],
        entries[k].entry,
    ) by {
        assert(entries[k].offset == left - 1 - k);
        assert(through[through.len() - 1 - k] == rows[left - 1 - k]);
    }
}

/// All batches but the last are batches of the same kind.
proof fn lemma_paging_before<E, F: Fn(&[u8]) -> Option<E>>(
    requests: Seq<LookupRequest>,
    runs: Seq<Seq<LookupEvent>>,
    batches: Seq<HistoryBatch<E>>,
    identity: Option<u64>,
    contents: Seq<u8>,
    parse: F,
)
    requires
        is_paging(requests, runs, batches, identity, contents, parse),
        batches.len() > 0,
    ensures
        is_paging(
            requests.drop_last(),
            runs.drop_last(),
            batches.drop_last(),
            identity,
            contents,
            parse,
        ),
{
    let older = batches.drop_last();
    assert forall|i: int| 0 <= i < older.len() implies #[trigger] is_looked_up(
        requests.drop_last()[i],
        runs.drop_last()[i],
        older[i],
        identity,
        contents,
        parse,
    ) by {
        assert(is_looked_up(requests[i], runs[i], batches[i], identity, contents, parse));
    }
    assert forall|i: int, j: int|
        #![trigger older[i], requests.drop_last()[j]]
        0 <= i < j < older.len() && j == i + 1 implies older[i].next_older_cursor == Some(
        requests.drop_last()[j].cursor,
    ) by {
        assert(batches[i].next_older_cursor == Some(requests[j].cursor));
    }
}

/// Following the returned cursors visits the offsets from the newest one asked for
/// down, each one once and none left out, and each with its own record. Where a
/// batch has no successor, offset zero has been visited.
pub proof fn law_returned_cursors_visit_every_offset_once<E, F: Fn(&[u8]) -> Option<E>>(
    requests: Seq<LookupRequest>,
    runs: Seq<Seq<LookupEvent>>,
    batches: Seq<HistoryBatch<E>>,
    identity: Option<u64>,
    contents: Seq<u8>,
    rows: Seq<Seq<u8>>,
    parse: F,
)
    requires
        is_paging(requests, runs, batches, identity, contents, parse),
        batches.len() > 0,
        requests[0].cursor@.byte_position is None,
        contents.len() <= u64::MAX,
        is_file(rows, contents),
    ensures
        ({
            let newest = requests[0].cursor@.end_offset;
            let count = if newest < rows.len() {
                newest + 1
            } else {
                rows.len() as int
            };
            visits_down(batches, rows, count, contents.len() as int, parse)
        }),
    decreases batches.len(),
{
    let last = batches.len() - 1;
    let batch = batches[last];
    let request = requests[last];
    lemma_is_cursor(requests[0].cursor);
    assert(is_looked_up(request, runs[last], batch, identity, contents, parse));
    let newest = requests[0].cursor@.end_offset;
    let count = if newest < rows.len() {
        newest + 1
    } else {
        rows.len() as int
    };
    let older = batches.drop_last();
    let left = count - offsets(older).len();
    let through = rows.take(left);
    if last == 0 {
        assert(offsets(older).len() == 0);
        law_counted_batch(request, runs[0], identity, contents, rows, batch, parse);
    } else {
        lemma_paging_before(requests, runs, batches, identity, contents, parse);
        assert(requests.drop_last()[0] == requests[0]);
        law_returned_cursors_visit_every_offset_once(
            requests.drop_last(),
            runs.drop_last(),
            older,
            identity,
            contents,
            rows,
            parse,
        );
        assert(older.last() == batches[last - 1]);
        assert(batches[last - 1].next_older_cursor == Some(request.cursor));
        lemma_is_cursor(request.cursor);
        lemma_oldest_rows(rows, contents, left);
        law_continued_batch(request, runs[last], identity, contents, through, batch, parse);
    }
    lemma_visits_on(batches, rows, count, contents.len() as int, parse);
}

} // verus!
