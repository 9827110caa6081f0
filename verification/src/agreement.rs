//! What a lookup finds in a file.
//!
//! While the shared lock is held, the file does not change. A lookup that is told
//! the truth about it finds the batch that it was asked for, whatever sizes the
//! reads come in.

use vstd::prelude::*;

use crate::backward::{known_rows, lemma_known_rows_stay, lemma_stop_is_final, stops};
use crate::cursor::lemma_is_cursor;
use crate::laws::{batch_rows, lemma_rows_through_stay};
use crate::lookup::{
    after_backward_read, answers, asks, finished, is_other_log, next_stage, resume_position, retry,
    LookupAction, LookupError, LookupEvent, LookupRequest, StageView,
};
use crate::rows::{closed_rows, lemma_rows_join, split_rows};

verus! {

/// Whether `event` is true of a file with these contents.
pub open spec fn is_true_of(stage: StageView, event: LookupEvent, contents: Seq<u8>) -> bool {
    match (stage, event) {
        (_, LookupEvent::FileLen(file_len)) => file_len == contents.len(),
        (StageView::Forward { seen, .. }, LookupEvent::Read(bytes)) => {
            &&& seen.len() + bytes@.len() <= contents.len()
            &&& bytes@ == contents.subrange(
                seen.len() as int,
                (seen.len() + bytes@.len()) as int,
            )
            &&& bytes@.len() == 0 ==> seen.len() == contents.len()
        },
        (StageView::Backward { end_position, seen, .. }, LookupEvent::Read(bytes)) => {
            let read_end = end_position - seen.len();
            bytes@ == contents.subrange(read_end - bytes@.len(), read_end)
        },
        _ => true,
    }
}

/// Whether all that a lookup has been told is true of a file with these contents.
pub open spec fn agrees(request: LookupRequest, stage: StageView, contents: Seq<u8>) -> bool {
    let resumed = resume_position(request.cursor@, contents.len() as int);
    match stage {
        StageView::Locking { attempts_left } => 0 < attempts_left,
        StageView::Sleeping { attempts_left } => 0 <= attempts_left,
        StageView::Rewinding { file_len } => file_len == contents.len() && resumed is None,
        StageView::Forward { file_len, seen } => {
            &&& file_len == contents.len()
            &&& resumed is None
            &&& seen.len() <= contents.len()
            &&& seen == contents.take(seen.len() as int)
        },
        StageView::Backward { file_len, end_position, seen } => {
            &&& file_len == contents.len()
            &&& resumed == Some(end_position)
            &&& seen.len() < end_position
            &&& seen == contents.subrange(end_position - seen.len(), end_position)
        },
        StageView::Found { rows, file_len } => {
            &&& file_len == contents.len()
            &&& rows == batch_rows(contents, request.cursor@)
        },
        _ => true,
    }
}

/// A lookup that is told the truth keeps agreeing with the file. So the rows that
/// it finds in the end are the rows of the batch that it was asked for.
pub proof fn law_true_answers_find_the_batch(
    request: LookupRequest,
    stage: StageView,
    event: LookupEvent,
    contents: Seq<u8>,
)
    requires
        agrees(request, stage, contents),
        answers(stage, event),
        is_true_of(stage, event, contents),
    ensures
        agrees(request, next_stage(request, stage, event), contents),
{
    lemma_is_cursor(request.cursor);
    let end_offset = request.cursor@.end_offset;
    match (stage, event) {
        (StageView::Forward { seen, .. }, LookupEvent::Read(bytes)) => {
            let now = seen + bytes@;
            assert(now =~= contents.take(now.len() as int));
            let rest = contents.skip(now.len() as int);
            assert(now + rest =~= contents);
            if bytes@.len() == 0 {
                assert(now =~= contents);
            } else if closed_rows(now).len() > end_offset {
                lemma_rows_through_stay(now, rest, end_offset);
            }
        },
        (StageView::Backward { end_position, seen, .. }, LookupEvent::Read(bytes)) => {
            lemma_backward(request, contents, end_position, bytes@ + seen);
        },
        (StageView::Measuring, LookupEvent::FileLen(_)) => {
            if let Some(end_position) = resume_position(request.cursor@, contents.len() as int) {
                lemma_backward(request, contents, end_position, Seq::empty());
            }
        },
        (StageView::Rewinding { .. }, LookupEvent::Rewound) => {
            assert(Seq::<u8>::empty() =~= contents.take(0));
        },
        _ => {},
    }
}

/// The rows that bytes before a position are enough for are those of the batch.
proof fn lemma_backward(
    request: LookupRequest,
    contents: Seq<u8>,
    end_position: int,
    seen: Seq<u8>,
)
    requires
        resume_position(request.cursor@, contents.len() as int) == Some(end_position),
        seen.len() <= end_position,
        seen =~= contents.subrange(end_position - seen.len(), end_position),
    ensures
        agrees(
            request,
            after_backward_read(
                request.cursor@.end_offset,
                contents.len() as int,
                end_position,
                seen,
            ),
            contents,
        ),
{
    lemma_is_cursor(request.cursor);
    let end_offset = request.cursor@.end_offset;
    let before = contents.take(end_position);
    let more = contents.take(end_position - seen.len());
    assert(more + seen =~= before);
    if seen.len() == end_position {
        assert(seen =~= before);
    } else if stops(known_rows(seen), end_offset) {
        if seen.len() == 0 {
            lemma_rows_join(seen);
        }
        lemma_known_rows_stay(more, seen);
        lemma_stop_is_final(
            split_rows(more + split_rows(seen)[0]),
            known_rows(seen),
            end_offset,
            end_position,
        );
    }
}

/// How far a lookup has come after `events`.
pub open spec fn after_events(request: LookupRequest, events: Seq<LookupEvent>) -> StageView
    decreases events.len(),
{
    if events.len() == 0 {
        StageView::Opening
    } else {
        next_stage(request, after_events(request, events.drop_last()), events.last())
    }
}

/// Whether `events` are what comes of doing what a lookup asks for, one action after
/// the other, on a file with these contents.
pub open spec fn is_run(request: LookupRequest, events: Seq<LookupEvent>, contents: Seq<u8>) -> bool
    decreases events.len(),
{
    events.len() > 0 ==> {
        let before = after_events(request, events.drop_last());
        &&& is_run(request, events.drop_last(), contents)
        &&& answers(before, events.last())
        &&& is_true_of(before, events.last(), contents)
    }
}

/// A whole lookup finds the batch that it was asked for, and asks for no more
/// actions than its bound says.
pub proof fn law_lookup_finds_the_batch(
    request: LookupRequest,
    events: Seq<LookupEvent>,
    contents: Seq<u8>,
)
    requires
        is_run(request, events, contents),
    ensures
        after_events(request, events) matches StageView::Found { rows, file_len } ==> rows
            == batch_rows(contents, request.cursor@) && file_len == contents.len(),
        events.len() <= 2 * request.max_retries + contents.len() + 5,
{
    lemma_run(request, events, contents);
}

/// Along a whole lookup, what has been told stays true, and the actions are used up.
pub proof fn lemma_run(request: LookupRequest, events: Seq<LookupEvent>, contents: Seq<u8>)
    requires
        is_run(request, events, contents),
    ensures
        agrees(request, after_events(request, events), contents),
        0 <= actions_left(request, after_events(request, events), contents),
        events.len() + actions_left(request, after_events(request, events), contents)
            <= actions_left(request, StageView::Opening, contents),
    decreases events.len(),
{
    if events.len() > 0 {
        let before = after_events(request, events.drop_last());
        lemma_run(request, events.drop_last(), contents);
        law_true_answers_find_the_batch(request, before, events.last(), contents);
        law_lookup_ends(request, before, events.last(), contents);
    }
}

/// How the reads were cut makes no difference: two lookups for the same cursor that
/// were told the truth about the same file have found the same rows.
pub proof fn law_reads_may_be_cut_anywhere(
    request: LookupRequest,
    other: LookupRequest,
    stage: StageView,
    other_stage: StageView,
    contents: Seq<u8>,
)
    requires
        request.cursor@ == other.cursor@,
        agrees(request, stage, contents),
        agrees(other, other_stage, contents),
        stage is Found,
        other_stage is Found,
    ensures
        stage == other_stage,
{
}

/// An upper bound on how many actions a lookup still asks for.
pub open spec fn actions_left(request: LookupRequest, stage: StageView, contents: Seq<u8>) -> int {
    let len = contents.len() as int;
    match stage {
        StageView::Opening => 2 * request.max_retries + len + 5,
        StageView::Sleeping { attempts_left } => 2 * attempts_left + len + 5,
        StageView::Locking { attempts_left } => 2 * attempts_left + len + 4,
        StageView::Measuring => len + 3,
        StageView::Rewinding { .. } => len + 2,
        StageView::Forward { seen, .. } => len - seen.len() + 1,
        StageView::Backward { end_position, seen, .. } => end_position - seen.len(),
        _ => 0,
    }
}

/// A lookup ends: each answer that is true of the file leaves fewer actions to ask
/// for.
pub proof fn law_lookup_ends(
    request: LookupRequest,
    stage: StageView,
    event: LookupEvent,
    contents: Seq<u8>,
)
    requires
        agrees(request, stage, contents),
        answers(stage, event),
        is_true_of(stage, event, contents),
    ensures
        0 <= actions_left(request, next_stage(request, stage, event), contents),
        actions_left(request, next_stage(request, stage, event), contents) < actions_left(
            request,
            stage,
            contents,
        ),
        actions_left(request, stage, contents) > 0,
{
    lemma_is_cursor(request.cursor);
    law_true_answers_find_the_batch(request, stage, event, contents);
}

/// Nothing is left to do exactly when the lookup has finished.
pub proof fn law_finish_comes_last(request: LookupRequest, stage: StageView)
    ensures
        asks(request, stage) == LookupAction::Finish <==> finished(stage),
{
}

/// Where a lookup stands that has been refused the lock `refusals` times.
pub open spec fn after_refusals(request: LookupRequest, refusals: nat) -> StageView
    decreases refusals,
{
    if refusals == 0 {
        retry(request.max_retries as int)
    } else {
        next_stage(
            request,
            next_stage(
                request,
                after_refusals(request, (refusals - 1) as nat),
                LookupEvent::WouldBlock,
            ),
            LookupEvent::Slept,
        )
    }
}

/// The lock is tried for as often as the request says, and no more often: a lookup
/// that is refused each time fails after the last attempt.
pub proof fn law_lock_attempts_are_bounded(request: LookupRequest, refusals: nat)
    requires
        refusals <= request.max_retries,
    ensures
        after_refusals(request, refusals) == retry(request.max_retries - refusals),
        refusals < request.max_retries ==> asks(request, after_refusals(request, refusals))
            == LookupAction::TryLockShared,
        refusals == request.max_retries ==> after_refusals(request, refusals)
            == StageView::Failed(LookupError::LockContended),
    decreases refusals,
{
    if refusals > 0 {
        law_lock_attempts_are_bounded(request, (refusals - 1) as nat);
    }
}

/// A file that is not the one asked for is not read, and any file is read where
/// none was asked for.
pub proof fn law_only_the_log_asked_for_is_read(request: LookupRequest, identity: Option<u64>)
    ensures
        ({
            let next = next_stage(
                request,
                StageView::Opening,
                LookupEvent::Opened { identity },
            );
            &&& next is OtherLog <==> is_other_log(request.log_id, identity)
            &&& request.log_id == 0 ==> !(next is OtherLog)
            &&& identity == Some(request.log_id) ==> !(next is OtherLog)
        }),
{
}

} // verus!
