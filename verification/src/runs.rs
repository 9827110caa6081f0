//! Lookups on a real file.
//!
//! A caller performs each action that a lookup asks for and answers with what came
//! of it. This module says what such a file does, and what then comes out.

use vstd::prelude::*;

use crate::agreement::{after_events, agrees, is_run, is_true_of, lemma_run};
use crate::backward::known_rows;
use crate::cursor::{lemma_is_cursor, CursorView};
use crate::lookup::{
    answers, asks, finished, next_stage, LookupAction, LookupError, LookupEvent, LookupRequest,
    StageView,
};
use crate::meaning::{
    is_batch_of, is_file, is_settled, law_page, law_page_through,
    law_reading_back_stops_when_settled,
};
use crate::rows::{law_closed_rows_count_newlines, law_rows_are_lines, lemma_rows_join};

verus! {

/// Whether `event` is what comes of `action` on a file with this identity and these
/// contents that stands at `position`.
pub open spec fn is_outcome(
    action: LookupAction,
    position: int,
    identity: Option<u64>,
    contents: Seq<u8>,
    event: LookupEvent,
) -> bool {
    match action {
        LookupAction::OpenFile => event is Failed || event == (LookupEvent::Opened { identity }),
        LookupAction::TryLockShared => event is Failed || event is Locked || event is WouldBlock,
        LookupAction::Sleep => event is Slept,
        LookupAction::ReadFileLen => event is Failed || (event matches LookupEvent::FileLen(len)
            && len == contents.len()),
        LookupAction::Rewind => event is Failed || event is Rewound,
        LookupAction::ReadNext => event is Failed || (event matches LookupEvent::Read(bytes) && {
            &&& position + bytes@.len() <= contents.len()
            &&& bytes@ == contents.subrange(position, position + bytes@.len())
            &&& bytes@.len() == 0 ==> position == contents.len()
        }),
        LookupAction::ReadRange { start, len } => event is Failed || (
        event matches LookupEvent::Read(bytes) && {
            &&& start + len <= contents.len()
            &&& bytes@ == contents.subrange(start as int, start + len)
        }),
        LookupAction::Finish => false,
    }
}

/// Where the file stands after `events`.
pub open spec fn file_position(request: LookupRequest, events: Seq<LookupEvent>) -> int
    decreases events.len(),
{
    if events.len() == 0 {
        0
    } else {
        let before = file_position(request, events.drop_last());
        match (asks(request, after_events(request, events.drop_last())), events.last()) {
            (LookupAction::Rewind, LookupEvent::Rewound) => 0,
            (LookupAction::ReadNext, LookupEvent::Read(bytes)) => before + bytes@.len(),
            (LookupAction::ReadRange { start, .. }, LookupEvent::Read(bytes)) => start
                + bytes@.len(),
            _ => before,
        }
    }
}

/// Whether `events` are what comes of performing on such a file what the lookup asks
/// for, one action after the other.
pub open spec fn performs(
    request: LookupRequest,
    events: Seq<LookupEvent>,
    identity: Option<u64>,
    contents: Seq<u8>,
) -> bool
    decreases events.len(),
{
    events.len() > 0 ==> {
        &&& performs(request, events.drop_last(), identity, contents)
        &&& is_outcome(
            asks(request, after_events(request, events.drop_last())),
            file_position(request, events.drop_last()),
            identity,
            contents,
            events.last(),
        )
    }
}

/// How often the lock was refused.
pub open spec fn refusals(events: Seq<LookupEvent>) -> int
    decreases events.len(),
{
    if events.len() == 0 {
        0
    } else {
        refusals(events.drop_last()) + if events.last() is WouldBlock {
            1int
        } else {
            0
        }
    }
}

/// How often the lock was taken.
pub open spec fn locks(events: Seq<LookupEvent>) -> int
    decreases events.len(),
{
    if events.len() == 0 {
        0
    } else {
        locks(events.drop_last()) + if events.last() is Locked {
            1int
        } else {
            0
        }
    }
}

/// Whether a file with this identity is the one asked for.
pub open spec fn is_log_asked_for(request: LookupRequest, identity: Option<u64>) -> bool {
    request.log_id == 0 || identity == Some(request.log_id)
}

/// Whether a cursor's position can be used in a file of this length: it lies in the
/// file, and the file is no shorter than when it was found.
pub open spec fn continues(cursor: CursorView, file_len: int) -> bool {
    &&& cursor.byte_position is Some
    &&& cursor.observed_file_len is Some
    &&& cursor.byte_position->0 <= file_len
    &&& cursor.observed_file_len->0 <= file_len
}

/// How a stage comes about in a lookup on a file.
spec fn is_due(
    request: LookupRequest,
    events: Seq<LookupEvent>,
    identity: Option<u64>,
    stage: StageView,
) -> bool {
    let opened = events.len() > 0 && events[0] == (LookupEvent::Opened { identity })
        && is_log_asked_for(request, identity);
    let reading = opened && locks(events) == 1 && 0 <= refusals(events) < request.max_retries;
    match stage {
        StageView::Opening => events.len() == 0,
        StageView::Locking { attempts_left } => {
            &&& opened
            &&& locks(events) == 0
            &&& refusals(events) >= 0
            &&& attempts_left == request.max_retries - refusals(events) > 0
        },
        StageView::Sleeping { attempts_left } => {
            &&& opened
            &&& locks(events) == 0
            &&& refusals(events) > 0
            &&& attempts_left == request.max_retries - refusals(events) >= 0
            &&& events.last() is WouldBlock
        },
        StageView::Measuring => reading && events.last() is Locked,
        StageView::Rewinding { .. } => reading,
        StageView::Forward { seen, .. } => reading && file_position(request, events) == seen.len(),
        StageView::Backward { .. } => reading,
        StageView::Found { .. } => reading,
        StageView::OtherLog => {
            &&& events.len() == 1
            &&& events[0] == (LookupEvent::Opened { identity })
            &&& !is_log_asked_for(request, identity)
            &&& refusals(events) == 0
            &&& locks(events) == 0
        },
        StageView::Failed(LookupError::Io) => {
            &&& events.len() > 0
            &&& events.last() is Failed
            &&& 0 <= refusals(events) <= request.max_retries
            &&& 0 <= locks(events) <= 1
        },
        StageView::Failed(LookupError::LockContended) => {
            &&& opened
            &&& locks(events) == 0
            &&& refusals(events) == request.max_retries
        },
    }
}

/// Every stage comes about as it is due, and what the lookup has been told is true.
proof fn lemma_due(
    request: LookupRequest,
    events: Seq<LookupEvent>,
    identity: Option<u64>,
    contents: Seq<u8>,
)
    requires
        performs(request, events, identity, contents),
        request.read_buffer_size > 0,
        contents.len() <= u64::MAX,
    ensures
        is_run(request, events, contents),
        is_due(request, events, identity, after_events(request, events)),
        agrees(request, after_events(request, events), contents),
    decreases events.len(),
{
    if events.len() > 0 {
        let before = events.drop_last();
        let stage = after_events(request, before);
        lemma_due(request, before, identity, contents);
        lemma_is_cursor(request.cursor);
        assert(answers(stage, events.last()));
        assert(is_true_of(stage, events.last(), contents));
        if before.len() > 0 {
            assert(events[0] == before[0]);
        } else {
            assert(refusals(before) == 0 && locks(before) == 0);
        }
    }
    lemma_run(request, events, contents);
}

/// Opening the file leads on exactly where it is the one asked for. A file with
/// another identity, or with none where one was asked for, is not locked and not
/// read.
pub proof fn law_other_log_is_not_read(request: LookupRequest, identity: Option<u64>)
    ensures
        ({
            let next = next_stage(
                request,
                StageView::Opening,
                LookupEvent::Opened { identity },
            );
            &&& next is OtherLog <==> request.log_id != 0 && identity != Some(request.log_id)
            &&& request.log_id != 0 && identity != Some(request.log_id) ==> asks(request, next)
                == LookupAction::Finish
            &&& (request.log_id == 0 || identity == Some(request.log_id)) && request.max_retries > 0
                ==> asks(request, next) == LookupAction::TryLockShared
        }),
{
}

/// How a lookup ends. It gives up on a file only because that is not the one asked
/// for, because an action failed, or because the lock was refused at every attempt.
/// Otherwise it finds its batch.
pub proof fn law_lookup_gives_up_only_for_cause(
    request: LookupRequest,
    events: Seq<LookupEvent>,
    identity: Option<u64>,
    contents: Seq<u8>,
)
    requires
        performs(request, events, identity, contents),
        request.read_buffer_size > 0,
        contents.len() <= u64::MAX,
    ensures
        ({
            let stage = after_events(request, events);
            &&& stage is OtherLog <==> events.len() > 0 && events[0] is Opened && request.log_id != 0
                && identity != Some(request.log_id)
            &&& stage is OtherLog ==> events.len() == 1
            &&& stage == StageView::Failed(LookupError::Io) <==> events.len() > 0
                && events.last() is Failed
            &&& stage == StageView::Failed(LookupError::LockContended) <==> events.len() > 0
                && events[0] is Opened && is_log_asked_for(request, identity) && refusals(events)
                == request.max_retries && !(events.last() is WouldBlock || events.last() is Failed)
            &&& finished(stage) <==> stage is OtherLog || stage is Failed || stage is Found
            &&& asks(request, stage) == LookupAction::Finish <==> finished(stage)
            &&& finished(stage) && is_log_asked_for(request, identity) && !(
            events.last() is Failed) && refusals(events) < request.max_retries ==> stage is Found
            &&& stage is Found ==> locks(events) == 1
            &&& events.len() <= 2 * request.max_retries + contents.len() + 5
        }),
{
    lemma_due(request, events, identity, contents);
    lemma_run(request, events, contents);
    if events.len() > 0 {
        let before = events.drop_last();
        lemma_due(request, before, identity, contents);
        if before.len() > 0 {
            assert(events[0] == before[0]);
        } else {
            assert(refusals(before) == 0 && locks(before) == 0);
        }
    }
}

/// Every outcome of what a lookup asks for is an answer that it takes.
pub proof fn law_every_outcome_is_an_answer(
    request: LookupRequest,
    events: Seq<LookupEvent>,
    identity: Option<u64>,
    contents: Seq<u8>,
    event: LookupEvent,
)
    requires
        performs(request, events, identity, contents),
        request.read_buffer_size > 0,
        contents.len() <= u64::MAX,
        is_outcome(
            asks(request, after_events(request, events)),
            file_position(request, events),
            identity,
            contents,
            event,
        ),
    ensures
        answers(after_events(request, events), event),
{
    lemma_due(request, events, identity, contents);
    lemma_is_cursor(request.cursor);
}

/// Nothing else is taken: an answer is of the kind of the action that was asked for,
/// and holds no more bytes than there is room for.
pub proof fn law_only_answers_are_taken(request: LookupRequest, stage: StageView, event: LookupEvent)
    requires
        answers(stage, event),
    ensures
        match (asks(request, stage), event) {
            (LookupAction::OpenFile, LookupEvent::Opened { .. }) => true,
            (LookupAction::OpenFile, LookupEvent::Failed) => true,
            (LookupAction::TryLockShared, LookupEvent::Locked) => true,
            (LookupAction::TryLockShared, LookupEvent::WouldBlock) => true,
            (LookupAction::TryLockShared, LookupEvent::Failed) => true,
            (LookupAction::Sleep, LookupEvent::Slept) => true,
            (LookupAction::ReadFileLen, LookupEvent::FileLen(_)) => true,
            (LookupAction::ReadFileLen, LookupEvent::Failed) => true,
            (LookupAction::Rewind, LookupEvent::Rewound) => true,
            (LookupAction::Rewind, LookupEvent::Failed) => true,
            (LookupAction::ReadNext, LookupEvent::Read(_)) => true,
            (LookupAction::ReadNext, LookupEvent::Failed) => true,
            (LookupAction::ReadRange { .. }, LookupEvent::Read(bytes)) => bytes@.len() > 0,
            (LookupAction::ReadRange { .. }, LookupEvent::Failed) => true,
            _ => false,
        },
{
}

/// What a lookup asks for before anything is read: the file is opened once, the lock
/// is tried for until it is granted or the attempts are used up, with a wait after
/// each refusal, and only then is the file measured and read.
pub proof fn law_file_is_locked_before_it_is_read(
    request: LookupRequest,
    events: Seq<LookupEvent>,
    identity: Option<u64>,
    contents: Seq<u8>,
)
    requires
        performs(request, events, identity, contents),
        request.read_buffer_size > 0,
        contents.len() <= u64::MAX,
    ensures
        ({
            let stage = after_events(request, events);
            let action = asks(request, stage);
            &&& action == LookupAction::OpenFile <==> events.len() == 0
            &&& events.len() > 0 ==> match events.last() {
                LookupEvent::Opened { .. } => is_log_asked_for(request, identity)
                    && request.max_retries > 0 ==> action == LookupAction::TryLockShared,
                LookupEvent::WouldBlock => action == LookupAction::Sleep,
                LookupEvent::Slept => if refusals(events) < request.max_retries {
                    action == LookupAction::TryLockShared
                } else {
                    stage == StageView::Failed(LookupError::LockContended)
                },
                LookupEvent::Locked => action == LookupAction::ReadFileLen,
                LookupEvent::Rewound => action == LookupAction::ReadNext,
                _ => true,
            }
            &&& action == LookupAction::TryLockShared ==> locks(events) == 0 && refusals(events)
                < request.max_retries
            &&& action is ReadFileLen || action is Rewind || action is ReadNext
                || action is ReadRange ==> locks(events) == 1
            &&& 0 <= locks(events) <= 1
            &&& 0 <= refusals(events) <= request.max_retries
        }),
{
    lemma_due(request, events, identity, contents);
    if events.len() > 0 {
        let before = events.drop_last();
        lemma_due(request, before, identity, contents);
        if before.len() > 0 {
            assert(events[0] == before[0]);
        } else {
            assert(refusals(before) == 0 && locks(before) == 0);
        }
    }
}

/// The bytes that a lookup has read back are those right before its position, and it
/// asks for the ones right before them: never for more than the buffer holds, for
/// less only at the start of the file, and never outside the file.
pub proof fn law_reading_back_is_gapless(
    request: LookupRequest,
    events: Seq<LookupEvent>,
    identity: Option<u64>,
    contents: Seq<u8>,
)
    requires
        performs(request, events, identity, contents),
        request.read_buffer_size > 0,
        contents.len() <= u64::MAX,
        events.len() > 0,
    ensures
        asks(request, after_events(request, events)) matches LookupAction::ReadRange {
            start,
            len,
        } ==> {
            let previous = asks(request, after_events(request, events.drop_last()));
            &&& continues(request.cursor@, contents.len() as int)
            &&& 0 < len <= request.read_buffer_size
            &&& len == request.read_buffer_size || start == 0
            &&& start + len <= contents.len()
            &&& match previous {
                LookupAction::ReadRange { start: read_end, .. } => start + len == read_end,
                _ => previous == LookupAction::ReadFileLen && start + len
                    == request.cursor@.byte_position->0,
            }
        },
{
    lemma_due(request, events, identity, contents);
    lemma_due(request, events.drop_last(), identity, contents);
    lemma_is_cursor(request.cursor);
}

/// How much a lookup reads. From the start of the file it reads on until the row that
/// was asked for is complete or the file ends. Back from a position it reads on until
/// no older row has a place in the batch. A lookup that can continue at its position
/// never reads from the start.
pub proof fn law_lookup_reads_what_it_needs(
    request: LookupRequest,
    events: Seq<LookupEvent>,
    identity: Option<u64>,
    contents: Seq<u8>,
    older: Seq<Seq<u8>>,
)
    requires
        performs(request, events, identity, contents),
        request.read_buffer_size > 0,
        contents.len() <= u64::MAX,
        events.len() > 0,
        continues(request.cursor@, contents.len() as int) ==> is_file(
            older,
            contents.take(request.cursor@.byte_position->0),
        ),
    ensures
        ({
            let stage = after_events(request, events);
            let action = asks(request, stage);
            let end_offset = request.cursor@.end_offset;
            let continued = continues(request.cursor@, contents.len() as int);
            &&& action is Rewind || action is ReadNext ==> !continued
            &&& events.last() is FileLen && !continued ==> action == LookupAction::Rewind
            &&& events.last() is FileLen && continued ==> if request.cursor@.byte_position->0 == 0 {
                stage is Found
            } else {
                action is ReadRange
            }
            &&& events.last() matches LookupEvent::Read(bytes) ==> match asks(
                request,
                after_events(request, events.drop_last()),
            ) {
                LookupAction::ReadNext => if bytes@.len() == 0 || contents.take(
                    file_position(request, events),
                ).filter(|byte: u8| byte == 0x0au8).len() > end_offset {
                    stage is Found
                } else {
                    action == LookupAction::ReadNext
                },
                LookupAction::ReadRange { start, .. } => if start == 0 || is_settled(
                    older,
                    start as int,
                    end_offset,
                ) {
                    stage is Found
                } else {
                    action is ReadRange
                },
                _ => false,
            }
        }),
{
    lemma_due(request, events, identity, contents);
    let before = events.drop_last();
    let stage = after_events(request, before);
    lemma_due(request, before, identity, contents);
    lemma_is_cursor(request.cursor);
    let end_offset = request.cursor@.end_offset;
    match (stage, events.last()) {
        (StageView::Forward { seen, .. }, LookupEvent::Read(bytes)) => {
            let now = seen + bytes@;
            assert(now =~= contents.take(file_position(request, events)));
            law_closed_rows_count_newlines(now);
        },
        (StageView::Backward { end_position, seen, .. }, LookupEvent::Read(bytes)) => {
            let now = bytes@ + seen;
            let rest = contents.take(end_position - now.len());
            assert(rest + now =~= contents.take(end_position));
            law_reading_back_stops_when_settled(older, rest, now, end_offset);
        },
        (StageView::Measuring, LookupEvent::FileLen(_)) => {
            if continues(request.cursor@, contents.len() as int) {
                let none = Seq::<u8>::empty();
                let rest = contents.take(request.cursor@.byte_position->0);
                assert(rest + none =~= rest);
                lemma_rows_join(none);
                assert(known_rows(none).len() == 0);
            }
        },
        _ => {},
    }
}

/// A lookup that counts rows from the start of the file finds the batch that ends at
/// the offset asked for, or at the newest row where there are fewer rows.
pub proof fn law_counting_finds_the_batch(
    request: LookupRequest,
    events: Seq<LookupEvent>,
    identity: Option<u64>,
    contents: Seq<u8>,
    rows: Seq<Seq<u8>>,
)
    requires
        performs(request, events, identity, contents),
        request.read_buffer_size > 0,
        contents.len() <= u64::MAX,
        is_file(rows, contents),
        !continues(request.cursor@, contents.len() as int),
    ensures
        after_events(request, events) matches StageView::Found { rows: found, file_len } ==> {
            let end_offset = request.cursor@.end_offset;
            let count = if end_offset < rows.len() {
                end_offset + 1
            } else {
                rows.len() as int
            };
            &&& file_len == contents.len()
            &&& is_batch_of(
                found,
                rows.take(count),
                count - 1,
                rows.take(count).flatten().len() as int,
            )
        },
{
    lemma_due(request, events, identity, contents);
    lemma_is_cursor(request.cursor);
    law_page_through(rows, contents, request.cursor@.end_offset);
}

/// A lookup that continues at a byte position finds the batch that ends with the row
/// before it, and counts offsets down from the one asked for.
pub proof fn law_continuing_finds_the_batch(
    request: LookupRequest,
    events: Seq<LookupEvent>,
    identity: Option<u64>,
    contents: Seq<u8>,
    older: Seq<Seq<u8>>,
)
    requires
        performs(request, events, identity, contents),
        request.read_buffer_size > 0,
        contents.len() <= u64::MAX,
        continues(request.cursor@, contents.len() as int),
        is_file(older, contents.take(request.cursor@.byte_position->0)),
    ensures
        after_events(request, events) matches StageView::Found { rows: found, file_len } ==> {
            &&& file_len == contents.len()
            &&& is_batch_of(
                found,
                older,
                request.cursor@.end_offset,
                request.cursor@.byte_position->0,
            )
        },
{
    lemma_due(request, events, identity, contents);
    lemma_is_cursor(request.cursor);
    let position = request.cursor@.byte_position->0;
    law_rows_are_lines(older, contents.take(position));
    law_page(older, request.cursor@.end_offset, position);
}

} // verus!
