//! Looking a batch up in a history file.
//!
//! A lookup decides; its caller owns the file. The caller asks for the next action,
//! performs it on the file, and answers with what came of it, until the lookup has
//! finished.

use vstd::prelude::*;

use crate::backward::{known_rows, scan_batch_backward, stops, BackwardScan};
use crate::batch::{
    finish_batch, is_batch, law_raw_rows_are_the_entries, parses_any, raw_rows, HistoryBatch,
    HistoryBatchEntry, RawHistoryBatch, RawRow,
};
use crate::cursor::{lemma_is_cursor, CursorView, HistoryBatchCursor};
use crate::forward::{scan_batch_forward, ForwardScan};
use crate::laws::{is_bounded, is_contiguous, law_batch_is_bounded, law_batch_is_contiguous};
use crate::page::{page, page_through, rows_through};
use crate::rows::{byte_count, closed_rows, split_rows};

verus! {

/// Why a lookup has found no batch.
#[derive(Clone, Copy, Debug, PartialEq, Eq, Structural)]
pub enum LookupError {
    /// An action on the file failed.
    Io,
    /// Another process kept the file locked over all attempts.
    LockContended,
}

/// What the caller of a lookup does next.
#[derive(Clone, Copy, Debug, PartialEq, Eq, Structural)]
pub enum LookupAction {
    /// Open the history file for reading and find out its identity.
    OpenFile,
    /// Try to take a shared lock on the file, without waiting.
    TryLockShared,
    /// Wait a moment for the lock to become free.
    Sleep,
    /// Find out how long the file is.
    ReadFileLen,
    /// Go to the start of the file.
    Rewind,
    /// Read some of the bytes that come next. No bytes mean the end of the file.
    ReadNext,
    /// Read the `len` bytes from position `start`.
    ReadRange {
        /// Position of the first byte.
        start: u64,
        /// How many bytes to read.
        len: usize,
    },
    /// Nothing: the lookup has finished.
    Finish,
}

/// What came of an action.
#[derive(Debug, PartialEq, Eq)]
pub enum LookupEvent {
    /// The file is open.
    Opened {
        /// The identity of the file, where the system has one.
        identity: Option<u64>,
    },
    /// The lock is taken.
    Locked,
    /// The lock is held by someone else.
    WouldBlock,
    /// The wait is over.
    Slept,
    /// The file has this length.
    FileLen(u64),
    /// The file is at its start.
    Rewound,
    /// These bytes were read.
    Read(Vec<u8>),
    /// The action failed.
    Failed,
}

/// How to read the file of a given length.
#[derive(Clone, Copy, Debug, PartialEq, Eq, Structural)]
pub enum ScanPlan {
    /// From its start.
    Forward,
    /// Back from a position.
    Backward {
        /// Where the newest row ends.
        end_byte_position: u64,
    },
}

/// Where to continue from `cursor` in a file of length `file_len`: at its byte
/// position, unless the file has become shorter.
pub open spec fn resume_position(cursor: CursorView, file_len: int) -> Option<int> {
    match (cursor.byte_position, cursor.observed_file_len) {
        (Some(byte_position), Some(observed_file_len)) => if byte_position <= file_len
            && observed_file_len <= file_len {
            Some(byte_position)
        } else {
            None
        },
        _ => None,
    }
}

/// Decides how to read a file of length `file_len` for `cursor`.
pub fn scan_batch(cursor: HistoryBatchCursor, file_len: u64) -> (plan: ScanPlan)
    ensures
        match plan {
            ScanPlan::Forward => resume_position(cursor@, file_len as int) is None,
            ScanPlan::Backward { end_byte_position } => resume_position(cursor@, file_len as int)
                == Some(end_byte_position as int),
        },
        plan is Backward <==> {
            &&& cursor@.byte_position is Some
            &&& cursor@.observed_file_len is Some
            &&& cursor@.byte_position->0 <= file_len
            &&& cursor@.observed_file_len->0 <= file_len
        },
        plan matches ScanPlan::Backward { end_byte_position } ==> cursor@.byte_position == Some(
            end_byte_position as int,
        ),
{
    match (cursor.byte_position(), cursor.observed_file_len()) {
        (Some(byte_position), Some(observed_file_len)) => if byte_position <= file_len
            && observed_file_len <= file_len {
            ScanPlan::Backward { end_byte_position: byte_position }
        } else {
            ScanPlan::Forward
        },
        _ => ScanPlan::Forward,
    }
}

/// How far a lookup has come.
enum LookupStage {
    Opening,
    Locking { attempts_left: usize },
    Sleeping { attempts_left: usize },
    Measuring,
    Rewinding { file_len: u64 },
    Forward(ForwardScan),
    Backward(BackwardScan),
    OtherLog,
    Failed(LookupError),
    Found(RawHistoryBatch),
}

/// What a lookup was asked for.
#[derive(Clone, Copy, Debug, PartialEq, Eq)]
pub struct LookupRequest {
    /// The identity that the file must have, or zero for any.
    pub log_id: u64,
    /// Where the batch ends.
    pub cursor: HistoryBatchCursor,
    /// How often to try for the lock.
    pub max_retries: usize,
    /// How many bytes to read at a time when reading back.
    pub read_buffer_size: usize,
}

/// A lookup of one batch.
pub struct HistoryLookup {
    request: LookupRequest,
    stage: LookupStage,
}

/// How far a lookup has come, in terms of the file.
pub enum StageView {
    /// The file is not open yet.
    Opening,
    /// The lock is to be tried for.
    Locking {
        /// How many attempts are left, with this one.
        attempts_left: int,
    },
    /// The lock was not to be had.
    Sleeping {
        /// How many attempts are left.
        attempts_left: int,
    },
    /// The lock is taken.
    Measuring,
    /// The file will be read from its start.
    Rewinding {
        /// The length of the file.
        file_len: int,
    },
    /// The file is being read from its start.
    Forward {
        /// The length of the file.
        file_len: int,
        /// The bytes read so far.
        seen: Seq<u8>,
    },
    /// The file is being read back from a position.
    Backward {
        /// The length of the file.
        file_len: int,
        /// That position.
        end_position: int,
        /// The bytes read so far, which lead up to that position.
        seen: Seq<u8>,
    },
    /// The file is not the one asked for.
    OtherLog,
    /// There is no batch to be had.
    Failed(LookupError),
    /// The rows of the batch are found.
    Found {
        /// The rows, newest first.
        rows: Seq<RawRow>,
        /// The length of the file.
        file_len: int,
    },
}

/// Whether a file with this identity is not the one asked for.
pub open spec fn is_other_log(log_id: u64, identity: Option<u64>) -> bool {
    log_id != 0 && log_id != match identity {
        Some(current) => current,
        None => 0,
    }
}

/// Whether these rows, newest first, can be a batch that was asked for with
/// `end_offset`: they keep to the caps, they follow one another, and none is newer.
pub open spec fn is_reply(rows: Seq<RawRow>, end_offset: int) -> bool {
    &&& is_bounded(rows)
    &&& is_contiguous(rows)
    &&& rows.len() > 0 ==> rows[0].offset <= end_offset
}

/// Whether a lookup has ended.
pub open spec fn finished(stage: StageView) -> bool {
    stage is OtherLog || stage is Failed || stage is Found
}

/// What a lookup asks its caller to do.
pub open spec fn asks(request: LookupRequest, stage: StageView) -> LookupAction {
    match stage {
        StageView::Opening => LookupAction::OpenFile,
        StageView::Locking { .. } => LookupAction::TryLockShared,
        StageView::Sleeping { .. } => LookupAction::Sleep,
        StageView::Measuring => LookupAction::ReadFileLen,
        StageView::Rewinding { .. } => LookupAction::Rewind,
        StageView::Forward { .. } => LookupAction::ReadNext,
        StageView::Backward { end_position, seen, .. } => {
            let left = end_position - seen.len();
            if left > request.read_buffer_size {
                LookupAction::ReadRange {
                    start: (left - request.read_buffer_size) as u64,
                    len: request.read_buffer_size,
                }
            } else {
                LookupAction::ReadRange { start: 0, len: left as usize }
            }
        },
        _ => LookupAction::Finish,
    }
}

/// Whether `event` can come of what the lookup asks for.
pub open spec fn answers(stage: StageView, event: LookupEvent) -> bool {
    match stage {
        StageView::Opening => event is Opened || event is Failed,
        StageView::Locking { .. } => event is Locked || event is WouldBlock || event is Failed,
        StageView::Sleeping { .. } => event is Slept,
        StageView::Measuring => event is FileLen || event is Failed,
        StageView::Rewinding { .. } => event is Rewound || event is Failed,
        StageView::Forward { seen, .. } => match event {
            LookupEvent::Read(bytes) => seen.len() + bytes@.len() <= u64::MAX,
            LookupEvent::Failed => true,
            _ => false,
        },
        StageView::Backward { end_position, seen, .. } => match event {
            LookupEvent::Read(bytes) => 0 < bytes@.len() <= end_position - seen.len(),
            LookupEvent::Failed => true,
            _ => false,
        },
        _ => false,
    }
}

/// Before the next attempt at the lock: there may be none left.
pub open spec fn retry(attempts_left: int) -> StageView {
    if attempts_left > 0 {
        StageView::Locking { attempts_left }
    } else {
        StageView::Failed(LookupError::LockContended)
    }
}

/// After `seen` has been read from the start of the file.
pub open spec fn after_forward_read(end_offset: int, file_len: int, seen: Seq<u8>, at_end: bool) -> StageView {
    if at_end || closed_rows(seen).len() > end_offset {
        StageView::Found { rows: page_through(seen, end_offset), file_len }
    } else {
        StageView::Forward { file_len, seen }
    }
}

/// After `seen` has been read, which leads up to `end_position`.
pub open spec fn after_backward_read(end_offset: int, file_len: int, end_position: int, seen: Seq<u8>) -> StageView {
    if seen.len() == end_position {
        StageView::Found { rows: page(split_rows(seen), end_offset, end_position), file_len }
    } else if stops(known_rows(seen), end_offset) {
        StageView::Found { rows: page(known_rows(seen), end_offset, end_position), file_len }
    } else {
        StageView::Backward { file_len, end_position, seen }
    }
}

/// How a lookup goes on after `event`.
pub open spec fn next_stage(
    request: LookupRequest,
    stage: StageView,
    event: LookupEvent,
) -> StageView {
    let end_offset = request.cursor@.end_offset;
    match (stage, event) {
        (_, LookupEvent::Failed) => StageView::Failed(LookupError::Io),
        (StageView::Opening, LookupEvent::Opened { identity }) => if is_other_log(
            request.log_id,
            identity,
        ) {
            StageView::OtherLog
        } else {
            retry(request.max_retries as int)
        },
        (StageView::Locking { .. }, LookupEvent::Locked) => StageView::Measuring,
        (StageView::Locking { attempts_left }, LookupEvent::WouldBlock) => StageView::Sleeping {
            attempts_left: attempts_left - 1,
        },
        (StageView::Sleeping { attempts_left }, LookupEvent::Slept) => retry(attempts_left),
        (StageView::Measuring, LookupEvent::FileLen(file_len)) => match resume_position(
            request.cursor@,
            file_len as int,
        ) {
            Some(end_position) => after_backward_read(
                end_offset,
                file_len as int,
                end_position,
                Seq::<u8>::empty(),
            ),
            None => StageView::Rewinding { file_len: file_len as int },
        },
        (StageView::Rewinding { file_len }, LookupEvent::Rewound) => StageView::Forward {
            file_len,
            seen: Seq::empty(),
        },
        (StageView::Forward { file_len, seen }, LookupEvent::Read(bytes)) => after_forward_read(
            end_offset,
            file_len,
            seen + bytes@,
            bytes@.len() == 0,
        ),
        (StageView::Backward { file_len, end_position, seen }, LookupEvent::Read(bytes)) => after_backward_read(
            end_offset,
            file_len,
            end_position,
            bytes@ + seen,
        ),
        _ => stage,
    }
}

impl LookupStage {
    closed spec fn view(self) -> StageView {
        match self {
            LookupStage::Opening => StageView::Opening,
            LookupStage::Locking { attempts_left } => StageView::Locking {
                attempts_left: attempts_left as int,
            },
            LookupStage::Sleeping { attempts_left } => StageView::Sleeping {
                attempts_left: attempts_left as int,
            },
            LookupStage::Measuring => StageView::Measuring,
            LookupStage::Rewinding { file_len } => StageView::Rewinding {
                file_len: file_len as int,
            },
            LookupStage::Forward(scan) => StageView::Forward {
                file_len: scan.file_len(),
                seen: scan.seen(),
            },
            LookupStage::Backward(scan) => StageView::Backward {
                file_len: scan.file_len(),
                end_position: scan.end_position(),
                seen: scan.seen(),
            },
            LookupStage::OtherLog => StageView::OtherLog,
            LookupStage::Failed(error) => StageView::Failed(error),
            LookupStage::Found(raw) => StageView::Found {
                rows: raw_rows(raw.entries@),
                file_len: raw.file_len as int,
            },
        }
    }

    closed spec fn wf(self, request: LookupRequest) -> bool {
        match self {
            LookupStage::Locking { attempts_left } => attempts_left > 0,
            LookupStage::Forward(scan) => {
                &&& scan.wf()
                &&& !scan.done()
                &&& scan.end_offset() == request.cursor@.end_offset
            },
            LookupStage::Backward(scan) => {
                &&& scan.wf()
                &&& !scan.done()
                &&& scan.end_offset() == request.cursor@.end_offset
            },
            LookupStage::Found(raw) => is_reply(
                raw_rows(raw.entries@),
                request.cursor@.end_offset,
            ),
            _ => true,
        }
    }
}

impl HistoryLookup {
    /// What was asked for.
    pub closed spec fn request(self) -> LookupRequest {
        self.request
    }

    /// How far the lookup has come.
    pub closed spec fn stage(self) -> StageView {
        self.stage.view()
    }

    /// Whether the lookup is in order.
    pub closed spec fn wf(self) -> bool {
        &&& self.request.read_buffer_size > 0
        &&& self.stage.wf(self.request)
    }

    /// Starts a lookup.
    pub fn new(request: LookupRequest) -> (lookup: Self)
        requires
            request.read_buffer_size > 0,
        ensures
            lookup.wf(),
            lookup.request() == request,
            lookup.stage() == StageView::Opening,
    {
        HistoryLookup { request, stage: LookupStage::Opening }
    }

    /// What to do next.
    pub fn next_action(&self) -> (action: LookupAction)
        requires
            self.wf(),
        ensures
            action == asks(self.request(), self.stage()),
            action is OpenFile <==> self.stage() is Opening,
            action is TryLockShared <==> self.stage() is Locking,
            action is Sleep <==> self.stage() is Sleeping,
            action is ReadFileLen <==> self.stage() is Measuring,
            action is Rewind <==> self.stage() is Rewinding,
            action is ReadNext <==> self.stage() is Forward,
            action is ReadRange <==> self.stage() is Backward,
            action matches LookupAction::ReadRange { start, len } ==> {
                &&& 0 < len <= self.request().read_buffer_size
                &&& start + len == self.stage()->Backward_end_position
                    - self.stage()->Backward_seen.len()
                &&& len == self.request().read_buffer_size || start == 0
            },
    {
        match &self.stage {
            LookupStage::Opening => LookupAction::OpenFile,
            LookupStage::Locking { .. } => LookupAction::TryLockShared,
            LookupStage::Sleeping { .. } => LookupAction::Sleep,
            LookupStage::Measuring => LookupAction::ReadFileLen,
            LookupStage::Rewinding { .. } => LookupAction::Rewind,
            LookupStage::Forward(_) => LookupAction::ReadNext,
            LookupStage::Backward(scan) => match scan.next_read(self.request.read_buffer_size) {
                Some((start, len)) => LookupAction::ReadRange { start, len },
                None => LookupAction::Finish,
            },
            _ => LookupAction::Finish,
        }
    }

    /// Whether `event` can come of what the lookup asks for.
    pub fn accepts(&self, event: &LookupEvent) -> (accepted: bool)
        requires
            self.wf(),
        ensures
            accepted == answers(self.stage(), *event),
    {
        match (&self.stage, event) {
            (LookupStage::Opening, LookupEvent::Opened { .. } | LookupEvent::Failed) => true,
            (
                LookupStage::Locking { .. },
                LookupEvent::Locked | LookupEvent::WouldBlock | LookupEvent::Failed,
            ) => true,
            (LookupStage::Sleeping { .. }, LookupEvent::Slept) => true,
            (LookupStage::Measuring, LookupEvent::FileLen(_) | LookupEvent::Failed) => true,
            (LookupStage::Rewinding { .. }, LookupEvent::Rewound | LookupEvent::Failed) => true,
            (LookupStage::Forward(scan), LookupEvent::Read(bytes)) => bytes.len() as u64 <= u64::MAX
                - scan.position(),
            (LookupStage::Backward(scan), LookupEvent::Read(bytes)) => bytes.len() > 0
                && bytes.len() as u64 <= scan.remaining(),
            (LookupStage::Forward(_) | LookupStage::Backward(_), LookupEvent::Failed) => true,
            _ => false,
        }
    }

    /// Why there is no batch, where there is none.
    pub fn failure(&self) -> (failure: Option<LookupError>)
        ensures
            failure == match self.stage() {
                StageView::Failed(error) => Some(error),
                _ => None,
            },
    {
        match &self.stage {
            LookupStage::Failed(error) => Some(*error),
            _ => None,
        }
    }
}

/// Before the next attempt at the lock.
fn next_attempt(attempts_left: usize) -> (stage: LookupStage)
    ensures
        stage.view() == retry(attempts_left as int),
        stage is Locking ==> attempts_left > 0 && stage == (LookupStage::Locking { attempts_left }),
        stage is Locking || stage is Failed,
{
    if attempts_left > 0 {
        LookupStage::Locking { attempts_left }
    } else {
        LookupStage::Failed(LookupError::LockContended)
    }
}

/// Ends a backward scan that needs no more bytes.
fn settle_backward(scan: BackwardScan, request: LookupRequest) -> (stage: LookupStage)
    requires
        scan.wf(),
        scan.end_offset() == request.cursor@.end_offset,
        request.read_buffer_size > 0,
    ensures
        stage.wf(request),
        stage.view() == after_backward_read(
            scan.end_offset(),
            scan.file_len(),
            scan.end_position(),
            scan.seen(),
        ),
{
    proof {
        lemma_is_cursor(request.cursor);
        let rows = if scan.seen().len() == scan.end_position() {
            split_rows(scan.seen())
        } else {
            known_rows(scan.seen())
        };
        law_batch_is_bounded(rows, scan.end_offset(), scan.end_position());
        law_batch_is_contiguous(rows, scan.end_offset(), scan.end_position());
    }
    match scan.next_read(request.read_buffer_size) {
        Some(_) => LookupStage::Backward(scan),
        None => LookupStage::Found(scan.finish()),
    }
}

/// Takes a lookup on by what came of the action that it asked for.
pub fn lookup_batch_from_file(lookup: HistoryLookup, event: LookupEvent) -> (next: HistoryLookup)
    requires
        lookup.wf(),
        answers(lookup.stage(), event),
    ensures
        next.wf(),
        next.request() == lookup.request(),
        next.stage() == next_stage(lookup.request(), lookup.stage(), event),
        next.stage() is OtherLog <==> (event matches LookupEvent::Opened { identity }
            && lookup.request().log_id != 0 && identity != Some(lookup.request().log_id)),
        next.stage() == StageView::Failed(LookupError::Io) <==> event is Failed,
        next.stage() == StageView::Failed(LookupError::LockContended) ==> event is Opened
            && lookup.request().max_retries == 0 || (lookup.stage() matches StageView::Sleeping {
            attempts_left,
        } && attempts_left <= 0),
        event is Locked ==> next.stage() is Measuring,
        event is WouldBlock ==> next.stage() is Sleeping,
        next.stage() is Found ==> event is Read || event is FileLen,
{
    let request = lookup.request;
    let stage = match (lookup.stage, event) {
        (_, LookupEvent::Failed) => LookupStage::Failed(LookupError::Io),
        (LookupStage::Opening, LookupEvent::Opened { identity }) => {
            let current_log_id: u64 = match identity {
                Some(current) => current,
                None => 0,
            };
            if request.log_id != 0 && current_log_id != request.log_id {
                LookupStage::OtherLog
            } else {
                next_attempt(request.max_retries)
            }
        },
        (LookupStage::Locking { .. }, LookupEvent::Locked) => LookupStage::Measuring,
        (LookupStage::Locking { attempts_left }, LookupEvent::WouldBlock) => {
            LookupStage::Sleeping { attempts_left: attempts_left - 1 }
        },
        (LookupStage::Sleeping { attempts_left }, LookupEvent::Slept) => next_attempt(attempts_left),
        (LookupStage::Measuring, LookupEvent::FileLen(file_len)) => {
            match scan_batch(request.cursor, file_len) {
                ScanPlan::Backward { end_byte_position } => settle_backward(
                    BackwardScan::new(request.cursor.end_offset(), end_byte_position, file_len),
                    request,
                ),
                ScanPlan::Forward => LookupStage::Rewinding { file_len },
            }
        },
        (LookupStage::Rewinding { file_len }, LookupEvent::Rewound) => {
            LookupStage::Forward(ForwardScan::new(request.cursor.end_offset(), file_len))
        },
        (LookupStage::Forward(scan), LookupEvent::Read(bytes)) => {
            let mut scan = scan;
            scan_batch_forward(&mut scan, bytes.as_slice());
            proof {
                lemma_is_cursor(request.cursor);
                let rows = rows_through(scan.seen(), scan.end_offset());
                law_batch_is_bounded(rows, rows.len() - 1, byte_count(rows) as int);
                law_batch_is_contiguous(rows, rows.len() - 1, byte_count(rows) as int);
            }
            if scan.is_done() {
                LookupStage::Found(scan.finish())
            } else {
                LookupStage::Forward(scan)
            }
        },
        (LookupStage::Backward(scan), LookupEvent::Read(bytes)) => {
            let mut scan = scan;
            scan_batch_backward(&mut scan, bytes.as_slice());
            settle_backward(scan, request)
        },
        (stage, _) => stage,
    };
    HistoryLookup { request, stage }
}

/// Whether `batch` is what a finished lookup returns: the rows found, or nothing and
/// the cursor to ask with again, or nothing at all where the file is another log.
pub open spec fn is_returned_for<E, F: Fn(&[u8]) -> Option<E>>(
    batch: HistoryBatch<E>,
    request: LookupRequest,
    stage: StageView,
    parse: F,
) -> bool {
    match stage {
        StageView::Found { rows, file_len } => is_batch(batch, rows, file_len, parse),
        StageView::Failed(_) => {
            &&& batch.entries@.len() == 0
            &&& batch.next_older_cursor == Some(request.cursor)
        },
        _ => {
            &&& batch.entries@.len() == 0
            &&& batch.next_older_cursor is None
        },
    }
}

/// A lookup that failed can be asked for again: nothing is returned but the cursor
/// that it was asked for with.
pub proof fn law_failed_lookup_can_be_asked_for_again<E, F: Fn(&[u8]) -> Option<E>>(
    batch: HistoryBatch<E>,
    request: LookupRequest,
    error: LookupError,
    parse: F,
)
    requires
        is_returned_for(batch, request, StageView::Failed(error), parse),
    ensures
        batch.entries@.len() == 0,
        batch.next_older_cursor == Some(request.cursor),
{
}

/// A file that is another log ends the search: nothing is returned, and no cursor.
pub proof fn law_other_log_ends_the_search<E, F: Fn(&[u8]) -> Option<E>>(
    batch: HistoryBatch<E>,
    request: LookupRequest,
    parse: F,
)
    requires
        is_returned_for(batch, request, StageView::OtherLog, parse),
    ensures
        batch.entries@.len() == 0,
        batch.next_older_cursor is None,
{
}

/// Look up a bounded batch of history records ending at the cursor of the request.
///
/// The file is opened, identity-checked, and shared-locked once. Records are counted from the
/// oldest offset on the initial lookup. Continuation lookups scan backward from the byte position
/// returned with the previous batch. The result retains at most 128 rows and 64 KiB of raw JSONL,
/// except that one oversized newest row is returned alone so callers always make progress.
///
/// A lookup that failed gives an empty batch that continues where it was to start, so that the
/// caller can ask again. `parse` reads the record of one row, without its line ending.
pub fn lookup_batch<E, F: Fn(&[u8]) -> Option<E>>(lookup: HistoryLookup, parse: &F) -> (batch:
    HistoryBatch<E>)
    requires
        lookup.wf(),
        finished(lookup.stage()),
        parses_any(*parse),
    ensures
        is_returned_for(batch, lookup.request(), lookup.stage(), *parse),
        match lookup.stage() {
            StageView::Found { rows, file_len } => {
                &&& is_batch(batch, rows, file_len, *parse)
                &&& is_reply(rows, lookup.request().cursor@.end_offset)
                &&& batch.entries@.len() == rows.len() <= 128
                &&& forall|i: int|
                    0 <= i < rows.len() ==> (#[trigger] batch.entries@[i]).offset == rows[i].offset
                &&& batch.next_older_cursor is None <==> rows.len() == 0 || rows.last().offset == 0
                &&& batch.next_older_cursor matches Some(next) ==> {
                    &&& next@.end_offset == rows.last().offset - 1
                    &&& next@.byte_position == Some(rows.last().byte_position)
                    &&& next@.observed_file_len == Some(file_len)
                }
            },
            StageView::Failed(_) => {
                &&& batch.entries@ == Seq::<HistoryBatchEntry<E>>::empty()
                &&& batch.next_older_cursor == Some(lookup.request().cursor)
            },
            _ => {
                &&& batch.entries@ == Seq::<HistoryBatchEntry<E>>::empty()
                &&& batch.next_older_cursor is None
            },
        },
{
    match lookup.stage {
        LookupStage::Found(raw) => {
            proof {
                law_raw_rows_are_the_entries(raw.entries@);
            }
            finish_batch(raw, parse)
        },
        LookupStage::Failed(_) => HistoryBatch {
            entries: Vec::new(),
            next_older_cursor: Some(lookup.request.cursor),
        },
        _ => HistoryBatch::default(),
    }
}

} // verus!
