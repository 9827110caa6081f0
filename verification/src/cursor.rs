//! Where a bounded lookup starts.

use vstd::prelude::*;

verus! {

/// Position of the newest record to include in a bounded history lookup.
///
/// The initial cursor identifies only an absolute row offset. Continuation cursors also retain a
/// byte position so older batches can scan backward from the previous batch instead of rescanning
/// the history prefix.
#[derive(Clone, Copy, Debug, PartialEq, Eq, Structural)]
pub struct HistoryBatchCursor {
    end_offset: usize,
    byte_position: Option<u64>,
    observed_file_len: Option<u64>,
}

/// What a cursor says.
pub struct CursorView {
    /// The offset of the newest row to include.
    pub end_offset: int,
    /// Where that row ends in the file, if this is known.
    pub byte_position: Option<int>,
    /// How long the file was when `byte_position` was found.
    pub observed_file_len: Option<int>,
}

impl CursorView {
    /// A cursor that knows no more than an offset.
    pub open spec fn initial(end_offset: int) -> CursorView {
        CursorView { end_offset, byte_position: None, observed_file_len: None }
    }

    /// A cursor that also knows where its row ends.
    pub open spec fn anchored(end_offset: int, byte_position: int, observed_file_len: int) -> CursorView {
        CursorView {
            end_offset,
            byte_position: Some(byte_position),
            observed_file_len: Some(observed_file_len),
        }
    }
}

/// `value` as a mathematical integer.
pub open spec fn optional_int(value: Option<u64>) -> Option<int> {
    match value {
        Some(n) => Some(n as int),
        None => None,
    }
}

impl View for HistoryBatchCursor {
    type V = CursorView;

    closed spec fn view(&self) -> CursorView {
        CursorView {
            end_offset: self.end_offset as int,
            byte_position: optional_int(self.byte_position),
            observed_file_len: optional_int(self.observed_file_len),
        }
    }
}

impl HistoryBatchCursor {
    /// Creates an initial cursor ending at the given absolute history offset.
    pub fn new(end_offset: usize) -> (cursor: Self)
        ensures
            cursor@ == CursorView::initial(end_offset as int),
            cursor@.end_offset == end_offset,
            cursor@.byte_position is None,
            cursor@.observed_file_len is None,
    {
        Self { end_offset, byte_position: None, observed_file_len: None }
    }

    /// Returns the absolute history offset covered first by this cursor.
    pub fn end_offset(self) -> (end_offset: usize)
        ensures
            end_offset == self@.end_offset,
    {
        self.end_offset
    }

    /// Returns the byte position used to continue an older lookup without a prefix rescan.
    pub fn byte_position(self) -> (byte_position: Option<u64>)
        ensures
            optional_int(byte_position) == self@.byte_position,
            byte_position is Some <==> self@.byte_position is Some,
            byte_position matches Some(n) ==> self@.byte_position == Some(n as int),
    {
        self.byte_position
    }

    /// Returns the length that the history file had when `byte_position` was found.
    pub(crate) fn observed_file_len(self) -> (observed_file_len: Option<u64>)
        ensures
            optional_int(observed_file_len) == self@.observed_file_len,
            observed_file_len is Some <==> self@.observed_file_len is Some,
            observed_file_len matches Some(n) ==> self@.observed_file_len == Some(n as int),
    {
        self.observed_file_len
    }

    /// Creates a cursor that continues at `byte_position` in a file that was
    /// `observed_file_len` bytes long.
    pub(crate) fn anchored(end_offset: usize, byte_position: u64, observed_file_len: u64) -> (cursor:
        Self)
        ensures
            cursor@ == CursorView::anchored(
                end_offset as int,
                byte_position as int,
                observed_file_len as int,
            ),
            cursor@.end_offset == end_offset,
            cursor@.byte_position == Some(byte_position as int),
            cursor@.observed_file_len == Some(observed_file_len as int),
    {
        Self {
            end_offset,
            byte_position: Some(byte_position),
            observed_file_len: Some(observed_file_len),
        }
    }
}

/// Two cursors that say the same are equal.
pub proof fn law_cursor_is_its_view(a: HistoryBatchCursor, b: HistoryBatchCursor)
    ensures
        a@ == b@ <==> a == b,
{
    if a@ == b@ {
        assert(optional_int(a.byte_position) == optional_int(b.byte_position));
        assert(a.byte_position == b.byte_position);
        assert(a.observed_file_len == b.observed_file_len);
    }
}

/// Whether a cursor can say this: offsets and positions are not negative.
pub open spec fn is_cursor(cursor: CursorView) -> bool {
    &&& cursor.end_offset >= 0
    &&& cursor.byte_position matches Some(byte_position) ==> byte_position >= 0
    &&& cursor.observed_file_len matches Some(observed_file_len) ==> observed_file_len >= 0
}

/// Every cursor says something that a cursor can say.
pub proof fn lemma_is_cursor(cursor: HistoryBatchCursor)
    ensures
        is_cursor(cursor@),
{
}

/// An initial cursor says its offset and nothing else. One that continues says its
/// offset, its position and the length that the file had.
pub proof fn law_cursor_says_what_it_was_made_of(
    end_offset: int,
    byte_position: int,
    observed_file_len: int,
    value: Option<u64>,
)
    ensures
        ({
            let initial = CursorView::initial(end_offset);
            let anchored = CursorView::anchored(end_offset, byte_position, observed_file_len);
            &&& initial.end_offset == end_offset
            &&& initial.byte_position is None
            &&& initial.observed_file_len is None
            &&& anchored.end_offset == end_offset
            &&& anchored.byte_position == Some(byte_position)
            &&& anchored.observed_file_len == Some(observed_file_len)
            &&& optional_int(value) is Some <==> value is Some
            &&& value matches Some(n) ==> optional_int(value) == Some(n as int)
        }),
{
}

} // verus!
