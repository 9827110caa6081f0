//! Bounded lookups in an append-only message history.
//!
//! A lookup returns the record at an offset and as many older ones as fit into a
//! batch, newest first, with a cursor to the next older batch. The library decides
//! what to read and what to return. Reading the file is left to its caller.

pub mod agreement;
pub mod backward;
pub mod batch;
pub mod cursor;
pub mod forward;
pub mod laws;
pub mod lookup;
pub mod meaning;
mod newlines;
pub mod page;
pub mod paging;
pub mod retain;
pub mod rows;
pub mod runs;
pub mod window;

pub use crate::batch::{HistoryBatch, HistoryBatchEntry};
pub use crate::cursor::HistoryBatchCursor;
pub use crate::lookup::lookup_batch;
