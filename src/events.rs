//! What a book's watchers are told.

use vstd::prelude::*;
use crate::operations::DrawingOperation;

verus! {

/// A change to a book, or a signal on the connection that reports changes.
#[derive(Debug, Clone)]
pub enum EventType {
    DrawingOperation { operation: DrawingOperation },
    BookSaved,
    BookLoaded,
    FrameChanged { frame_index: usize },
    Connected,
    Heartbeat,
}

} // verus!
