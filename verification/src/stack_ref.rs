//! Handles to records of an arena.

use vstd::prelude::*;

verus! {

/// A handle to the slot of one record. It owns nothing: the arena that issued
/// it resolves it, and only while the frame that holds the record is live.
#[derive(Clone, Copy, Debug, PartialEq, Eq, Structural)]
pub struct StackRef {
    /// The stamp of the frame that holds the record.
    pub generation: u64,
    /// The depth of that frame, the root being at depth zero.
    pub frame: usize,
    /// The block in which the record is stored.
    pub block: usize,
    /// The slot of the record within that block.
    pub slot: usize,
}

/// One line of the listing of a stack.
#[derive(Clone, Copy, Debug, PartialEq, Eq, Structural)]
pub enum Line {
    /// A record, by its handle.
    Entry(StackRef),
    /// The header of a frame: the records listed since the last header, or
    /// since the top, are the records of that frame.
    Header,
}

} // verus!
