//! Frame headers and the positions they hold.

use vstd::prelude::*;

verus! {

/// A place in the block chain: a block, a byte offset from the start of that
/// block, and the number of records of that block that lie before it.
#[derive(Clone, Copy, Debug, PartialEq, Eq, Structural)]
pub struct Position {
    pub block: usize,
    pub offset: usize,
    pub slot: usize,
}

/// The bookkeeping of one frame, written when the frame is created.
/// Only `current_frame_ptr` changes afterwards.
#[derive(Clone, Copy, Debug, PartialEq, Eq, Structural)]
pub struct StackFrameHeader {
    /// Index of the enclosing frame in the frame table, `None` for the root.
    pub previous_frame: Option<usize>,
    /// The bump position of this frame: where its next record would start,
    /// before padding.
    pub current_frame_ptr: Position,
    /// The position just past the header.
    pub start: Position,
    /// The padding between the end of the header and the first record, should
    /// that record be stored in the header's block.
    pub padding: usize,
    /// The stamp that handles to records of this frame carry.
    pub generation: u64,
}

impl StackFrameHeader {
    /// The offset at which the first record of the frame starts, should it be
    /// stored in the header's block.
    pub open spec fn boundary(self) -> int {
        self.start.offset + self.padding
    }
}

/// A place reached while visiting the records of a frame backwards: the
/// depth of the frame, and the position just past the next record to visit,
/// whose offset counts the bytes that remain in its block.
#[derive(Clone, Copy, Debug, PartialEq, Eq, Structural)]
pub struct Peek {
    pub frame: usize,
    pub position: Position,
}

/// `p` is not after `q` in the order in which the chain is filled.
pub open spec fn not_after(p: Position, q: Position) -> bool {
    p.block < q.block || (p.block == q.block && p.slot <= q.slot)
}

} // verus!
