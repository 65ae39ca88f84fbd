//! The mathematical model of an arena: what its frames hold, where its bump
//! positions stand, and how each operation changes both.

use vstd::prelude::*;
use vstd::std_specs::cmp::PartialEqSpec;
use crate::block_chain::{grown_tails, spec_past, spec_place, BlockTail};
use crate::layout::{spec_padding, RecordLayout, FRAME_HEADER_ALIGN, FRAME_HEADER_SIZE};
use crate::stack_frame_header::{Position, StackFrameHeader};

verus! {

/// The state of an arena as its callers can observe it.
pub struct StackModel<T> {
    /// The records of every live frame, the root frame first, each frame in
    /// the order in which its records were pushed.
    pub frames: Seq<Seq<T>>,
    /// The header of every live frame, the root frame first.
    pub headers: Seq<StackFrameHeader>,
    /// The tail of every block of the chain, the first block first.
    pub tails: Seq<BlockTail>,
    /// The bytes of a block that headers and records can use.
    pub capacity: int,
    /// The footprint of one record.
    pub layout: RecordLayout,
    /// The stamp that the next frame will get.
    pub next_stamp: u64,
}

/// The order in which the records of `frames` are released when every frame
/// is closed, the innermost first: each frame from its most recent record to
/// its oldest.
pub open spec fn release_order<T>(frames: Seq<Seq<T>>) -> Seq<T>
    decreases frames.len(),
{
    if frames.len() == 0 {
        Seq::empty()
    } else {
        frames.last().reverse() + release_order(frames.drop_last())
    }
}

/// The records of `frames` in the order in which they were pushed.
pub open spec fn push_order<T>(frames: Seq<Seq<T>>) -> Seq<T>
    decreases frames.len(),
{
    if frames.len() == 0 {
        Seq::empty()
    } else {
        push_order(frames.drop_last()) + frames.last()
    }
}

/// What is listed from a place in frame `f` with `i` of its records still to
/// come, down to the root: each record as its frame and index, most recent
/// first, and after the records of each frame a mark for its header, written
/// as the index `-1`.
pub open spec fn listing<T>(frames: Seq<Seq<T>>, f: int, i: int) -> Seq<(int, int)>
    decreases f, i,
{
    if f < 0 || i < 0 {
        Seq::empty()
    } else if i > 0 {
        seq![(f, i - 1)] + listing(frames, f, i - 1)
    } else if f == 0 {
        seq![(f, -1int)]
    } else {
        seq![(f, -1int)] + listing(frames, f - 1, frames[f - 1].len() as int)
    }
}

/// The comparison of `key` with `other` can say that they are equal.
pub open spec fn hit<K: PartialEq>(key: K, other: K) -> bool {
    call_ensures(K::eq, (&key, &other), true)
}

/// The comparison of `key` with `other` can say that they are not equal.
pub open spec fn miss<K: PartialEq>(key: K, other: K) -> bool {
    call_ensures(K::eq, (&key, &other), false)
}

/// Every comparison of `key` with the key of a record of `records` from
/// index `from` on can say that they are not equal.
pub open spec fn misses_from<K: PartialEq, V>(records: Seq<(K, V)>, from: int, key: K) -> bool {
    forall|j: int| from <= j < records.len() ==> miss(key, (#[trigger] records[j]).0)
}

/// The index of the most recent of `records` whose key `key` equals, if there
/// is one.
pub open spec fn last_match<K: PartialEq, V>(records: Seq<(K, V)>, key: K) -> Option<int>
    decreases records.len(),
{
    if records.len() == 0 {
        None
    } else if key.eq_spec(&records.last().0) {
        Some(records.len() - 1)
    } else {
        last_match(records.drop_last(), key)
    }
}

/// The frame and index of the most recent record whose key `key` equals,
/// among the first `i` records of frame `f` and all records of the frames
/// that enclose it.
pub open spec fn find_below<K: PartialEq, V>(
    frames: Seq<Seq<(K, V)>>,
    f: int,
    i: int,
    key: K,
) -> Option<(int, int)>
    decreases f,
{
    if f < 0 {
        None
    } else {
        match last_match(frames[f].take(i), key) {
            Some(j) => Some((f, j)),
            None => if f == 0 {
                None
            } else {
                find_below(frames, f - 1, frames[f - 1].len() as int, key)
            },
        }
    }
}

/// What [`last_match`] finds shadows every later record: it has the key, and
/// no record after it has.
pub proof fn lemma_last_match<K: PartialEq, V>(records: Seq<(K, V)>, key: K)
    ensures
        match last_match(records, key) {
            Some(i) => {
                &&& 0 <= i < records.len()
                &&& key.eq_spec(&records[i].0)
                &&& forall|j: int| i < j < records.len() ==> !key.eq_spec(&(#[trigger] records[j]).0)
            },
            None => forall|j: int| 0 <= j < records.len() ==> !key.eq_spec(&(#[trigger] records[j]).0),
        },
    decreases records.len(),
{
    if records.len() > 0 && !key.eq_spec(&records.last().0) {
        lemma_last_match(records.drop_last(), key);
        let rest = records.drop_last();
        match last_match(rest, key) {
            Some(i) => {
                assert forall|j: int| i < j < records.len() implies !key.eq_spec(
                    &(#[trigger] records[j]).0,
                ) by {
                    if j < rest.len() {
                        assert(rest[j] == records[j]);
                    }
                }
            },
            None => {
                assert forall|j: int| 0 <= j < records.len() implies !key.eq_spec(
                    &(#[trigger] records[j]).0,
                ) by {
                    if j < rest.len() {
                        assert(rest[j] == records[j]);
                    }
                }
            },
        }
    }
}

impl<K: PartialEq, V> StackModel<(K, V)> {
    /// The index, in the current frame, of the most recent record with `key`.
    pub open spec fn find_in_frame(self, key: K) -> Option<int> {
        last_match(self.frames.last(), key)
    }

    /// The frame and index of the most recent record with `key` in any live
    /// frame.
    pub open spec fn find_in_stack(self, key: K) -> Option<(int, int)> {
        find_below(self.frames, self.top(), self.frames.last().len() as int, key)
    }
}

impl<T> StackModel<T> {
    /// Every live frame has a header, and the root frame is live.
    pub open spec fn wf(self) -> bool {
        self.frames.len() == self.headers.len() && self.frames.len() >= 1
    }

    /// The bump position of the current frame stands in a block of the chain,
    /// whose blocks can be counted.
    pub open spec fn in_chain(self) -> bool {
        self.cursor().block < self.tails.len() <= usize::MAX
    }

    /// The state after each of `values` was pushed in turn.
    pub open spec fn push_all(self, values: Seq<T>) -> Self
        decreases values.len(),
    {
        if values.len() == 0 {
            self
        } else {
            self.push_all(values.drop_last()).push(values.last())
        }
    }

    /// The number of blocks in the chain.
    pub open spec fn block_count(self) -> nat {
        self.tails.len()
    }

    /// The depth of the current frame.
    pub open spec fn top(self) -> int {
        self.headers.len() - 1
    }

    /// The bump position of the current frame.
    pub open spec fn cursor(self) -> Position {
        self.headers.last().current_frame_ptr
    }

    /// The bump position after one more record: past the record, which is
    /// placed after its padding in the current block if it fits there and at
    /// the start of the next block if not.
    pub open spec fn cursor_after_record(self) -> Position {
        let past = spec_past(
            self.cursor(),
            self.layout.size as int,
            self.layout.align as int,
            self.capacity,
        );
        Position { block: past.block, offset: past.offset, slot: (past.slot + 1) as usize }
    }

    /// The slot that the next record will take.
    pub open spec fn next_slot(self) -> Position {
        spec_place(self.cursor(), self.layout.size as int, self.layout.align as int, self.capacity)
    }

    /// The state after `value` was pushed into the current frame.
    pub open spec fn push(self, value: T) -> Self {
        let after = self.cursor_after_record();
        StackModel {
            frames: self.frames.update(self.top(), self.frames.last().push(value)),
            headers: self.headers.update(
                self.top(),
                StackFrameHeader { current_frame_ptr: after, ..self.headers.last() },
            ),
            tails: grown_tails(
                self.tails,
                self.cursor(),
                self.layout.size as int,
                self.layout.align as int,
                self.capacity,
            ),
            ..self
        }
    }

    /// The header of a frame opened now: it is placed like an item of the size
    /// and alignment of a header, and the new frame starts just past it.
    pub open spec fn next_header(self) -> StackFrameHeader {
        let past = spec_past(
            self.cursor(),
            FRAME_HEADER_SIZE as int,
            FRAME_HEADER_ALIGN as int,
            self.capacity,
        );
        StackFrameHeader {
            previous_frame: Some(self.top() as usize),
            current_frame_ptr: past,
            start: past,
            padding: spec_padding(past.offset as int, self.layout.align as int) as usize,
            generation: self.next_stamp,
        }
    }

    /// The state after a frame was opened inside the current one.
    pub open spec fn open_frame(self) -> Self {
        let header = self.next_header();
        StackModel {
            frames: self.frames.push(Seq::empty()),
            headers: self.headers.push(header),
            tails: grown_tails(
                self.tails,
                self.cursor(),
                FRAME_HEADER_SIZE as int,
                FRAME_HEADER_ALIGN as int,
                self.capacity,
            ),
            next_stamp: (self.next_stamp + 1) as u64,
            ..self
        }
    }

    /// The state after the record at index `i` of the frame at depth `f` was
    /// replaced by `value`.
    pub open spec fn write(self, f: int, i: int, value: T) -> Self {
        StackModel { frames: self.frames.update(f, self.frames[f].update(i, value)), ..self }
    }

    /// The records that closing the current frame releases, in the order in
    /// which they are released: the most recent first.
    pub open spec fn released(self) -> Seq<T> {
        self.frames.last().reverse()
    }

    /// The records that tearing the whole stack down releases, in the order
    /// in which they are released.
    pub open spec fn released_all(self) -> Seq<T> {
        release_order(self.frames)
    }

    /// The listing of the whole stack, from the most recent record of the
    /// current frame down to the header of the root.
    pub open spec fn listed(self) -> Seq<(int, int)> {
        listing(self.frames, self.top(), self.frames.last().len() as int)
    }

    /// The state after the current frame was closed: the enclosing frame is
    /// current again, as it was left. No block leaves the chain.
    pub open spec fn close_frame(self) -> Self {
        StackModel { frames: self.frames.drop_last(), headers: self.headers.drop_last(), ..self }
    }
}

} // verus!
