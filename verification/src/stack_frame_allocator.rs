//! The value engine: a stack of frames of values over a block chain, with the
//! protocol by which values are pushed, visited backwards and released frame
//! by frame. The dictionary engine is built on it.

use vstd::prelude::*;
use crate::block_chain::{
    ensure_space, flat, lemma_grown, lemma_linked_tails, linked, linked_tails, spec_grown,
    spec_past, spec_place, tails_of, Block, BlockTail,
};
use crate::layout::{
    is_aligned, lemma_padding_is_least, padding, span, spec_padding, RecordLayout,
    BLOCK_TAIL_SIZE, FRAME_HEADER_ALIGN, FRAME_HEADER_SIZE,
};
use crate::model::{listing, release_order, StackModel};
use crate::stack_frame_header::{not_after, Peek, Position, StackFrameHeader};
use crate::stack_ref::{Line, StackRef};
use crate::stack_size::StackSize;

mod proofs;

verus! {

/// A position of frame `h` at which the byte offset and the slot agree:
/// records start at the frame's boundary in the header's block and at offset
/// zero in later blocks, and follow each other at the distance of one record.
/// No position rests at the start of a later block: the end of the block
/// before stands for it.
spec fn on_grid(
    layout: RecordLayout,
    h: StackFrameHeader,
    block: int,
    slot: int,
    offset: int,
) -> bool {
    if block == h.start.block {
        ||| slot == h.start.slot && (offset == h.start.offset || offset == h.boundary())
        ||| {
            &&& slot > h.start.slot
            &&& offset == h.boundary() + span(slot - h.start.slot, layout.size as int)
            &&& is_aligned(offset, layout.align as int)
        }
    } else {
        &&& block > h.start.block
        &&& slot >= 1
        &&& offset == span(slot, layout.size as int)
        &&& is_aligned(offset, layout.align as int)
    }
}

/// The backward link of block `b + 1` leads to the end of the records of
/// frame `h` in block `b`.
spec fn crossing_wf<T>(
    layout: RecordLayout,
    blocks: Seq<Block<T>>,
    h: StackFrameHeader,
    b: int,
) -> bool {
    on_grid(
        layout,
        h,
        b,
        blocks[b].slots@.len() as int,
        blocks[b + 1].tail.prev_block_bytes_used as int,
    )
}

/// A stack of frames of records of type `T`, stored in a chain of blocks of
/// one size.
pub struct StackFrameAllocator<T> {
    size: StackSize,
    layout: RecordLayout,
    blocks: Vec<Block<T>>,
    frames: Vec<StackFrameHeader>,
    next_generation: u64,
}

impl<T> StackFrameAllocator<T> {
    /// The state of the arena as its callers can observe it.
    pub closed spec fn view(&self) -> StackModel<T> {
        StackModel {
            frames: Seq::new(self.frames@.len(), |f: int| self.frame_records(f)),
            headers: self.frames@,
            tails: tails_of(self.blocks@),
            capacity: self.size.spec_bytes() - BLOCK_TAIL_SIZE,
            layout: self.layout,
            next_stamp: self.next_generation,
        }
    }

    /// The state of a new arena: one block, and an empty root frame whose
    /// header stands at the start of that block.
    pub open spec fn initial(size: StackSize) -> StackModel<T> {
        let start = Position { block: 0, offset: FRAME_HEADER_SIZE, slot: 0 };
        let layout = RecordLayout::spec_of::<T>();
        StackModel {
            frames: seq![Seq::empty()],
            headers: seq![
                StackFrameHeader {
                    previous_frame: None,
                    current_frame_ptr: start,
                    start,
                    padding: spec_padding(FRAME_HEADER_SIZE as int, layout.align as int) as usize,
                    generation: 0,
                },
            ],
            tails: seq![BlockTail { prev_block: None, prev_block_bytes_used: 0, next_block: None }],
            capacity: size.spec_bytes() - BLOCK_TAIL_SIZE,
            layout,
            next_stamp: 1,
        }
    }

    /// The invariant of the arena.
    #[verifier::opaque]
    pub closed spec fn wf(&self) -> bool {
        let top = self.frames@.last();
        &&& self.layout.wf()
        &&& self.size.spec_bytes() >= BLOCK_TAIL_SIZE + FRAME_HEADER_SIZE
        &&& self.blocks@.len() >= 1
        &&& self.frames@.len() >= 1
        &&& linked(self.blocks@)
        &&& self.frames@[0].start == (Position { block: 0, offset: FRAME_HEADER_SIZE, slot: 0 })
        &&& forall|f: int| 0 <= f < self.frames@.len() ==> #[trigger] self.frame_wf(f)
        &&& forall|g: int| 1 <= g < self.frames@.len() ==> #[trigger] self.link_wf(g)
        &&& forall|f: int, g: int|
            0 <= f < g < self.frames@.len() ==> {
                &&& not_after(
                    (#[trigger] self.frames@[f]).current_frame_ptr,
                    (#[trigger] self.frames@[g]).start,
                )
                &&& self.frames@[f].generation < self.frames@[g].generation
            }
        &&& top.current_frame_ptr.slot == self.blocks@[top.current_frame_ptr.block as int].slots@.len()
        &&& forall|b: int|
            top.current_frame_ptr.block < b < self.blocks@.len() ==> (#[trigger] self.blocks@[b]).slots@.len()
                == 0
        &&& top.generation < self.next_generation
    }

    /// The configured size of a block.
    pub closed spec fn block_size(&self) -> StackSize {
        self.size
    }

    /// Whether `r` names a record of a live frame of this arena.
    pub closed spec fn holds(&self, r: StackRef) -> bool {
        let h = self.frames@[r.frame as int];
        &&& r.frame < self.frames@.len()
        &&& r.generation == h.generation
        &&& h.start.block <= r.block <= h.current_frame_ptr.block
        &&& r.block == h.start.block ==> r.slot >= h.start.slot
        &&& r.block == h.current_frame_ptr.block ==> r.slot < h.current_frame_ptr.slot
        &&& r.block < h.current_frame_ptr.block ==> r.slot < self.blocks@[r.block as int].slots@.len()
    }

    /// The index, within its frame, of the record that `r` names.
    pub closed spec fn index_of(&self, r: StackRef) -> int {
        flat(self.blocks@, r.block as int).len() + r.slot - self.gidx(
            self.frames@[r.frame as int].start,
        )
    }

    /// Every handle that holds in this arena holds in `after` and names the
    /// record at the same index.
    pub open spec fn keeps_handles(&self, after: &Self) -> bool {
        forall|r: StackRef| #[trigger]
            self.holds(r) ==> after.holds(r) && after.index_of(r) == self.index_of(r)
    }

    /// Whether this arena is a later state of `before` in which the first `n`
    /// frames are as they were: their headers, their records, and the handles
    /// to their records.
    pub open spec fn continues(&self, before: &Self, n: int) -> bool {
        &&& self.wf()
        &&& self.block_size() == before.block_size()
        &&& self@.capacity == before@.capacity
        &&& self@.layout == before@.layout
        &&& self@.headers.len() >= n
        &&& before@.headers.len() >= n
        &&& self@.headers.take(n) == before@.headers.take(n)
        &&& self@.frames.take(n) == before@.frames.take(n)
        &&& self@.next_stamp >= before@.next_stamp
        &&& self@.block_count() >= before@.block_count()
        &&& forall|r: StackRef|
            r.frame < n ==> (#[trigger] self.holds(r) <==> before.holds(r))
        &&& forall|r: StackRef|
            r.frame < n && before.holds(r) ==> #[trigger] self.index_of(r) == before.index_of(r)
    }

    /// Whether `p` is a place that a backward visit of its frame can reach.
    pub closed spec fn peek_wf(&self, p: Peek) -> bool {
        let h = self.frames@[p.frame as int];
        let at = p.position;
        &&& p.frame < self.frames@.len()
        &&& h.start.block <= at.block <= h.current_frame_ptr.block
        &&& on_grid(self.layout, h, at.block as int, at.slot as int, at.offset as int)
        &&& at.block == h.current_frame_ptr.block ==> at.slot <= h.current_frame_ptr.slot
        &&& at.block < h.current_frame_ptr.block ==> at.slot <= self.blocks@[at.block as int].slots@.len()
    }

    /// The number of records of its frame that lie before `p`.
    pub closed spec fn peek_index(&self, p: Peek) -> int {
        self.gidx(p.position) - self.gidx(self.frames@[p.frame as int].start)
    }

    /// Whether `line` is the line that the listing has for `at`.
    pub open spec fn lists(&self, line: Line, at: (int, int)) -> bool {
        match line {
            Line::Header => at.1 < 0,
            Line::Entry(r) => self.holds(r) && r.frame == at.0 && self.index_of(r) == at.1,
        }
    }

    /// The index of a position among all records of the chain, oldest first.
    spec fn gidx(&self, p: Position) -> int {
        flat(self.blocks@, p.block as int).len() + p.slot
    }

    /// The records of the frame at depth `f`, oldest first.
    spec fn frame_records(&self, f: int) -> Seq<T> {
        let h = self.frames@[f];
        flat(self.blocks@, h.current_frame_ptr.block + 1).subrange(
            self.gidx(h.start),
            self.gidx(h.current_frame_ptr),
        )
    }

    /// The frame at depth `f` by itself: its header names the frame below it,
    /// its bump position stands on its grid in a block of the chain, and the
    /// backward link of every block that it has left behind leads to the end
    /// of its records in the block before.
    spec fn frame_wf(&self, f: int) -> bool {
        let h = self.frames@[f];
        &&& h.previous_frame == (if f == 0 {
            None
        } else {
            Some((f - 1) as usize)
        })
        &&& h.start.block <= h.current_frame_ptr.block < self.blocks@.len()
        &&& h.start.offset >= FRAME_HEADER_SIZE
        &&& h.padding == spec_padding(h.start.offset as int, self.layout.align as int)
        &&& h.current_frame_ptr.slot <= self.blocks@[h.current_frame_ptr.block as int].slots@.len()
        &&& on_grid(
            self.layout,
            h,
            h.current_frame_ptr.block as int,
            h.current_frame_ptr.slot as int,
            h.current_frame_ptr.offset as int,
        )
        &&& forall|b: int|
            h.start.block <= b < h.current_frame_ptr.block ==> #[trigger] crossing_wf(
                self.layout,
                self.blocks@,
                h,
                b,
            )
    }

    /// How the frame at depth `g` follows the one before it.
    spec fn link_wf(&self, g: int) -> bool {
        let p = self.frames@[g - 1].current_frame_ptr;
        let c = self.frames@[g].start;
        ||| c.block == p.block && c.slot == p.slot
        ||| c.block == p.block + 1 && c.slot == 0 && self.blocks@[p.block as int].slots@.len()
            == p.slot
    }

    /// Whether the current frame holds no record, told from its header and
    /// its bump position.
    spec fn at_start(&self) -> bool {
        let h = self.frames@.last();
        h.current_frame_ptr.block == h.start.block && h.current_frame_ptr.offset <= h.boundary()
    }

    /// The place reached by stepping back over one record from `p`.
    spec fn stepped(&self, p: Peek) -> Peek {
        let at = p.position;
        let offset = at.offset - self.layout.size;
        Peek {
            frame: p.frame,
            position: if offset == 0 {
                Position {
                    block: (at.block - 1) as usize,
                    offset: self.blocks@[at.block as int].tail.prev_block_bytes_used,
                    slot: self.blocks@[at.block - 1].slots@.len() as usize,
                }
            } else {
                Position { block: at.block, offset: offset as usize, slot: (at.slot - 1) as usize }
            },
        }
    }

    /// What an operation on the frames from depth `n` on leaves alone: the
    /// headers below depth `n`, whose bump positions are not after `lim`, the
    /// records before `lim`, and the tails up to the block of `lim`.
    spec fn kept_below(&self, after: &Self, n: int, lim: Position) -> bool {
        &&& after.layout == self.layout
        &&& after.size == self.size
        &&& 0 <= n <= self.frames@.len()
        &&& n <= after.frames@.len()
        &&& forall|f: int|
            0 <= f < n ==> (#[trigger] after.frames@[f]) == self.frames@[f] && not_after(
                self.frames@[f].current_frame_ptr,
                lim,
            )
        &&& lim.block < self.blocks@.len() <= after.blocks@.len()
        &&& forall|i: int|
            0 <= i < lim.block ==> (#[trigger] after.blocks@[i]).slots@ == self.blocks@[i].slots@
        &&& forall|i: int|
            0 <= i <= lim.block ==> (#[trigger] after.blocks@[i]).tail.prev_block_bytes_used
                == self.blocks@[i].tail.prev_block_bytes_used
        &&& lim.slot <= self.blocks@[lim.block as int].slots@.len()
        &&& lim.slot <= after.blocks@[lim.block as int].slots@.len()
        &&& forall|k: int|
            0 <= k < lim.slot ==> #[trigger] after.blocks@[lim.block as int].slots@[k]
                == self.blocks@[lim.block as int].slots@[k]
    }

    /// The arena `after` is this arena after `value` was stored at the bump
    /// position of the current frame.
    spec fn pushed(&self, after: &Self, value: T) -> bool {
        let t = self.frames@.len() - 1;
        let at = self.frames@[t].current_frame_ptr;
        let size = self.layout.size as int;
        let align = self.layout.align as int;
        let capacity = self.size.spec_bytes() - BLOCK_TAIL_SIZE;
        let placed = spec_place(at, size, align, capacity);
        let past = spec_past(at, size, align, capacity);
        &&& after.layout == self.layout
        &&& after.size == self.size
        &&& after.next_generation == self.next_generation
        &&& after.frames@ == self.frames@.update(
            t,
            StackFrameHeader {
                current_frame_ptr: Position {
                    block: past.block,
                    offset: past.offset,
                    slot: (placed.slot + 1) as usize,
                },
                ..self.frames@[t]
            },
        )
        &&& exists|grown: Seq<Block<T>>|
            {
                &&& spec_grown(self.blocks@, at, size, align, capacity, grown)
                &&& placed.block < grown.len()
                &&& after.blocks@.len() == grown.len()
                &&& #[trigger] after.blocks@[placed.block as int].slots@ == grown[placed.block as int].slots@.push(
                    value,
                )
                &&& after.blocks@[placed.block as int].tail == grown[placed.block as int].tail
                &&& forall|i: int|
                    0 <= i < grown.len() && i != placed.block ==> after.blocks@[i] == grown[i]
            }
    }

    /// The arena `after` is this arena after a header was placed at the bump
    /// position of the current frame.
    spec fn opened(&self, after: &Self) -> bool {
        let t = self.frames@.len() - 1;
        let at = self.frames@[t].current_frame_ptr;
        let capacity = self.size.spec_bytes() - BLOCK_TAIL_SIZE;
        let past = spec_past(at, FRAME_HEADER_SIZE as int, FRAME_HEADER_ALIGN as int, capacity);
        &&& after.layout == self.layout
        &&& after.size == self.size
        &&& after.next_generation == self.next_generation + 1
        &&& after.frames@ == self.frames@.push(
            StackFrameHeader {
                previous_frame: Some(t as usize),
                current_frame_ptr: past,
                start: past,
                padding: spec_padding(past.offset as int, self.layout.align as int) as usize,
                generation: self.next_generation,
            },
        )
        &&& spec_grown(
            self.blocks@,
            at,
            FRAME_HEADER_SIZE as int,
            FRAME_HEADER_ALIGN as int,
            capacity,
            after.blocks@,
        )
    }

    /// The arena `after` is this arena after the most recent record of the
    /// current frame was taken out and the bump position stepped back over it.
    spec fn popped(&self, after: &Self) -> bool {
        let t = self.frames@.len() - 1;
        let at = self.frames@[t].current_frame_ptr;
        let b = at.block as int;
        let offset = at.offset - self.layout.size;
        &&& after.layout == self.layout
        &&& after.size == self.size
        &&& after.next_generation == self.next_generation
        &&& after.blocks@.len() == self.blocks@.len()
        &&& forall|i: int|
            0 <= i < self.blocks@.len() && i != b ==> (#[trigger] after.blocks@[i]) == self.blocks@[i]
        &&& after.blocks@[b].slots@ == self.blocks@[b].slots@.drop_last()
        &&& after.blocks@[b].tail == self.blocks@[b].tail
        &&& after.frames@ == self.frames@.update(
            t,
            StackFrameHeader {
                current_frame_ptr: if offset == 0 {
                    Position {
                        block: (b - 1) as usize,
                        offset: self.blocks@[b].tail.prev_block_bytes_used,
                        slot: self.blocks@[b - 1].slots@.len() as usize,
                    }
                } else {
                    Position { block: at.block, offset: offset as usize, slot: (at.slot - 1) as usize }
                },
                ..self.frames@[t]
            },
        )
    }

    /// The arena `after` is this arena with the record that `r` names replaced
    /// by `value`.
    spec fn written(&self, after: &Self, r: StackRef, value: T) -> bool {
        let b = r.block as int;
        &&& after.layout == self.layout
        &&& after.size == self.size
        &&& after.next_generation == self.next_generation
        &&& after.frames@ == self.frames@
        &&& after.blocks@.len() == self.blocks@.len()
        &&& forall|i: int|
            0 <= i < self.blocks@.len() && i != b ==> (#[trigger] after.blocks@[i]) == self.blocks@[i]
        &&& after.blocks@[b].slots@ == self.blocks@[b].slots@.update(r.slot as int, value)
        &&& after.blocks@[b].tail == self.blocks@[b].tail
    }

    /// Every stamp in use is older than the next one, and stamps grow with
    /// the depth.
    pub proof fn lemma_model(&self)
        requires
            self.wf(),
        ensures
            forall|f: int|
                0 <= f < self@.headers.len() ==> (#[trigger] self@.headers[f]).generation
                    < self@.next_stamp,
            forall|f: int, g: int|
                0 <= f < g < self@.headers.len() ==> (#[trigger] self@.headers[f]).generation < (
                #[trigger] self@.headers[g]).generation,
            forall|f: int|
                0 <= f < self@.headers.len() ==> (#[trigger] self@.headers[f]).previous_frame == (
                if f == 0 {
                    None
                } else {
                    Some((f - 1) as usize)
                }),
            self@.wf(),
            self@.headers.len() <= usize::MAX,
            self@.in_chain(),
            linked_tails(self@.tails),
            self@.capacity + BLOCK_TAIL_SIZE == self.block_size().spec_bytes(),
            self@.capacity >= FRAME_HEADER_SIZE,
            self@.layout.wf(),
    {
        self.lemma_basics();
        lemma_linked_tails(self.blocks@);
        reveal(StackFrameAllocator::wf);
        let t = self.frames@.len() - 1;
        assert(self.frame_wf(t));
        assert forall|f: int| 0 <= f < self@.headers.len() implies (
        #[trigger] self@.headers[f]).generation < self@.next_stamp by {
            if f < t {
                assert(self.frames@[f].generation < self.frames@[t].generation);
            }
        }
        assert forall|f: int| 0 <= f < self@.headers.len() implies (
        #[trigger] self@.headers[f]).previous_frame == (if f == 0 {
            None
        } else {
            Some((f - 1) as usize)
        }) by {
            assert(self.frame_wf(f));
        }
    }

    /// What continues continues: a later state of a later state is a later
    /// state, for the frames that both leave as they were.
    pub proof fn lemma_continues_on(&self, between: &Self, before: &Self, n: int)
        requires
            0 <= n,
            self.continues(between, n),
            between.continues(before, n),
        ensures
            self.continues(before, n),
    {
        assert forall|r: StackRef| r.frame < n implies (#[trigger] self.holds(r) <==> before.holds(
            r,
        )) by {
            assert(between.holds(r) <==> before.holds(r));
        }
        assert forall|r: StackRef| r.frame < n && before.holds(r) implies #[trigger] self.index_of(
            r,
        ) == before.index_of(r) by {
            assert(between.holds(r) <==> before.holds(r));
            assert(between.index_of(r) == before.index_of(r));
        }
    }

    /// What leaves `n` frames as they were leaves the first `m` of them as they
    /// were.
    pub proof fn lemma_continues_below(&self, before: &Self, n: int, m: int)
        requires
            0 <= m <= n,
            self.continues(before, n),
            before.wf(),
        ensures
            self.continues(before, m),
    {
        self.lemma_model();
        before.lemma_model();
        assert(self@.headers.take(m) =~= self@.headers.take(n).take(m));
        assert(before@.headers.take(m) =~= before@.headers.take(n).take(m));
        assert(self@.frames.take(m) =~= self@.frames.take(n).take(m));
        assert(before@.frames.take(m) =~= before@.frames.take(n).take(m));
    }

    /// A handle that holds names a record of the frame at its depth, which
    /// carries its stamp.
    pub proof fn lemma_handle(&self, r: StackRef)
        requires
            self.wf(),
            self.holds(r),
        ensures
            r.frame < self@.headers.len(),
            r.generation == self@.headers[r.frame as int].generation,
            0 <= self.index_of(r) < self@.frames[r.frame as int].len(),
    {
        self.lemma_holds(r);
    }

    /// A place of a visit has between none and all of the records of its frame
    /// before it.
    pub proof fn lemma_peek_bounds(&self, p: Peek)
        requires
            self.wf(),
            self.peek_wf(p),
        ensures
            p.frame < self@.frames.len(),
            0 <= self.peek_index(p) <= self@.frames[p.frame as int].len(),
    {
        self.lemma_peek(p);
    }
}

impl<T> StackFrameAllocator<T> {
    /// An arena with blocks of `size` and an empty root frame, or `None` when a
    /// block of that size cannot hold its tail and the root header.
    pub fn with_size(size: StackSize) -> (made: Option<Self>)
        ensures
            made is Some <==> size.spec_bytes() >= BLOCK_TAIL_SIZE + FRAME_HEADER_SIZE,
            made is Some ==> {
                let arena = made->Some_0;
                &&& arena.wf()
                &&& arena@ == Self::initial(size)
                &&& arena.block_size() == size
            },
    {
        if size.bytes() < BLOCK_TAIL_SIZE + FRAME_HEADER_SIZE {
            return None;
        }
        let layout = RecordLayout::of::<T>();
        let start = Position { block: 0, offset: FRAME_HEADER_SIZE, slot: 0 };
        let root = StackFrameHeader {
            previous_frame: None,
            current_frame_ptr: start,
            start,
            padding: padding(FRAME_HEADER_SIZE, layout.align),
            generation: 0,
        };
        let first = Block {
            slots: Vec::new(),
            tail: BlockTail { prev_block: None, prev_block_bytes_used: 0, next_block: None },
        };
        let mut blocks: Vec<Block<T>> = Vec::new();
        blocks.push(first);
        let mut frames: Vec<StackFrameHeader> = Vec::new();
        frames.push(root);
        let arena = StackFrameAllocator { size, layout, blocks, frames, next_generation: 1 };
        proof {
            reveal(StackFrameAllocator::wf);
            assert(arena.frame_wf(0));
            assert(flat(arena.blocks@, 0) =~= Seq::<T>::empty());
            assert(flat(arena.blocks@, 1) =~= Seq::<T>::empty());
            assert(arena.frame_records(0) =~= Seq::<T>::empty());
            assert(arena@.frames =~= seq![Seq::<T>::empty()]);
            assert(arena@.headers =~= Self::initial(size).headers);
            assert(arena@.tails =~= Self::initial(size).tails);
        }
        Some(arena)
    }

    /// An arena with blocks of the default size and an empty root frame.
    pub fn new() -> (arena: Self)
        ensures
            arena.wf(),
            arena.block_size().spec_bytes() == 1024,
            arena@ == Self::initial(arena.block_size()),
    {
        let made = Self::with_size(StackSize::default());
        made.unwrap()
    }

    /// The configured size of a block.
    pub fn size(&self) -> (size: StackSize)
        ensures
            size == self.block_size(),
    {
        self.size
    }

    /// The usable bytes of a block.
    pub fn real_size(&self) -> (usable: StackSize)
        requires
            self.wf(),
        ensures
            usable.spec_bytes() == self@.capacity,
    {
        proof {
            self.lemma_basics();
        }
        StackSize::from_num_bytes(self.size.bytes() - BLOCK_TAIL_SIZE)
    }

    /// The number of live frames.
    pub fn depth(&self) -> (depth: usize)
        requires
            self.wf(),
        ensures
            depth == self@.headers.len(),
            depth >= 1,
    {
        proof {
            self.lemma_basics();
        }
        self.frames.len()
    }

    /// The number of blocks in the chain.
    pub fn block_count(&self) -> (count: usize)
        requires
            self.wf(),
        ensures
            count == self@.block_count(),
            count >= 1,
    {
        proof {
            self.lemma_basics();
        }
        self.blocks.len()
    }

    /// The bytes in use in the block of the bump position, counted from the
    /// start of that block.
    pub fn buffer_bytes_used(&self) -> (used: usize)
        requires
            self.wf(),
        ensures
            used == self@.cursor().offset,
    {
        proof {
            self.lemma_basics();
        }
        self.frames[self.frames.len() - 1].current_frame_ptr.offset
    }

    /// The header of the current frame.
    pub fn current_frame(&self) -> (header: StackFrameHeader)
        requires
            self.wf(),
        ensures
            header == self@.headers.last(),
    {
        proof {
            self.lemma_basics();
        }
        self.frames[self.frames.len() - 1]
    }

    /// The tail of the block in which the bump position stands.
    pub fn get_block_tail(&self) -> (tail: BlockTail)
        requires
            self.wf(),
        ensures
            tail == self@.tails[self@.cursor().block as int],
    {
        proof {
            self.lemma_basics();
        }
        let block: usize = self.frames[self.frames.len() - 1].current_frame_ptr.block;
        self.blocks[block].tail
    }

    /// The stamp that the next frame will get. A frame can be opened as long
    /// as this is not the largest stamp.
    pub fn next_stamp(&self) -> (stamp: u64)
        ensures
            stamp == self@.next_stamp,
    {
        self.next_generation
    }

    /// Pushes `value` into the current frame and returns a handle to it.
    pub fn push(&mut self, value: T) -> (handle: StackRef)
        requires
            old(self).wf(),
        ensures
            final(self).wf(),
            final(self)@ == old(self)@.push(value),
            final(self).block_size() == old(self).block_size(),
            handle == (StackRef {
                generation: old(self)@.headers.last().generation,
                frame: old(self)@.top() as usize,
                block: old(self)@.next_slot().block,
                slot: old(self)@.next_slot().slot,
            }),
            final(self).holds(handle),
            final(self).index_of(handle) == old(self)@.frames.last().len(),
            old(self).keeps_handles(final(self)),
            forall|r: StackRef| #[trigger] final(self).holds(r) ==> old(self).holds(r) || r == handle,
            final(self).continues(old(self), old(self)@.top()),
    {
        let ghost pre = *self;
        proof {
            pre.lemma_basics();
        }
        let t: usize = self.frames.len() - 1;
        let at: Position = self.frames[t].current_frame_ptr;
        let generation: u64 = self.frames[t].generation;
        let capacity: usize = self.size.bytes() - BLOCK_TAIL_SIZE;
        let (placed, past) = ensure_space(
            &mut self.blocks,
            at,
            self.layout.size,
            self.layout.align,
            capacity,
        );
        let ghost grown = self.blocks@;
        proof {
            lemma_padding_is_least(at.offset as int, self.layout.align as int);
            lemma_grown(
                pre.blocks@,
                at,
                self.layout.size as int,
                self.layout.align as int,
                capacity as int,
                grown,
            );
        }
        self.blocks[placed.block].slots.push(value);
        let slot_after: usize = self.blocks[placed.block].slots.len();
        let after = Position { block: past.block, offset: past.offset, slot: slot_after };
        self.frames[t].current_frame_ptr = after;
        proof {
            assert(pre.pushed(self, value)) by {
                assert(self.blocks@[placed.block as int].slots@ == grown[placed.block as int].slots@.push(
                    value,
                ));
            }
            pre.lemma_push(self, value);
            pre.lemma_push_handles(self, value);
            assert(self@.headers.take(t as int) =~= pre@.headers.take(t as int));
            assert(self@.frames.take(t as int) =~= pre@.frames.take(t as int));
        }
        StackRef { generation, frame: t, block: placed.block, slot: placed.slot }
    }

    /// Opens a frame inside the current one. The caller ends it with
    /// [`StackFrameAllocator::end_frame`].
    pub fn new_frame(&mut self)
        requires
            old(self).wf(),
            old(self)@.next_stamp < u64::MAX,
        ensures
            final(self).wf(),
            final(self)@ == old(self)@.open_frame(),
            final(self).block_size() == old(self).block_size(),
            old(self).keeps_handles(final(self)),
            forall|r: StackRef| #[trigger] final(self).holds(r) ==> old(self).holds(r),
            final(self).continues(old(self), old(self)@.headers.len() as int),
    {
        let ghost pre = *self;
        proof {
            pre.lemma_basics();
        }
        let t: usize = self.frames.len() - 1;
        let at: Position = self.frames[t].current_frame_ptr;
        let capacity: usize = self.size.bytes() - BLOCK_TAIL_SIZE;
        let (_, past) = ensure_space(
            &mut self.blocks,
            at,
            FRAME_HEADER_SIZE,
            FRAME_HEADER_ALIGN,
            capacity,
        );
        let header = StackFrameHeader {
            previous_frame: Some(t),
            current_frame_ptr: past,
            start: past,
            padding: padding(past.offset, self.layout.align),
            generation: self.next_generation,
        };
        self.frames.push(header);
        self.next_generation = self.next_generation + 1;
        proof {
            pre.lemma_open(self);
            pre.lemma_open_handles(self);
            assert(self@.headers.take(t + 1) =~= pre@.headers.take(t + 1));
            assert(self@.frames.take(t + 1) =~= pre@.frames.take(t + 1));
            pre.lemma_links_grow(self);
        }
    }

    /// Opens a frame, runs `scope` once on the arena with that frame current,
    /// and closes every frame that is open above the caller's when `scope`
    /// returns, the innermost first. Returns the records that this released, in
    /// the order of their release: dropping what is returned runs their
    /// destructors most recent first. The caller's frames are afterwards as
    /// they were: `scope` may push, look up, and open and close frames of its
    /// own, but must leave the caller's frames alone.
    pub fn new_scope<F: FnOnce(&mut Self)>(&mut self, scope: F) -> (released: Vec<T>)
        requires
            old(self).wf(),
            old(self)@.next_stamp < u64::MAX,
            forall|child: &mut Self|
                child.wf() && child@ == old(self)@.open_frame() && child.block_size() == old(
                    self,
                ).block_size() && old(self).keeps_handles(child) && (forall|r: StackRef| #[trigger]
                    child.holds(r) ==> old(self).holds(r)) ==> #[trigger] scope.requires((child,)),
            forall|child: &mut Self| #[trigger]
                scope.ensures((child,), ()) ==> final(child).continues(
                    child,
                    child@.headers.len() - 1,
                ),
        ensures
            final(self).continues(old(self), old(self)@.headers.len() as int),
            final(self)@.headers == old(self)@.headers,
            final(self)@.frames == old(self)@.frames,
            forall|r: StackRef| #[trigger] final(self).holds(r) <==> old(self).holds(r),
            final(self)@.next_stamp > old(self)@.next_stamp,
            exists|child: &mut Self|
                {
                    &&& child.wf()
                    &&& child@ == old(self)@.open_frame()
                    &&& child.block_size() == old(self).block_size()
                    &&& old(self).keeps_handles(child)
                    &&& #[trigger] scope.ensures((child,), ())
                    &&& final(self)@.tails == final(child)@.tails
                    &&& final(self)@.next_stamp == final(child)@.next_stamp
                    &&& released@ == release_order(
                        final(child)@.frames.skip(old(self)@.headers.len() as int),
                    )
                },
    {
        let ghost pre = *self;
        proof {
            pre.lemma_model();
        }
        let depth: usize = self.depth();
        self.new_frame();
        let ghost opened = *self;
        scope(self);
        let ghost left = *self;
        proof {
            self.lemma_continues_on(&opened, &pre, depth as int);
            left.lemma_model();
        }
        let mut released: Vec<T> = Vec::new();
        while self.depth() > depth
            invariant
                pre.wf(),
                depth == pre@.headers.len(),
                depth >= 1,
                self.continues(&pre, depth as int),
                self@.next_stamp == left@.next_stamp,
                self@.tails == left@.tails,
                self@.frames.len() >= depth,
                left@.frames.len() >= depth,
                released@ + release_order(self@.frames.skip(depth as int)) == release_order(
                    left@.frames.skip(depth as int),
                ),
            decreases self@.headers.len(),
        {
            let ghost before = *self;
            let closed = self.end_frame();
            let mut records: Vec<T> = closed.unwrap();
            released.append(&mut records);
            proof {
                before.lemma_model();
                assert(self@ == before@.close_frame());
                self.lemma_continues_below(&before, self@.headers.len() as int, depth as int);
                self.lemma_continues_on(&before, &pre, depth as int);
                let above = before@.frames.skip(depth as int);
                assert(above.last() == before@.frames.last());
                assert(above.drop_last() =~= self@.frames.skip(depth as int));
                assert(release_order(above) == above.last().reverse() + release_order(
                    above.drop_last(),
                ));
                assert(released@ + release_order(self@.frames.skip(depth as int))
                    =~= release_order(left@.frames.skip(depth as int)));
            }
        }
        proof {
            self.lemma_model();
            assert(self@.headers =~= self@.headers.take(depth as int));
            assert(pre@.headers =~= pre@.headers.take(depth as int));
            assert(self@.frames =~= self@.frames.take(depth as int));
            assert(pre@.frames =~= pre@.frames.take(depth as int));
            assert forall|r: StackRef| #[trigger] self.holds(r) <==> pre.holds(r) by {
                if r.frame >= depth {
                    if self.holds(r) {
                        self.lemma_handle(r);
                    }
                    if pre.holds(r) {
                        pre.lemma_handle(r);
                    }
                }
            }
            assert(self@.frames.skip(depth as int) =~= Seq::<Seq<T>>::empty());
            assert(released@ =~= release_order(left@.frames.skip(depth as int)));
        }
        released
    }

    /// Closes the current frame: releases its records, the most recent first,
    /// and makes the enclosing frame current again. The root frame stays: with
    /// no other frame open nothing changes and `None` is returned.
    pub fn end_frame(&mut self) -> (released: Option<Vec<T>>)
        requires
            old(self).wf(),
        ensures
            final(self).wf(),
            final(self).block_size() == old(self).block_size(),
            old(self)@.headers.len() == 1 ==> released is None && final(self)@ == old(self)@,
            old(self)@.headers.len() > 1 ==> released is Some && released->Some_0@
                == old(self)@.released() && final(self)@ == old(self)@.close_frame(),
            forall|r: StackRef| #[trigger]
                final(self).holds(r) <==> old(self).holds(r) && (r.frame < old(self)@.top()
                    || old(self)@.headers.len() == 1),
            forall|r: StackRef| #[trigger]
                final(self).holds(r) ==> final(self).index_of(r) == old(self).index_of(r),
            final(self).continues(old(self), final(self)@.headers.len() as int),
    {
        proof {
            self.lemma_basics();
            assert(self@.headers.take(self@.headers.len() as int) =~= self@.headers);
            assert(self@.frames.take(self@.frames.len() as int) =~= self@.frames);
        }
        if self.frames.len() == 1 {
            return None;
        }
        let ghost pre = *self;
        let records = self.release_records();
        let ghost emptied = *self;
        self.frames.pop();
        proof {
            emptied.lemma_at_start();
            emptied.lemma_close(self);
            emptied.lemma_close_handles(self);
            let n = self@.headers.len() as int;
            assert(self@.headers.take(n) =~= pre@.headers.take(n));
            assert(self@.frames.take(n) =~= pre@.frames.take(n));
            assert forall|r: StackRef| r.frame < n && pre.holds(r) implies #[trigger] self.index_of(
                r,
            ) == pre.index_of(r) by {
                assert(emptied.holds(r));
                assert(self.holds(r));
            }
        }
        Some(records)
    }

    /// Whether the current frame holds no record: its bump position stands in
    /// the block of its header, at or before the place of its first record.
    pub fn frame_is_empty(&self) -> (empty: bool)
        requires
            self.wf(),
        ensures
            empty == (self@.frames.last().len() == 0),
    {
        proof {
            self.lemma_basics();
            self.lemma_at_start();
            reveal(StackFrameAllocator::wf);
            assert(self.frame_wf(self.frames@.len() - 1));
        }
        let t: usize = self.frames.len() - 1;
        let at: Position = self.frames[t].current_frame_ptr;
        let start: Position = self.frames[t].start;
        at.block == start.block && at.offset - start.offset <= self.frames[t].padding
    }

    /// Takes every record out of the current frame, the most recent first.
    fn release_records(&mut self) -> (released: Vec<T>)
        requires
            old(self).wf(),
        ensures
            final(self).wf(),
            final(self).block_size() == old(self).block_size(),
            released@ == old(self)@.released(),
            final(self)@.frames.last().len() == 0,
            final(self)@.close_frame() == old(self)@.close_frame(),
            final(self)@.headers.len() == old(self)@.headers.len(),
            forall|r: StackRef|
                r.frame < old(self)@.top() ==> (#[trigger] final(self).holds(r) <==> old(self).holds(
                    r,
                )),
            forall|r: StackRef|
                r.frame < old(self)@.top() && old(self).holds(r) ==> #[trigger] final(self).index_of(
                    r,
                ) == old(self).index_of(r),
    {
        let mut released: Vec<T> = Vec::new();
        let ghost frame = self@.frames.last();
        while !self.frame_is_empty()
            invariant
                self.wf(),
                self.block_size() == old(self).block_size(),
                self@.close_frame() == old(self)@.close_frame(),
                self@.headers.len() == old(self)@.headers.len(),
                frame == old(self)@.frames.last(),
                self@.frames.last().len() + released@.len() == frame.len(),
                self@.frames.last() == frame.take(self@.frames.last().len() as int),
                forall|i: int|
                    0 <= i < released@.len() ==> #[trigger] released@[i] == frame[frame.len() - 1
                        - i],
                forall|r: StackRef|
                    r.frame < old(self)@.top() ==> (#[trigger] self.holds(r) <==> old(self).holds(r)),
                forall|r: StackRef|
                    r.frame < old(self)@.top() && old(self).holds(r) ==> #[trigger] self.index_of(r)
                        == old(self).index_of(r),
            decreases self@.frames.last().len(),
        {
            let record = self.pop_record();
            released.push(record);
        }
        proof {
            assert(released@ =~= frame.reverse());
        }
        released
    }

    /// Takes the most recent record out of the current frame and steps the
    /// bump position back over it, following the backward link of the block
    /// when that was its first record.
    fn pop_record(&mut self) -> (record: T)
        requires
            old(self).wf(),
            old(self)@.frames.last().len() > 0,
        ensures
            final(self).wf(),
            final(self)@.close_frame() == old(self)@.close_frame(),
            final(self)@.headers.len() == old(self)@.headers.len(),
            final(self)@.frames.last() == old(self)@.frames.last().drop_last(),
            record == old(self)@.frames.last().last(),
            final(self).block_size() == old(self).block_size(),
            forall|r: StackRef|
                r.frame < old(self)@.top() ==> (#[trigger] final(self).holds(r) <==> old(self).holds(
                    r,
                )),
            forall|r: StackRef|
                r.frame < old(self)@.top() && old(self).holds(r) ==> #[trigger] final(self).index_of(
                    r,
                ) == old(self).index_of(r),
    {
        let ghost pre = *self;
        proof {
            pre.lemma_basics();
            pre.lemma_at_start();
            reveal(StackFrameAllocator::wf);
            assert(pre.frame_wf(pre.frames@.len() - 1));
            pre.lemma_span_of_cursor();
        }
        let t: usize = self.frames.len() - 1;
        let at: Position = self.frames[t].current_frame_ptr;
        let popped: Option<T> = self.blocks[at.block].slots.pop();
        let remaining: usize = at.offset - self.layout.size;
        let before: Position = if remaining == 0 {
            let prev: usize = self.blocks[at.block].tail.prev_block.unwrap();
            Position {
                block: prev,
                offset: self.blocks[at.block].tail.prev_block_bytes_used,
                slot: self.blocks[prev].slots.len(),
            }
        } else {
            Position { block: at.block, offset: remaining, slot: at.slot - 1 }
        };
        self.frames[t].current_frame_ptr = before;
        proof {
            assert(pre.popped(self));
            pre.lemma_pop(self);
            pre.lemma_pop_handles(self);
        }
        popped.unwrap()
    }

    /// Tears the whole stack down: closes every frame, the innermost first,
    /// then follows the forward links of the chain from its first block and
    /// releases every block. Returns the records in the order in which they
    /// were released, and the number of blocks released.
    pub fn teardown(self) -> (out: (Vec<T>, usize))
        requires
            self.wf(),
        ensures
            out.0@ == self@.released_all(),
            out.1 == self@.block_count(),
    {
        let mut stack = self;
        let mut released: Vec<T> = Vec::new();
        while stack.depth() > 1
            invariant
                stack.wf(),
                stack@.block_count() == self@.block_count(),
                released@ + release_order(stack@.frames) == release_order(self@.frames),
            decreases stack@.headers.len(),
        {
            let ghost before = stack;
            let closed = stack.end_frame();
            let mut records: Vec<T> = closed.unwrap();
            released.append(&mut records);
            proof {
                before.lemma_model();
                assert(release_order(before@.frames) == before@.frames.last().reverse()
                    + release_order(before@.frames.drop_last()));
                assert(released@ + release_order(stack@.frames) =~= release_order(self@.frames));
            }
        }
        let ghost root = stack;
        let mut records: Vec<T> = stack.release_records();
        released.append(&mut records);
        proof {
            root.lemma_model();
            assert(root@.frames.drop_last() =~= Seq::<Seq<T>>::empty());
            assert(release_order(root@.frames.drop_last()) =~= Seq::<T>::empty());
            assert(release_order(root@.frames) =~= root@.frames.last().reverse());
            assert(released@ =~= release_order(self@.frames));
        }
        let count: usize = stack.release_chain();
        (released, count)
    }

    /// Walks the chain forward from its first block and releases every block.
    /// Returns the number of blocks released.
    fn release_chain(self) -> (count: usize)
        requires
            self.wf(),
        ensures
            count == self@.block_count(),
    {
        proof {
            self.lemma_basics();
        }
        let mut count: usize = 0;
        let mut next: Option<usize> = Some(0);
        while next.is_some()
            invariant
                linked(self.blocks@),
                self.blocks@.len() <= usize::MAX,
                count <= self.blocks@.len(),
                next == (if count < self.blocks@.len() {
                    Some(count)
                } else {
                    None
                }),
            decreases self.blocks@.len() - count,
        {
            let block: usize = next.unwrap();
            next = self.blocks[block].tail.next_block;
            count = count + 1;
        }
        count
    }

    /// The record that `r` names, or `None` when `r` names no record of a
    /// live frame.
    pub fn get(&self, r: StackRef) -> (record: Option<&T>)
        requires
            self.wf(),
        ensures
            self.holds(r) ==> record == Some(&self@.frames[r.frame as int][self.index_of(r)]),
            !self.holds(r) ==> record is None,
    {
        if !self.check(r) {
            return None;
        }
        proof {
            self.lemma_holds(r);
        }
        Some(&self.blocks[r.block].slots[r.slot])
    }

    /// The record that `r` names, for writing, or `None` when `r` names no
    /// record of a live frame. What the caller leaves in the record is what
    /// the arena holds afterwards; nothing else changes.
    pub fn get_mut(&mut self, r: StackRef) -> (record: Option<&mut T>)
        requires
            old(self).wf(),
        ensures
            final(self).wf(),
            final(self).block_size() == old(self).block_size(),
            forall|q: StackRef| #[trigger] final(self).holds(q) <==> old(self).holds(q),
            old(self).keeps_handles(final(self)),
            record is Some <==> old(self).holds(r),
            record is Some ==> *record->Some_0 == old(self)@.frames[r.frame as int][old(
                self,
            ).index_of(r)] && final(self)@ == old(self)@.write(
                r.frame as int,
                old(self).index_of(r),
                *final(record->Some_0),
            ),
            record is None ==> final(self)@ == old(self)@,
    {
        if !self.check(r) {
            return None;
        }
        let ghost pre = *self;
        proof {
            assert forall|after: Self, value: T| #[trigger]
                pre.written(&after, r, value) implies after.wf() && after@ == pre@.write(
                r.frame as int,
                pre.index_of(r),
                value,
            ) && pre.keeps_handles(&after) && after.size == pre.size && (forall|q: StackRef| #[trigger]
                after.holds(q) <==> pre.holds(q)) by {
                pre.lemma_write(&after, r, value);
            }
        }
        Some(self.slot_mut(r))
    }

    /// Computes [`StackFrameAllocator::holds`].
    fn check(&self, r: StackRef) -> (ok: bool)
        requires
            self.wf(),
        ensures
            ok == self.holds(r),
    {
        if r.frame >= self.frames.len() {
            return false;
        }
        proof {
            reveal(StackFrameAllocator::wf);
            assert(self.frame_wf(r.frame as int));
        }
        let start: Position = self.frames[r.frame].start;
        let end: Position = self.frames[r.frame].current_frame_ptr;
        if r.generation != self.frames[r.frame].generation {
            return false;
        }
        if r.block < start.block || r.block > end.block {
            return false;
        }
        if r.block == start.block && r.slot < start.slot {
            return false;
        }
        if r.block == end.block {
            r.slot < end.slot
        } else {
            r.slot < self.blocks[r.block].slots.len()
        }
    }

    /// The slot of the record that `r` names.
    fn slot_mut(&mut self, r: StackRef) -> (record: &mut T)
        requires
            old(self).wf(),
            old(self).holds(r),
        ensures
            *record == old(self)@.frames[r.frame as int][old(self).index_of(r)],
            old(self).written(final(self), r, *final(record)),
    {
        proof {
            self.lemma_holds(r);
        }
        &mut self.blocks[r.block].slots[r.slot]
    }

    /// The place from which a backward visit of the current frame starts: its
    /// bump position.
    pub fn peek_top(&self) -> (p: Peek)
        requires
            self.wf(),
        ensures
            self.peek_wf(p),
            p.frame == self@.top(),
            self.peek_index(p) == self@.frames.last().len(),
    {
        proof {
            self.lemma_basics();
            reveal(StackFrameAllocator::wf);
            assert(self.frame_wf(self.frames@.len() - 1));
            self.lemma_frame_range(self.frames@.len() - 1);
        }
        let t: usize = self.frames.len() - 1;
        Peek { frame: t, position: self.frames[t].current_frame_ptr }
    }

    /// Whether every record of the frame of `p` has been visited: `p` stands
    /// in the block of the frame's header, at or before the place of its first
    /// record.
    pub fn peek_at_start(&self, p: Peek) -> (done: bool)
        requires
            self.wf(),
            self.peek_wf(p),
        ensures
            done == (self.peek_index(p) == 0),
    {
        proof {
            self.lemma_peek(p);
        }
        let start: Position = self.frames[p.frame].start;
        p.position.block == start.block && p.position.offset - start.offset
            <= self.frames[p.frame].padding
    }

    /// Steps back over one record: returns the place before it, a handle to
    /// it, and the record. When the record was the first of its block, the
    /// place before it is found through the backward link of the block.
    pub fn peek_back(&self, p: Peek) -> (out: (Peek, StackRef, &T))
        requires
            self.wf(),
            self.peek_wf(p),
            self.peek_index(p) > 0,
        ensures
            self.peek_wf(out.0),
            out.0.frame == p.frame,
            self.peek_index(out.0) == self.peek_index(p) - 1,
            self.holds(out.1),
            out.1.frame == p.frame,
            self.index_of(out.1) == self.peek_index(p) - 1,
            *out.2 == self@.frames[p.frame as int][self.peek_index(p) - 1],
    {
        proof {
            self.lemma_peek(p);
            self.lemma_stepped(p);
        }
        let at: Position = p.position;
        let slot: usize = at.slot - 1;
        let remaining: usize = at.offset - self.layout.size;
        let before: Position = if remaining == 0 {
            let prev: usize = self.blocks[at.block].tail.prev_block.unwrap();
            Position {
                block: prev,
                offset: self.blocks[at.block].tail.prev_block_bytes_used,
                slot: self.blocks[prev].slots.len(),
            }
        } else {
            Position { block: at.block, offset: remaining, slot }
        };
        let handle = StackRef {
            generation: self.frames[p.frame].generation,
            frame: p.frame,
            block: at.block,
            slot,
        };
        (Peek { frame: p.frame, position: before }, handle, &self.blocks[at.block].slots[slot])
    }

    /// Continues a visit in the enclosing frame: the place from which its
    /// records are visited, or `None` when the frame of `p` is the root.
    pub fn peek_previous(&self, p: Peek) -> (q: Option<Peek>)
        requires
            self.wf(),
            self.peek_wf(p),
        ensures
            q is None <==> p.frame == 0,
            q is Some ==> {
                &&& self.peek_wf(q->Some_0)
                &&& q->Some_0.frame == p.frame - 1
                &&& self.peek_index(q->Some_0) == self@.frames[p.frame - 1].len()
            },
    {
        proof {
            reveal(StackFrameAllocator::wf);
            assert(self.frame_wf(p.frame as int));
            if p.frame > 0 {
                assert(self.frame_wf(p.frame - 1));
                self.lemma_frame_range(p.frame - 1);
            }
        }
        match self.frames[p.frame].previous_frame {
            None => None,
            Some(f) => Some(Peek { frame: f, position: self.frames[f].current_frame_ptr }),
        }
    }

    /// Lists the stack from the most recent record of the current frame down
    /// to the header of the root frame: every record by its handle, and a
    /// header line after the records of each frame. Returns the lines and the
    /// number of blocks in the chain.
    pub fn print(&self) -> (out: (Vec<Line>, usize))
        requires
            self.wf(),
        ensures
            out.0@.len() == self@.listed().len(),
            forall|j: int|
                0 <= j < out.0@.len() ==> self.lists(#[trigger] out.0@[j], self@.listed()[j]),
            out.1 == self@.block_count(),
    {
        let mut lines: Vec<Line> = Vec::new();
        let mut p: Peek = self.peek_top();
        let mut done: bool = false;
        let ghost total = self@.listed();
        proof {
            self.lemma_model();
        }
        while !done
            invariant
                self.wf(),
                total == self@.listed(),
                !done ==> self.peek_wf(p),
                !done ==> lines@.len() + listing(
                    self@.frames,
                    p.frame as int,
                    self.peek_index(p),
                ).len() == total.len(),
                !done ==> total.subrange(lines@.len() as int, total.len() as int) == listing(
                    self@.frames,
                    p.frame as int,
                    self.peek_index(p),
                ),
                !done ==> 0 <= self.peek_index(p) <= self@.frames[p.frame as int].len(),
                !done ==> p.frame < self@.frames.len(),
                done ==> lines@.len() == total.len(),
                forall|j: int| 0 <= j < lines@.len() ==> self.lists(#[trigger] lines@[j], total[j]),
            decreases
                    if done {
                        0
                    } else {
                        p.frame + 1
                    },
                    if done {
                        0
                    } else {
                        self.peek_index(p)
                    },
        {
            let ghost rest = listing(self@.frames, p.frame as int, self.peek_index(p));
            let ghost n = lines@.len() as int;
            proof {
                assert(rest.len() >= 1);
                assert(total[n] == total.subrange(n, total.len() as int)[0]);
            }
            if self.peek_at_start(p) {
                lines.push(Line::Header);
                match self.peek_previous(p) {
                    None => {
                        done = true;
                    },
                    Some(q) => {
                        proof {
                            assert(total.subrange(n + 1, total.len() as int) =~= rest.subrange(
                                1,
                                rest.len() as int,
                            ));
                            assert(rest.subrange(1, rest.len() as int) =~= listing(
                                self@.frames,
                                q.frame as int,
                                self.peek_index(q),
                            ));
                        }
                        p = q;
                    },
                }
            } else {
                let (q, handle, _) = self.peek_back(p);
                lines.push(Line::Entry(handle));
                proof {
                    assert(total.subrange(n + 1, total.len() as int) =~= rest.subrange(
                        1,
                        rest.len() as int,
                    ));
                    assert(rest.subrange(1, rest.len() as int) =~= listing(
                        self@.frames,
                        q.frame as int,
                        self.peek_index(q),
                    ));
                }
                p = q;
            }
        }
        (lines, self.block_count())
    }
}

} // verus!
