//! Why the operations of the value engine keep its invariant and do to the
//! model what their contracts say.

use vstd::prelude::*;
use crate::block_chain::{
    flat, lemma_flat_index, lemma_flat_len, lemma_flat_same, lemma_flat_same_len,
    lemma_flat_update, lemma_grown, lemma_linked_by_tails, linked, same_records, spec_grown, spec_past, spec_place, tails_of, Block,
};
use crate::layout::{
    is_aligned, lemma_aligned_difference, lemma_aligned_sum, lemma_padding_is_least, lemma_span,
    spec_fits, spec_padding, RecordLayout, BLOCK_TAIL_SIZE, FRAME_HEADER_ALIGN, FRAME_HEADER_SIZE,
};
use crate::stack_frame_allocator::{crossing_wf, on_grid, StackFrameAllocator};
use crate::stack_frame_header::{not_after, Peek, Position, StackFrameHeader};
use crate::stack_ref::StackRef;

verus! {

/// One more record keeps the bump position on the grid.
pub(super) proof fn lemma_grid_after_record(
    layout: RecordLayout,
    h: StackFrameHeader,
    at: Position,
    capacity: int,
)
    requires
        layout.wf(),
        h.padding == spec_padding(h.start.offset as int, layout.align as int),
        h.start.block <= at.block,
        capacity <= usize::MAX,
        at.block < usize::MAX,
        on_grid(layout, h, at.block as int, at.slot as int, at.offset as int),
    ensures
        on_grid(
            layout,
            h,
            spec_past(at, layout.size as int, layout.align as int, capacity).block as int,
            spec_place(at, layout.size as int, layout.align as int, capacity).slot + 1,
            spec_past(at, layout.size as int, layout.align as int, capacity).offset as int,
        ),
{
    let size = layout.size as int;
    let align = layout.align as int;
    let pad = spec_padding(at.offset as int, align);
    lemma_padding_is_least(at.offset as int, align);
    lemma_padding_is_least(h.start.offset as int, align);
    lemma_span(0, size);
    vstd::arithmetic::div_mod::lemma_small_mod(0, align as nat);
    if spec_fits(at.offset as int, pad, size, capacity) {
        if at.block == h.start.block {
            if at.slot == h.start.slot {
                lemma_padding_is_least(h.boundary(), align);
                assert(at.offset + pad == h.boundary());
                lemma_aligned_sum(h.boundary(), size, align);
            } else {
                lemma_span(at.slot - h.start.slot, size);
                lemma_aligned_sum(at.offset as int, size, align);
            }
        } else {
            lemma_span(at.slot as int, size);
            lemma_aligned_sum(at.offset as int, size, align);
        }
    } else {
        assert(is_aligned(size, align));
    }
}

impl<T> StackFrameAllocator<T> {
    /// What the executable code needs of the invariant.
    pub(super) proof fn lemma_basics(&self)
        requires
            self.wf(),
        ensures
            self.layout.wf(),
            self.size.spec_bytes() >= BLOCK_TAIL_SIZE + FRAME_HEADER_SIZE,
            self.frames@.len() >= 1,
            linked(self.blocks@),
            self.frames@.last().current_frame_ptr.block < self.blocks@.len(),
            self.frames@.last().start.block <= self.frames@.last().current_frame_ptr.block,
            self.frames@.last().current_frame_ptr.slot
                == self.blocks@[self.frames@.last().current_frame_ptr.block as int].slots@.len(),
            forall|b: int|
                self.frames@.last().current_frame_ptr.block < b < self.blocks@.len() ==> (
                #[trigger] self.blocks@[b]).slots@.len() == 0,
            self.frames@.last().generation < self.next_generation,
            self.blocks@.len() <= usize::MAX,
            self.frames@.len() <= usize::MAX,
    {
        reveal(StackFrameAllocator::wf);
        assert(self.frame_wf(self.frames@.len() - 1));
        assert(self.blocks@.len() == self.blocks.len());
        assert(self.frames@.len() == self.frames.len());
    }

    /// The records of a frame form a range of the records of the chain.
    pub(super) proof fn lemma_frame_range(&self, f: int)
        requires
            self.layout.wf(),
            0 <= f < self.frames@.len(),
            self.frame_wf(f),
        ensures
            self.frames@[f].start.slot <= self.blocks@[self.frames@[f].start.block as int].slots@.len(),
            0 <= self.gidx(self.frames@[f].start) <= self.gidx(self.frames@[f].current_frame_ptr)
                <= flat(self.blocks@, self.frames@[f].current_frame_ptr.block + 1).len(),
            self.frame_records(f).len() == self.gidx(self.frames@[f].current_frame_ptr) - self.gidx(
                self.frames@[f].start,
            ),
    {
        let h = self.frames@[f];
        let hb = h.start.block as int;
        let cb = h.current_frame_ptr.block as int;
        if hb < cb {
            assert(crossing_wf(self.layout, self.blocks@, h, hb));
        }
        self.lemma_gidx_order(h.start, h.current_frame_ptr);
        lemma_flat_len(self.blocks@, cb, cb + 1);
    }

    /// Positions that are ordered have ordered indices.
    pub(super) proof fn lemma_gidx_order(&self, p: Position, q: Position)
        requires
            not_after(p, q),
            p.slot <= self.blocks@[p.block as int].slots@.len(),
        ensures
            self.gidx(p) <= self.gidx(q),
    {
        if p.block < q.block {
            lemma_flat_len(self.blocks@, p.block as int, p.block + 1);
            lemma_flat_len(self.blocks@, p.block + 1, q.block as int);
        }
    }

    /// A frame below depth `n` is untouched by what kept everything below `n`:
    /// it is well formed as before and holds the records it held.
    pub(super) proof fn lemma_below_frame(&self, after: &Self, n: int, lim: Position, f: int)
        requires
            self.wf(),
            self.kept_below(after, n, lim),
            0 <= f < n,
        ensures
            after.frame_wf(f),
            after.frame_records(f) == self.frame_records(f),
            f >= 1 ==> after.link_wf(f),
    {
        reveal(StackFrameAllocator::wf);
        let h = self.frames@[f];
        let cb = h.current_frame_ptr.block as int;
        assert(self.frame_wf(f));
        assert(after.frames@[f] == h);
        assert(not_after(h.current_frame_ptr, lim));
        assert(same_records(self.blocks@, after.blocks@, lim.block as int));
        lemma_flat_same(self.blocks@, after.blocks@, h.start.block as int);
        lemma_flat_same(self.blocks@, after.blocks@, cb);
        assert forall|b: int| h.start.block <= b < cb implies #[trigger] crossing_wf(
            after.layout,
            after.blocks@,
            h,
            b,
        ) by {
            assert(after.blocks@[b].slots@ == self.blocks@[b].slots@);
            assert(after.blocks@[b + 1].tail.prev_block_bytes_used == self.blocks@[b
                + 1].tail.prev_block_bytes_used);
            assert(crossing_wf(self.layout, self.blocks@, h, b));
        }
        if cb < lim.block {
            assert(after.blocks@[cb].slots@ == self.blocks@[cb].slots@);
            lemma_flat_same(self.blocks@, after.blocks@, cb + 1);
        } else {
            let a = self.gidx(h.start);
            let c = self.gidx(h.current_frame_ptr);
            let x = flat(self.blocks@, cb + 1);
            let y = flat(after.blocks@, cb + 1);
            let base = flat(self.blocks@, cb).len() as int;
            self.lemma_frame_range(f);
            lemma_flat_len(after.blocks@, cb, cb + 1);
            assert(x == flat(self.blocks@, cb) + self.blocks@[cb].slots@);
            assert(y == flat(after.blocks@, cb) + after.blocks@[cb].slots@);
            lemma_flat_len(self.blocks@, h.start.block as int, cb);
            assert forall|i: int| a <= i < c implies x[i] == y[i] by {
                if i >= base {
                    assert(after.blocks@[cb].slots@[i - base] == self.blocks@[cb].slots@[i
                        - base]);
                }
            }
            assert(x.subrange(a, c) =~= y.subrange(a, c));
        }
        if f >= 1 {
            assert(self.link_wf(f));
            assert(self.frame_wf(f - 1));
            assert(after.frames@[f - 1] == self.frames@[f - 1]);
            let p = self.frames@[f - 1].current_frame_ptr;
            if h.start.block == p.block + 1 {
                assert(after.blocks@[p.block as int].slots@ == self.blocks@[p.block as int].slots@);
            }
        }
    }

    /// What storing a value does to the records of each block.
    pub(super) proof fn lemma_pushed_blocks(&self, after: &Self, value: T)
        requires
            self.wf(),
            self.pushed(after, value),
        ensures
            self.blocks@.len() <= after.blocks@.len(),
            self@.next_slot().block < after.blocks@.len(),
            self@.next_slot().block == self.frames@.last().current_frame_ptr.block
                || self@.next_slot().block == self.frames@.last().current_frame_ptr.block + 1,
            forall|i: int|
                0 <= i < self.blocks@.len() && i != self@.next_slot().block ==> (
                #[trigger] after.blocks@[i]).slots@ == self.blocks@[i].slots@,
            after.blocks@[self@.next_slot().block as int].slots@.len() == self@.next_slot().slot
                + 1,
            self@.next_slot().block < self.blocks@.len() ==> self.blocks@[self@.next_slot().block as int].slots@.len()
                == self@.next_slot().slot,
            after.frames@.len() == self.frames@.len(),
            after.frames@.last().start == self.frames@.last().start,
            after.frames@.last().generation == self.frames@.last().generation,
            after.frames@.last().current_frame_ptr.block == self@.next_slot().block,
            after.frames@.last().current_frame_ptr.slot == self@.next_slot().slot + 1,
    {
        reveal(StackFrameAllocator::wf);
        self.lemma_basics();
        let t = self.frames@.len() - 1;
        let h = self.frames@[t];
        let at = h.current_frame_ptr;
        let size = self.layout.size as int;
        let align = self.layout.align as int;
        let capacity = self.size.spec_bytes() - BLOCK_TAIL_SIZE;
        let placed = spec_place(at, size, align, capacity);
        let pb = placed.block as int;
        let grown = choose|grown: Seq<Block<T>>|
            {
                &&& spec_grown(self.blocks@, at, size, align, capacity, grown)
                &&& placed.block < grown.len()
                &&& after.blocks@.len() == grown.len()
                &&& #[trigger] after.blocks@[placed.block as int].slots@ == grown[placed.block as int].slots@.push(
                    value,
                )
                &&& after.blocks@[placed.block as int].tail == grown[placed.block as int].tail
                &&& forall|i: int|
                    0 <= i < grown.len() && i != placed.block ==> after.blocks@[i] == grown[i]
            };
        self.lemma_basics();
        lemma_grown(self.blocks@, at, size, align, capacity, grown);
        lemma_padding_is_least(at.offset as int, align);
        assert forall|i: int| 0 <= i < self.blocks@.len() && i != pb implies (
        #[trigger] after.blocks@[i]).slots@ == self.blocks@[i].slots@ by {
            assert(after.blocks@[i] == grown[i]);
        }
        if pb < self.blocks@.len() && pb != at.block {
            assert(self.blocks@[pb].slots@.len() == 0);
        }
        assert(after.blocks@[pb].slots@.len() == after.blocks@[pb].slots.len());
    }

    /// Storing a value keeps the invariant and pushes the value in the model.
    pub(super) proof fn lemma_push(&self, after: &Self, value: T)
        requires
            self.wf(),
            self.pushed(after, value),
        ensures
            after.wf(),
            after@ == self@.push(value),
    {
        reveal(StackFrameAllocator::wf);
        let t = self.frames@.len() - 1;
        let h = self.frames@[t];
        let at = h.current_frame_ptr;
        let size = self.layout.size as int;
        let align = self.layout.align as int;
        let capacity = self.size.spec_bytes() - BLOCK_TAIL_SIZE;
        let placed = spec_place(at, size, align, capacity);
        let past = spec_past(at, size, align, capacity);
        let pad = spec_padding(at.offset as int, align);
        let ok = spec_fits(at.offset as int, pad, size, capacity);
        let hb = h.start.block as int;
        let cb = at.block as int;
        let pb = placed.block as int;
        let grown = choose|grown: Seq<Block<T>>|
            {
                &&& spec_grown(self.blocks@, at, size, align, capacity, grown)
                &&& placed.block < grown.len()
                &&& after.blocks@.len() == grown.len()
                &&& #[trigger] after.blocks@[placed.block as int].slots@ == grown[placed.block as int].slots@.push(
                    value,
                )
                &&& after.blocks@[placed.block as int].tail == grown[placed.block as int].tail
                &&& forall|i: int|
                    0 <= i < grown.len() && i != placed.block ==> after.blocks@[i] == grown[i]
            };
        self.lemma_basics();
        lemma_grown(self.blocks@, at, size, align, capacity, grown);
        let h2 = after.frames@[t];
        self.lemma_basics();
        assert(self.frame_wf(t));
        self.lemma_frame_range(t);
        lemma_padding_is_least(at.offset as int, align);
        assert(pb == cb || pb == cb + 1);
        assert(ok ==> grown == self.blocks@);
        assert(after.blocks@[pb].slots@.len() == after.blocks@[pb].slots.len());
        assert(grown[pb].slots@.len() == placed.slot) by {
            if !ok && pb < self.blocks@.len() {
                assert(self.blocks@[pb].slots@.len() == 0);
            }
        }
        assert(h2.current_frame_ptr.block == pb);
        assert(h2.current_frame_ptr.slot == after.blocks@[pb].slots@.len());
        // every block keeps its records but the one that took the value
        assert forall|i: int| 0 <= i < self.blocks@.len() && i != pb implies (
        #[trigger] after.blocks@[i]).slots@ == self.blocks@[i].slots@ by {
            assert(after.blocks@[i] == grown[i]);
        }
        assert forall|i: int| 0 <= i < self.blocks@.len() && i != cb + 1 implies (
        #[trigger] after.blocks@[i]).tail.prev_block_bytes_used
            == self.blocks@[i].tail.prev_block_bytes_used by {
            if i != pb {
                assert(after.blocks@[i] == grown[i]);
            }
        }
        assert(grown[pb].slots@ == (if ok {
            self.blocks@[cb].slots@
        } else {
            Seq::<T>::empty()
        })) by {
            if !ok && pb < self.blocks@.len() {
                assert(self.blocks@[pb].slots@.len() == 0);
                assert(grown[pb].slots@ =~= Seq::<T>::empty());
            }
        }
        assert forall|i: int| 0 <= i < grown.len() implies (#[trigger] after.blocks@[i]).tail
            == grown[i].tail by {}
        lemma_linked_by_tails(grown, after.blocks@);
        // the frames below the current one
        assert(self.kept_below(after, t, h.start)) by {
            assert forall|f: int| 0 <= f < t implies (#[trigger] after.frames@[f])
                == self.frames@[f] && not_after(self.frames@[f].current_frame_ptr, h.start) by {
                assert(not_after(self.frames@[f].current_frame_ptr, self.frames@[t].start));
            }
            if pb == hb {
                assert forall|k: int| 0 <= k < h.start.slot implies #[trigger] after.blocks@[hb].slots@[k]
                    == self.blocks@[hb].slots@[k] by {}
            }
        }
        assert forall|f: int| 0 <= f < after.frames@.len() implies #[trigger] after.frame_wf(
            f,
        ) by {
            if f < t {
                self.lemma_below_frame(after, t, h.start, f);
            } else {
                lemma_grid_after_record(self.layout, h, at, capacity);
                assert(after.blocks@[pb].slots@.len() == after.blocks@[pb].slots.len());
                assert(h2.current_frame_ptr.slot == placed.slot + 1);
                assert(on_grid(
                    after.layout,
                    h2,
                    h2.current_frame_ptr.block as int,
                    h2.current_frame_ptr.slot as int,
                    h2.current_frame_ptr.offset as int,
                ));
                assert forall|b: int|
                    h2.start.block <= b < h2.current_frame_ptr.block implies #[trigger] crossing_wf(
                    after.layout,
                    after.blocks@,
                    h2,
                    b,
                ) by {
                    if b < cb {
                        assert(crossing_wf(self.layout, self.blocks@, h, b));
                        assert(after.blocks@[b].slots@ == self.blocks@[b].slots@);
                        assert(after.blocks@[b + 1].tail.prev_block_bytes_used
                            == self.blocks@[b + 1].tail.prev_block_bytes_used);
                    } else {
                        assert(after.blocks@[cb].slots@ == self.blocks@[cb].slots@);
                        assert(after.blocks@[cb + 1].tail.prev_block_bytes_used == at.offset);
                    }
                }
            }
        }
        assert forall|g: int| 1 <= g < after.frames@.len() implies #[trigger] after.link_wf(
            g,
        ) by {
            if g < t {
                self.lemma_below_frame(after, t, h.start, g);
            } else {
                assert(self.link_wf(g));
                let p = self.frames@[g - 1].current_frame_ptr;
                if h.start.block == p.block + 1 {
                    assert(after.blocks@[p.block as int].slots@ == self.blocks@[p.block as int].slots@);
                }
            }
        }
        assert forall|f: int, g: int| 0 <= f < g < after.frames@.len() implies {
            &&& not_after(
                (#[trigger] after.frames@[f]).current_frame_ptr,
                (#[trigger] after.frames@[g]).start,
            )
            &&& after.frames@[f].generation < after.frames@[g].generation
        } by {
            assert(not_after(self.frames@[f].current_frame_ptr, self.frames@[g].start));
        }
        assert forall|b: int|
            h2.current_frame_ptr.block < b < after.blocks@.len() implies (
        #[trigger] after.blocks@[b]).slots@.len() == 0 by {
            assert(self.blocks@[b].slots@.len() == 0);
        }
        assert(after.wf());
        // the records
        assert(same_records(self.blocks@, after.blocks@, cb));
        lemma_flat_same(self.blocks@, after.blocks@, hb);
        lemma_flat_same(self.blocks@, after.blocks@, cb);
        lemma_flat_len(self.blocks@, cb, cb + 1);
        lemma_flat_len(after.blocks@, cb, cb + 1);
        lemma_flat_len(after.blocks@, pb, pb + 1);
        let x = flat(self.blocks@, cb + 1);
        let y = flat(after.blocks@, pb + 1);
        assert(y =~= x.push(value)) by {
            if !ok {
                assert(same_records(self.blocks@, after.blocks@, cb + 1));
                lemma_flat_same(self.blocks@, after.blocks@, cb + 1);
            }
        }
        assert(after.gidx(h2.start) == self.gidx(h.start));
        assert(after.gidx(h2.current_frame_ptr) == self.gidx(at) + 1);
        assert(after.frame_records(t) =~= self.frame_records(t).push(value));
        assert forall|f: int| 0 <= f < t implies after.frame_records(f) == self.frame_records(
            f,
        ) by {
            self.lemma_below_frame(after, t, h.start, f);
        }
        assert(after@.frames =~= self@.push(value).frames);
        assert(after@.headers =~= self@.push(value).headers);
        assert(after@.tails =~= self@.push(value).tails) by {
            assert(tails_of(after.blocks@) =~= tails_of(grown));
        }
    }

    /// Storing a value keeps every handle, and makes one more hold: that of
    /// the new record.
    pub(super) proof fn lemma_push_handles(&self, after: &Self, value: T)
        requires
            self.wf(),
            self.pushed(after, value),
        ensures
            self.keeps_handles(after),
            forall|r: StackRef| #[trigger]
                after.holds(r) ==> self.holds(r) || r == (StackRef {
                    generation: self@.headers.last().generation,
                    frame: self@.top() as usize,
                    block: self@.next_slot().block,
                    slot: self@.next_slot().slot,
                }),
            after.holds(
                StackRef {
                    generation: self@.headers.last().generation,
                    frame: self@.top() as usize,
                    block: self@.next_slot().block,
                    slot: self@.next_slot().slot,
                },
            ),
            after.index_of(
                StackRef {
                    generation: self@.headers.last().generation,
                    frame: self@.top() as usize,
                    block: self@.next_slot().block,
                    slot: self@.next_slot().slot,
                },
            ) == self@.frames.last().len(),
    {
        self.lemma_pushed_blocks(after, value);
        self.lemma_basics();
        reveal(StackFrameAllocator::wf);
        let t = self.frames@.len() - 1;
        let h = self.frames@[t];
        let at = h.current_frame_ptr;
        let cb = at.block as int;
        let hb = h.start.block as int;
        let placed = self@.next_slot();
        let pb = placed.block as int;
        let mine = StackRef {
            generation: h.generation,
            frame: t as usize,
            block: placed.block,
            slot: placed.slot,
        };
        assert(self.frame_wf(t));
        self.lemma_frame_range(t);
        assert(same_records(self.blocks@, after.blocks@, cb));
        lemma_flat_same(self.blocks@, after.blocks@, hb);
        lemma_flat_same(self.blocks@, after.blocks@, cb);
        lemma_flat_len(self.blocks@, cb, cb + 1);
        lemma_flat_len(after.blocks@, cb, cb + 1);
        if pb != cb {
            assert(after.blocks@[cb].slots@ == self.blocks@[cb].slots@);
        }
        assert forall|r: StackRef| #[trigger] self.holds(r) implies after.holds(r)
            && after.index_of(r) == self.index_of(r) by {
            let f = r.frame as int;
            assert(self.frame_wf(f));
            if f < t {
                assert(not_after(self.frames@[f].current_frame_ptr, self.frames@[t].start));
                assert(after.frames@[f] == self.frames@[f]);
            }
            if r.block < cb {
                assert(after.blocks@[r.block as int].slots@ == self.blocks@[r.block as int].slots@);
            }
            assert(same_records(self.blocks@, after.blocks@, r.block as int));
            assert(same_records(self.blocks@, after.blocks@, self.frames@[f].start.block as int));
            lemma_flat_same(self.blocks@, after.blocks@, r.block as int);
            lemma_flat_same(self.blocks@, after.blocks@, self.frames@[f].start.block as int);
        }
        assert forall|r: StackRef| #[trigger] after.holds(r) implies self.holds(r) || r
            == mine by {
            let f = r.frame as int;
            assert(self.frame_wf(f));
            if f < t {
                assert(not_after(self.frames@[f].current_frame_ptr, self.frames@[t].start));
                assert(after.frames@[f] == self.frames@[f]);
                if r.block < self.frames@[f].current_frame_ptr.block {
                    assert(after.blocks@[r.block as int].slots@ == self.blocks@[r.block as int].slots@);
                }
            } else {
                if r.block < cb {
                    assert(after.blocks@[r.block as int].slots@ == self.blocks@[r.block as int].slots@);
                }
            }
        }
        assert(after.holds(mine));
        assert(after.index_of(mine) == self.frame_records(t).len());
    }

    /// Placing a header keeps the invariant and opens a frame in the model.
    pub(super) proof fn lemma_open(&self, after: &Self)
        requires
            self.wf(),
            self.opened(after),
        ensures
            after.wf(),
            after@ == self@.open_frame(),
    {
        reveal(StackFrameAllocator::wf);
        let t = self.frames@.len() - 1;
        let h = self.frames@[t];
        let at = h.current_frame_ptr;
        let capacity = self.size.spec_bytes() - BLOCK_TAIL_SIZE;
        let past = spec_past(at, FRAME_HEADER_SIZE as int, FRAME_HEADER_ALIGN as int, capacity);
        let pad = spec_padding(at.offset as int, FRAME_HEADER_ALIGN as int);
        let ok = spec_fits(at.offset as int, pad, FRAME_HEADER_SIZE as int, capacity);
        let cb = at.block as int;
        let nb = past.block as int;
        let h2 = after.frames@[t + 1];
        self.lemma_basics();
        lemma_grown(
            self.blocks@,
            at,
            FRAME_HEADER_SIZE as int,
            FRAME_HEADER_ALIGN as int,
            self.size.spec_bytes() - BLOCK_TAIL_SIZE,
            after.blocks@,
        );
        assert(self.frame_wf(t));
        self.lemma_frame_range(t);
        lemma_padding_is_least(at.offset as int, FRAME_HEADER_ALIGN as int);
        lemma_padding_is_least(past.offset as int, self.layout.align as int);
        assert(ok ==> after.blocks@ == self.blocks@);
        assert forall|i: int| 0 <= i < self.blocks@.len() implies (#[trigger] after.blocks@[i]).slots@
            == self.blocks@[i].slots@ by {}
        assert(after.blocks@[nb].slots@.len() == past.slot) by {
            if !ok && nb < self.blocks@.len() {
                assert(self.blocks@[nb].slots@.len() == 0);
            }
        }
        assert(self.kept_below(after, t + 1, at)) by {
            assert forall|f: int| 0 <= f < t + 1 implies (#[trigger] after.frames@[f])
                == self.frames@[f] && not_after(self.frames@[f].current_frame_ptr, at) by {
                if f < t {
                    assert(not_after(self.frames@[f].current_frame_ptr, self.frames@[t].start));
                }
            }
        }
        assert forall|f: int| 0 <= f < after.frames@.len() implies #[trigger] after.frame_wf(
            f,
        ) by {
            if f <= t {
                self.lemma_below_frame(after, t + 1, at, f);
            }
        }
        assert forall|g: int| 1 <= g < after.frames@.len() implies #[trigger] after.link_wf(
            g,
        ) by {
            if g <= t {
                self.lemma_below_frame(after, t + 1, at, g);
            }
        }
        assert forall|f: int, g: int| 0 <= f < g < after.frames@.len() implies {
            &&& not_after(
                (#[trigger] after.frames@[f]).current_frame_ptr,
                (#[trigger] after.frames@[g]).start,
            )
            &&& after.frames@[f].generation < after.frames@[g].generation
        } by {
            if g <= t {
                assert(not_after(self.frames@[f].current_frame_ptr, self.frames@[g].start));
            } else if f < t {
                assert(not_after(self.frames@[f].current_frame_ptr, self.frames@[t].start));
                assert(self.frames@[f].generation < self.frames@[t].generation);
            }
        }
        assert forall|b: int|
            h2.current_frame_ptr.block < b < after.blocks@.len() implies (
        #[trigger] after.blocks@[b]).slots@.len() == 0 by {
            assert(self.blocks@[b].slots@.len() == 0);
        }
        assert(after.wf());
        assert(after.frame_records(t + 1) =~= Seq::<T>::empty());
        assert forall|f: int| 0 <= f <= t implies after.frame_records(f) == self.frame_records(
            f,
        ) by {
            self.lemma_below_frame(after, t + 1, at, f);
        }
        assert(after@.frames =~= self@.open_frame().frames);
        assert(after@.headers =~= self@.open_frame().headers);

    }

    /// Placing a header takes no block out of the chain.
    pub(super) proof fn lemma_links_grow(&self, after: &Self)
        requires
            self.wf(),
            self.opened(after),
        ensures
            after@.block_count() >= self@.block_count(),
    {
        self.lemma_basics();
        let t = self.frames@.len() - 1;
        let at = self.frames@[t].current_frame_ptr;
        lemma_padding_is_least(at.offset as int, FRAME_HEADER_ALIGN as int);
        lemma_grown(
            self.blocks@,
            at,
            FRAME_HEADER_SIZE as int,
            FRAME_HEADER_ALIGN as int,
            self.size.spec_bytes() - BLOCK_TAIL_SIZE,
            after.blocks@,
        );
        assert(after@.tails.len() == after.blocks@.len());
    }

    /// Placing a header keeps every handle and makes no other hold.
    pub(super) proof fn lemma_open_handles(&self, after: &Self)
        requires
            self.wf(),
            self.opened(after),
        ensures
            self.keeps_handles(after),
            forall|r: StackRef| #[trigger] after.holds(r) ==> self.holds(r),
    {
        self.lemma_basics();
        reveal(StackFrameAllocator::wf);
        let t = self.frames@.len() - 1;
        let h = self.frames@[t];
        let at = h.current_frame_ptr;
        let capacity = self.size.spec_bytes() - BLOCK_TAIL_SIZE;
        let pad = spec_padding(at.offset as int, FRAME_HEADER_ALIGN as int);
        let ok = spec_fits(at.offset as int, pad, FRAME_HEADER_SIZE as int, capacity);
        lemma_grown(
            self.blocks@,
            at,
            FRAME_HEADER_SIZE as int,
            FRAME_HEADER_ALIGN as int,
            self.size.spec_bytes() - BLOCK_TAIL_SIZE,
            after.blocks@,
        );
        lemma_padding_is_least(at.offset as int, FRAME_HEADER_ALIGN as int);
        assert(ok ==> after.blocks@ == self.blocks@);
        assert forall|i: int| 0 <= i < self.blocks@.len() implies (#[trigger] after.blocks@[i]).slots@
            == self.blocks@[i].slots@ by {}
        assert(same_records(self.blocks@, after.blocks@, self.blocks@.len() as int));
        assert forall|r: StackRef| #[trigger] self.holds(r) implies after.holds(r)
            && after.index_of(r) == self.index_of(r) by {
            let f = r.frame as int;
            assert(self.frame_wf(f));
            assert(after.frames@[f] == self.frames@[f]);
            assert(after.blocks@[r.block as int].slots@ == self.blocks@[r.block as int].slots@);
            assert(same_records(self.blocks@, after.blocks@, r.block as int));
            assert(same_records(self.blocks@, after.blocks@, self.frames@[f].start.block as int));
            lemma_flat_same(self.blocks@, after.blocks@, r.block as int);
            lemma_flat_same(self.blocks@, after.blocks@, self.frames@[f].start.block as int);
        }
        assert forall|r: StackRef| #[trigger] after.holds(r) implies self.holds(r) by {
            let f = r.frame as int;
            if f <= t {
                assert(self.frame_wf(f));
                assert(after.frames@[f] == self.frames@[f]);
                assert(after.blocks@[r.block as int].slots@ == self.blocks@[r.block as int].slots@);
            }
        }
    }

    /// The test on bytes tells whether the current frame is empty: its bump
    /// position is at or before the place of its first record exactly when it
    /// holds no record.
    pub(super) proof fn lemma_at_start(&self)
        requires
            self.wf(),
        ensures
            self.at_start() <==> self@.frames.last().len() == 0,
            self.at_start() <==> self.frames@.last().current_frame_ptr.block
                == self.frames@.last().start.block && self.frames@.last().current_frame_ptr.slot
                == self.frames@.last().start.slot,
            !self.at_start() ==> self.frames@.last().current_frame_ptr.slot >= 1,
    {
        reveal(StackFrameAllocator::wf);
        let t = self.frames@.len() - 1;
        let h = self.frames@[t];
        assert(self.frame_wf(t));
        self.lemma_frame_range(t);
        let hb = h.start.block as int;
        let cb = h.current_frame_ptr.block as int;
        if cb == hb {
            if h.current_frame_ptr.slot > h.start.slot {
                lemma_span(h.current_frame_ptr.slot - h.start.slot, self.layout.size as int);
            }
        } else {
            lemma_flat_len(self.blocks@, hb, hb + 1);
            lemma_flat_len(self.blocks@, hb + 1, cb);
        }
    }

    /// The bump position of a frame that holds a record stands at least one
    /// record past the start of its block.
    pub(super) proof fn lemma_span_of_cursor(&self)
        requires
            self.wf(),
            !self.at_start(),
        ensures
            self.frames@.last().current_frame_ptr.offset >= self.layout.size,
            self.frames@.last().current_frame_ptr.slot >= 1,
            self.frames@.last().current_frame_ptr.offset - self.layout.size == 0
                ==> self.frames@.last().current_frame_ptr.block >= 1
                && self.frames@.last().current_frame_ptr.slot == 1,
    {
        self.lemma_at_start();
        reveal(StackFrameAllocator::wf);
        let t = self.frames@.len() - 1;
        let h = self.frames@[t];
        let at = h.current_frame_ptr;
        assert(self.frame_wf(t));
        let size = self.layout.size as int;
        if at.block == h.start.block {
            lemma_span(at.slot - h.start.slot - 1, size);
        } else {
            lemma_span(at.slot - 1, size);
            lemma_span(0, size);
        }
    }

    /// Taking the most recent record out keeps the invariant, and in the model
    /// drops the last record of the current frame and nothing else.
    pub(super) proof fn lemma_pop(&self, after: &Self)
        requires
            self.wf(),
            !self.at_start(),
            self.popped(after),
        ensures
            after.wf(),
            after@.close_frame() == self@.close_frame(),
            after@.headers.len() == self@.headers.len(),
            self@.frames.last().len() > 0,
            after@.frames.last() == self@.frames.last().drop_last(),
            self.blocks@[self.frames@.last().current_frame_ptr.block as int].slots@.last()
                == self@.frames.last().last(),
    {
        self.lemma_at_start();
        reveal(StackFrameAllocator::wf);
        let t = self.frames@.len() - 1;
        let h = self.frames@[t];
        let at = h.current_frame_ptr;
        let size = self.layout.size as int;
        let align = self.layout.align as int;
        let hb = h.start.block as int;
        let b = at.block as int;
        let offset = at.offset - size;
        let h2 = after.frames@[t];
        let c2 = h2.current_frame_ptr;
        self.lemma_basics();
        assert(self.frame_wf(t));
        self.lemma_frame_range(t);
        lemma_padding_is_least(h.start.offset as int, align);
        if b == hb {
            lemma_span(at.slot - h.start.slot - 1, size);
            lemma_span(0, size);
            if at.slot - h.start.slot - 1 > 0 {
                lemma_aligned_difference(at.offset as int, size, align);
            }
            assert(offset >= h.boundary());
            assert(offset != 0);
        } else {
            lemma_span(at.slot - 1, size);
            lemma_span(0, size);
            if at.slot - 1 > 0 {
                lemma_aligned_difference(at.offset as int, size, align);
                assert(offset != 0);
            } else {
                assert(offset == 0);
                assert(crossing_wf(self.layout, self.blocks@, h, b - 1));
                assert(self.blocks@[b - 1].slots@.len() == self.blocks@[b - 1].slots.len());
            }
        }
        let cb2 = c2.block as int;
        assert(on_grid(after.layout, h2, cb2, c2.slot as int, c2.offset as int));
        assert forall|i: int| 0 <= i < self.blocks@.len() implies (#[trigger] after.blocks@[i]).tail
            == self.blocks@[i].tail by {}
        lemma_linked_by_tails(self.blocks@, after.blocks@);
        assert(self.kept_below(after, t, h.start)) by {
            assert forall|f: int| 0 <= f < t implies (#[trigger] after.frames@[f])
                == self.frames@[f] && not_after(self.frames@[f].current_frame_ptr, h.start) by {
                assert(not_after(self.frames@[f].current_frame_ptr, self.frames@[t].start));
            }
            assert forall|i: int| 0 <= i <= h.start.block implies (
            #[trigger] after.blocks@[i]).tail.prev_block_bytes_used
                == self.blocks@[i].tail.prev_block_bytes_used by {
                assert(after.blocks@[i].tail == self.blocks@[i].tail);
            }
        }
        assert forall|f: int| 0 <= f < after.frames@.len() implies #[trigger] after.frame_wf(
            f,
        ) by {
            if f < t {
                self.lemma_below_frame(after, t, h.start, f);
            } else {
                assert forall|k: int|
                    h2.start.block <= k < h2.current_frame_ptr.block implies #[trigger] crossing_wf(
                    after.layout,
                    after.blocks@,
                    h2,
                    k,
                ) by {
                    assert(crossing_wf(self.layout, self.blocks@, h, k));
                    assert(after.blocks@[k] == self.blocks@[k]);
                    assert(after.blocks@[k + 1].tail == self.blocks@[k + 1].tail);
                }
            }
        }
        assert forall|g: int| 1 <= g < after.frames@.len() implies #[trigger] after.link_wf(
            g,
        ) by {
            if g < t {
                self.lemma_below_frame(after, t, h.start, g);
            } else {
                assert(self.link_wf(g));
                let p = self.frames@[g - 1].current_frame_ptr;
                if h.start.block == p.block + 1 {
                    assert(after.blocks@[p.block as int] == self.blocks@[p.block as int]);
                }
            }
        }
        assert forall|f: int, g: int| 0 <= f < g < after.frames@.len() implies {
            &&& not_after(
                (#[trigger] after.frames@[f]).current_frame_ptr,
                (#[trigger] after.frames@[g]).start,
            )
            &&& after.frames@[f].generation < after.frames@[g].generation
        } by {
            assert(not_after(self.frames@[f].current_frame_ptr, self.frames@[g].start));
        }
        assert forall|k: int|
            h2.current_frame_ptr.block < k < after.blocks@.len() implies (
        #[trigger] after.blocks@[k]).slots@.len() == 0 by {
            if k != b {
                assert(self.blocks@[k].slots@.len() == 0);
            }
        }
        assert(after.wf());
        // the records
        assert(same_records(self.blocks@, after.blocks@, b));
        lemma_flat_same(self.blocks@, after.blocks@, hb);
        lemma_flat_same(self.blocks@, after.blocks@, b);
        lemma_flat_same(self.blocks@, after.blocks@, b - 1);
        lemma_flat_len(self.blocks@, b, b + 1);
        lemma_flat_len(after.blocks@, b, b + 1);
        if b >= 1 {
            lemma_flat_len(self.blocks@, b - 1, b);
        }
        let x = flat(self.blocks@, b + 1);
        let y = flat(after.blocks@, cb2 + 1);
        assert(y =~= x.drop_last());
        assert(after.gidx(h2.start) == self.gidx(h.start));
        assert(after.gidx(c2) == self.gidx(at) - 1);
        assert(after.frame_records(t) =~= self.frame_records(t).drop_last());
        assert(self.frame_records(t).last() == self.blocks@[b].slots@.last());
        assert forall|f: int| 0 <= f < t implies after.frame_records(f) == self.frame_records(
            f,
        ) by {
            self.lemma_below_frame(after, t, h.start, f);
        }
        assert(after@.close_frame().frames =~= self@.close_frame().frames);
        assert(after@.close_frame().headers =~= self@.close_frame().headers);
        assert(tails_of(after.blocks@) =~= tails_of(self.blocks@)) by {
            assert forall|i: int| 0 <= i < self.blocks@.len() implies after.blocks@[i].tail
                == self.blocks@[i].tail by {}
        }
    }

    /// Taking a record out of the current frame changes nothing for the handles
    /// of the frames below.
    pub(super) proof fn lemma_pop_handles(&self, after: &Self)
        requires
            self.wf(),
            !self.at_start(),
            self.popped(after),
        ensures
            forall|r: StackRef|
                r.frame < self.frames@.len() - 1 ==> (#[trigger] after.holds(r) <==> self.holds(r)),
            forall|r: StackRef|
                r.frame < self.frames@.len() - 1 && self.holds(r) ==> #[trigger] after.index_of(r)
                    == self.index_of(r),
    {
        self.lemma_basics();
        self.lemma_at_start();
        reveal(StackFrameAllocator::wf);
        let t = self.frames@.len() - 1;
        let h = self.frames@[t];
        let b = h.current_frame_ptr.block as int;
        assert(self.frame_wf(t));
        assert forall|r: StackRef| r.frame < t implies (#[trigger] after.holds(r) <==> self.holds(
            r,
        )) by {
            let f = r.frame as int;
            assert(self.frame_wf(f));
            assert(not_after(self.frames@[f].current_frame_ptr, self.frames@[t].start));
            assert(after.frames@[f] == self.frames@[f]);
            if r.block < self.frames@[f].current_frame_ptr.block {
                assert(after.blocks@[r.block as int] == self.blocks@[r.block as int]);
            }
        }
        assert forall|r: StackRef| r.frame < t && self.holds(r) implies #[trigger] after.index_of(
            r,
        ) == self.index_of(r) by {
            let f = r.frame as int;
            assert(self.frame_wf(f));
            assert(not_after(self.frames@[f].current_frame_ptr, self.frames@[t].start));
            assert(after.frames@[f] == self.frames@[f]);
            assert(same_records(self.blocks@, after.blocks@, b));
            assert(same_records(self.blocks@, after.blocks@, r.block as int));
            assert(same_records(self.blocks@, after.blocks@, self.frames@[f].start.block as int));
            lemma_flat_same(self.blocks@, after.blocks@, r.block as int);
            lemma_flat_same(self.blocks@, after.blocks@, self.frames@[f].start.block as int);
        }
    }

    /// The arena `after` is this arena without its current frame, which holds
    /// no record.
    pub(super) proof fn lemma_close(&self, after: &Self)
        requires
            self.wf(),
            self.at_start(),
            self.frames@.len() >= 2,
            after.layout == self.layout,
            after.size == self.size,
            after.next_generation == self.next_generation,
            after.blocks@ == self.blocks@,
            after.frames@ == self.frames@.drop_last(),
        ensures
            after.wf(),
            after@ == self@.close_frame(),
    {
        self.lemma_at_start();
        reveal(StackFrameAllocator::wf);
        let t = self.frames@.len() - 1;
        let h = self.frames@[t];
        assert(self.frame_wf(t));
        assert(self.link_wf(t));
        self.lemma_frame_range(t);
        assert(self.kept_below(after, t, h.start)) by {
            assert forall|f: int| 0 <= f < t implies (#[trigger] after.frames@[f])
                == self.frames@[f] && not_after(self.frames@[f].current_frame_ptr, h.start) by {
                assert(not_after(self.frames@[f].current_frame_ptr, self.frames@[t].start));
            }
        }
        assert forall|f: int| 0 <= f < after.frames@.len() implies #[trigger] after.frame_wf(
            f,
        ) by {
            self.lemma_below_frame(after, t, h.start, f);
        }
        assert forall|g: int| 1 <= g < after.frames@.len() implies #[trigger] after.link_wf(
            g,
        ) by {
            self.lemma_below_frame(after, t, h.start, g);
        }
        assert forall|f: int, g: int| 0 <= f < g < after.frames@.len() implies {
            &&& not_after(
                (#[trigger] after.frames@[f]).current_frame_ptr,
                (#[trigger] after.frames@[g]).start,
            )
            &&& after.frames@[f].generation < after.frames@[g].generation
        } by {
            assert(not_after(self.frames@[f].current_frame_ptr, self.frames@[g].start));
        }
        let p = self.frames@[t - 1].current_frame_ptr;
        assert(after.frames@.last() == self.frames@[t - 1]);
        assert forall|k: int| p.block < k < after.blocks@.len() implies (
        #[trigger] after.blocks@[k]).slots@.len() == 0 by {
            if k > h.current_frame_ptr.block {
                assert(self.blocks@[k].slots@.len() == 0);
            }
        }
        assert(self.frames@[t - 1].generation < self.frames@[t].generation);
        assert(after.wf());
        assert forall|f: int| 0 <= f < t implies after.frame_records(f) == self.frame_records(
            f,
        ) by {
            self.lemma_below_frame(after, t, h.start, f);
        }
        assert(after@.frames =~= self@.close_frame().frames);
        assert(after@.headers =~= self@.close_frame().headers);
    }

    /// Closing the current frame keeps the handles of the frames below, and
    /// those only.
    pub(super) proof fn lemma_close_handles(&self, after: &Self)
        requires
            self.wf(),
            self.frames@.len() >= 2,
            after.layout == self.layout,
            after.size == self.size,
            after.blocks@ == self.blocks@,
            after.frames@ == self.frames@.drop_last(),
        ensures
            forall|r: StackRef| #[trigger]
                after.holds(r) <==> self.holds(r) && r.frame < self.frames@.len() - 1,
            forall|r: StackRef| #[trigger]
                after.holds(r) ==> after.index_of(r) == self.index_of(r),
    {
        assert forall|r: StackRef| #[trigger]
            after.holds(r) <==> self.holds(r) && r.frame < self.frames@.len() - 1 by {
            if r.frame < self.frames@.len() - 1 {
                assert(after.frames@[r.frame as int] == self.frames@[r.frame as int]);
            }
        }
        assert forall|r: StackRef| #[trigger] after.holds(r) implies after.index_of(r)
            == self.index_of(r) by {
            assert(after.frames@[r.frame as int] == self.frames@[r.frame as int]);
        }
    }

    /// A handle that holds names a slot of the chain, and the record in that
    /// slot is the record of its frame at its index.
    pub(super) proof fn lemma_holds(&self, r: StackRef)
        requires
            self.wf(),
            self.holds(r),
        ensures
            r.frame < self@.headers.len(),
            r.generation == self@.headers[r.frame as int].generation,
            0 <= self.index_of(r) < self@.frames[r.frame as int].len(),
            r.block < self.blocks@.len(),
            r.slot < self.blocks@[r.block as int].slots@.len(),
            self.blocks@[r.block as int].slots@[r.slot as int]
                == self@.frames[r.frame as int][self.index_of(r)],
    {
        reveal(StackFrameAllocator::wf);
        let f = r.frame as int;
        let h = self.frames@[f];
        let hb = h.start.block as int;
        let cb = h.current_frame_ptr.block as int;
        let b = r.block as int;
        assert(self.frame_wf(f));
        self.lemma_frame_range(f);
        lemma_flat_index(self.blocks@, cb + 1, b, r.slot as int);
        lemma_flat_len(self.blocks@, b, b + 1);
        lemma_flat_len(self.blocks@, hb, hb + 1);
        if hb < b {
            lemma_flat_len(self.blocks@, hb + 1, b);
        }
        if b < cb {
            lemma_flat_len(self.blocks@, b + 1, cb);
        }
    }

    /// What a place of a visit says in bytes it says in records: it is at the
    /// start of its frame exactly when no record lies before it, and else the
    /// record before it is one record back in its block.
    pub(super) proof fn lemma_peek(&self, p: Peek)
        requires
            self.wf(),
            self.peek_wf(p),
        ensures
            0 <= self.peek_index(p) <= self@.frames[p.frame as int].len(),
            p.position.block < self.blocks@.len(),
            p.position.slot <= self.blocks@[p.position.block as int].slots@.len(),
            self.peek_index(p) == 0 <==> p.position.block == self.frames@[p.frame as int].start.block
                && p.position.offset <= self.frames@[p.frame as int].boundary(),
            self.peek_index(p) == 0 <==> p.position.block == self.frames@[p.frame as int].start.block
                && p.position.slot == self.frames@[p.frame as int].start.slot,
            p.position.block == self.frames@[p.frame as int].start.block ==> p.position.offset
                >= self.frames@[p.frame as int].start.offset,
            self.peek_index(p) > 0 ==> {
                &&& p.position.slot >= 1
                &&& p.position.offset >= self.layout.size
                &&& self.blocks@[p.position.block as int].slots@[p.position.slot - 1]
                    == self@.frames[p.frame as int][self.peek_index(p) - 1]
                &&& p.position.offset - self.layout.size == 0 <==> p.position.block
                    > self.frames@[p.frame as int].start.block && p.position.slot == 1
            },
    {
        reveal(StackFrameAllocator::wf);
        let f = p.frame as int;
        let h = self.frames@[f];
        let at = p.position;
        let hb = h.start.block as int;
        let cb = h.current_frame_ptr.block as int;
        let b = at.block as int;
        let size = self.layout.size as int;
        assert(self.frame_wf(f));
        self.lemma_frame_range(f);
        lemma_flat_len(self.blocks@, b, b + 1);
        lemma_flat_len(self.blocks@, hb, hb + 1);
        if hb < b {
            lemma_flat_len(self.blocks@, hb + 1, b);
        }
        if b < cb {
            lemma_flat_len(self.blocks@, b + 1, cb);
        }
        lemma_span(0, size);
        lemma_padding_is_least(h.start.offset as int, self.layout.align as int);
        if b == hb {
            if at.slot > h.start.slot {
                lemma_span(at.slot - h.start.slot - 1, size);
            }
        } else {
            lemma_span(at.slot - 1, size);
        }
        if self.peek_index(p) > 0 {
            lemma_flat_index(self.blocks@, cb + 1, b, at.slot - 1);
        }
    }

    /// Stepping back over one record leads to a place of the same frame with
    /// one record less before it.
    pub(super) proof fn lemma_stepped(&self, p: Peek)
        requires
            self.wf(),
            self.peek_wf(p),
            self.peek_index(p) > 0,
        ensures
            self.peek_wf(self.stepped(p)),
            self.peek_index(self.stepped(p)) == self.peek_index(p) - 1,
            self.blocks@[p.position.block as int].tail.prev_block == (if p.position.block == 0 {
                None
            } else {
                Some((p.position.block - 1) as usize)
            }),
    {
        self.lemma_peek(p);
        self.lemma_basics();
        reveal(StackFrameAllocator::wf);
        let f = p.frame as int;
        let h = self.frames@[f];
        let at = p.position;
        let hb = h.start.block as int;
        let b = at.block as int;
        let size = self.layout.size as int;
        let align = self.layout.align as int;
        assert(self.frame_wf(f));
        lemma_span(0, size);
        if b == hb {
            lemma_span(at.slot - h.start.slot - 1, size);
            if at.slot - h.start.slot - 1 > 0 {
                lemma_aligned_difference(at.offset as int, size, align);
            }
        } else {
            lemma_span(at.slot - 1, size);
            if at.slot - 1 > 0 {
                lemma_aligned_difference(at.offset as int, size, align);
            } else {
                assert(crossing_wf(self.layout, self.blocks@, h, b - 1));
                assert(self.blocks@[b - 1].slots@.len() == self.blocks@[b - 1].slots.len());
                lemma_flat_len(self.blocks@, b - 1, b);
            }
        }
    }

    /// Replacing a record keeps the invariant and every handle, and replaces
    /// that record in the model.
    pub(super) proof fn lemma_write(&self, after: &Self, r: StackRef, value: T)
        requires
            self.wf(),
            self.holds(r),
            self.written(after, r, value),
        ensures
            after.wf(),
            after@ == self@.write(r.frame as int, self.index_of(r), value),
            forall|q: StackRef| #[trigger] after.holds(q) <==> self.holds(q),
            self.keeps_handles(after),
    {
        self.lemma_holds(r);
        self.lemma_basics();
        reveal(StackFrameAllocator::wf);
        let n = self.blocks@.len() as int;
        let b = r.block as int;
        let fr = r.frame as int;
        assert forall|i: int| 0 <= i < n implies (#[trigger] after.blocks@[i]).slots@.len()
            == self.blocks@[i].slots@.len() && after.blocks@[i].tail == self.blocks@[i].tail by {}
        assert forall|k: int| 0 <= k <= n implies #[trigger] flat(after.blocks@, k).len() == flat(
            self.blocks@,
            k,
        ).len() by {
            lemma_flat_same_len(after.blocks@, self.blocks@, k);
        }
        assert forall|q: StackRef| #[trigger] self.holds(q) implies after.index_of(q)
            == self.index_of(q) by {
            assert(self.frame_wf(q.frame as int));
            assert(flat(after.blocks@, q.block as int).len() == flat(
                self.blocks@,
                q.block as int,
            ).len());
            let sb = self.frames@[q.frame as int].start.block as int;
            assert(flat(after.blocks@, sb).len() == flat(self.blocks@, sb).len());
        }
        assert forall|q: StackRef| #[trigger] after.holds(q) <==> self.holds(q) by {
            if q.frame < self.frames@.len() {
                assert(self.frame_wf(q.frame as int));
            }
        }
        assert forall|i: int| 0 <= i < self.blocks@.len() implies (#[trigger] after.blocks@[i]).tail
            == self.blocks@[i].tail by {}
        lemma_linked_by_tails(self.blocks@, after.blocks@);
        assert forall|f: int| 0 <= f < after.frames@.len() implies #[trigger] after.frame_wf(
            f,
        ) by {
            assert(self.frame_wf(f));
            let h = self.frames@[f];
            assert forall|k: int|
                h.start.block <= k < h.current_frame_ptr.block implies #[trigger] crossing_wf(
                after.layout,
                after.blocks@,
                h,
                k,
            ) by {
                assert(crossing_wf(self.layout, self.blocks@, h, k));
            }
        }
        assert forall|g: int| 1 <= g < after.frames@.len() implies #[trigger] after.link_wf(
            g,
        ) by {
            assert(self.link_wf(g));
            assert(self.frame_wf(g - 1));
        }
        assert forall|k: int|
            after.frames@.last().current_frame_ptr.block < k < after.blocks@.len() implies (
        #[trigger] after.blocks@[k]).slots@.len() == 0 by {
            assert(self.blocks@[k].slots@.len() == 0);
        }
        assert(after.wf());
        // the records
        let g = flat(self.blocks@, b).len() + r.slot;
        assert(self.frame_wf(fr));
        self.lemma_frame_range(fr);
        assert forall|f: int| 0 <= f < self.frames@.len() implies #[trigger] after.frame_records(
            f,
        ) == (if f == fr {
            self.frame_records(f).update(self.index_of(r), value)
        } else {
            self.frame_records(f)
        }) by {
            let h = self.frames@[f];
            let cb = h.current_frame_ptr.block as int;
            assert(self.frame_wf(f));
            self.lemma_frame_range(f);
            lemma_flat_update(self.blocks@, after.blocks@, cb + 1, b, r.slot as int, value);
            let a = self.gidx(h.start);
            let c = self.gidx(h.current_frame_ptr);
            assert(after.gidx(h.start) == a) by {
                assert(flat(after.blocks@, h.start.block as int).len() == flat(
                    self.blocks@,
                    h.start.block as int,
                ).len());
            }
            assert(after.gidx(h.current_frame_ptr) == c) by {
                assert(flat(after.blocks@, cb).len() == flat(self.blocks@, cb).len());
            }
            if f < fr {
                assert(not_after(self.frames@[f].current_frame_ptr, self.frames@[fr].start));
                self.lemma_gidx_order(h.current_frame_ptr, self.frames@[fr].start);
                assert(c <= g);
                assert(after.frame_records(f) =~= self.frame_records(f));
            } else if f > fr {
                assert(not_after(self.frames@[fr].current_frame_ptr, self.frames@[f].start));
                self.lemma_gidx_order(self.frames@[fr].current_frame_ptr, h.start);
                assert(g < a);
                assert(after.frame_records(f) =~= self.frame_records(f));
            } else {
                assert(after.frame_records(f) =~= self.frame_records(f).update(
                    self.index_of(r),
                    value,
                ));
            }
        }
        assert(after@.frames =~= self@.write(fr, self.index_of(r), value).frames);
        assert(tails_of(after.blocks@) =~= tails_of(self.blocks@));
    }
}

} // verus!
