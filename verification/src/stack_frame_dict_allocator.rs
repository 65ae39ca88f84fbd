//! The dictionary engine: a stack of frames of key-value pairs. A pair is
//! pushed like a value; a key is looked up from the most recent pair
//! backwards, so that of several pairs with one key the most recent is found.

use vstd::prelude::*;
use vstd::std_specs::cmp::PartialEqSpec;
use crate::block_chain::{linked_tails, BlockTail};
use crate::layout::{BLOCK_TAIL_SIZE, FRAME_HEADER_SIZE};
use crate::model::{find_below, hit, last_match, misses_from, release_order, StackModel};
use crate::stack_frame_allocator::StackFrameAllocator;
use crate::stack_frame_header::{Peek, StackFrameHeader};
use crate::stack_ref::{Line, StackRef};
use crate::stack_size::StackSize;

verus! {

/// A stack of frames of key-value pairs.
pub struct StackFrameDictAllocator<Key: PartialEq, Value> {
    stack: StackFrameAllocator<(Key, Value)>,
}

impl<Key: PartialEq, Value> StackFrameDictAllocator<Key, Value> {
    /// The invariant of the arena.
    pub closed spec fn wf(&self) -> bool {
        self.stack.wf()
    }

    /// The state of the arena as its callers can observe it.
    pub closed spec fn view(&self) -> StackModel<(Key, Value)> {
        self.stack@
    }

    /// The configured size of a block.
    pub closed spec fn block_size(&self) -> StackSize {
        self.stack.block_size()
    }

    /// Whether `r` names a pair of a live frame of this arena.
    pub closed spec fn holds(&self, r: StackRef) -> bool {
        self.stack.holds(r)
    }

    /// The index, within its frame, of the pair that `r` names.
    pub closed spec fn index_of(&self, r: StackRef) -> int {
        self.stack.index_of(r)
    }

    /// Every handle that holds in this arena holds in `after` and names the
    /// pair at the same index.
    pub open spec fn keeps_handles(&self, after: &Self) -> bool {
        forall|r: StackRef| #[trigger]
            self.holds(r) ==> after.holds(r) && after.index_of(r) == self.index_of(r)
    }

    /// Whether this arena is a later state of `before` in which the first `n`
    /// frames are as they were: their headers, their pairs, and the handles to
    /// their pairs.
    pub open spec fn continues(&self, before: &Self, n: int) -> bool {
        &&& self.wf()
        &&& self.block_size() == before.block_size()
        &&& self@.capacity == before@.capacity
        &&& self@.layout == before@.layout
        &&& self@.headers.len() >= n
        &&& before@.headers.len() >= n
        &&& self@.headers.take(n) == before@.headers.take(n)
        &&& self@.frames.take(n) == before@.frames.take(n)
        &&& self@.next_stamp >= before@.next_stamp
        &&& self@.block_count() >= before@.block_count()
        &&& forall|r: StackRef|
            r.frame < n ==> (#[trigger] self.holds(r) <==> before.holds(r))
        &&& forall|r: StackRef|
            r.frame < n && before.holds(r) ==> #[trigger] self.index_of(r) == before.index_of(r)
    }

    /// Whether `line` is the line that the listing has for `at`.
    pub open spec fn lists(&self, line: Line, at: (int, int)) -> bool {
        match line {
            Line::Header => at.1 < 0,
            Line::Entry(r) => self.holds(r) && r.frame == at.0 && self.index_of(r) == at.1,
        }
    }

    /// A dictionary continues another as the stacks of pairs that they are.
    proof fn lemma_continues_as_stack(&self, before: &Self, n: int)
        ensures
            self.continues(before, n) <==> self.stack.continues(&before.stack, n),
    {
        if self.continues(before, n) {
            assert forall|r: StackRef| r.frame < n implies (#[trigger] self.stack.holds(r)
                <==> before.stack.holds(r)) by {
                assert(self.holds(r) <==> before.holds(r));
            }
            assert forall|r: StackRef|
                r.frame < n && before.stack.holds(r) implies #[trigger] self.stack.index_of(r)
                == before.stack.index_of(r) by {
                assert(before.holds(r));
                assert(self.index_of(r) == before.index_of(r));
            }
        }
        if self.stack.continues(&before.stack, n) {
            assert forall|r: StackRef| r.frame < n implies (#[trigger] self.holds(r)
                <==> before.holds(r)) by {
                assert(self.stack.holds(r) <==> before.stack.holds(r));
            }
            assert forall|r: StackRef| r.frame < n && before.holds(r) implies #[trigger] self.index_of(
                r,
            ) == before.index_of(r) by {
                assert(before.stack.holds(r));
                assert(self.stack.index_of(r) == before.stack.index_of(r));
            }
        }
    }

    /// What continues continues: a later state of a later state is a later
    /// state, for the frames that both leave as they were.
    pub proof fn lemma_continues_on(&self, between: &Self, before: &Self, n: int)
        requires
            0 <= n,
            self.continues(between, n),
            between.continues(before, n),
        ensures
            self.continues(before, n),
    {
        self.lemma_continues_as_stack(between, n);
        between.lemma_continues_as_stack(before, n);
        self.lemma_continues_as_stack(before, n);
        self.stack.lemma_continues_on(&between.stack, &before.stack, n);
    }

    /// What leaves `n` frames as they were leaves the first `m` of them as they
    /// were.
    pub proof fn lemma_continues_below(&self, before: &Self, n: int, m: int)
        requires
            0 <= m <= n,
            self.continues(before, n),
            before.wf(),
        ensures
            self.continues(before, m),
    {
        self.lemma_continues_as_stack(before, n);
        self.lemma_continues_as_stack(before, m);
        self.stack.lemma_continues_below(&before.stack, n, m);
    }

    /// A handle that holds names a pair of the frame at its depth, which
    /// carries its stamp.
    pub proof fn lemma_handle(&self, r: StackRef)
        requires
            self.wf(),
            self.holds(r),
        ensures
            r.frame < self@.headers.len(),
            r.generation == self@.headers[r.frame as int].generation,
            0 <= self.index_of(r) < self@.frames[r.frame as int].len(),
    {
        self.stack.lemma_handle(r);
    }

    /// Every stamp in use is older than the next one, and stamps grow with
    /// the depth.
    pub proof fn lemma_model(&self)
        requires
            self.wf(),
        ensures
            forall|f: int|
                0 <= f < self@.headers.len() ==> (#[trigger] self@.headers[f]).generation
                    < self@.next_stamp,
            forall|f: int, g: int|
                0 <= f < g < self@.headers.len() ==> (#[trigger] self@.headers[f]).generation < (
                #[trigger] self@.headers[g]).generation,
            forall|f: int|
                0 <= f < self@.headers.len() ==> (#[trigger] self@.headers[f]).previous_frame == (
                if f == 0 {
                    None
                } else {
                    Some((f - 1) as usize)
                }),
            self@.wf(),
            self@.headers.len() <= usize::MAX,
            self@.in_chain(),
            linked_tails(self@.tails),
            self@.capacity + BLOCK_TAIL_SIZE == self.block_size().spec_bytes(),
            self@.capacity >= FRAME_HEADER_SIZE,
            self@.layout.wf(),
    {
        self.stack.lemma_model();
    }

    /// An arena with blocks of `size` and an empty root frame, or `None` when a
    /// block of that size cannot hold its tail and the root header.
    pub fn with_size(size: StackSize) -> (made: Option<Self>)
        ensures
            made is Some <==> size.spec_bytes() >= BLOCK_TAIL_SIZE
                + FRAME_HEADER_SIZE,
            made is Some ==> {
                let arena = made->Some_0;
                &&& arena.wf()
                &&& arena@ == StackFrameAllocator::<(Key, Value)>::initial(size)
                &&& arena.block_size() == size
            },
    {
        match StackFrameAllocator::with_size(size) {
            None => None,
            Some(stack) => Some(StackFrameDictAllocator { stack }),
        }
    }

    /// An arena with blocks of the default size and an empty root frame.
    pub fn new() -> (arena: Self)
        ensures
            arena.wf(),
            arena.block_size().spec_bytes() == 1024,
            arena@ == StackFrameAllocator::<(Key, Value)>::initial(arena.block_size()),
    {
        StackFrameDictAllocator { stack: StackFrameAllocator::new() }
    }

    /// The usable bytes of a block.
    pub fn real_size(&self) -> (usable: StackSize)
        requires
            self.wf(),
        ensures
            usable.spec_bytes() == self@.capacity,
    {
        self.stack.real_size()
    }

    /// The configured size of a block.
    pub fn size(&self) -> (size: StackSize)
        ensures
            size == self.block_size(),
    {
        self.stack.size()
    }

    /// The number of live frames.
    pub fn depth(&self) -> (depth: usize)
        requires
            self.wf(),
        ensures
            depth == self@.headers.len(),
            depth >= 1,
    {
        self.stack.depth()
    }

    /// The number of blocks in the chain.
    pub fn block_count(&self) -> (count: usize)
        requires
            self.wf(),
        ensures
            count == self@.block_count(),
            count >= 1,
    {
        self.stack.block_count()
    }

    /// The tail of the block in which the bump position stands.
    pub fn get_block_tail(&self) -> (tail: BlockTail)
        requires
            self.wf(),
        ensures
            tail == self@.tails[self@.cursor().block as int],
    {
        self.stack.get_block_tail()
    }

    /// The stamp that the next frame will get. A frame can be opened as long
    /// as this is not the largest stamp.
    pub fn next_stamp(&self) -> (stamp: u64)
        ensures
            stamp == self@.next_stamp,
    {
        self.stack.next_stamp()
    }

    /// The header of the current frame.
    pub fn current_frame(&self) -> (header: StackFrameHeader)
        requires
            self.wf(),
        ensures
            header == self@.headers.last(),
    {
        self.stack.current_frame()
    }

    /// The bytes in use in the block of the bump position, counted from the
    /// start of that block.
    pub fn buffer_bytes_used(&self) -> (used: usize)
        requires
            self.wf(),
        ensures
            used == self@.cursor().offset,
    {
        self.stack.buffer_bytes_used()
    }

    /// Pushes the pair of `key` and `value` into the current frame and returns
    /// a handle to it. A pair with the same key that is already there stays,
    /// and is shadowed.
    pub fn push(&mut self, key: Key, value: Value) -> (handle: StackRef)
        requires
            old(self).wf(),
        ensures
            final(self).wf(),
            final(self)@ == old(self)@.push((key, value)),
            final(self).block_size() == old(self).block_size(),
            handle == (StackRef {
                generation: old(self)@.headers.last().generation,
                frame: old(self)@.top() as usize,
                block: old(self)@.next_slot().block,
                slot: old(self)@.next_slot().slot,
            }),
            final(self).holds(handle),
            final(self).index_of(handle) == old(self)@.frames.last().len(),
            old(self).keeps_handles(final(self)),
            forall|r: StackRef| #[trigger] final(self).holds(r) ==> old(self).holds(r) || r == handle,
            final(self).continues(old(self), old(self)@.top()),
    {
        self.stack.push((key, value))
    }

    /// The most recent pair of the current frame whose key `key` equals, or
    /// `None` when the current frame has no such pair. Pairs of enclosing
    /// frames are not looked at. The key is compared with the keys of the
    /// frame from the most recent backwards, and the first comparison that
    /// says equal decides.
    pub fn get_in_frame(&self, key: Key) -> (found: Option<StackRef>)
        requires
            self.wf(),
        ensures
            match found {
                Some(r) => {
                    &&& self.holds(r)
                    &&& r.frame == self@.top()
                    &&& hit(key, self@.frames.last()[self.index_of(r)].0)
                    &&& misses_from(self@.frames.last(), self.index_of(r) + 1, key)
                },
                None => misses_from(self@.frames.last(), 0, key),
            },
            Key::obeys_eq_spec() ==> match self@.find_in_frame(key) {
                Some(i) => found is Some && self.index_of(found->Some_0) == i,
                None => found is None,
            },
    {
        let ghost frame = self@.frames.last();
        let mut p: Peek = self.stack.peek_top();
        proof {
            self.stack.lemma_model();
            self.stack.lemma_peek_bounds(p);
            assert(frame.take(frame.len() as int) =~= frame);
        }
        while !self.stack.peek_at_start(p)
            invariant
                self.wf(),
                self.stack.peek_wf(p),
                p.frame == self@.top(),
                frame == self@.frames.last(),
                0 <= self.stack.peek_index(p) <= frame.len(),
                misses_from(frame, self.stack.peek_index(p), key),
                Key::obeys_eq_spec() ==> last_match(frame, key) == last_match(
                    frame.take(self.stack.peek_index(p)),
                    key,
                ),
            decreases self.stack.peek_index(p),
        {
            let ghost i = self.stack.peek_index(p);
            let (q, handle, pair) = self.stack.peek_back(p);
            proof {
                self.stack.lemma_model();
                assert(frame.take(i).len() == i);
                assert(frame.take(i).last() == frame[i - 1]);
                assert(frame.take(i).drop_last() =~= frame.take(i - 1));
            }
            if key == pair.0 {
                return Some(handle);
            }
            p = q;
        }
        proof {
            assert(last_match(frame.take(0), key) is None);
        }
        None
    }

    /// The most recent pair of any live frame whose key `key` equals, or
    /// `None` when no live frame has such a pair: the current frame is looked
    /// through first, then each enclosing frame in turn, down to the root. The
    /// first comparison that says equal decides.
    pub fn get_in_stack(&self, key: Key) -> (found: Option<StackRef>)
        requires
            self.wf(),
        ensures
            match found {
                Some(r) => {
                    &&& self.holds(r)
                    &&& hit(key, self@.frames[r.frame as int][self.index_of(r)].0)
                    &&& misses_from(self@.frames[r.frame as int], self.index_of(r) + 1, key)
                    &&& forall|f: int|
                        r.frame < f < self@.frames.len() ==> misses_from(
                            #[trigger] self@.frames[f],
                            0,
                            key,
                        )
                },
                None => forall|f: int|
                    0 <= f < self@.frames.len() ==> misses_from(#[trigger] self@.frames[f], 0, key),
            },
            Key::obeys_eq_spec() ==> match self@.find_in_stack(key) {
                Some(at) => found is Some && found->Some_0.frame == at.0 && self.index_of(
                    found->Some_0,
                ) == at.1,
                None => found is None,
            },
    {
        let ghost frames = self@.frames;
        let mut p: Peek = self.stack.peek_top();
        proof {
            self.stack.lemma_model();
        }
        loop
            invariant
                self.wf(),
                self.stack.peek_wf(p),
                frames == self@.frames,
                p.frame < frames.len(),
                misses_from(frames[p.frame as int], self.stack.peek_index(p), key),
                forall|f: int|
                    p.frame < f < frames.len() ==> misses_from(#[trigger] frames[f], 0, key),
                Key::obeys_eq_spec() ==> self@.find_in_stack(key) == find_below(
                    frames,
                    p.frame as int,
                    self.stack.peek_index(p),
                    key,
                ),
            ensures
                forall|f: int| 0 <= f < frames.len() ==> misses_from(#[trigger] frames[f], 0, key),
                Key::obeys_eq_spec() ==> self@.find_in_stack(key) is None,
            decreases p.frame, self.stack.peek_index(p),
        {
            proof {
                self.stack.lemma_peek_bounds(p);
            }
            let ghost i = self.stack.peek_index(p);
            let ghost frame = frames[p.frame as int];
            if self.stack.peek_at_start(p) {
                proof {
                    assert(last_match(frame.take(0), key) is None);
                }
                match self.stack.peek_previous(p) {
                    None => {
                        break ;
                    },
                    Some(q) => {
                        proof {
                            self.stack.lemma_peek_bounds(q);
                        }
                        p = q;
                    },
                }
            } else {
                let (q, handle, pair) = self.stack.peek_back(p);
                proof {
                    assert(frame.take(i).len() == i);
                    assert(frame.take(i).last() == frame[i - 1]);
                    assert(frame.take(i).drop_last() =~= frame.take(i - 1));
                }
                if key == pair.0 {
                    return Some(handle);
                }
                p = q;
            }
        }
        None
    }

    /// The value of the pair that `r` names, or `None` when `r` names no pair
    /// of a live frame.
    pub fn get(&self, r: StackRef) -> (value: Option<&Value>)
        requires
            self.wf(),
        ensures
            self.holds(r) ==> value == Some(&self@.frames[r.frame as int][self.index_of(r)].1),
            !self.holds(r) ==> value is None,
    {
        match self.stack.get(r) {
            None => None,
            Some(pair) => Some(&pair.1),
        }
    }

    /// The key of the pair that `r` names, or `None` when `r` names no pair of
    /// a live frame.
    pub fn key(&self, r: StackRef) -> (key: Option<&Key>)
        requires
            self.wf(),
        ensures
            self.holds(r) ==> key == Some(&self@.frames[r.frame as int][self.index_of(r)].0),
            !self.holds(r) ==> key is None,
    {
        match self.stack.get(r) {
            None => None,
            Some(pair) => Some(&pair.0),
        }
    }

    /// The value of the pair that `r` names, for writing, or `None` when `r`
    /// names no pair of a live frame. What the caller leaves in the value is
    /// what the arena holds afterwards; the key and everything else stay.
    pub fn get_mut(&mut self, r: StackRef) -> (value: Option<&mut Value>)
        requires
            old(self).wf(),
        ensures
            final(self).wf(),
            final(self).block_size() == old(self).block_size(),
            forall|q: StackRef| #[trigger] final(self).holds(q) <==> old(self).holds(q),
            old(self).keeps_handles(final(self)),
            value is Some <==> old(self).holds(r),
            value is Some ==> *value->Some_0 == old(self)@.frames[r.frame as int][old(
                self,
            ).index_of(r)].1 && final(self)@ == old(self)@.write(
                r.frame as int,
                old(self).index_of(r),
                (
                    old(self)@.frames[r.frame as int][old(self).index_of(r)].0,
                    *final(value->Some_0),
                ),
            ),
            value is None ==> final(self)@ == old(self)@,
    {
        match self.stack.get_mut(r) {
            None => None,
            Some(pair) => Some(&mut pair.1),
        }
    }

    /// Opens a frame, runs `scope` once on the arena with that frame current,
    /// and closes every frame that is open above the caller's when `scope`
    /// returns, the innermost first. Returns the pairs that this released, in
    /// the order of their release: dropping what is returned runs their
    /// destructors most recent first. The caller's frames are afterwards as
    /// they were: `scope` may push, look up, and open and close frames of its
    /// own, but must leave the caller's frames alone.
    pub fn new_scope<F: FnOnce(&mut Self)>(&mut self, scope: F) -> (released: Vec<(Key, Value)>)
        requires
            old(self).wf(),
            old(self)@.next_stamp < u64::MAX,
            forall|child: &mut Self|
                child.wf() && child@ == old(self)@.open_frame() && child.block_size() == old(
                    self,
                ).block_size() && old(self).keeps_handles(child) && (forall|r: StackRef| #[trigger]
                    child.holds(r) ==> old(self).holds(r)) ==> #[trigger] scope.requires((child,)),
            forall|child: &mut Self| #[trigger]
                scope.ensures((child,), ()) ==> final(child).continues(
                    child,
                    child@.headers.len() - 1,
                ),
        ensures
            final(self).continues(old(self), old(self)@.headers.len() as int),
            final(self)@.headers == old(self)@.headers,
            final(self)@.frames == old(self)@.frames,
            forall|r: StackRef| #[trigger] final(self).holds(r) <==> old(self).holds(r),
            final(self)@.next_stamp > old(self)@.next_stamp,
            exists|child: &mut Self|
                {
                    &&& child.wf()
                    &&& child@ == old(self)@.open_frame()
                    &&& child.block_size() == old(self).block_size()
                    &&& old(self).keeps_handles(child)
                    &&& #[trigger] scope.ensures((child,), ())
                    &&& final(self)@.tails == final(child)@.tails
                    &&& final(self)@.next_stamp == final(child)@.next_stamp
                    &&& released@ == release_order(
                        final(child)@.frames.skip(old(self)@.headers.len() as int),
                    )
                },
    {
        let ghost pre = *self;
        proof {
            pre.lemma_model();
        }
        let depth: usize = self.depth();
        self.new_frame();
        let ghost opened = *self;
        scope(self);
        let ghost left = *self;
        proof {
            self.lemma_continues_on(&opened, &pre, depth as int);
            left.lemma_model();
        }
        let mut released: Vec<(Key, Value)> = Vec::new();
        while self.depth() > depth
            invariant
                pre.wf(),
                depth == pre@.headers.len(),
                depth >= 1,
                self.continues(&pre, depth as int),
                self@.next_stamp == left@.next_stamp,
                self@.tails == left@.tails,
                self@.frames.len() >= depth,
                left@.frames.len() >= depth,
                released@ + release_order(self@.frames.skip(depth as int)) == release_order(
                    left@.frames.skip(depth as int),
                ),
            decreases self@.headers.len(),
        {
            let ghost before = *self;
            let closed = self.end_frame();
            let mut records: Vec<(Key, Value)> = closed.unwrap();
            released.append(&mut records);
            proof {
                before.lemma_model();
                assert(self@ == before@.close_frame());
                self.lemma_continues_below(&before, self@.headers.len() as int, depth as int);
                self.lemma_continues_on(&before, &pre, depth as int);
                let above = before@.frames.skip(depth as int);
                assert(above.last() == before@.frames.last());
                assert(above.drop_last() =~= self@.frames.skip(depth as int));
                assert(release_order(above) == above.last().reverse() + release_order(
                    above.drop_last(),
                ));
                assert(released@ + release_order(self@.frames.skip(depth as int))
                    =~= release_order(left@.frames.skip(depth as int)));
            }
        }
        proof {
            self.lemma_model();
            assert(self@.headers =~= self@.headers.take(depth as int));
            assert(pre@.headers =~= pre@.headers.take(depth as int));
            assert(self@.frames =~= self@.frames.take(depth as int));
            assert(pre@.frames =~= pre@.frames.take(depth as int));
            assert forall|r: StackRef| #[trigger] self.holds(r) <==> pre.holds(r) by {
                if r.frame >= depth {
                    if self.holds(r) {
                        self.lemma_handle(r);
                    }
                    if pre.holds(r) {
                        pre.lemma_handle(r);
                    }
                }
            }
            assert(self@.frames.skip(depth as int) =~= Seq::<Seq<(Key, Value)>>::empty());
            assert(released@ =~= release_order(left@.frames.skip(depth as int)));
        }
        released
    }

    /// Opens a frame inside the current one. The caller ends it with
    /// [`StackFrameDictAllocator::end_frame`].
    pub fn new_frame(&mut self)
        requires
            old(self).wf(),
            old(self)@.next_stamp < u64::MAX,
        ensures
            final(self).wf(),
            final(self)@ == old(self)@.open_frame(),
            final(self).block_size() == old(self).block_size(),
            old(self).keeps_handles(final(self)),
            forall|r: StackRef| #[trigger] final(self).holds(r) ==> old(self).holds(r),
            final(self).continues(old(self), old(self)@.headers.len() as int),
    {
        self.stack.new_frame();
    }

    /// Closes the current frame: releases its pairs, the most recent first,
    /// and makes the enclosing frame current again. The root frame stays: with
    /// no other frame open nothing changes and `None` is returned.
    pub fn end_frame(&mut self) -> (released: Option<Vec<(Key, Value)>>)
        requires
            old(self).wf(),
        ensures
            final(self).wf(),
            final(self).block_size() == old(self).block_size(),
            old(self)@.headers.len() == 1 ==> released is None && final(self)@ == old(self)@,
            old(self)@.headers.len() > 1 ==> released is Some && released->Some_0@
                == old(self)@.released() && final(self)@ == old(self)@.close_frame(),
            forall|r: StackRef| #[trigger]
                final(self).holds(r) <==> old(self).holds(r) && (r.frame < old(self)@.top()
                    || old(self)@.headers.len() == 1),
            forall|r: StackRef| #[trigger]
                final(self).holds(r) ==> final(self).index_of(r) == old(self).index_of(r),
            final(self).continues(old(self), final(self)@.headers.len() as int),
    {
        self.stack.end_frame()
    }

    /// Tears the whole stack down: closes every frame, the innermost first,
    /// then releases every block of the chain. Returns the pairs in the order
    /// in which they were released, and the number of blocks released.
    pub fn teardown(self) -> (out: (Vec<(Key, Value)>, usize))
        requires
            self.wf(),
        ensures
            out.0@ == self@.released_all(),
            out.1 == self@.block_count(),
    {
        self.stack.teardown()
    }

    /// Lists the stack from the most recent pair of the current frame down to
    /// the header of the root frame: every pair by its handle, and a header
    /// line after the pairs of each frame. Returns the lines and the number of
    /// blocks in the chain.
    pub fn print(&self) -> (out: (Vec<Line>, usize))
        requires
            self.wf(),
        ensures
            out.0@.len() == self@.listed().len(),
            forall|j: int|
                0 <= j < out.0@.len() ==> self.lists(#[trigger] out.0@[j], self@.listed()[j]),
            out.1 == self@.block_count(),
    {
        self.stack.print()
    }
}

} // verus!
