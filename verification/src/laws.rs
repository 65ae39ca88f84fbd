//! What holds of every stack, stated over the model that the contracts of
//! both engines use.

use vstd::prelude::*;
use vstd::std_specs::cmp::PartialEqSpec;
use crate::block_chain::{grown_tails, linked_tails, BlockTail};
use crate::layout::{spec_fits, spec_padding};
use crate::model::{find_below, last_match, push_order, release_order, StackModel};
use crate::stack_frame_header::Position;

verus! {

/// Pushing values leaves the frames below the current one alone and appends
/// the values to the current frame in the order in which they were pushed.
pub proof fn lemma_push_all<T>(m: StackModel<T>, values: Seq<T>)
    requires
        m.wf(),
    ensures
        m.push_all(values).wf(),
        m.push_all(values).frames.len() == m.frames.len(),
        m.push_all(values).frames.drop_last() == m.frames.drop_last(),
        m.push_all(values).headers.drop_last() == m.headers.drop_last(),
        m.push_all(values).frames.last() == m.frames.last() + values,
        m.push_all(values).headers.last().start == m.headers.last().start,
        m.push_all(values).headers.last().generation == m.headers.last().generation,
        m.push_all(values).next_stamp == m.next_stamp,
        m.push_all(values).capacity == m.capacity,
        m.push_all(values).layout == m.layout,
    decreases values.len(),
{
    if values.len() == 0 {
        assert(m.frames.last() + values =~= m.frames.last());
    } else {
        let before = m.push_all(values.drop_last());
        lemma_push_all(m, values.drop_last());
        let after = before.push(values.last());
        assert(after.frames.drop_last() =~= before.frames.drop_last());
        assert(after.headers.drop_last() =~= before.headers.drop_last());
        assert(after.frames.last() =~= m.frames.last() + values) by {
            assert(values =~= values.drop_last().push(values.last()));
        }
    }
}

/// Last in, first out: when values are pushed into a frame and the frame is
/// closed, the values are released in the reverse of the order in which they
/// were pushed, before whatever the frame held already.
pub proof fn lemma_release_reverses_pushes<T>(m: StackModel<T>, values: Seq<T>)
    requires
        m.wf(),
    ensures
        m.push_all(values).released() == values.reverse() + m.released(),
        m.open_frame().push_all(values).released() == values.reverse(),
{
    lemma_push_all(m, values);
    assert((m.frames.last() + values).reverse() =~= values.reverse() + m.frames.last().reverse());
    let opened = m.open_frame();
    lemma_push_all(opened, values);
    assert((opened.frames.last() + values).reverse() =~= values.reverse());
}

/// What a scope releases when it ends: if values were pushed into the frame of
/// the scope and nothing else was done in it, the frames above the caller's
/// are that one frame, and its values are released in the reverse of the
/// order in which they were pushed.
pub proof fn lemma_scope_releases_in_reverse<T>(m: StackModel<T>, values: Seq<T>)
    requires
        m.wf(),
    ensures
        m.open_frame().push_all(values).frames.skip(m.frames.len() as int) == seq![values],
        release_order(m.open_frame().push_all(values).frames.skip(m.frames.len() as int))
            == values.reverse(),
{
    let opened = m.open_frame();
    lemma_push_all(opened, values);
    let left = opened.push_all(values);
    let above = left.frames.skip(m.frames.len() as int);
    assert(left.frames.last() =~= values);
    assert(above =~= seq![values]);
    assert(above.drop_last() =~= Seq::<Seq<T>>::empty());
    assert(release_order(above.drop_last()) =~= Seq::<T>::empty());
    assert(release_order(above) =~= values.reverse());
}

/// A scope leaves no trace: after a frame was opened, values were pushed into
/// it and it was closed, every frame holds what it held before and every bump
/// position stands where it stood.
pub proof fn lemma_scope_leaves_no_trace<T>(m: StackModel<T>, values: Seq<T>)
    requires
        m.wf(),
    ensures
        m.open_frame().push_all(values).close_frame().frames == m.frames,
        m.open_frame().push_all(values).close_frame().headers == m.headers,
{
    let opened = m.open_frame();
    lemma_push_all(opened, values);
    assert(opened.frames.drop_last() =~= m.frames);
    assert(opened.headers.drop_last() =~= m.headers);
}

/// What was pushed inside a scope cannot be looked up once the scope has
/// ended: both lookups find what they found before the scope.
pub proof fn lemma_scope_hides_its_pairs<K: PartialEq, V>(
    m: StackModel<(K, V)>,
    pairs: Seq<(K, V)>,
    key: K,
)
    requires
        m.wf(),
    ensures
        m.open_frame().push_all(pairs).close_frame().find_in_frame(key) == m.find_in_frame(key),
        m.open_frame().push_all(pairs).close_frame().find_in_stack(key) == m.find_in_stack(key),
{
    lemma_scope_leaves_no_trace(m, pairs);
}

/// A pair shadows what was pushed before it: once a pair is pushed, both
/// lookups find it for every key that equals its key.
pub proof fn lemma_push_shadows<K: PartialEq, V>(m: StackModel<(K, V)>, pair: (K, V), key: K)
    requires
        m.wf(),
        key.eq_spec(&pair.0),
    ensures
        m.push(pair).find_in_frame(key) == Some(m.frames.last().len() as int),
        m.push(pair).find_in_stack(key) == Some((m.top(), m.frames.last().len() as int)),
{
    let after = m.push(pair);
    let frame = after.frames.last();
    assert(frame == m.frames.last().push(pair));
    assert(frame.take(frame.len() as int) =~= frame);
}

/// A pair of another key hides nothing: a lookup for a key that does not
/// equal the key of the pair pushed last finds what it found before.
pub proof fn lemma_push_of_other_key<K: PartialEq, V>(m: StackModel<(K, V)>, pair: (K, V), key: K)
    requires
        m.wf(),
        !key.eq_spec(&pair.0),
    ensures
        m.push(pair).find_in_frame(key) == m.find_in_frame(key),
        m.push(pair).find_in_stack(key) == m.find_in_stack(key),
{
    let after = m.push(pair);
    let frame = after.frames.last();
    let old_frame = m.frames.last();
    assert(frame == old_frame.push(pair));
    assert(frame.drop_last() =~= old_frame);
    assert(frame.take(frame.len() as int) =~= frame);
    assert(old_frame.take(old_frame.len() as int) =~= old_frame);
    if m.top() > 0 {
        lemma_find_below_ignores_above(
            m.frames,
            after.frames,
            m.top() - 1,
            m.frames[m.top() - 1].len() as int,
            key,
        );
    }
}

/// A lookup through the frames up to depth `f` depends on those frames only.
pub proof fn lemma_find_below_ignores_above<K: PartialEq, V>(
    a: Seq<Seq<(K, V)>>,
    b: Seq<Seq<(K, V)>>,
    f: int,
    i: int,
    key: K,
)
    requires
        -1 <= f < a.len(),
        f < b.len(),
        forall|g: int| 0 <= g <= f ==> a[g] == b[g],
    ensures
        find_below(a, f, i, key) == find_below(b, f, i, key),
    decreases f + 1,
{
    if f >= 0 {
        assert(a[f] == b[f]);
        if f > 0 {
            assert(a[f - 1] == b[f - 1]);
            lemma_find_below_ignores_above(a, b, f - 1, a[f - 1].len() as int, key);
        }
    }
}

/// Shadowing ends with the frame of the shadowing pair: when a pair is
/// shadowed by a pair of an inner frame, lookups from inside that frame find
/// the inner pair, and once that frame is closed they find the outer pair
/// again.
pub proof fn lemma_shadowing_ends_with_the_frame<K: PartialEq, V>(
    m: StackModel<(K, V)>,
    outer: (K, V),
    inner: (K, V),
    key: K,
)
    requires
        m.wf(),
        key.eq_spec(&outer.0),
        key.eq_spec(&inner.0),
    ensures
        m.push(outer).open_frame().push(inner).find_in_stack(key) == Some((m.top() + 1, 0int)),
        m.push(outer).open_frame().push(inner).find_in_frame(key) == Some(0int),
        m.push(outer).open_frame().push(inner).close_frame().find_in_stack(key) == Some(
            (m.top(), m.frames.last().len() as int),
        ),
        m.push(outer).open_frame().push(inner).close_frame().find_in_frame(key) == Some(
            m.frames.last().len() as int,
        ),
{
    let parent = m.push(outer);
    let child = parent.open_frame();
    let shadowed = child.push(inner);
    lemma_push_shadows(m, outer, key);
    lemma_push_shadows(child, inner, key);
    assert(child.frames.last().len() == 0);
    lemma_scope_leaves_no_trace(parent, seq![inner]);
    assert(child.push_all(seq![inner]) == shadowed) by {
        assert(seq![inner].drop_last() =~= Seq::<(K, V)>::empty());
        assert(child.push_all(Seq::<(K, V)>::empty()) == child);
    }
}

/// A frame and the whole stack are different scopes. A pair pushed in an
/// inner frame is found from inside it by the lookup through the stack, and
/// by no lookup once the frame is closed, unless an enclosing frame has the
/// key too. A pair pushed in the enclosing frame is found from inside the
/// inner frame by the lookup through the stack, and not by the lookup in the
/// frame, as long as the inner frame has no pair of that key.
pub proof fn lemma_frame_and_stack_scopes<K: PartialEq, V>(
    m: StackModel<(K, V)>,
    pair: (K, V),
    key: K,
)
    requires
        m.wf(),
        key.eq_spec(&pair.0),
    ensures
        m.open_frame().push(pair).find_in_stack(key) == Some((m.top() + 1, 0int)),
        m.open_frame().push(pair).close_frame().find_in_frame(key) == m.find_in_frame(key),
        m.push(pair).open_frame().find_in_stack(key) == Some(
            (m.top(), m.frames.last().len() as int),
        ),
        m.push(pair).open_frame().find_in_frame(key) is None,
{
    let child = m.open_frame();
    lemma_push_shadows(child, pair, key);
    assert(child.frames.last().len() == 0);
    lemma_scope_leaves_no_trace(m, seq![pair]);
    assert(child.push_all(seq![pair]) == child.push(pair)) by {
        assert(seq![pair].drop_last() =~= Seq::<(K, V)>::empty());
        assert(child.push_all(Seq::<(K, V)>::empty()) == child);
    }
    let parent = m.push(pair);
    let inside = parent.open_frame();
    lemma_push_shadows(m, pair, key);
    let empty = inside.frames.last();
    assert(empty.len() == 0);
    assert(empty.take(0) =~= empty);
    assert(last_match(empty.take(0), key) is None);
    assert(inside.frames[inside.top() - 1] == parent.frames.last());
    lemma_find_below_ignores_above(
        parent.frames,
        inside.frames,
        parent.top(),
        parent.frames.last().len() as int,
        key,
    );
    assert(parent.frames.last().take(parent.frames.last().len() as int) =~= parent.frames.last());
}

/// A push that does not fit goes on in the next block: the bump position
/// moves to the first record of that block, the chain has a block for it, and
/// the current frame holds what it held, followed by the new record.
pub proof fn lemma_push_crosses_blocks<T>(m: StackModel<T>, value: T)
    requires
        m.wf(),
        m.in_chain(),
        !spec_fits(
            m.cursor().offset as int,
            spec_padding(m.cursor().offset as int, m.layout.align as int),
            m.layout.size as int,
            m.capacity,
        ),
    ensures
        m.push(value).cursor() == (Position {
            block: (m.cursor().block + 1) as usize,
            offset: m.layout.size,
            slot: 1,
        }),
        m.push(value).block_count() > m.cursor().block + 1,
        m.push(value).block_count() >= m.block_count(),
        m.push(value).frames.last() == m.frames.last().push(value),
        m.push(value).frames.drop_last() == m.frames.drop_last(),
        m.push(value).released() == seq![value] + m.released(),
{
    let after = m.push(value);
    assert(after.frames.drop_last() =~= m.frames.drop_last());
    assert(m.frames.last().push(value).reverse() =~= seq![value] + m.frames.last().reverse());
}

/// Links are only ever added: taking space keeps every block of the chain and
/// at most appends one; no block changes its predecessor, no successor that
/// is set changes, and the links still follow the order of the chain.
pub proof fn lemma_links_are_append_only(
    tails: Seq<BlockTail>,
    at: Position,
    size: int,
    align: int,
    capacity: int,
)
    requires
        linked_tails(tails),
        at.block < tails.len() <= usize::MAX,
    ensures
        tails.len() <= grown_tails(tails, at, size, align, capacity).len() <= tails.len() + 1,
        forall|i: int|
            0 <= i < tails.len() ==> (#[trigger] grown_tails(
                tails,
                at,
                size,
                align,
                capacity,
            )[i]).prev_block == tails[i].prev_block,
        forall|i: int|
            0 <= i < tails.len() && tails[i].next_block is Some ==> (#[trigger] grown_tails(
                tails,
                at,
                size,
                align,
                capacity,
            )[i]).next_block == tails[i].next_block,
        linked_tails(grown_tails(tails, at, size, align, capacity)),
{
    let grown = grown_tails(tails, at, size, align, capacity);
    assert(tails[at.block as int].next_block == (if at.block + 1 < tails.len() {
        Some((at.block + 1) as usize)
    } else {
        None
    }));
    assert forall|i: int| 0 <= i < grown.len() implies {
        &&& (#[trigger] grown[i]).prev_block == (if i == 0 {
            None
        } else {
            Some((i - 1) as usize)
        })
        &&& grown[i].next_block == (if i + 1 < grown.len() {
            Some((i + 1) as usize)
        } else {
            None
        })
    } by {
        if i < tails.len() {
            assert(tails[i].prev_block == (if i == 0 {
                None
            } else {
                Some((i - 1) as usize)
            }));
        }
    }
}

/// The stamps of the live frames grow with the depth and are older than the
/// next stamp.
pub open spec fn stamps_ordered<T>(m: StackModel<T>) -> bool {
    &&& forall|f: int| 0 <= f < m.headers.len() ==> (#[trigger] m.headers[f]).generation < m.next_stamp
    &&& forall|f: int, g: int|
        0 <= f < g < m.headers.len() ==> (#[trigger] m.headers[f]).generation < (
        #[trigger] m.headers[g]).generation
}

/// Whether some live frame carries the stamp `stamp`.
pub open spec fn stamp_in_use<T>(m: StackModel<T>, stamp: u64) -> bool {
    exists|f: int| 0 <= f < m.headers.len() && (#[trigger] m.headers[f]).generation == stamp
}

/// A stamp is never used twice: the order of the stamps lasts through every
/// operation, and a stamp that was given out and is in use no more, as that of
/// a closed frame, is in use after none. So a handle, which holds only while a
/// live frame carries its stamp, never holds again once its frame is closed.
pub proof fn lemma_stamps_never_return<T>(m: StackModel<T>, value: T, stamp: u64)
    requires
        m.wf(),
        stamps_ordered(m),
        m.next_stamp < u64::MAX,
        stamp < m.next_stamp,
        !stamp_in_use(m, stamp),
    ensures
        stamps_ordered(m.push(value)),
        stamps_ordered(m.open_frame()),
        stamps_ordered(m.close_frame()),
        !stamp_in_use(m.push(value), stamp),
        !stamp_in_use(m.open_frame(), stamp),
        !stamp_in_use(m.close_frame(), stamp),
        stamp < m.push(value).next_stamp,
        stamp < m.open_frame().next_stamp,
        stamp < m.close_frame().next_stamp,
        m.headers.len() >= 2 ==> !stamp_in_use(m.close_frame(), m.headers.last().generation),
{
    let pushed = m.push(value);
    let opened = m.open_frame();
    let closed = m.close_frame();
    assert forall|f: int| 0 <= f < pushed.headers.len() implies (
    #[trigger] pushed.headers[f]).generation == m.headers[f].generation by {}
    assert forall|f: int| 0 <= f < m.headers.len() implies (#[trigger] opened.headers[f])
        == m.headers[f] by {}
    assert forall|f: int| 0 <= f < closed.headers.len() implies (#[trigger] closed.headers[f])
        == m.headers[f] by {}
    assert(stamps_ordered(pushed)) by {
        assert forall|f: int, g: int| 0 <= f < g < pushed.headers.len() implies (
        #[trigger] pushed.headers[f]).generation < (#[trigger] pushed.headers[g]).generation by {
            assert(m.headers[f].generation < m.headers[g].generation);
        }
    }
    assert(stamps_ordered(opened)) by {
        assert forall|f: int, g: int| 0 <= f < g < opened.headers.len() implies (
        #[trigger] opened.headers[f]).generation < (#[trigger] opened.headers[g]).generation by {
            assert(opened.headers[f] == m.headers[f]);
            if g < m.headers.len() {
                assert(opened.headers[g] == m.headers[g]);
                assert(m.headers[f].generation < m.headers[g].generation);
            }
        }
    }
    assert(stamps_ordered(closed)) by {
        assert forall|f: int, g: int| 0 <= f < g < closed.headers.len() implies (
        #[trigger] closed.headers[f]).generation < (#[trigger] closed.headers[g]).generation by {
            assert(m.headers[f].generation < m.headers[g].generation);
        }
    }
    if stamp_in_use(pushed, stamp) {
        let f = choose|f: int|
            0 <= f < pushed.headers.len() && (#[trigger] pushed.headers[f]).generation == stamp;
        assert(m.headers[f].generation == stamp);
    }
    if stamp_in_use(opened, stamp) {
        let f = choose|f: int|
            0 <= f < opened.headers.len() && (#[trigger] opened.headers[f]).generation == stamp;
        if f < m.headers.len() {
            assert(m.headers[f].generation == stamp);
        }
    }
    if stamp_in_use(closed, stamp) {
        let f = choose|f: int|
            0 <= f < closed.headers.len() && (#[trigger] closed.headers[f]).generation == stamp;
        assert(m.headers[f].generation == stamp);
    }
    if m.headers.len() >= 2 && stamp_in_use(closed, m.headers.last().generation) {
        let f = choose|f: int|
            0 <= f < closed.headers.len() && (#[trigger] closed.headers[f]).generation
                == m.headers.last().generation;
        assert(m.headers[f].generation < m.headers[m.headers.len() - 1].generation);
    }
}

/// Nothing is released twice and nothing is left: a teardown releases the
/// records of all frames in exactly the reverse of the order in which they
/// were pushed, so every record once.
pub proof fn lemma_teardown_releases_each_once<T>(frames: Seq<Seq<T>>)
    ensures
        release_order(frames) == push_order(frames).reverse(),
        release_order(frames).len() == push_order(frames).len(),
        forall|i: int|
            0 <= i < push_order(frames).len() ==> #[trigger] release_order(frames)[i] == push_order(
                frames,
            )[push_order(frames).len() - 1 - i],
    decreases frames.len(),
{
    if frames.len() > 0 {
        lemma_teardown_releases_each_once(frames.drop_last());
        let below = push_order(frames.drop_last());
        assert((below + frames.last()).reverse() =~= frames.last().reverse() + below.reverse());
    } else {
        assert(push_order(frames).reverse() =~= Seq::<T>::empty());
    }
}

/// Every push adds one record to what a teardown will release, and closing
/// a frame takes the records of that frame out of it.
pub proof fn lemma_pushes_are_accounted<T>(m: StackModel<T>, value: T)
    requires
        m.wf(),
    ensures
        push_order(m.push(value).frames) == push_order(m.frames).push(value),
        push_order(m.open_frame().frames) == push_order(m.frames),
        push_order(m.frames) == push_order(m.close_frame().frames) + m.frames.last(),
{
    let after = m.push(value);
    assert(after.frames.drop_last() =~= m.frames.drop_last());
    assert(push_order(after.frames) =~= push_order(m.frames).push(value));
    let opened = m.open_frame();
    assert(opened.frames.drop_last() =~= m.frames);
    assert(push_order(opened.frames) =~= push_order(m.frames));
}

} // verus!
