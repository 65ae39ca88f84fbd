//! The chain of blocks that backs an arena, and the rule by which space is
//! taken from it.

use vstd::prelude::*;
use crate::layout::{fits, padding, spec_fits, spec_padding};
use crate::stack_frame_header::Position;

verus! {

/// Links kept at the end of every block.
#[derive(Clone, Copy, Debug, PartialEq, Eq, Structural)]
pub struct BlockTail {
    /// The block before this one in the chain.
    pub prev_block: Option<usize>,
    /// The bytes that were in use in the previous block when the bump position
    /// last left it for this one.
    pub prev_block_bytes_used: usize,
    /// The block after this one in the chain, once there is one.
    pub next_block: Option<usize>,
}

/// One block: the records stored in it, oldest first, and its tail.
pub struct Block<T> {
    pub slots: Vec<T>,
    pub tail: BlockTail,
}

/// The records of the first `n` blocks, oldest first.
pub open spec fn flat<T>(blocks: Seq<Block<T>>, n: int) -> Seq<T>
    decreases n,
{
    if n <= 0 {
        Seq::empty()
    } else {
        flat(blocks, n - 1) + blocks[n - 1].slots@
    }
}

/// The tail links follow the order of the chain: each block names the one
/// before it and the one after it, the first has no predecessor and the last
/// no successor.
pub open spec fn linked<T>(blocks: Seq<Block<T>>) -> bool {
    forall|i: int|
        0 <= i < blocks.len() ==> {
            &&& (#[trigger] blocks[i]).tail.prev_block == (if i == 0 {
                None
            } else {
                Some((i - 1) as usize)
            })
            &&& blocks[i].tail.next_block == (if i + 1 < blocks.len() {
                Some((i + 1) as usize)
            } else {
                None
            })
        }
}

/// The tails of a chain, first block first.
pub open spec fn tails_of<T>(blocks: Seq<Block<T>>) -> Seq<BlockTail> {
    Seq::new(blocks.len(), |i: int| blocks[i].tail)
}

/// The links of `tails` follow the order of the chain, as [`linked`] says of
/// the blocks that carry them.
pub open spec fn linked_tails(tails: Seq<BlockTail>) -> bool {
    forall|i: int|
        0 <= i < tails.len() ==> {
            &&& (#[trigger] tails[i]).prev_block == (if i == 0 {
                None
            } else {
                Some((i - 1) as usize)
            })
            &&& tails[i].next_block == (if i + 1 < tails.len() {
                Some((i + 1) as usize)
            } else {
                None
            })
        }
}

/// Whether blocks are linked is a matter of their tails alone.
pub proof fn lemma_linked_by_tails<T>(a: Seq<Block<T>>, b: Seq<Block<T>>)
    requires
        linked(a),
        a.len() == b.len(),
        forall|i: int| 0 <= i < a.len() ==> (#[trigger] b[i]).tail == a[i].tail,
    ensures
        linked(b),
{
    assert forall|i: int| 0 <= i < b.len() implies {
        &&& (#[trigger] b[i]).tail.prev_block == (if i == 0 {
            None
        } else {
            Some((i - 1) as usize)
        })
        &&& b[i].tail.next_block == (if i + 1 < b.len() {
            Some((i + 1) as usize)
        } else {
            None
        })
    } by {
        assert(b[i].tail == a[i].tail);
    }
}

/// The tails of linked blocks are linked.
pub proof fn lemma_linked_tails<T>(blocks: Seq<Block<T>>)
    requires
        linked(blocks),
    ensures
        linked_tails(tails_of(blocks)),
{
    assert forall|i: int| 0 <= i < tails_of(blocks).len() implies {
        &&& (#[trigger] tails_of(blocks)[i]).prev_block == (if i == 0 {
            None
        } else {
            Some((i - 1) as usize)
        })
        &&& tails_of(blocks)[i].next_block == (if i + 1 < tails_of(blocks).len() {
            Some((i + 1) as usize)
        } else {
            None
        })
    } by {
        assert(tails_of(blocks)[i] == blocks[i].tail);
    }
}

/// The tails after space was taken at `at` for an item that may not fit:
/// unchanged if it fits; else the next block records the bytes in use at `at`
/// as those of its predecessor, and if there is no next block yet, one is
/// appended behind the block of `at` and linked to it in both directions.
pub open spec fn grown_tails(
    tails: Seq<BlockTail>,
    at: Position,
    size: int,
    align: int,
    capacity: int,
) -> Seq<BlockTail> {
    let pad = spec_padding(at.offset as int, align);
    let next = at.block + 1;
    if spec_fits(at.offset as int, pad, size, capacity) {
        tails
    } else if next < tails.len() {
        tails.update(next, BlockTail { prev_block_bytes_used: at.offset, ..tails[next] })
    } else {
        tails.update(
            at.block as int,
            BlockTail { next_block: Some(next as usize), ..tails[at.block as int] },
        ).push(
            BlockTail {
                prev_block: Some(at.block),
                prev_block_bytes_used: at.offset,
                next_block: None,
            },
        )
    }
}

/// Two chains that hold the same records in their first `n` blocks.
pub open spec fn same_records<T>(a: Seq<Block<T>>, b: Seq<Block<T>>, n: int) -> bool {
    forall|i: int| 0 <= i < n ==> (#[trigger] a[i]).slots@ == (#[trigger] b[i]).slots@
}

/// Chains with the same records in their first `n` blocks have the same
/// records in that prefix.
pub proof fn lemma_flat_same<T>(a: Seq<Block<T>>, b: Seq<Block<T>>, n: int)
    requires
        same_records(a, b, n),
    ensures
        flat(a, n) == flat(b, n),
    decreases n,
{
    if n > 0 {
        lemma_flat_same(a, b, n - 1);
        assert(a[n - 1].slots@ == b[n - 1].slots@);
    }
}

/// A longer prefix holds no fewer records, and one block more adds the
/// records of that block.
pub proof fn lemma_flat_len<T>(blocks: Seq<Block<T>>, m: int, n: int)
    requires
        0 <= m <= n,
    ensures
        flat(blocks, m).len() <= flat(blocks, n).len(),
        n == m + 1 ==> flat(blocks, n).len() == flat(blocks, m).len() + blocks[m].slots@.len(),
    decreases n - m,
{
    if m < n {
        lemma_flat_len(blocks, m, n - 1);
    }
}

/// The record in slot `s` of block `b` stands at index
/// `flat(blocks, b).len() + s` of the records of any longer prefix.
pub proof fn lemma_flat_index<T>(blocks: Seq<Block<T>>, n: int, b: int, s: int)
    requires
        0 <= b < n,
        0 <= s < blocks[b].slots@.len(),
    ensures
        flat(blocks, b).len() + s < flat(blocks, n).len(),
        flat(blocks, n)[flat(blocks, b).len() + s] == blocks[b].slots@[s],
    decreases n,
{
    if b == n - 1 {
    } else {
        lemma_flat_index(blocks, n - 1, b, s);
    }
}

/// Two chains whose blocks hold equally many records have records at the
/// same indices.
pub proof fn lemma_flat_same_len<T>(a: Seq<Block<T>>, b: Seq<Block<T>>, n: int)
    requires
        forall|i: int| 0 <= i < n ==> (#[trigger] a[i]).slots@.len() == b[i].slots@.len(),
    ensures
        flat(a, n).len() == flat(b, n).len(),
    decreases n,
{
    if n > 0 {
        lemma_flat_same_len(a, b, n - 1);
        assert(a[n - 1].slots@.len() == b[n - 1].slots@.len());
    }
}

/// Replacing the record in slot `s` of block `k` replaces one record of every
/// prefix that reaches block `k`, and none of a shorter one.
pub proof fn lemma_flat_update<T>(a: Seq<Block<T>>, b: Seq<Block<T>>, n: int, k: int, s: int, v: T)
    requires
        0 <= k,
        0 <= s < a[k].slots@.len(),
        b[k].slots@ == a[k].slots@.update(s, v),
        forall|i: int| 0 <= i < n && i != k ==> (#[trigger] a[i]).slots@ == b[i].slots@,
    ensures
        n <= k ==> flat(b, n) == flat(a, n),
        n > k ==> flat(b, n) == flat(a, n).update(flat(a, k).len() + s, v),
    decreases n,
{
    if n > 0 {
        lemma_flat_update(a, b, n - 1, k, s, v);
        if n - 1 == k {
            assert(flat(b, n) =~= flat(a, n).update(flat(a, k).len() + s, v));
        } else if n - 1 > k {
            assert(a[n - 1].slots@ == b[n - 1].slots@);
            lemma_flat_len(a, k, n - 1);
            lemma_flat_len(a, k, k + 1);
            if k + 1 <= n - 1 {
                lemma_flat_len(a, k + 1, n - 1);
            }
            assert(flat(b, n) =~= flat(a, n).update(flat(a, k).len() + s, v));
        } else {
            assert(a[n - 1].slots@ == b[n - 1].slots@);
        }
    }
}

/// Where an item of `size` bytes aligned to `align` is placed when the bump
/// position is `at`: in the same block after the padding if it fits there,
/// else at the start of the next block.
pub open spec fn spec_place(at: Position, size: int, align: int, capacity: int) -> Position {
    let pad = spec_padding(at.offset as int, align);
    if spec_fits(at.offset as int, pad, size, capacity) {
        Position { block: at.block, offset: (at.offset + pad) as usize, slot: at.slot }
    } else {
        Position { block: (at.block + 1) as usize, offset: 0, slot: 0 }
    }
}

/// The position just past an item of `size` bytes placed by [`spec_place`].
pub open spec fn spec_past(at: Position, size: int, align: int, capacity: int) -> Position {
    let placed = spec_place(at, size, align, capacity);
    Position { block: placed.block, offset: (placed.offset + size) as usize, slot: placed.slot }
}

/// The chain after space was taken at `at`: its tails are grown, every block
/// holds the records it held, and a block that was appended holds none. A
/// chain in which the item fits is left as it is.
pub open spec fn spec_grown<T>(
    blocks: Seq<Block<T>>,
    at: Position,
    size: int,
    align: int,
    capacity: int,
    after: Seq<Block<T>>,
) -> bool {
    &&& tails_of(after) == grown_tails(tails_of(blocks), at, size, align, capacity)
    &&& same_records(blocks, after, blocks.len() as int)
    &&& after.len() > blocks.len() ==> after[blocks.len() as int].slots@ == Seq::<T>::empty()
    &&& spec_fits(at.offset as int, spec_padding(at.offset as int, align), size, capacity)
        ==> after == blocks
}

/// What growing does block by block: the links still follow the order of the
/// chain, at most one block is appended, and only the block behind that of
/// `at` has its backward link renewed.
pub proof fn lemma_grown<T>(
    blocks: Seq<Block<T>>,
    at: Position,
    size: int,
    align: int,
    capacity: int,
    after: Seq<Block<T>>,
)
    requires
        linked(blocks),
        at.block < blocks.len() <= usize::MAX,
        spec_grown(blocks, at, size, align, capacity, after),
    ensures
        linked(after),
        after.len() == (if spec_fits(
            at.offset as int,
            spec_padding(at.offset as int, align),
            size,
            capacity,
        ) || at.block + 1 < blocks.len() {
            blocks.len()
        } else {
            blocks.len() + 1
        }),
        forall|i: int| 0 <= i < blocks.len() ==> (#[trigger] after[i]).slots@ == blocks[i].slots@,
        forall|i: int|
            0 <= i < blocks.len() && i != at.block + 1 ==> (
            #[trigger] after[i]).tail.prev_block_bytes_used
                == blocks[i].tail.prev_block_bytes_used,
        !spec_fits(at.offset as int, spec_padding(at.offset as int, align), size, capacity) ==> {
            &&& at.block + 1 < after.len()
            &&& after[at.block + 1].tail.prev_block_bytes_used == at.offset
            &&& after[at.block + 1].slots@ == (if at.block + 1 < blocks.len() {
                blocks[at.block + 1].slots@
            } else {
                Seq::empty()
            })
        },
{
    let grown = grown_tails(tails_of(blocks), at, size, align, capacity);
    let next = at.block + 1;
    assert(after.len() == grown.len());
    assert forall|i: int| 0 <= i < after.len() implies (#[trigger] after[i]).tail == grown[i] by {
        assert(tails_of(after)[i] == after[i].tail);
    }
    assert forall|i: int| 0 <= i < blocks.len() implies (#[trigger] blocks[i]).tail == tails_of(
        blocks,
    )[i] by {}
    assert(blocks[at.block as int].tail.next_block == (if next < blocks.len() {
        Some(next as usize)
    } else {
        None
    }));
    assert forall|i: int| 0 <= i < after.len() implies {
        &&& (#[trigger] after[i]).tail.prev_block == (if i == 0 {
            None
        } else {
            Some((i - 1) as usize)
        })
        &&& after[i].tail.next_block == (if i + 1 < after.len() {
            Some((i + 1) as usize)
        } else {
            None
        })
    } by {
        assert(after[i].tail == grown[i]);
        if i < blocks.len() {
            assert(blocks[i].tail == tails_of(blocks)[i]);
        }
    }
    assert forall|i: int| 0 <= i < blocks.len() && i != at.block + 1 implies (
    #[trigger] after[i]).tail.prev_block_bytes_used == blocks[i].tail.prev_block_bytes_used by {
        assert(after[i].tail == grown[i]);
        assert(blocks[i].tail == tails_of(blocks)[i]);
    }
    if !spec_fits(at.offset as int, spec_padding(at.offset as int, align), size, capacity) {
        assert(after[next].tail == grown[next]);
    }
}

/// Takes space for an item of `size` bytes aligned to `align` at the bump
/// position `at`, growing the chain by one block when the item does not fit
/// and the block of `at` is the last one. Returns where the item is placed and
/// the position just past it.
pub fn ensure_space<T>(
    blocks: &mut Vec<Block<T>>,
    at: Position,
    size: usize,
    align: usize,
    capacity: usize,
) -> (out: (Position, Position))
    requires
        align > 0,
        at.block < old(blocks)@.len(),
        linked(old(blocks)@),
    ensures
        out.0 == spec_place(at, size as int, align as int, capacity as int),
        out.1 == spec_past(at, size as int, align as int, capacity as int),
        spec_grown(old(blocks)@, at, size as int, align as int, capacity as int, final(blocks)@),
        linked(final(blocks)@),
{
    let pad: usize = padding(at.offset, align);
    if fits(at.offset, pad, size, capacity) {
        proof {
            assert(tails_of(blocks@) =~= tails_of(old(blocks)@));
        }
        let placed = Position { block: at.block, offset: at.offset + pad, slot: at.slot };
        let past = Position { block: at.block, offset: at.offset + pad + size, slot: at.slot };
        return (placed, past);
    }
    let ghost before = blocks@;
    proof {
        assert(before[at.block as int].tail.next_block == (if at.block + 1 < before.len() {
            Some((at.block + 1) as usize)
        } else {
            None
        }));
        assert(blocks@.len() == blocks.len());
    }
    let next: usize = match blocks[at.block].tail.next_block {
        Some(next) => {
            blocks[next].tail.prev_block_bytes_used = at.offset;
            next
        },
        None => {
            let next: usize = blocks.len();
            blocks[at.block].tail.next_block = Some(next);
            blocks.push(
                Block {
                    slots: Vec::new(),
                    tail: BlockTail {
                        prev_block: Some(at.block),
                        prev_block_bytes_used: at.offset,
                        next_block: None,
                    },
                },
            );
            next
        },
    };
    proof {
        assert(tails_of(blocks@) =~= grown_tails(
            tails_of(before),
            at,
            size as int,
            align as int,
            capacity as int,
        ));
        assert(blocks@.len() == blocks.len());
        lemma_grown(before, at, size as int, align as int, capacity as int, blocks@);
    }
    let placed = Position { block: next, offset: 0, slot: 0 };
    let past = Position { block: next, offset: size, slot: 0 };
    (placed, past)
}

} // verus!
