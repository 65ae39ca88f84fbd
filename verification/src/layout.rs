//! Integer arithmetic of the memory layout: alignment padding, the capacity
//! test, and the footprint of one record.
//!
//! Offsets are counted in bytes from the start of a block, and the start of
//! every block is taken to satisfy any alignment.

use vstd::prelude::*;

verus! {

/// Bytes taken by a frame header.
pub const FRAME_HEADER_SIZE: usize = 16;

/// Alignment of a frame header.
pub const FRAME_HEADER_ALIGN: usize = 8;

/// Bytes reserved at the end of every block for its tail.
pub const BLOCK_TAIL_SIZE: usize = 24;

/// The number of bytes to skip from `offset` to reach the next multiple of
/// `align`.
pub open spec fn spec_padding(offset: int, align: int) -> int {
    (align - offset % align) % align
}

/// Whether `offset` is a multiple of `align`.
pub open spec fn is_aligned(offset: int, align: int) -> bool {
    offset % align == 0
}

/// Whether an item of `size` bytes, placed `padding` bytes after `used`, ends
/// within the `capacity` usable bytes of a block: it may end at the last of
/// them.
pub open spec fn spec_fits(used: int, padding: int, size: int, capacity: int) -> bool {
    used + padding + size <= capacity
}

/// The padding is the least number of bytes that aligns the offset.
pub proof fn lemma_padding_is_least(offset: int, align: int)
    requires
        0 <= offset,
        0 < align,
    ensures
        0 <= spec_padding(offset, align) < align,
        is_aligned(offset + spec_padding(offset, align), align),
        forall|p: int| 0 <= p < spec_padding(offset, align) ==> !#[trigger] is_aligned(offset + p, align),
        offset % align == 0 ==> spec_padding(offset, align) == 0,
{
    let r = offset % align;
    let p = spec_padding(offset, align);
    vstd::arithmetic::div_mod::lemma_fundamental_div_mod(offset, align);
    let q = offset / align;
    if r == 0 {
        vstd::arithmetic::div_mod::lemma_small_mod(0, align as nat);
        assert(p == (align - 0) % align);
        vstd::arithmetic::div_mod::lemma_mod_self_0(align);
        assert(p == 0);
    } else {
        vstd::arithmetic::div_mod::lemma_small_mod((align - r) as nat, align as nat);
        assert(p == align - r);
        assert(offset + p == align * (q + 1)) by (nonlinear_arith)
            requires
                offset == align * q + r,
                p == align - r,
        ;
        vstd::arithmetic::div_mod::lemma_mod_multiples_basic(q + 1, align);
        assert((offset + p) % align == 0) by (nonlinear_arith)
            requires
                offset + p == align * (q + 1),
                ((q + 1) * align) % align == 0,
        ;
    }
    assert forall|k: int| 0 <= k < p implies !#[trigger] is_aligned(offset + k, align) by {
        assert(0 < r + k < align);
        assert(offset + k == q * align + (r + k)) by (nonlinear_arith)
            requires
                offset == align * q + r,
        ;
        vstd::arithmetic::div_mod::lemma_fundamental_div_mod_converse(offset + k, align, q, r + k);
    }
}

/// Adding an aligned size to an aligned offset keeps it aligned.
pub proof fn lemma_aligned_sum(offset: int, size: int, align: int)
    requires
        0 <= offset,
        0 <= size,
        0 < align,
        offset % align == 0,
        size % align == 0,
    ensures
        (offset + size) % align == 0,
{
    vstd::arithmetic::div_mod::lemma_add_mod_noop(offset, size, align);
    vstd::arithmetic::div_mod::lemma_small_mod(0, align as nat);
}

/// Taking an aligned size off an aligned offset keeps it aligned.
pub proof fn lemma_aligned_difference(offset: int, size: int, align: int)
    requires
        0 <= size <= offset,
        0 < align,
        offset % align == 0,
        size % align == 0,
    ensures
        (offset - size) % align == 0,
{
    vstd::arithmetic::div_mod::lemma_sub_mod_noop(offset, size, align);
    vstd::arithmetic::div_mod::lemma_small_mod(0, align as nat);
}

/// The bytes taken by `count` records of `size` bytes each.
#[verifier::opaque]
pub open spec fn span(count: int, size: int) -> int {
    count * size
}

/// No records take no bytes, and each further record adds its size.
pub proof fn lemma_span(count: int, size: int)
    requires
        0 <= count,
        0 <= size,
    ensures
        span(0, size) == 0,
        span(count + 1, size) == span(count, size) + size,
        0 <= span(count, size),
        count >= 1 ==> span(count, size) >= size,
        size >= 1 ==> span(count, size) >= count,
{
    reveal(span);
    assert((count + 1) * size == count * size + size) by (nonlinear_arith);
    assert(0 <= count * size) by (nonlinear_arith)
        requires
            0 <= count,
            0 <= size,
    ;
    assert(count >= 1 ==> count * size >= size) by (nonlinear_arith)
        requires
            0 <= size,
    ;
    assert(size >= 1 ==> count * size >= count) by (nonlinear_arith)
        requires
            0 <= count,
    ;
}

/// Computes [`spec_padding`].
pub fn padding(offset: usize, align: usize) -> (p: usize)
    requires
        align > 0,
    ensures
        p == spec_padding(offset as int, align as int),
        p < align,
{
    proof {
        lemma_padding_is_least(offset as int, align as int);
    }
    let r: usize = offset % align;
    if r == 0 {
        proof {
            vstd::arithmetic::div_mod::lemma_mod_self_0(align as int);
        }
        0
    } else {
        proof {
            vstd::arithmetic::div_mod::lemma_small_mod((align - r) as nat, align as nat);
        }
        align - r
    }
}

/// Computes [`spec_fits`] without overflow.
pub fn fits(used: usize, padding: usize, size: usize, capacity: usize) -> (ok: bool)
    ensures
        ok == spec_fits(used as int, padding as int, size as int, capacity as int),
{
    if used > capacity {
        return false;
    }
    let after_used: usize = capacity - used;
    if padding > after_used {
        return false;
    }
    size <= after_used - padding
}

/// Footprint of one record: the distance from one record to the next, and the
/// alignment of its first byte.
#[derive(Clone, Copy, Debug, PartialEq, Eq, Structural)]
pub struct RecordLayout {
    pub size: usize,
    pub align: usize,
}

impl RecordLayout {
    /// Every record takes at least one byte and a whole number of alignment
    /// units, so consecutive records need no padding between them.
    pub open spec fn wf(self) -> bool {
        &&& self.align >= 1
        &&& self.size >= 1
        &&& self.size % self.align == 0
    }

    /// The footprint of a value of type `T`: its natural alignment, and its
    /// natural size, or one alignment unit for a type without bytes.
    pub open spec fn spec_of<T>() -> RecordLayout {
        RecordLayout {
            size: if vstd::layout::size_of::<T>() == 0 {
                vstd::layout::align_of::<T>() as usize
            } else {
                vstd::layout::size_of::<T>() as usize
            },
            align: vstd::layout::align_of::<T>() as usize,
        }
    }

    /// Computes [`RecordLayout::spec_of`].
    pub fn of<T>() -> (layout: Self)
        ensures
            layout == Self::spec_of::<T>(),
            layout.wf(),
    {
        vstd::layout::layout_for_type_is_valid::<T>();
        let size: usize = core::mem::size_of::<T>();
        let align: usize = core::mem::align_of::<T>();
        proof {
            vstd::arithmetic::div_mod::lemma_mod_self_0(align as int);
        }
        if size == 0 {
            RecordLayout { size: align, align }
        } else {
            RecordLayout { size, align }
        }
    }
}

} // verus!
