//! Cross-operation laws of the allocator, proved from the invariant and
//! the effect relations of `add_memory`, `allocate` and `dealloc`.

use vstd::prelude::*;

verus! {

use crate::{LabByteAllocator, AllocError, alloc_effect, dealloc_effect, sum_free, sum_sizes,
    lemma_sum_free_le_sizes, footprints_disjoint};
use crate::block_math::{blocks_for, first_block};

/// The zero bits of the bitmaps (sentinel tails excluded) times the block
/// size are exactly what `avail_bytes` reports.
pub proof fn lemma_avail_matches_bitmaps(a: LabByteAllocator)
    requires
        a.wf(),
    ensures
        a.stat.avail_bytes == 256 * sum_free(a.chunks_seq()),
{
}

/// `total_bytes` is the raw sum of the region sizes added, and the free
/// bytes never exceed it.
pub proof fn lemma_counter_bounds(a: LabByteAllocator)
    requires
        a.wf(),
    ensures
        a.stat.total_bytes == sum_sizes(a.chunks_seq()),
        a.stat.avail_bytes <= a.stat.total_bytes,
{
    lemma_sum_free_le_sizes(a.chunks_seq());
}

/// Two distinct live allocations occupy disjoint byte ranges: inside one
/// chunk their block footprints are disjoint, and across chunks the
/// backing regions are.
pub proof fn lemma_live_pointers_disjoint(a: LabByteAllocator, p1: usize, p2: usize)
    requires
        a.wf(),
        a.live@.contains_key(p1),
        a.live@.contains_key(p2),
        p1 != p2,
    ensures
        p1 + a.live@[p1] <= p2 || p2 + a.live@[p2] <= p1,
{
    let cs = a.chunks_seq();
    let live = a.live@;
    let s1 = live[p1] as int;
    let s2 = live[p2] as int;
    let i1 = choose|i: int| 0 <= i < cs.len() && (#[trigger] cs[i]).owns(p1 as int, live[p1] as int);
    let i2 = choose|i: int| 0 <= i < cs.len() && (#[trigger] cs[i]).owns(p2 as int, live[p2] as int);
    crate::lemma_owns_blocks_nonempty(cs[i1], p1 as int, s1);
    crate::lemma_owns_blocks_nonempty(cs[i2], p2 as int, s2);
    if i1 == i2 {
        let c = cs[i1];
        let start = c.start as int;
        assert(footprints_disjoint(c, p1 as int, s1, p2 as int, s2));
        let f1 = first_block(start, p1 as int);
        let n1 = blocks_for(s1);
        let f2 = first_block(start, p2 as int);
        let n2 = blocks_for(s2);
        assert(256 * f1 <= p1 - start && 256 * f2 <= p2 - start) by {
            vstd::arithmetic::div_mod::lemma_fundamental_div_mod(p1 - start, 256);
            vstd::arithmetic::div_mod::lemma_mod_division_less_than_divisor(p1 - start, 256);
            vstd::arithmetic::div_mod::lemma_fundamental_div_mod(p2 - start, 256);
            vstd::arithmetic::div_mod::lemma_mod_division_less_than_divisor(p2 - start, 256);
        }
        if f1 + n1 <= f2 {
            assert((f1 + n1) * 256 <= f2 * 256) by (nonlinear_arith)
                requires f1 + n1 <= f2,
            ;
            assert(p1 + s1 <= start + (f1 + n1) * 256);
            assert(f2 * 256 == 256 * f2) by (nonlinear_arith);
        } else {
            assert(f2 + n2 <= f1);
            assert((f2 + n2) * 256 <= f1 * 256) by (nonlinear_arith)
                requires f2 + n2 <= f1,
            ;
            assert(p2 + s2 <= start + (f2 + n2) * 256);
            assert(f1 * 256 == 256 * f1) by (nonlinear_arith);
        }
    } else {
        assert(cs[i1].region_start <= p1 && p1 + s1 <= cs[i1].region_end());
        assert(cs[i2].region_start <= p2 && p2 + s2 <= cs[i2].region_end());
        assert(cs[i1].region_end() <= cs[i2].region_start
            || cs[i2].region_end() <= cs[i1].region_start);
    }
}

/// Freeing an allocation and repeating the same request leaves the free
/// byte count where it stood: both allocations cover the same number of
/// blocks, `blocks_for(size)`.
pub proof fn lemma_realloc_same_avail(a0: LabByteAllocator, a1: LabByteAllocator,
    a2: LabByteAllocator, a3: LabByteAllocator, size: usize, align: usize, p1: usize, p2: usize)
    requires
        alloc_effect(a0, a1, size as int, align as int, Ok(p1)),
        dealloc_effect(a1, a2, p1 as int, size as int, Ok(())),
        alloc_effect(a2, a3, size as int, align as int, Ok(p2)),
    ensures
        a2.stat.avail_bytes == a0.stat.avail_bytes,
        a3.stat.avail_bytes == a1.stat.avail_bytes,
{
    lemma_alloc_ok_shape(a0, a1, size, align, p1);
    lemma_dealloc_ok_shape(a1, a2, p1, size);
    lemma_alloc_ok_shape(a2, a3, size, align, p2);
}

/// A successful allocation takes exactly `blocks_for(size)` blocks out of
/// `avail_bytes` and leaves `total_bytes` alone.
pub proof fn lemma_alloc_ok_shape(a0: LabByteAllocator, a1: LabByteAllocator, size: usize,
    align: usize, p: usize)
    requires
        alloc_effect(a0, a1, size as int, align as int, Ok(p)),
    ensures
        a1.stat.avail_bytes == a0.stat.avail_bytes - 256 * blocks_for(size as int),
        a1.stat.total_bytes == a0.stat.total_bytes,
        a1.live@ == a0.live@.insert(p, size),
{
    let left = a0.side == 1;
    match crate::spec_scan(a0.chunks_seq(), size as int, align as int, left) {
        Some((i, d)) => {
            assert(Ok::<usize, AllocError>(p) == Ok::<usize, AllocError>(d as usize));
        },
        None => {
            assert(Ok::<usize, AllocError>(p) == Err::<usize, AllocError>(AllocError::NoMemory));
        },
    }
}

/// A successful deallocation puts exactly `blocks_for(size)` blocks back.
pub proof fn lemma_dealloc_ok_shape(a0: LabByteAllocator, a1: LabByteAllocator, p: usize,
    size: usize)
    requires
        dealloc_effect(a0, a1, p as int, size as int, Ok(())),
    ensures
        a1.stat.avail_bytes == a0.stat.avail_bytes + 256 * blocks_for(size as int),
        a1.stat.total_bytes == a0.stat.total_bytes,
        a1.live@ == a0.live@.remove(p),
{
    match crate::spec_find_owner(a0.chunks_seq(), p as int) {
        Some(i) => {},
        None => {
            assert(Ok::<(), AllocError>(()) == Err::<(), AllocError>(AllocError::NotAllocated));
        },
    }
}

/// One allocation immediately freed again: a balanced pair of operations.
pub open spec fn balanced_pair(a: LabByteAllocator, b: LabByteAllocator) -> bool {
    exists|mid: LabByteAllocator, size: usize, align: usize, p: usize|
        alloc_effect(a, mid, size as int, align as int, Ok(p))
        && dealloc_effect(mid, b, p as int, size as int, Ok(()))
}

/// A balanced pair leaves both byte counters exactly where they were.
pub proof fn lemma_balanced_pair_no_leak(a: LabByteAllocator, b: LabByteAllocator)
    requires
        balanced_pair(a, b),
    ensures
        b.stat.avail_bytes == a.stat.avail_bytes,
        b.stat.total_bytes == a.stat.total_bytes,
{
    let (mid, size, align, p) = choose|mid: LabByteAllocator, size: usize, align: usize, p: usize|
        alloc_effect(a, mid, size as int, align as int, Ok(p))
        && dealloc_effect(mid, b, p as int, size as int, Ok(()));
    lemma_alloc_ok_shape(a, mid, size, align, p);
    lemma_dealloc_ok_shape(mid, b, p, size);
}

/// Any number of balanced allocate/free pairs does not leak: after the
/// run, `avail_bytes` stands at its initial value.
pub proof fn lemma_balanced_run_no_leak(states: Seq<LabByteAllocator>)
    requires
        states.len() >= 1,
        forall|k: int| 0 <= k < states.len() - 1 ==> #[trigger] balanced_pair(states[k], states[k + 1]),
    ensures
        states.last().stat.avail_bytes == states[0].stat.avail_bytes,
        states.last().stat.total_bytes == states[0].stat.total_bytes,
    decreases states.len(),
{
    if states.len() > 1 {
        let head = states.drop_last();
        assert(forall|k: int| 0 <= k < head.len() ==> head[k] == states[k]);
        lemma_balanced_run_no_leak(head);
        let k = states.len() - 2;
        assert(balanced_pair(states[k as int], states[k + 1]));
        assert(states[k + 1] == states.last());
        lemma_balanced_pair_no_leak(states[k as int], states.last());
    }
}

} // verus!
