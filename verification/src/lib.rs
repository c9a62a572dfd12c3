//! A byte-granular memory allocator over caller-supplied memory regions.
//!
//! The allocator tracks free space with one bitmap per backing region
//! (a *chunk*), at a granularity of 256-byte blocks.  Placement alternates
//! between leftmost-fit and rightmost-fit on every request, which keeps
//! short-lived objects clustered at one end of a free run and long-lived
//! objects at the other, limiting external fragmentation.
//!
//! All bookkeeping lives in the allocator's own state and every address is
//! a plain `usize`, so the whole engine is verified: chunk geometry, the
//! run decoder, the placement policy, the byte counters, and the
//! disjointness of live allocations.

use vstd::prelude::*;

pub mod addr;
pub mod bitmap;
pub mod block_math;
pub mod chunk;
pub mod chunk_decoder;
pub mod laws;

verus! {

use crate::addr::{is_power_of_two, ceil_to, floor_to, lemma_ceil_to, lemma_floor_to};
use crate::bitmap::{Bitmap, bit_at, total_bits, lemma_count_free_bounds, lemma_const_word_bits, lemma_bit_index};
use crate::block_math::{blocks_for, first_block};
use crate::chunk::{ChunkFooter, spec_chunk_fit, alloc_effect_chunk, dealloc_effect_chunk,
    div_ceil_256, BLOCK_SIZE};
use vstd::arithmetic::div_mod::{
    lemma_fundamental_div_mod,
    lemma_fundamental_div_mod_converse,
    lemma_mod_division_less_than_divisor,
};

/// The two failure kinds of the allocator.
#[derive(Clone, Copy, Debug, PartialEq, Eq, Structural)]
pub enum AllocError {
    /// No chunk can satisfy the request, or a region is too small to host
    /// its own bookkeeping.
    NoMemory,
    /// `dealloc` was handed an address outside every chunk.
    NotAllocated,
}

/// Global byte counters.
pub struct AllocatorStat {
    /// Raw sum of the region sizes added, bookkeeping overhead included.
    pub total_bytes: usize,
    /// Bytes of currently free blocks across all chunks.
    pub avail_bytes: usize,
}

/// The stack of chunks; the most recently added chunk sits at the end and
/// is visited first.
pub struct ChunkList(pub Vec<ChunkFooter>);

impl ChunkList {
    /// An empty chunk list.
    pub fn new() -> (r: ChunkList)
        ensures
            r.0@.len() == 0,
    {
        ChunkList(Vec::new())
    }
}

/// The allocator: a chunk list, the byte counters, and the side flag that
/// alternates the placement policy (`-1`: leftmost, `1`: rightmost; it is
/// flipped before each placement, so the first request goes leftmost).
pub struct LabByteAllocator {
    pub chunks: ChunkList,
    pub stat: AllocatorStat,
    pub side: isize,
    /// Ghost record of the live allocations: address to requested size.
    pub live: Ghost<Map<usize, usize>>,
}

/// Free blocks summed over all chunks.
pub open spec fn sum_free(cs: Seq<ChunkFooter>) -> int
    decreases cs.len(),
{
    if cs.len() == 0 {
        0
    } else {
        sum_free(cs.drop_last()) + cs.last().free_blocks()
    }
}

/// Region sizes summed over all chunks.
pub open spec fn sum_sizes(cs: Seq<ChunkFooter>) -> int
    decreases cs.len(),
{
    if cs.len() == 0 {
        0
    } else {
        sum_sizes(cs.drop_last()) + cs.last().region_size
    }
}

/// Every chunk is well-formed.
pub open spec fn chunks_wf(cs: Seq<ChunkFooter>) -> bool {
    forall|i: int| 0 <= i < cs.len() ==> (#[trigger] cs[i]).wf()
}

/// The raw regions behind the chunks do not overlap.
pub open spec fn regions_disjoint(cs: Seq<ChunkFooter>) -> bool {
    forall|i: int, j: int| 0 <= i < cs.len() && 0 <= j < cs.len() && i != j ==>
        (#[trigger] cs[i]).region_end() <= (#[trigger] cs[j]).region_start
        || cs[j].region_end() <= cs[i].region_start
}

/// The block footprints of two allocations in the same chunk do not
/// overlap.
pub open spec fn footprints_disjoint(c: ChunkFooter, p: int, sp: int, q: int, sq: int) -> bool {
    let fp = first_block(c.start as int, p);
    let np = blocks_for(sp);
    let fq = first_block(c.start as int, q);
    let nq = blocks_for(sq);
    fp + np <= fq || fq + nq <= fp
}

/// Every live allocation has a nonzero size, sits fully inside one chunk's
/// payload with all its blocks marked, and no two live allocations share a
/// block.
pub open spec fn live_wf(cs: Seq<ChunkFooter>, live: Map<usize, usize>) -> bool {
    &&& forall|p: usize| #[trigger] live.contains_key(p) ==> 1 <= live[p]
    &&& forall|p: usize| #[trigger] live.contains_key(p) ==>
            exists|i: int| 0 <= i < cs.len() && (#[trigger] cs[i]).owns(p as int, live[p] as int)
    &&& forall|p: usize, q: usize, i: int|
            live.contains_key(p) && live.contains_key(q) && p != q && 0 <= i < cs.len()
            && #[trigger] cs[i].owns(p as int, live[p] as int)
            && #[trigger] cs[i].owns(q as int, live[q] as int)
            ==> footprints_disjoint(cs[i], p as int, live[p] as int, q as int, live[q] as int)
}

impl LabByteAllocator {
    /// The chunk sequence, oldest first; the last entry is the head.
    pub open spec fn chunks_seq(&self) -> Seq<ChunkFooter> {
        self.chunks.0@
    }

    /// The allocator invariant.  Notably: `avail_bytes` equals the free
    /// blocks recorded in the bitmaps times the block size, and
    /// `total_bytes` equals the sum of the region sizes added.
    pub open spec fn wf(&self) -> bool {
        &&& self.side == 1 || self.side == -1
        &&& chunks_wf(self.chunks_seq())
        &&& regions_disjoint(self.chunks_seq())
        &&& self.stat.avail_bytes == 256 * sum_free(self.chunks_seq())
        &&& self.stat.total_bytes == sum_sizes(self.chunks_seq())
        &&& live_wf(self.chunks_seq(), self.live@)
    }

    /// A fresh allocator with no memory.
    pub fn new() -> (r: LabByteAllocator)
        ensures
            r.wf(),
            r.chunks_seq().len() == 0,
            r.stat.total_bytes == 0,
            r.stat.avail_bytes == 0,
            r.side == 1,
            r.live@ == Map::<usize, usize>::empty(),
    {
        LabByteAllocator {
            chunks: ChunkList::new(),
            stat: AllocatorStat { total_bytes: 0, avail_bytes: 0 },
            side: 1,
            live: Ghost(Map::empty()),
        }
    }

    /// Raw bytes under management, bookkeeping overhead included.
    pub fn total_bytes(&self) -> (r: usize)
        ensures
            r == self.stat.total_bytes,
    {
        self.stat.total_bytes
    }

    /// Bytes of currently free blocks.
    pub fn available_bytes(&self) -> (r: usize)
        ensures
            r == self.stat.avail_bytes,
    {
        self.stat.avail_bytes
    }

    /// Bytes not currently free; per-chunk bookkeeping counts as used.
    pub fn used_bytes(&self) -> (r: usize)
        requires
            self.wf(),
        ensures
            r == self.stat.total_bytes - self.stat.avail_bytes,
    {
        proof {
            lemma_sum_free_le_sizes(self.chunks_seq());
        }
        self.stat.total_bytes - self.stat.avail_bytes
    }
}

/// Size in bytes of the footer record each region hosts near its high
/// end: a previous-chunk link, the payload origin, and a bitmap descriptor
/// (pointer and length) — four 8-byte words.
pub const FOOTER_SIZE: usize = 32;

/// Alignment of the footer record and of the bitmap words.
pub const WORD_ALIGN: usize = 8;

/// Payload origin of a region starting at `start`: the next block boundary.
pub open spec fn spec_blocks_start(start: int) -> int {
    ceil_to(start, 256)
}

/// Where the bitmap area begins: one word is reserved for every two
/// payload blocks the region could hold, placed against the region's end
/// and floor-aligned to a word.
pub open spec fn spec_bitmap_ptr(start: int, size: int) -> int {
    floor_to(start + size - 8 * (size / 512), 8)
}

/// Where the footer record sits: immediately below the bitmap area,
/// floor-aligned to its own alignment.
pub open spec fn spec_footer_ptr(start: int, size: int) -> int {
    floor_to(spec_bitmap_ptr(start, size) - 32, 8)
}

/// One past the last payload byte: the footer address rounded down to a
/// block boundary.
pub open spec fn spec_payload_end(start: int, size: int) -> int {
    floor_to(spec_footer_ptr(start, size), 256)
}

/// A region is large enough when at least one whole block fits below its
/// bookkeeping.
pub open spec fn region_fits(start: int, size: int) -> bool {
    spec_blocks_start(start) < spec_payload_end(start, size)
}

/// Effect of `add_memory`: on success one chunk with the computed geometry
/// is pushed, all its payload blocks free, and the counters grow by the
/// region size and the payload bytes; on failure nothing changes.
pub open spec fn add_effect(a0: LabByteAllocator, a1: LabByteAllocator, start: int, size: int,
    r: Result<(), AllocError>) -> bool {
    if region_fits(start, size) {
        let bs = spec_blocks_start(start);
        let pe = spec_payload_end(start, size);
        let nblocks = (pe - bs) / 256;
        &&& r == Ok::<(), AllocError>(())
        &&& a1.side == a0.side
        &&& a1.live@ == a0.live@
        &&& a1.chunks_seq().len() == a0.chunks_seq().len() + 1
        &&& a1.chunks_seq().take(a0.chunks_seq().len() as int) == a0.chunks_seq()
        &&& a1.chunks_seq().last().start == bs
        &&& a1.chunks_seq().last().end == spec_footer_ptr(start, size)
        &&& a1.chunks_seq().last().payload_end == pe
        &&& a1.chunks_seq().last().blocks == nblocks
        &&& a1.chunks_seq().last().region_start == start
        &&& a1.chunks_seq().last().region_size == size
        &&& forall|b: int| 0 <= b < nblocks ==> !#[trigger] bit_at(a1.chunks_seq().last().bitmap@, b)
        &&& a1.stat.total_bytes == a0.stat.total_bytes + size
        &&& a1.stat.avail_bytes == a0.stat.avail_bytes + 256 * nblocks
    } else {
        &&& r == Err::<(), AllocError>(AllocError::NoMemory)
        &&& a1 == a0
    }
}

impl LabByteAllocator {
    /// Hand a raw region `[start, start + size)` to the allocator.  The
    /// region must be exclusive: it may not overlap any region added
    /// before.  Fails with `NoMemory`, changing nothing, when the region
    /// cannot host its bookkeeping and at least one block.
    pub fn add_memory(&mut self, start: usize, size: usize) -> (r: Result<(), AllocError>)
        requires
            old(self).wf(),
            start + size <= usize::MAX,
            old(self).stat.total_bytes + size <= usize::MAX,
            forall|i: int| 0 <= i < old(self).chunks_seq().len() ==>
                start + size <= (#[trigger] old(self).chunks_seq()[i]).region_start
                || old(self).chunks_seq()[i].region_end() <= start,
        ensures
            final(self).wf(),
            add_effect(*old(self), *final(self), start as int, size as int, r),
    {
        proof {
            assert(is_power_of_two(8int) && is_power_of_two(256int)) by {
                reveal_with_fuel(is_power_of_two, 10);
            }
            lemma_fundamental_div_mod(size as int, 512);
            lemma_mod_division_less_than_divisor(size as int, 512);
            vstd::arithmetic::div_mod::lemma_div_pos_is_pos(size as int, 512);
            assert((size / 512) * 8 <= size) by (nonlinear_arith)
                requires
                    size as int == 512 * (size as int / 512) + size as int % 512,
                    0 <= size as int % 512,
                    0 <= size as int / 512,
            ;
            lemma_ceil_to(start as int, 256);
        }
        let reserve = (size / 512) * 8;
        let bitmap_ptr = crate::addr::floor_addr(start + size - reserve, WORD_ALIGN);
        proof {
            lemma_floor_to(start as int + size as int - reserve as int, 8);
            assert(8 * (size as int / 512) == reserve as int) by (nonlinear_arith)
                requires reserve as int == (size as int / 512) * 8,
            ;
            assert(bitmap_ptr as int == spec_bitmap_ptr(start as int, size as int));
        }
        if bitmap_ptr < FOOTER_SIZE {
            proof {
                lemma_floor_to(bitmap_ptr as int - 32, 8);
                lemma_floor_to(spec_footer_ptr(start as int, size as int), 256);
                assert(!region_fits(start as int, size as int));
            }
            return Err(AllocError::NoMemory);
        }
        let footer_ptr = crate::addr::floor_addr(bitmap_ptr - FOOTER_SIZE, WORD_ALIGN);
        let payload_end = crate::addr::floor_addr(footer_ptr, BLOCK_SIZE);
        proof {
            lemma_floor_to(bitmap_ptr as int - 32, 8);
            lemma_floor_to(footer_ptr as int, 256);
        }
        let rem = start % BLOCK_SIZE;
        if rem != 0 && BLOCK_SIZE - rem > usize::MAX - start {
            proof {
                assert(spec_blocks_start(start as int) > usize::MAX);
                assert(!region_fits(start as int, size as int));
            }
            return Err(AllocError::NoMemory);
        }
        let blocks_start = crate::addr::ceil_addr(start, BLOCK_SIZE);
        if payload_end <= blocks_start {
            proof {
                assert(!region_fits(start as int, size as int));
            }
            return Err(AllocError::NoMemory);
        }
        proof {
            assert(region_fits(start as int, size as int));
            crate::block_math::lemma_mod_diff_zero(payload_end as int, blocks_start as int, 256);
            lemma_fundamental_div_mod(payload_end as int - blocks_start as int, 256);
        }
        let blocks = (payload_end - blocks_start) / BLOCK_SIZE;
        proof {
            assert(blocks * 256 == payload_end - blocks_start);
            assert(1 <= blocks) by (nonlinear_arith)
                requires
                    blocks * 256 == payload_end - blocks_start,
                    payload_end > blocks_start,
            ;
        }
        let bitmap_len = div_ceil_64(blocks);
        proof {
            assert(64 * bitmap_len < blocks + 64);
            assert(blocks + 64 <= 256 * (blocks as int)) by (nonlinear_arith)
                requires 1 <= blocks,
            ;
            assert(256 * (blocks as int) == blocks * 256) by (nonlinear_arith);
        }
        let mut words: Vec<u64> = Vec::new();
        let mut k: usize = 0;
        while k < bitmap_len
            invariant
                k <= bitmap_len,
                words@.len() == k,
                forall|w: int| 0 <= w < k ==> words@[w] == 0u64,
            decreases bitmap_len - k,
        {
            words.push(0u64);
            k += 1;
        }
        let mut bm = Bitmap::new(words);
        proof {
            lemma_const_word_bits();
            assert forall|i: int| 0 <= i < total_bits(bm@) implies !bit_at(bm@, i) by {
                lemma_bit_index(i);
            }
        }
        let total_sentinel = bitmap_len * 64;
        if total_sentinel > blocks {
            bm.set(blocks, total_sentinel - blocks);
        }
        proof {
            assert(forall|i: int| 0 <= i < blocks ==> !#[trigger] bit_at(bm@, i));
            assert(forall|i: int| blocks <= i < total_bits(bm@) ==> #[trigger] bit_at(bm@, i));
        }
        let c = ChunkFooter {
            start: blocks_start,
            end: footer_ptr,
            payload_end,
            blocks,
            bitmap: bm,
            region_start: start,
            region_size: size,
        };
        proof {
            lemma_count_free_bounds(c.bitmap@, c.blocks as int);
            assert(c.free_blocks() == c.blocks as int);
            assert(c.wf());
        }
        let ghost cs0 = self.chunks_seq();
        let ghost a0 = *self;
        self.chunks.0.push(c);
        proof {
            lemma_sums_push(cs0, c);
            assert(chunks_wf(self.chunks_seq())) by {
                assert(forall|i: int| 0 <= i < cs0.len() ==> self.chunks_seq()[i] == cs0[i]);
            }
            lemma_sum_free_le_sizes(self.chunks_seq());
            assert(256 * sum_free(self.chunks_seq())
                == 256 * sum_free(cs0) + 256 * c.free_blocks()) by (nonlinear_arith)
                requires sum_free(self.chunks_seq()) == sum_free(cs0) + c.free_blocks(),
            ;
        }
        self.stat.total_bytes = self.stat.total_bytes + size;
        self.stat.avail_bytes = self.stat.avail_bytes + blocks * BLOCK_SIZE;
        proof {
            assert(blocks * 256 == 256 * (blocks as int)) by (nonlinear_arith);
            lemma_add_preserves_live(a0, *self, c);
            assert(self.chunks_seq().take(cs0.len() as int) =~= cs0);
        }
        Ok(())
    }

    /// First-time setup: hand the allocator its initial region.  The
    /// region must be large enough; this never fails.
    pub fn init(&mut self, start: usize, size: usize)
        requires
            old(self).wf(),
            start + size <= usize::MAX,
            old(self).stat.total_bytes + size <= usize::MAX,
            region_fits(start as int, size as int),
            forall|i: int| 0 <= i < old(self).chunks_seq().len() ==>
                start + size <= (#[trigger] old(self).chunks_seq()[i]).region_start
                || old(self).chunks_seq()[i].region_end() <= start,
        ensures
            final(self).wf(),
            add_effect(*old(self), *final(self), start as int, size as int,
                Ok::<(), AllocError>(())),
    {
        let r = self.add_memory(start, size);
        match r {
            Ok(()) => {},
            Err(_) => {
                proof {
                    assert(false);
                }
            },
        }
    }
}

/// What the chunk scan answers: the newest chunk (highest index) with a
/// fit wins, with the placement the side policy picks inside it.
pub open spec fn spec_scan(cs: Seq<ChunkFooter>, size: int, align: int, left: bool) -> Option<(int, int)>
    decreases cs.len(),
{
    if cs.len() == 0 {
        None
    } else {
        match spec_chunk_fit(cs.last(), size, align, left) {
            Some(d) => Some(((cs.len() - 1) as int, d)),
            None => spec_scan(cs.drop_last(), size, align, left),
        }
    }
}

/// Effect of `alloc`: the side flag always flips; on success the scan's
/// placement is returned — aligned, inside the chosen chunk's payload,
/// over previously free blocks now marked — and `avail_bytes` drops by the
/// covered blocks; on failure (no chunk fits) everything else is
/// unchanged.
pub open spec fn alloc_effect(a0: LabByteAllocator, a1: LabByteAllocator, size: int, align: int,
    r: Result<usize, AllocError>) -> bool {
    let left = a0.side == 1;
    &&& a1.side == -a0.side
    &&& a1.stat.total_bytes == a0.stat.total_bytes
    &&& match spec_scan(a0.chunks_seq(), size, align, left) {
        None => {
            &&& r == Err::<usize, AllocError>(AllocError::NoMemory)
            &&& a1.chunks_seq() == a0.chunks_seq()
            &&& a1.stat.avail_bytes == a0.stat.avail_bytes
            &&& a1.live@ == a0.live@
        },
        Some((i, d)) => {
            &&& r == Ok::<usize, AllocError>(d as usize)
            &&& d % align == 0
            &&& a0.chunks_seq()[i].start <= d
            &&& d + size <= a0.chunks_seq()[i].payload_end
            &&& a1.chunks_seq().len() == a0.chunks_seq().len()
            &&& forall|j: int| 0 <= j < a0.chunks_seq().len() && j != i ==>
                    a1.chunks_seq()[j] == a0.chunks_seq()[j]
            &&& alloc_effect_chunk(a0.chunks_seq()[i], a1.chunks_seq()[i], size, align, d)
            &&& a1.stat.avail_bytes == a0.stat.avail_bytes - 256 * blocks_for(size)
            &&& !a0.live@.contains_key(d as usize)
            &&& a1.live@ == a0.live@.insert(d as usize, size as usize)
        },
    }
}

impl LabByteAllocator {
    /// Allocate `size` bytes at an address that is a multiple of `align`
    /// (a power of two).  The side flag flips first; the scan then visits
    /// the chunks newest-first and takes the first chunk with a fit,
    /// placing leftmost or rightmost per the side.  Fails with `NoMemory`
    /// when no free run of any chunk fits the request.
    #[verifier::rlimit(80)]
    pub fn allocate(&mut self, size: usize, align: usize) -> (r: Result<usize, AllocError>)
        requires
            old(self).wf(),
            1 <= size,
            is_power_of_two(align as int),
        ensures
            final(self).wf(),
            alloc_effect(*old(self), *final(self), size as int, align as int, r),
    {
        let ghost a0 = *self;
        let ghost cs0 = a0.chunks_seq();
        let ghost leftg = a0.side == 1;
        self.side = -self.side;
        let left = self.side < 0;
        let mut idx = self.chunks.0.len();
        proof {
            assert(cs0.take(idx as int) =~= cs0);
        }
        while idx > 0
            invariant
                a0 == *old(self),
                self.side == -a0.side,
                a0.wf(),
                self.stat == a0.stat,
                self.live@ == a0.live@,
                self.chunks_seq() == cs0,
                cs0 == a0.chunks_seq(),
                idx <= cs0.len(),
                left == leftg,
                leftg == (a0.side == 1),
                1 <= size,
                is_power_of_two(align as int),
                spec_scan(cs0, size as int, align as int, leftg)
                    == spec_scan(cs0.take(idx as int), size as int, align as int, leftg),
            decreases idx,
        {
            idx -= 1;
            let ghost prefix = cs0.take(idx + 1);
            proof {
                assert(prefix.last() == cs0[idx as int]);
                assert(prefix.drop_last() =~= cs0.take(idx as int));
            }
            let mut c = self.chunks.0.remove(idx);
            let found = if left {
                c.alloc_left(size, align)
            } else {
                c.alloc_right(size, align)
            };
            match found {
                Some(d) => {
                    self.chunks.0.insert(idx, c);
                    proof {
                        assert(self.chunks_seq() =~= cs0.update(idx as int, c));
                    }
                    let n = div_ceil_256(size);
                    proof {
                        lemma_alloc_counters(a0, cs0, self.chunks_seq(), idx as int, c,
                            size as int, align as int, d as int);
                        assert(256 * blocks_for(size as int) == n * 256) by (nonlinear_arith)
                            requires n == blocks_for(size as int),
                        ;
                    }
                    self.stat.avail_bytes = self.stat.avail_bytes - n * BLOCK_SIZE;
                    proof {
                        self.live@ = a0.live@.insert(d, size);
                        lemma_alloc_ok(a0, *self, idx as int, c, size as int, align as int,
                            d as int, leftg);
                    }
                    return Ok(d);
                },
                None => {
                    self.chunks.0.insert(idx, c);
                    proof {
                        assert(self.chunks_seq() =~= cs0);
                        assert(spec_chunk_fit(cs0[idx as int], size as int, align as int, leftg)
                            is None);
                        assert(spec_scan(prefix, size as int, align as int, leftg)
                            == spec_scan(cs0.take(idx as int), size as int, align as int, leftg));
                    }
                },
            }
        }
        proof {
            assert(cs0.take(0) =~= Seq::<ChunkFooter>::empty());
        }
        Err(AllocError::NoMemory)
    }
}

/// The chunk a deallocated address belongs to: the newest chunk whose
/// range (payload start through footer address, inclusive) contains it.
pub open spec fn spec_find_owner(cs: Seq<ChunkFooter>, p: int) -> Option<int>
    decreases cs.len(),
{
    if cs.len() == 0 {
        None
    } else if cs.last().start <= p <= cs.last().end {
        Some((cs.len() - 1) as int)
    } else {
        spec_find_owner(cs.drop_last(), p)
    }
}

/// Effect of `dealloc`: in the owning chunk exactly the covered blocks
/// flip back to free and `avail_bytes` grows by them; an address outside
/// every chunk is refused with `NotAllocated` and nothing changes.
pub open spec fn dealloc_effect(a0: LabByteAllocator, a1: LabByteAllocator, ptr: int, size: int,
    r: Result<(), AllocError>) -> bool {
    &&& a1.side == a0.side
    &&& a1.stat.total_bytes == a0.stat.total_bytes
    &&& match spec_find_owner(a0.chunks_seq(), ptr) {
        None => {
            &&& r == Err::<(), AllocError>(AllocError::NotAllocated)
            &&& a1 == a0
        },
        Some(i) => {
            &&& r == Ok::<(), AllocError>(())
            &&& a1.chunks_seq().len() == a0.chunks_seq().len()
            &&& forall|j: int| 0 <= j < a0.chunks_seq().len() && j != i ==>
                    a1.chunks_seq()[j] == a0.chunks_seq()[j]
            &&& dealloc_effect_chunk(a0.chunks_seq()[i], a1.chunks_seq()[i], ptr, size)
            &&& a1.stat.avail_bytes == a0.stat.avail_bytes + 256 * blocks_for(size)
            &&& a1.live@ == a0.live@.remove(ptr as usize)
        },
    }
}

impl LabByteAllocator {
    /// Return `[ptr, ptr + size)` to the allocator.  `ptr` must be an
    /// address `allocate` returned and not freed since, with the size of
    /// that request (`align` is accepted for interface parity and not
    /// consulted).  An address outside every chunk is refused with
    /// `NotAllocated`; handing back anything else inside a chunk is a
    /// caller error this interface rules out.
    #[verifier::rlimit(80)]
    pub fn dealloc(&mut self, ptr: usize, size: usize, align: usize) -> (r: Result<(), AllocError>)
        requires
            old(self).wf(),
            (old(self).live@.contains_key(ptr) && old(self).live@[ptr] == size)
                || spec_find_owner(old(self).chunks_seq(), ptr as int) is None,
        ensures
            final(self).wf(),
            dealloc_effect(*old(self), *final(self), ptr as int, size as int, r),
    {
        let ghost a0 = *self;
        let ghost cs0 = a0.chunks_seq();
        let mut idx = self.chunks.0.len();
        proof {
            assert(cs0.take(idx as int) =~= cs0);
        }
        while idx > 0
            invariant
                a0 == *old(self),
                *self == a0,
                a0.wf(),
                cs0 == a0.chunks_seq(),
                idx <= cs0.len(),
                (a0.live@.contains_key(ptr) && a0.live@[ptr] == size)
                    || spec_find_owner(cs0, ptr as int) is None,
                spec_find_owner(cs0, ptr as int)
                    == spec_find_owner(cs0.take(idx as int), ptr as int),
            decreases idx,
        {
            idx -= 1;
            let ghost prefix = cs0.take(idx + 1);
            proof {
                assert(prefix.last() == cs0[idx as int]);
                assert(prefix.drop_last() =~= cs0.take(idx as int));
            }
            let owner_here = {
                let cref = &self.chunks.0[idx];
                cref.start <= ptr && ptr <= cref.end
            };
            if owner_here {
                proof {
                    assert(spec_find_owner(cs0, ptr as int) == Some(idx as int));
                    lemma_dealloc_owner(a0, idx as int, ptr, size);
                }
                let mut c = self.chunks.0.remove(idx);
                c.dealloc(ptr, size);
                self.chunks.0.insert(idx, c);
                proof {
                    assert(self.chunks_seq() =~= cs0.update(idx as int, c));
                }
                let n = div_ceil_256(size);
                proof {
                    lemma_dealloc_counters(a0, cs0, self.chunks_seq(), idx as int, c,
                        ptr as int, size as int);
                    assert(256 * blocks_for(size as int) == n * 256) by (nonlinear_arith)
                        requires n == blocks_for(size as int),
                    ;
                }
                self.stat.avail_bytes = self.stat.avail_bytes + n * BLOCK_SIZE;
                proof {
                    self.live@ = a0.live@.remove(ptr);
                    lemma_dealloc_ok(a0, *self, idx as int, c, ptr as int, size as int);
                }
                return Ok(());
            }
        }
        proof {
            assert(cs0.take(0) =~= Seq::<ChunkFooter>::empty());
        }
        Err(AllocError::NotAllocated)
    }
}

/// When the scan stops at a chunk containing `ptr`, that chunk owns the
/// live allocation: the recorded owner is unique by region disjointness.
proof fn lemma_dealloc_owner(a0: LabByteAllocator, i: int, ptr: usize, size: usize)
    requires
        a0.wf(),
        0 <= i < a0.chunks_seq().len(),
        a0.chunks_seq()[i].start <= ptr <= a0.chunks_seq()[i].end,
        (a0.live@.contains_key(ptr) && a0.live@[ptr] == size)
            || spec_find_owner(a0.chunks_seq(), ptr as int) is None,
        spec_find_owner(a0.chunks_seq(), ptr as int) == Some(i),
    ensures
        a0.live@.contains_key(ptr),
        a0.live@[ptr] == size,
        1 <= size,
        a0.chunks_seq()[i].owns(ptr as int, size as int),
{
    let cs0 = a0.chunks_seq();
    let live = a0.live@;
    assert(live.contains_key(ptr) && live[ptr] == size);
    let j = choose|j: int| 0 <= j < cs0.len()
        && (#[trigger] cs0[j]).owns(ptr as int, live[ptr] as int);
    lemma_owns_blocks_nonempty(cs0[j], ptr as int, size as int);
    lemma_payload_owner_unique(cs0, j, i, ptr as int);
}

/// Counter bookkeeping of a deallocation: the covered block count goes
/// back into `sum_free`, and the new free total still fits under the raw
/// byte total.
proof fn lemma_dealloc_counters(a0: LabByteAllocator, cs0: Seq<ChunkFooter>,
    cs1: Seq<ChunkFooter>, i: int, c: ChunkFooter, ptr: int, size: int)
    requires
        a0.wf(),
        cs0 == a0.chunks_seq(),
        0 <= i < cs0.len(),
        cs1 == cs0.update(i, c),
        dealloc_effect_chunk(cs0[i], c, ptr, size),
        c.wf(),
        1 <= size,
    ensures
        chunks_wf(cs1),
        regions_disjoint(cs1),
        sum_sizes(cs1) == sum_sizes(cs0),
        sum_free(cs1) == sum_free(cs0) + blocks_for(size),
        a0.stat.avail_bytes + 256 * blocks_for(size) <= usize::MAX,
        a0.stat.avail_bytes + 256 * blocks_for(size) == 256 * sum_free(cs1),
{
    assert(chunks_wf(cs1)) by {
        assert(forall|j: int| 0 <= j < cs1.len() && j != i ==> cs1[j] == cs0[j]);
    }
    assert(regions_disjoint(cs1)) by {
        assert(forall|j: int| 0 <= j < cs1.len() && j != i ==> cs1[j] == cs0[j]);
        assert(cs1[i].region_start == cs0[i].region_start
            && cs1[i].region_size == cs0[i].region_size);
    }
    lemma_sums_update(cs0, cs1, i);
    lemma_sum_free_le_sizes(cs1);
    assert(256 * sum_free(cs1) == 256 * sum_free(cs0) + 256 * blocks_for(size)) by (nonlinear_arith)
        requires sum_free(cs1) == sum_free(cs0) + blocks_for(size),
    ;
}

/// Assembly of a successful `dealloc`.
proof fn lemma_dealloc_ok(a0: LabByteAllocator, a1: LabByteAllocator, i: int, c: ChunkFooter,
    ptr: int, size: int)
    requires
        a0.wf(),
        0 <= i < a0.chunks_seq().len(),
        spec_find_owner(a0.chunks_seq(), ptr) == Some(i),
        a0.live@.contains_key(ptr as usize),
        a0.live@[ptr as usize] == size,
        1 <= size,
        a0.chunks_seq()[i].owns(ptr, size),
        dealloc_effect_chunk(a0.chunks_seq()[i], c, ptr, size),
        c.wf(),
        a1.chunks_seq() == a0.chunks_seq().update(i, c),
        a1.side == a0.side,
        a1.stat.total_bytes == a0.stat.total_bytes,
        a1.stat.avail_bytes == a0.stat.avail_bytes + 256 * blocks_for(size),
        a1.live@ == a0.live@.remove(ptr as usize),
    ensures
        a1.wf(),
        dealloc_effect(a0, a1, ptr, size, Ok(())),
{
    let cs0 = a0.chunks_seq();
    let cs1 = a1.chunks_seq();
    lemma_dealloc_counters(a0, cs0, cs1, i, c, ptr, size);
    assert(forall|j: int| 0 <= j < cs0.len() && j != i ==> cs1[j] == cs0[j]);
    lemma_dealloc_preserves_live(a0, a1, i, ptr, size);
}

/// A deallocation keeps every other live-allocation fact: the cleared
/// blocks belong to the removed entry alone.
proof fn lemma_dealloc_preserves_live(a0: LabByteAllocator, a1: LabByteAllocator, i: int,
    ptr: int, size: int)
    requires
        a0.wf(),
        0 <= i < a0.chunks_seq().len(),
        a0.live@.contains_key(ptr as usize),
        a0.live@[ptr as usize] == size,
        1 <= size,
        0 <= ptr <= usize::MAX,
        a0.chunks_seq()[i].owns(ptr, size),
        dealloc_effect_chunk(a0.chunks_seq()[i], a1.chunks_seq()[i], ptr, size),
        a1.chunks_seq().len() == a0.chunks_seq().len(),
        forall|j: int| 0 <= j < a0.chunks_seq().len() && j != i ==>
            a1.chunks_seq()[j] == a0.chunks_seq()[j],
        a1.live@ == a0.live@.remove(ptr as usize),
    ensures
        live_wf(a1.chunks_seq(), a1.live@),
{
    let cs0 = a0.chunks_seq();
    let cs1 = a1.chunks_seq();
    let live0 = a0.live@;
    let live1 = a1.live@;
    let c0 = cs0[i];
    let f = first_block(c0.start as int, ptr);
    let n = blocks_for(size);
    // ownership of a survivor carries over: its blocks are outside the
    // cleared range by the old pairwise disjointness
    assert forall|p: usize| #[trigger] live1.contains_key(p) implies
        exists|k: int| 0 <= k < cs1.len() && (#[trigger] cs1[k]).owns(p as int, live1[p] as int) by {
        let j = choose|j: int| 0 <= j < cs0.len()
            && (#[trigger] cs0[j]).owns(p as int, live0[p] as int);
        if j == i {
            assert(footprints_disjoint(cs0[i], p as int, live0[p] as int, ptr, size));
            assert(cs1[i].owns(p as int, live1[p] as int));
        } else {
            assert(cs1[j].owns(p as int, live1[p] as int));
        }
    }
    // new-state ownership implies old-state ownership: bits only cleared
    assert forall|p: usize, q: usize, k: int|
        live1.contains_key(p) && live1.contains_key(q) && p != q && 0 <= k < cs1.len()
        && #[trigger] cs1[k].owns(p as int, live1[p] as int)
        && #[trigger] cs1[k].owns(q as int, live1[q] as int)
        implies footprints_disjoint(cs1[k], p as int, live1[p] as int, q as int, live1[q] as int) by {
        assert(cs0[k].owns(p as int, live0[p] as int)) by {
            if k == i {
                assert(forall|b: int|
                    first_block(cs1[i].start as int, p as int) <= b
                        < first_block(cs1[i].start as int, p as int) + blocks_for(live1[p] as int)
                    ==> #[trigger] bit_at(cs1[i].bitmap@, b));
            }
        }
        assert(cs0[k].owns(q as int, live0[q] as int)) by {
            if k == i {
                assert(forall|b: int|
                    first_block(cs1[i].start as int, q as int) <= b
                        < first_block(cs1[i].start as int, q as int) + blocks_for(live1[q] as int)
                    ==> #[trigger] bit_at(cs1[i].bitmap@, b));
            }
        }
        assert(footprints_disjoint(cs0[k], p as int, live0[p] as int, q as int, live0[q] as int));
        assert(cs1[k].start == cs0[k].start);
    }
}

/// Counter bookkeeping of a successful placement: the covered block count
/// comes out of `sum_free`, and it was available.
proof fn lemma_alloc_counters(a0: LabByteAllocator, cs0: Seq<ChunkFooter>, cs1: Seq<ChunkFooter>,
    i: int, c: ChunkFooter, size: int, align: int, d: int)
    requires
        a0.wf(),
        cs0 == a0.chunks_seq(),
        0 <= i < cs0.len(),
        cs1 == cs0.update(i, c),
        alloc_effect_chunk(cs0[i], c, size, align, d),
        c.wf(),
        1 <= size,
    ensures
        chunks_wf(cs1),
        regions_disjoint(cs1),
        sum_sizes(cs1) == sum_sizes(cs0),
        sum_free(cs1) == sum_free(cs0) - blocks_for(size),
        256 * blocks_for(size) <= a0.stat.avail_bytes,
        0 <= blocks_for(size) <= c.blocks,
        256 * (c.blocks as int) <= usize::MAX,
{
    let n = blocks_for(size);
    assert(chunks_wf(cs1)) by {
        assert(forall|j: int| 0 <= j < cs1.len() && j != i ==> cs1[j] == cs0[j]);
    }
    assert(regions_disjoint(cs1)) by {
        assert(forall|j: int| 0 <= j < cs1.len() && j != i ==> cs1[j] == cs0[j]);
        assert(cs1[i].region_start == cs0[i].region_start
            && cs1[i].region_size == cs0[i].region_size);
    }
    lemma_sums_update(cs0, cs1, i);
    lemma_count_free_bounds(c.bitmap@, c.blocks as int);
    lemma_sum_free_part(cs0, i);
    assert(n <= cs0[i].free_blocks());
    assert(256 * n <= 256 * sum_free(cs0)) by (nonlinear_arith)
        requires n <= sum_free(cs0),
    ;
    crate::block_math::lemma_blocks_for(size);
    assert(1 <= n) by (nonlinear_arith)
        requires 1 <= size, size <= 256 * n,
    ;
    assert(n <= c.blocks as int);
    assert(256 * (c.blocks as int) == c.blocks * 256) by (nonlinear_arith);
}

/// Assembly of a successful `allocate`: with the chunk at `idx` updated by
/// a fit the scan chose, the invariant holds again and the whole effect is
/// as specified.
proof fn lemma_alloc_ok(a0: LabByteAllocator, a1: LabByteAllocator, idx: int, c: ChunkFooter,
    size: int, align: int, d: int, left: bool)
    requires
        a0.wf(),
        left == (a0.side == 1),
        1 <= size,
        0 <= idx < a0.chunks_seq().len(),
        spec_scan(a0.chunks_seq(), size, align, left)
            == spec_scan(a0.chunks_seq().take(idx + 1), size, align, left),
        spec_chunk_fit(a0.chunks_seq()[idx], size, align, left) == Some(d),
        alloc_effect_chunk(a0.chunks_seq()[idx], c, size, align, d),
        c.wf(),
        a1.chunks_seq() == a0.chunks_seq().update(idx, c),
        a1.side == -a0.side,
        a1.stat.total_bytes == a0.stat.total_bytes,
        a1.stat.avail_bytes == a0.stat.avail_bytes - 256 * blocks_for(size),
        a1.live@ == a0.live@.insert(d as usize, size as usize),
    ensures
        a1.wf(),
        alloc_effect(a0, a1, size, align, Ok(d as usize)),
{
    let cs0 = a0.chunks_seq();
    let cs1 = a1.chunks_seq();
    assert(cs0[idx].start <= d && d + size <= cs0[idx].payload_end);
    let prefix = cs0.take(idx + 1);
    assert(prefix.last() == cs0[idx]);
    assert(spec_scan(prefix, size, align, left) == Some((idx, d)));
    assert(spec_scan(cs0, size, align, left) == Some((idx, d)));
    lemma_alloc_counters(a0, cs0, cs1, idx, c, size, align, d);
    assert(forall|j: int| 0 <= j < cs0.len() && j != idx ==> cs1[j] == cs0[j]);
    lemma_alloc_preserves_live(a0, a1, idx, size, align, d);
    assert(256 * sum_free(cs1) == 256 * sum_free(cs0) - 256 * blocks_for(size)) by (nonlinear_arith)
        requires sum_free(cs1) == sum_free(cs0) - blocks_for(size),
    ;
}

/// A successful placement keeps every live-allocation fact and adds the
/// new address: its blocks were free, so they are disjoint from every
/// other live footprint.
proof fn lemma_alloc_preserves_live(a0: LabByteAllocator, a1: LabByteAllocator, i: int,
    size: int, align: int, d: int)
    requires
        a0.wf(),
        0 <= i < a0.chunks_seq().len(),
        a1.chunks_seq().len() == a0.chunks_seq().len(),
        forall|j: int| 0 <= j < a0.chunks_seq().len() && j != i ==>
            a1.chunks_seq()[j] == a0.chunks_seq()[j],
        alloc_effect_chunk(a0.chunks_seq()[i], a1.chunks_seq()[i], size, align, d),
        1 <= size,
        0 <= d <= usize::MAX,
        a1.live@ == a0.live@.insert(d as usize, size as usize),
        size <= usize::MAX,
    ensures
        live_wf(a1.chunks_seq(), a1.live@),
        !a0.live@.contains_key(d as usize),
{
    let cs0 = a0.chunks_seq();
    let cs1 = a1.chunks_seq();
    let live0 = a0.live@;
    let live1 = a1.live@;
    let c0 = cs0[i];
    let c1 = cs1[i];
    let f = first_block(c0.start as int, d);
    let n = blocks_for(size);
    crate::block_math::lemma_blocks_for(size);
    assert(1 <= n) by (nonlinear_arith)
        requires 1 <= size, size <= 256 * n,
    ;
    vstd::arithmetic::div_mod::lemma_div_pos_is_pos(d - c0.start as int, 256);
    // an old live allocation inside chunk i keeps its set blocks, and its
    // footprint was disjoint from the new one (set vs. clear bits)
    assert forall|p: usize| #[trigger] live0.contains_key(p) && cs0[i].owns(p as int, live0[p] as int)
        implies cs1[i].owns(p as int, live1[p] as int)
            && footprints_disjoint(cs1[i], p as int, live1[p] as int, d, size) by {
        lemma_owns_blocks_nonempty(cs0[i], p as int, live0[p] as int);
        let fp = first_block(c0.start as int, p as int);
        let np = blocks_for(live0[p] as int);
        assert(p != d as usize ==> live1[p] == live0[p]);
        if p == d as usize {
            // impossible: the new footprint's first block is clear, a live one is set
            assert(bit_at(c0.bitmap@, fp));
            assert(!bit_at(c0.bitmap@, f));
            assert(false);
        }
        assert(cs1[i].owns(p as int, live0[p] as int));
        if !(fp + np <= f || f + n <= fp) {
            let b = if fp >= f { fp } else { f };
            assert(fp <= b < fp + np && f <= b < f + n);
            assert(bit_at(c0.bitmap@, b));
            assert(!bit_at(c0.bitmap@, b));
        }
    }
    // old owners elsewhere are untouched; the new address is owned by chunk i
    assert(cs1[i].owns(d, size)) by {
        assert(forall|b: int| f <= b < f + n ==> #[trigger] bit_at(c1.bitmap@, b));
    }
    assert(!live0.contains_key(d as usize)) by {
        if live0.contains_key(d as usize) {
            let j = choose|j: int| 0 <= j < cs0.len()
                && (#[trigger] cs0[j]).owns(d, live0[d as usize] as int);
            lemma_owns_blocks_nonempty(cs0[j], d, live0[d as usize] as int);
            lemma_payload_owner_unique(cs0, i, j, d);
            assert(bit_at(c0.bitmap@, f));
            assert(!bit_at(c0.bitmap@, f));
        }
    }
    assert forall|p: usize| #[trigger] live1.contains_key(p) implies
        exists|k: int| 0 <= k < cs1.len() && (#[trigger] cs1[k]).owns(p as int, live1[p] as int) by {
        if p == d as usize {
            assert(cs1[i].owns(p as int, live1[p] as int));
        } else {
            let j = choose|j: int| 0 <= j < cs0.len()
                && (#[trigger] cs0[j]).owns(p as int, live0[p] as int);
            if j == i {
                assert(cs1[i].owns(p as int, live1[p] as int));
            } else {
                assert(cs1[j].owns(p as int, live1[p] as int));
            }
        }
    }
    // pairwise block disjointness within any one chunk
    assert forall|p: usize, q: usize, k: int|
        live1.contains_key(p) && live1.contains_key(q) && p != q && 0 <= k < cs1.len()
        && #[trigger] cs1[k].owns(p as int, live1[p] as int)
        && #[trigger] cs1[k].owns(q as int, live1[q] as int)
        implies footprints_disjoint(cs1[k], p as int, live1[p] as int, q as int, live1[q] as int) by {
        lemma_alloc_pair_disjoint(a0, a1, i, size, align, d, p, q, k);
    }
}

/// Pairwise case analysis behind `lemma_alloc_preserves_live`.
proof fn lemma_alloc_pair_disjoint(a0: LabByteAllocator, a1: LabByteAllocator, i: int,
    size: int, align: int, d: int, p: usize, q: usize, k: int)
    requires
        a0.wf(),
        0 <= i < a0.chunks_seq().len(),
        a1.chunks_seq().len() == a0.chunks_seq().len(),
        forall|j: int| 0 <= j < a0.chunks_seq().len() && j != i ==>
            a1.chunks_seq()[j] == a0.chunks_seq()[j],
        alloc_effect_chunk(a0.chunks_seq()[i], a1.chunks_seq()[i], size, align, d),
        1 <= size,
        0 <= d <= usize::MAX,
        size <= usize::MAX,
        a1.live@ == a0.live@.insert(d as usize, size as usize),
        a1.live@.contains_key(p),
        a1.live@.contains_key(q),
        p != q,
        0 <= k < a1.chunks_seq().len(),
        a1.chunks_seq()[k].owns(p as int, a1.live@[p] as int),
        a1.chunks_seq()[k].owns(q as int, a1.live@[q] as int),
    ensures
        footprints_disjoint(a1.chunks_seq()[k], p as int, a1.live@[p] as int,
            q as int, a1.live@[q] as int),
{
    let cs0 = a0.chunks_seq();
    let cs1 = a1.chunks_seq();
    let live0 = a0.live@;
    let live1 = a1.live@;
    lemma_owns_blocks_nonempty(cs1[k], p as int, live1[p] as int);
    lemma_owns_blocks_nonempty(cs1[k], q as int, live1[q] as int);
    if p != d as usize && q != d as usize {
        // both old: an owner in the new state was an owner in the old state,
        // because bits only became more set in chunk i and others are unchanged
        assert(live0.contains_key(p) && live0[p] == live1[p]);
        assert(live0.contains_key(q) && live0[q] == live1[q]);
        let jp = choose|j: int| 0 <= j < cs0.len()
            && (#[trigger] cs0[j]).owns(p as int, live0[p] as int);
        let jq = choose|j: int| 0 <= j < cs0.len()
            && (#[trigger] cs0[j]).owns(q as int, live0[q] as int);
        lemma_owns_blocks_nonempty(cs0[jp], p as int, live0[p] as int);
        lemma_owns_blocks_nonempty(cs0[jq], q as int, live0[q] as int);
        lemma_payload_owner_unique_seq(cs0, cs1, k, jp, p as int, live0[p] as int, i);
        lemma_payload_owner_unique_seq(cs0, cs1, k, jq, q as int, live0[q] as int, i);
        assert(cs0[k].owns(p as int, live0[p] as int));
        assert(cs0[k].owns(q as int, live0[q] as int));
        assert(footprints_disjoint(cs0[k], p as int, live0[p] as int, q as int, live0[q] as int));
        assert(cs1[k].start == cs0[k].start);
    } else {
        // one of the two is the fresh allocation
        let (o, po) = if p == d as usize { (q, p) } else { (p, q) };
        assert(live0.contains_key(o) && live0[o] == live1[o]);
        let jo = choose|j: int| 0 <= j < cs0.len()
            && (#[trigger] cs0[j]).owns(o as int, live0[o] as int);
        lemma_owns_blocks_nonempty(cs0[jo], o as int, live0[o] as int);
        lemma_payload_owner_unique_seq(cs0, cs1, k, jo, o as int, live0[o] as int, i);
        // the fresh allocation lives in chunk i only
        lemma_payload_owner_unique_fresh(a0, a1, i, size, align, d, k);
        assert(k == i);
        let c0 = cs0[i];
        let f = first_block(c0.start as int, d);
        let n = blocks_for(size);
        let fo = first_block(c0.start as int, o as int);
        let no = blocks_for(live0[o] as int);
        assert(cs0[i].owns(o as int, live0[o] as int));
        if !(fo + no <= f || f + n <= fo) {
            let b = if fo >= f { fo } else { f };
            assert(fo <= b < fo + no && f <= b < f + n);
            assert(bit_at(c0.bitmap@, b));
            assert(!bit_at(c0.bitmap@, b));
        }
    }
}

/// An owned footprint covers at least one block, and its first block index
/// is in range.
pub proof fn lemma_owns_blocks_nonempty(c: ChunkFooter, p: int, size: int)
    requires
        c.owns(p, size),
        1 <= size,
    ensures
        1 <= blocks_for(size),
        0 <= first_block(c.start as int, p),
        first_block(c.start as int, p) < c.blocks,
        c.start <= p < c.payload_end,
        bit_at(c.bitmap@, first_block(c.start as int, p)),
{
    crate::block_math::lemma_blocks_for(size);
    let n = blocks_for(size);
    assert(1 <= n) by (nonlinear_arith)
        requires 1 <= size, size <= 256 * n,
    ;
    vstd::arithmetic::div_mod::lemma_div_pos_is_pos(p - c.start as int, 256);
}

/// If an address is owned by chunk `k` in the updated state and by chunk
/// `j` in the old state, the chunks coincide — and for `k != i` nothing
/// changed, so old-state ownership carries over to `k`.
proof fn lemma_payload_owner_unique_seq(cs0: Seq<ChunkFooter>, cs1: Seq<ChunkFooter>, k: int,
    j: int, p: int, size: int, i: int)
    requires
        chunks_wf(cs0),
        regions_disjoint(cs0),
        cs1.len() == cs0.len(),
        0 <= i < cs0.len(),
        forall|m: int| 0 <= m < cs0.len() && m != i ==> cs1[m] == cs0[m],
        cs1[i].start == cs0[i].start,
        cs1[i].end == cs0[i].end,
        cs1[i].payload_end == cs0[i].payload_end,
        0 <= k < cs0.len(),
        0 <= j < cs0.len(),
        1 <= size,
        cs1[k].owns(p, size),
        cs0[j].owns(p, size),
    ensures
        k == j,
{
    lemma_owns_blocks_nonempty(cs0[j], p, size);
    assert(cs1[k].start <= p < cs1[k].payload_end) by {
        crate::block_math::lemma_blocks_for(size);
        let n = blocks_for(size);
        assert(1 <= n) by (nonlinear_arith)
            requires 1 <= size, size <= 256 * n,
        ;
    }
    assert(cs0[k].start <= p <= cs0[k].end);
    lemma_payload_owner_unique(cs0, j, k, p);
}

/// The freshly placed address lies strictly inside chunk `i`'s payload, so
/// no other chunk can own it.
proof fn lemma_payload_owner_unique_fresh(a0: LabByteAllocator, a1: LabByteAllocator, i: int,
    size: int, align: int, d: int, k: int)
    requires
        a0.wf(),
        0 <= i < a0.chunks_seq().len(),
        a1.chunks_seq().len() == a0.chunks_seq().len(),
        forall|j: int| 0 <= j < a0.chunks_seq().len() && j != i ==>
            a1.chunks_seq()[j] == a0.chunks_seq()[j],
        alloc_effect_chunk(a0.chunks_seq()[i], a1.chunks_seq()[i], size, align, d),
        1 <= size,
        0 <= k < a1.chunks_seq().len(),
        a1.chunks_seq()[k].owns(d, size),
    ensures
        k == i,
{
    let cs0 = a0.chunks_seq();
    let cs1 = a1.chunks_seq();
    if k != i {
        assert(cs1[k] == cs0[k]);
        lemma_owns_blocks_nonempty(cs0[k], d, size);
        assert(cs0[i].start <= d < cs0[i].payload_end);
        lemma_payload_owner_unique(cs0, i, k, d);
    }
}

/// Pushing a fresh, fully free chunk on a disjoint region keeps every
/// live-allocation fact: old owners keep their indices, and the new chunk
/// owns nothing because its blocks are all clear.
proof fn lemma_add_preserves_live(a0: LabByteAllocator, a1: LabByteAllocator, c: ChunkFooter)
    requires
        chunks_wf(a0.chunks_seq()),
        regions_disjoint(a0.chunks_seq()),
        live_wf(a0.chunks_seq(), a0.live@),
        c.wf(),
        forall|b: int| 0 <= b < c.blocks ==> !#[trigger] bit_at(c.bitmap@, b),
        a1.chunks_seq() == a0.chunks_seq().push(c),
        a1.live@ == a0.live@,
        forall|i: int| 0 <= i < a0.chunks_seq().len() ==>
            c.region_end() <= (#[trigger] a0.chunks_seq()[i]).region_start
            || a0.chunks_seq()[i].region_end() <= c.region_start,
    ensures
        chunks_wf(a1.chunks_seq()),
        regions_disjoint(a1.chunks_seq()),
        live_wf(a1.chunks_seq(), a1.live@),
{
    let cs0 = a0.chunks_seq();
    let cs1 = a1.chunks_seq();
    let live = a0.live@;
    assert(forall|i: int| 0 <= i < cs0.len() ==> cs1[i] == cs0[i]);
    assert(cs1.last() == c);
    // the new chunk owns no live allocation: its payload blocks are clear
    assert forall|p: usize| live.contains_key(p) implies
        !c.owns(p as int, live[p] as int) by {
        if c.owns(p as int, live[p] as int) {
            let f = first_block(c.start as int, p as int);
            let n = blocks_for(live[p] as int);
            crate::block_math::lemma_blocks_for(live[p] as int);
            assert(1 <= n) by (nonlinear_arith)
                requires 1 <= live[p] as int, live[p] as int <= 256 * n,
            ;
            vstd::arithmetic::div_mod::lemma_div_pos_is_pos(p as int - c.start as int, 256);
            assert(0 <= f < c.blocks);
            assert(bit_at(c.bitmap@, f));
            assert(!bit_at(c.bitmap@, f));
        }
    }
    assert forall|p: usize| #[trigger] live.contains_key(p) implies
        exists|i: int| 0 <= i < cs1.len() && (#[trigger] cs1[i]).owns(p as int, live[p] as int) by {
        let i = choose|i: int| 0 <= i < cs0.len() && (#[trigger] cs0[i]).owns(p as int, live[p] as int);
        assert(cs1[i].owns(p as int, live[p] as int));
    }
}

/// `blocks / 64` rounded up, computed without risking overflow.
fn div_ceil_64(blocks: usize) -> (r: usize)
    ensures
        r == (blocks + 63) / 64,
        blocks <= 64 * r < blocks + 64,
{
    proof {
        lemma_fundamental_div_mod(blocks as int, 64);
        lemma_mod_division_less_than_divisor(blocks as int, 64);
        let q = blocks as int / 64;
        let rem = blocks as int % 64;
        if rem == 0 {
            lemma_fundamental_div_mod_converse(blocks as int + 63, 64, q, 63);
        } else {
            lemma_fundamental_div_mod_converse(blocks as int + 63, 64, q + 1, rem - 1);
        }
        vstd::arithmetic::div_mod::lemma_div_pos_is_pos(blocks as int, 64);
    }
    if blocks % 64 == 0 {
        blocks / 64
    } else {
        blocks / 64 + 1
    }
}

/// The free bytes recorded in the bitmaps never exceed the raw region
/// bytes: each chunk's payload lies inside its region.
pub proof fn lemma_sum_free_le_sizes(cs: Seq<ChunkFooter>)
    requires
        chunks_wf(cs),
    ensures
        0 <= 256 * sum_free(cs) <= sum_sizes(cs),
    decreases cs.len(),
{
    if cs.len() > 0 {
        let head = cs.drop_last();
        assert(chunks_wf(head)) by {
            assert(forall|i: int| 0 <= i < head.len() ==> head[i] == cs[i]);
        }
        lemma_sum_free_le_sizes(head);
        let c = cs.last();
        lemma_count_free_bounds(c.bitmap@, c.blocks as int);
        assert(256 * c.free_blocks() <= 256 * (c.blocks as int)) by (nonlinear_arith)
            requires c.free_blocks() <= c.blocks as int,
        ;
        assert(c.blocks * 256 <= c.region_size as int);
        assert(256 * sum_free(cs) == 256 * sum_free(head) + 256 * c.free_blocks()) by (nonlinear_arith)
            requires sum_free(cs) == sum_free(head) + c.free_blocks(),
        ;
    }
}

/// Every chunk's free count is part of the total, and the total is never
/// negative.
pub proof fn lemma_sum_free_part(cs: Seq<ChunkFooter>, i: int)
    requires
        chunks_wf(cs),
        0 <= i < cs.len(),
    ensures
        0 <= cs[i].free_blocks() <= sum_free(cs),
    decreases cs.len(),
{
    let head = cs.drop_last();
    assert(chunks_wf(head)) by {
        assert(forall|k: int| 0 <= k < head.len() ==> head[k] == cs[k]);
    }
    lemma_count_free_bounds(cs[i].bitmap@, cs[i].blocks as int);
    lemma_sum_free_nonneg(cs);
    if i == cs.len() - 1 {
        lemma_sum_free_nonneg(head);
    } else {
        lemma_sum_free_part(head, i);
        lemma_count_free_bounds(cs.last().bitmap@, cs.last().blocks as int);
    }
}

/// The free-block total of well-formed chunks is nonnegative.
pub proof fn lemma_sum_free_nonneg(cs: Seq<ChunkFooter>)
    requires
        chunks_wf(cs),
    ensures
        0 <= sum_free(cs),
    decreases cs.len(),
{
    if cs.len() > 0 {
        let head = cs.drop_last();
        assert(chunks_wf(head)) by {
            assert(forall|k: int| 0 <= k < head.len() ==> head[k] == cs[k]);
        }
        lemma_sum_free_nonneg(head);
        lemma_count_free_bounds(cs.last().bitmap@, cs.last().blocks as int);
    }
}

/// Changing one chunk shifts `sum_free` by the chunk's own change, and
/// leaves `sum_sizes` alone when the region fields are kept.
pub proof fn lemma_sums_update(cs: Seq<ChunkFooter>, cs2: Seq<ChunkFooter>, i: int)
    requires
        cs.len() == cs2.len(),
        0 <= i < cs.len(),
        forall|j: int| 0 <= j < cs.len() && j != i ==> cs2[j] == cs[j],
        cs2[i].region_size == cs[i].region_size,
    ensures
        sum_free(cs2) == sum_free(cs) + cs2[i].free_blocks() - cs[i].free_blocks(),
        sum_sizes(cs2) == sum_sizes(cs),
    decreases cs.len(),
{
    let head = cs.drop_last();
    let head2 = cs2.drop_last();
    if i == cs.len() - 1 {
        assert(head2 =~= head);
    } else {
        lemma_sums_update(head, head2, i);
    }
}

/// Appending a chunk adds its free blocks and its region size.
pub proof fn lemma_sums_push(cs: Seq<ChunkFooter>, c: ChunkFooter)
    ensures
        sum_free(cs.push(c)) == sum_free(cs) + c.free_blocks(),
        sum_sizes(cs.push(c)) == sum_sizes(cs) + c.region_size,
{
    assert(cs.push(c).drop_last() =~= cs);
    assert(cs.push(c).last() == c);
}

/// Two different well-formed chunks cannot both contain an address
/// strictly inside their payloads: the regions are disjoint.
pub proof fn lemma_payload_owner_unique(cs: Seq<ChunkFooter>, i: int, j: int, p: int)
    requires
        chunks_wf(cs),
        regions_disjoint(cs),
        0 <= i < cs.len(),
        0 <= j < cs.len(),
        cs[i].start <= p < cs[i].payload_end,
        cs[j].start <= p <= cs[j].end,
    ensures
        i == j,
{
    if i != j {
        assert(cs[i].region_start <= p < cs[i].region_end());
        assert(cs[j].region_start <= p < cs[j].region_end());
    }
}

} // verus!
