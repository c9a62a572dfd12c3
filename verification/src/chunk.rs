//! One backing memory region and its bookkeeping.
//!
//! A `ChunkFooter` records the geometry of one region handed to the
//! allocator — block-aligned payload start, payload end, the footer's own
//! address (the region's usable end) — and owns the bitmap that tracks its
//! blocks.  Placement within a chunk follows the requested side: leftmost
//! first-fit or rightmost last-fit over the decoded free runs.

use vstd::prelude::*;

verus! {

use crate::addr::{is_power_of_two, floor_to, ceil_to, lemma_floor_to, lemma_ceil_to, lemma_pow2_divides, lemma_mod_chain};
use crate::bitmap::{Bitmap, bit_at, total_bits, count_free,
    lemma_count_free_set_range, lemma_count_free_unset_range};
use crate::block_math::{blocks_for, first_block, lemma_span_block_aligned, lemma_span_floor_tail,
    lemma_blocks_for, lemma_div_add_multiple, lemma_mod_diff_zero, lemma_mul_mod_zero, lemma_div256_ordered};
use crate::chunk_decoder::{Chunk, runs_of, runs_from, lemma_runs_from};

/// Bytes per block: the allocation quantum.
pub const BLOCK_SIZE: usize = 256;

/// The bookkeeping record of one region.
pub struct ChunkFooter {
    /// First byte of the block-aligned payload.
    pub start: usize,
    /// The footer record's own address; the region's usable end.  The
    /// footer sits near the region's high end, below the bitmap area, so
    /// this doubles as the payload bound before block rounding.
    pub end: usize,
    /// One past the last payload byte: `end` rounded down to a block.
    pub payload_end: usize,
    /// Payload blocks tracked by the bitmap.
    pub blocks: usize,
    /// One bit per block; trailing sentinel bits are permanently set.
    pub bitmap: Bitmap,
    /// First byte of the raw region this chunk was carved from.
    pub region_start: usize,
    /// Raw region length in bytes.
    pub region_size: usize,
}

impl ChunkFooter {
    /// One past the last byte of the raw region.
    pub open spec fn region_end(&self) -> int {
        self.region_start + self.region_size
    }

    /// Free blocks currently recorded in the bitmap (sentinels excluded).
    pub open spec fn free_blocks(&self) -> int {
        count_free(self.bitmap@, self.blocks as int)
    }

    /// Geometry and bitmap invariants of a chunk.
    pub open spec fn wf(&self) -> bool {
        &&& self.region_end() <= usize::MAX
        &&& self.region_start <= self.start
        &&& self.start % 256 == 0
        &&& 1 <= self.blocks
        &&& self.payload_end == self.start + self.blocks * 256
        &&& self.payload_end <= self.end
        &&& self.end < self.region_end()
        &&& self.bitmap@.len() == (self.blocks + 63) / 64
        &&& self.blocks <= total_bits(self.bitmap@)
        &&& total_bits(self.bitmap@) <= usize::MAX
        &&& forall|i: int| self.blocks <= i < total_bits(self.bitmap@) ==> #[trigger] bit_at(self.bitmap@, i)
    }

    /// `[p, p + size)` is a live allocation footprint of this chunk: inside
    /// the payload, and every block it touches is marked allocated.
    pub open spec fn owns(&self, p: int, size: int) -> bool {
        let f = first_block(self.start as int, p);
        let n = blocks_for(size);
        &&& self.start <= p
        &&& p + size <= self.payload_end
        &&& p + size <= self.start + (f + n) * 256
        &&& f + n <= self.blocks
        &&& forall|b: int| f <= b < f + n ==> #[trigger] bit_at(self.bitmap@, b)
    }
}

/// Where a leftmost placement of `(size, align)` lands in one free run:
/// the run's start rounded up to the alignment, accepted if the request
/// still ends inside the run.
pub open spec fn spec_fit_left(run: Chunk, start: int, size: int, align: int) -> Option<int> {
    let run_start = start + run.pos * 256;
    let run_end = run_start + run.len * 256;
    let d = ceil_to(run_start, align);
    if d + size <= run_end {
        Some(d)
    } else {
        None
    }
}

/// Where a rightmost placement lands in one free run: the latest aligned
/// address whose request ends at or before the run's end, accepted if it
/// does not fall below the run's start.
pub open spec fn spec_fit_right(run: Chunk, start: int, size: int, align: int) -> Option<int> {
    let run_start = start + run.pos * 256;
    let run_end = run_start + run.len * 256;
    let d = floor_to(run_end - size, align);
    if run_start <= d {
        Some(d)
    } else {
        None
    }
}

/// The leftmost policy takes the first run that fits.
pub open spec fn spec_first_fit_left(runs: Seq<Chunk>, start: int, size: int, align: int) -> Option<int>
    decreases runs.len(),
{
    if runs.len() == 0 {
        None
    } else {
        match spec_fit_left(runs[0], start, size, align) {
            Some(d) => Some(d),
            None => spec_first_fit_left(runs.drop_first(), start, size, align),
        }
    }
}

/// The rightmost policy takes the last run that fits.
pub open spec fn spec_last_fit_right(runs: Seq<Chunk>, start: int, size: int, align: int) -> Option<int>
    decreases runs.len(),
{
    if runs.len() == 0 {
        None
    } else {
        match spec_last_fit_right(runs.drop_first(), start, size, align) {
            Some(d) => Some(d),
            None => spec_fit_right(runs[0], start, size, align),
        }
    }
}

/// What one chunk answers for a request, given the side.
pub open spec fn spec_chunk_fit(c: ChunkFooter, size: int, align: int, left: bool) -> Option<int> {
    if left {
        spec_first_fit_left(runs_of(c.bitmap@), c.start as int, size, align)
    } else {
        spec_last_fit_right(runs_of(c.bitmap@), c.start as int, size, align)
    }
}

/// A valid placement of `(size, align)` at address `d` in chunk `c`:
/// aligned, inside the payload, covering exactly `blocks_for(size)`
/// currently free blocks starting at `d`'s block.
pub open spec fn placement_ok(c: ChunkFooter, d: int, size: int, align: int) -> bool {
    let f = first_block(c.start as int, d);
    let n = blocks_for(size);
    &&& d % align == 0
    &&& c.start <= d
    &&& d + size <= c.payload_end
    &&& 256 * f <= d - c.start
    &&& f + n == blocks_for(d + size - c.start as int)
    &&& d + size <= c.start + (f + n) * 256
    &&& f + n <= c.blocks
    &&& forall|b: int| f <= b < f + n ==> !#[trigger] bit_at(c.bitmap@, b)
}

/// Effect of a successful allocation at `d` on a chunk: the geometry is
/// untouched and exactly the covered blocks flip from free to allocated.
pub open spec fn alloc_effect_chunk(c0: ChunkFooter, c1: ChunkFooter, size: int, align: int, d: int) -> bool {
    let f = first_block(c0.start as int, d);
    let n = blocks_for(size);
    &&& placement_ok(c0, d, size, align)
    &&& c1.start == c0.start
    &&& c1.end == c0.end
    &&& c1.payload_end == c0.payload_end
    &&& c1.blocks == c0.blocks
    &&& c1.region_start == c0.region_start
    &&& c1.region_size == c0.region_size
    &&& c1.bitmap@.len() == c0.bitmap@.len()
    &&& forall|k: int| 0 <= k < total_bits(c0.bitmap@) ==>
            #[trigger] bit_at(c1.bitmap@, k) == if f <= k < f + n { true } else { bit_at(c0.bitmap@, k) }
    &&& c1.free_blocks() == c0.free_blocks() - n
}

/// Effect of a deallocation of `[p, p + size)` on its owning chunk: the
/// geometry is untouched and exactly the covered blocks flip back to free.
pub open spec fn dealloc_effect_chunk(c0: ChunkFooter, c1: ChunkFooter, p: int, size: int) -> bool {
    let f = first_block(c0.start as int, p);
    let n = blocks_for(size);
    &&& c1.start == c0.start
    &&& c1.end == c0.end
    &&& c1.payload_end == c0.payload_end
    &&& c1.blocks == c0.blocks
    &&& c1.region_start == c0.region_start
    &&& c1.region_size == c0.region_size
    &&& c1.bitmap@.len() == c0.bitmap@.len()
    &&& forall|k: int| 0 <= k < total_bits(c0.bitmap@) ==>
            #[trigger] bit_at(c1.bitmap@, k) == if f <= k < f + n { false } else { bit_at(c0.bitmap@, k) }
    &&& c1.free_blocks() == c0.free_blocks() + n
}

/// A fit inside a run of free blocks is a valid placement: the covered
/// blocks lie inside the run (hence are free), and the covered block count
/// is exactly `blocks_for(size)` by the span lemmas.
pub proof fn lemma_placement_from_fit(c: ChunkFooter, run: Chunk, size: int, align: int, left: bool)
    requires
        c.wf(),
        is_power_of_two(align),
        1 <= size,
        run.pos + run.len <= c.blocks,
        1 <= run.len,
        forall|i: int| run.pos <= i < run.pos + run.len ==> !#[trigger] bit_at(c.bitmap@, i),
    ensures
        left ==> match spec_fit_left(run, c.start as int, size, align) {
            Some(d) => placement_ok(c, d, size, align),
            None => true,
        },
        !left ==> match spec_fit_right(run, c.start as int, size, align) {
            Some(d) => placement_ok(c, d, size, align),
            None => true,
        },
{
    let start = c.start as int;
    let run_start = start + run.pos * 256;
    let run_end = run_start + run.len * 256;
    assert(run_start % 256 == 0 && run_end % 256 == 0) by {
        lemma_mul_mod_zero(run.pos as int, 256);
        lemma_mul_mod_zero(run.len as int, 256);
        lemma_mod_diff_zero(start, run.pos * 256, 256);
        lemma_mod_diff_zero(start + run.pos * 256, run.len * 256, 256);
    }
    assert(run_end <= c.payload_end) by {
        assert((run.pos + run.len) * 256 <= c.blocks * 256) by (nonlinear_arith)
            requires run.pos + run.len <= c.blocks,
        ;
        assert(run_start + run.len * 256 == start + (run.pos + run.len) * 256) by (nonlinear_arith)
            requires run_start == start + run.pos * 256,
        ;
    }
    assert(is_power_of_two(256)) by {
        reveal_with_fuel(is_power_of_two, 10);
    }
    assert(align >= 1) by {
        if align < 1 {
            assert(!is_power_of_two(align));
        }
    }
    let d = if left { ceil_to(run_start, align) } else { floor_to(run_end - size, align) };
    let fit = if left { spec_fit_left(run, start, size, align) } else { spec_fit_right(run, start, size, align) };
    if fit is Some {
        assert(fit == Some(d));
        if left {
            lemma_ceil_to(run_start, align);
            assert(run_start <= d && d + size <= run_end);
        } else {
            lemma_floor_to(run_end - size, align);
            assert(run_start <= d && d <= run_end - size);
        }
        // d - start is a multiple of 256, or align >= 256 handles via the tail lemma.
        if align >= 256 {
            lemma_pow2_divides(256, align);
            assert((d - start) % 256 == 0) by {
                lemma_mod_chain(d, align, 256);
                lemma_mod_diff_zero(d, start, 256);
            }
            lemma_span_block_aligned(start, d, size);
        } else if left {
            // the run start is already aligned, so the ceil is a no-op
            lemma_pow2_divides(align, 256);
            lemma_mod_chain(run_start, 256, align);
            assert(d == run_start);
            lemma_span_block_aligned(start, d, size);
        } else {
            lemma_span_floor_tail(start, run_end, size, align, d);
        }
        let f = first_block(start, d);
        let n = blocks_for(size);
        assert(f + n == blocks_for(d + size - start));
        // covered blocks lie inside the run
        assert(run.pos <= f) by {
            lemma_mul_mod_zero(run.pos as int, 256);
            lemma_div256_ordered(run.pos * 256, d - start);
            lemma_div_add_multiple(run.pos as int, 0);
        }
        assert(f + n <= run.pos + run.len) by {
            lemma_div256_ordered(d + size - start + 255, (run.pos + run.len) * 256 + 255);
            lemma_div_add_multiple((run.pos + run.len) as int, 255);
            assert((run.pos + run.len) * 256 + 255 == 256 * ((run.pos + run.len) as int) + 255) by (nonlinear_arith);
            assert(d + size - start <= (run.pos + run.len) * 256) by (nonlinear_arith)
                requires d + size <= run_end, run_end == start + run.pos * 256 + run.len * 256,
            ;
        }
        // hence free, within the payload, within the block bound
        assert(d + size <= c.payload_end);
        assert(d + size <= start + (f + n) * 256) by {
            lemma_blocks_for(d + size - start);
            assert(256 * blocks_for(d + size - start) == blocks_for(d + size - start) * 256) by (nonlinear_arith);
        }
        assert(256 * f <= d - start) by {
            vstd::arithmetic::div_mod::lemma_fundamental_div_mod(d - start, 256);
            vstd::arithmetic::div_mod::lemma_mod_division_less_than_divisor(d - start, 256);
        }
        assert(d % align == 0) by {
            if left {
                lemma_ceil_to(run_start, align);
            } else {
                lemma_floor_to(run_end - size, align);
            }
        }
        assert(placement_ok(c, d, size, align));
    }
}

impl Chunk {
    /// Leftmost placement of `(size, align)` in this free run of the chunk
    /// whose payload starts at `start`.
    pub fn fits_left(&self, start: usize, size: usize, align: usize) -> (r: Option<usize>)
        requires
            is_power_of_two(align as int),
            start % 256 == 0,
            start + (self.pos + self.len) * 256 <= usize::MAX,
        ensures
            match spec_fit_left(*self, start as int, size as int, align as int) {
                Some(d) => r == Some(d as usize),
                None => r is None,
            },
    {
        proof {
            assert(self.pos * 256 <= (self.pos + self.len) * 256 && 0 <= self.pos * 256) by (nonlinear_arith);
        }
        let run_start = start + self.pos * BLOCK_SIZE;
        let run_end = run_start + self.len * BLOCK_SIZE;
        proof {
            lemma_ceil_to(run_start as int, align as int);
        }
        let rem = run_start % align;
        if rem == 0 {
            if size <= run_end - run_start {
                Some(run_start)
            } else {
                None
            }
        } else {
            let pad = align - rem;
            if pad > usize::MAX - run_start {
                proof {
                    assert(ceil_to(run_start as int, align as int) + size > run_end);
                }
                None
            } else {
                let d = run_start + pad;
                if d <= run_end && size <= run_end - d {
                    Some(d)
                } else {
                    None
                }
            }
        }
    }

    /// Rightmost placement of `(size, align)` in this free run.
    pub fn fits_right(&self, start: usize, size: usize, align: usize) -> (r: Option<usize>)
        requires
            is_power_of_two(align as int),
            start % 256 == 0,
            start + (self.pos + self.len) * 256 <= usize::MAX,
        ensures
            match spec_fit_right(*self, start as int, size as int, align as int) {
                Some(d) => r == Some(d as usize),
                None => r is None,
            },
    {
        proof {
            assert(self.pos * 256 <= (self.pos + self.len) * 256 && 0 <= self.pos * 256) by (nonlinear_arith);
        }
        let run_start = start + self.pos * BLOCK_SIZE;
        let run_end = run_start + self.len * BLOCK_SIZE;
        proof {
            lemma_floor_to(run_end - size, align as int);
        }
        if size > run_end {
            None
        } else {
            let base = run_end - size;
            proof {
                vstd::arithmetic::div_mod::lemma_mod_decreases(base as nat, align as nat);
            }
            let d = base - base % align;
            if d < run_start {
                None
            } else {
                Some(d)
            }
        }
    }
}

impl ChunkFooter {
    /// Allocate at the first fitting run, leftmost placement.
    pub fn alloc_left(&mut self, size: usize, align: usize) -> (r: Option<usize>)
        requires
            old(self).wf(),
            is_power_of_two(align as int),
            1 <= size,
        ensures
            final(self).wf(),
            match spec_chunk_fit(*old(self), size as int, align as int, true) {
                None => r is None && *final(self) == *old(self),
                Some(d) => r == Some(d as usize)
                    && alloc_effect_chunk(*old(self), *final(self), size as int, align as int, d),
            },
    {
        let ghost w = self.bitmap@;
        let ghost start_i = self.start as int;
        let mut dec = self.bitmap.decode();
        loop
            invariant
                *self == *old(self),
                self.wf(),
                is_power_of_two(align as int),
                1 <= size,
                dec.inv(),
                dec.spec_words() == w,
                w == self.bitmap@,
                start_i == self.start as int,
                spec_first_fit_left(runs_of(w), start_i, size as int, align as int)
                    == spec_first_fit_left(runs_from(w, dec.spec_cursor()), start_i, size as int, align as int),
                0 <= dec.spec_cursor() <= total_bits(w),
            decreases total_bits(w) - dec.spec_cursor(),
        {
            let ghost cpre = dec.spec_cursor();
            match dec.next() {
                None => {
                    return None;
                },
                Some(run) => {
                    let ghost rest = runs_from(w, dec.spec_cursor());
                    proof {
                        assert(runs_from(w, cpre) == seq![run] + rest);
                        assert((seq![run] + rest)[0] == run);
                        assert((seq![run] + rest).drop_first() =~= rest);
                        lemma_runs_from(w, cpre);
                        assert(forall|i: int| run.pos <= i < run.pos + run.len ==> !#[trigger] bit_at(w, i));
                        lemma_run_in_blocks(*self, run);
                        assert(start_i + (run.pos + run.len) * 256 <= start_i + self.blocks * 256) by (nonlinear_arith)
                            requires run.pos + run.len <= self.blocks,
                        ;
                        lemma_placement_from_fit(*self, run, size as int, align as int, true);
                    }
                    match run.fits_left(self.start, size, align) {
                        Some(d) => {
                            self.alloc_at(d, size, Ghost(align as int));
                            return Some(d);
                        },
                        None => {},
                    }
                },
            }
        }
    }

    /// Allocate at the last fitting run, rightmost placement.
    pub fn alloc_right(&mut self, size: usize, align: usize) -> (r: Option<usize>)
        requires
            old(self).wf(),
            is_power_of_two(align as int),
            1 <= size,
        ensures
            final(self).wf(),
            match spec_chunk_fit(*old(self), size as int, align as int, false) {
                None => r is None && *final(self) == *old(self),
                Some(d) => r == Some(d as usize)
                    && alloc_effect_chunk(*old(self), *final(self), size as int, align as int, d),
            },
    {
        let ghost w = self.bitmap@;
        let ghost start_i = self.start as int;
        let mut dec = self.bitmap.decode();
        let mut best: Option<usize> = None;
        let mut done = false;
        while !done
            invariant
                *self == *old(self),
                self.wf(),
                is_power_of_two(align as int),
                1 <= size,
                dec.inv(),
                dec.spec_words() == w,
                w == self.bitmap@,
                start_i == self.start as int,
                0 <= dec.spec_cursor() <= total_bits(w),
                spec_last_fit_right(runs_of(w), start_i, size as int, align as int)
                    == match spec_last_fit_right(runs_from(w, dec.spec_cursor()), start_i, size as int, align as int) {
                        Some(d) => Some(d),
                        None => match best {
                            Some(b) => Some(b as int),
                            None => None,
                        },
                    },
                match best {
                    Some(b) => placement_ok(*self, b as int, size as int, align as int),
                    None => true,
                },
                done ==> runs_from(w, dec.spec_cursor()).len() == 0,
            decreases total_bits(w) - dec.spec_cursor() + (if done { 0int } else { 1int }),
        {
            let ghost cpre = dec.spec_cursor();
            match dec.next() {
                None => {
                    done = true;
                },
                Some(run) => {
                    let ghost rest = runs_from(w, dec.spec_cursor());
                    proof {
                        assert(runs_from(w, cpre) == seq![run] + rest);
                        assert((seq![run] + rest)[0] == run);
                        assert((seq![run] + rest).drop_first() =~= rest);
                        lemma_runs_from(w, cpre);
                        assert(forall|i: int| run.pos <= i < run.pos + run.len ==> !#[trigger] bit_at(w, i));
                        lemma_run_in_blocks(*self, run);
                        assert(start_i + (run.pos + run.len) * 256 <= start_i + self.blocks * 256) by (nonlinear_arith)
                            requires run.pos + run.len <= self.blocks,
                        ;
                        lemma_placement_from_fit(*self, run, size as int, align as int, false);
                    }
                    match run.fits_right(self.start, size, align) {
                        Some(d) => {
                            best = Some(d);
                        },
                        None => {},
                    }
                },
            }
        }
        match best {
            Some(d) => {
                self.alloc_at(d, size, Ghost(align as int));
                Some(d)
            },
            None => None,
        }
    }

    /// Mark the blocks covered by `[d, d + size)` as allocated.
    fn alloc_at(&mut self, d: usize, size: usize, Ghost(align): Ghost<int>)
        requires
            old(self).wf(),
            1 <= size,
            placement_ok(*old(self), d as int, size as int, align),
        ensures
            final(self).wf(),
            alloc_effect_chunk(*old(self), *final(self), size as int, align, d as int),
    {
        let f = (d - self.start) / BLOCK_SIZE;
        let n = div_ceil_256(size);
        let ghost before = self.bitmap@;
        self.bitmap.set(f, n);
        proof {
            lemma_count_free_set_range(before, self.bitmap@, self.blocks as int, f as int, n as int);
        }
    }

    /// Mark the blocks covered by `[ptr, ptr + size)` as free again.
    pub fn dealloc(&mut self, ptr: usize, size: usize)
        requires
            old(self).wf(),
            1 <= size,
            old(self).owns(ptr as int, size as int),
        ensures
            final(self).wf(),
            dealloc_effect_chunk(*old(self), *final(self), ptr as int, size as int),
    {
        proof {
            vstd::arithmetic::div_mod::lemma_div_pos_is_pos(ptr - self.start, 256);
        }
        let pos = (ptr - self.start) / BLOCK_SIZE;
        let len = div_ceil_256(size);
        let ghost before = self.bitmap@;
        self.bitmap.unset(pos, len);
        proof {
            lemma_count_free_unset_range(before, self.bitmap@, self.blocks as int, pos as int, len as int);
        }
    }
}

/// A free run never reaches past the payload blocks: the sentinel bits
/// behind them are set, while every bit of a run is clear.
pub proof fn lemma_run_in_blocks(c: ChunkFooter, run: Chunk)
    requires
        c.wf(),
        1 <= run.len,
        run.pos + run.len <= total_bits(c.bitmap@),
        forall|i: int| run.pos <= i < run.pos + run.len ==> !#[trigger] bit_at(c.bitmap@, i),
    ensures
        run.pos + run.len <= c.blocks,
{
    if run.pos + run.len > c.blocks {
        let i = if run.pos as int >= c.blocks as int { run.pos as int } else { c.blocks as int };
        assert(run.pos <= i < run.pos + run.len);
        assert(c.blocks <= i < total_bits(c.bitmap@));
        assert(bit_at(c.bitmap@, i));
        assert(!bit_at(c.bitmap@, i));
    }
}

/// `size / 256` rounded up, computed without risking overflow.
pub fn div_ceil_256(size: usize) -> (r: usize)
    ensures
        r == blocks_for(size as int),
{
    proof {
        vstd::arithmetic::div_mod::lemma_fundamental_div_mod(size as int, 256);
        vstd::arithmetic::div_mod::lemma_mod_division_less_than_divisor(size as int, 256);
        let q = size as int / 256;
        let rem = size as int % 256;
        if rem == 0 {
            vstd::arithmetic::div_mod::lemma_fundamental_div_mod_converse(
                size as int + 255, 256, q, 255);
        } else {
            vstd::arithmetic::div_mod::lemma_fundamental_div_mod_converse(
                size as int + 255, 256, q + 1, rem - 1);
        }
        vstd::arithmetic::div_mod::lemma_div_pos_is_pos(size as int, 256);
    }
    if size % BLOCK_SIZE == 0 {
        size / BLOCK_SIZE
    } else {
        size / BLOCK_SIZE + 1
    }
}

} // verus!
