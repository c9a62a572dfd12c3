//! Block arithmetic: how byte ranges map onto 256-byte blocks.
//!
//! The central fact proved here: for every address `d` the placement policy
//! can produce, the blocks touched by `[d, d + size)` are exactly
//! `(d - start) / 256 .. (d - start) / 256 + ceil(size / 256)`, so setting
//! that many blocks at allocation and clearing the same count at
//! deallocation balance out.

use vstd::prelude::*;

verus! {

use vstd::arithmetic::div_mod::{
    lemma_fundamental_div_mod,
    lemma_fundamental_div_mod_converse,
    lemma_mod_division_less_than_divisor,
};
use crate::addr::{is_power_of_two, floor_to, ceil_to, lemma_floor_to, lemma_ceil_to, lemma_pow2_divides, lemma_mod_chain};

/// Blocks needed to cover `size` bytes.
pub open spec fn blocks_for(size: int) -> int {
    (size + 255) / 256
}

/// Block index holding the byte at offset `p - start`.
pub open spec fn first_block(start: int, p: int) -> int {
    (p - start) / 256
}

/// Dividing after adding a multiple of 256 shifts the quotient and keeps
/// the remainder.
pub proof fn lemma_div_add_multiple(f: int, y: int)
    requires
        0 <= f,
        0 <= y,
    ensures
        (256 * f + y) / 256 == f + y / 256,
        (256 * f + y) % 256 == y % 256,
{
    lemma_fundamental_div_mod(y, 256);
    lemma_mod_division_less_than_divisor(y, 256);
    assert(256 * f + y == (f + y / 256) * 256 + y % 256) by (nonlinear_arith)
        requires y == 256 * (y / 256) + y % 256,
    ;
    lemma_fundamental_div_mod_converse(256 * f + y, 256, f + y / 256, y % 256);
}

/// The difference of two multiples of `m` is a multiple of `m`.
pub proof fn lemma_mod_diff_zero(a: int, b: int, m: int)
    requires
        m >= 1,
        a % m == 0,
        b % m == 0,
    ensures
        (a - b) % m == 0,
        (a + b) % m == 0,
{
    lemma_fundamental_div_mod(a, m);
    lemma_fundamental_div_mod(b, m);
    assert(a - b == (a / m - b / m) * m + 0 && a + b == (a / m + b / m) * m + 0) by (nonlinear_arith)
        requires a == m * (a / m), b == m * (b / m),
    ;
    lemma_fundamental_div_mod_converse(a - b, m, a / m - b / m, 0);
    lemma_fundamental_div_mod_converse(a + b, m, a / m + b / m, 0);
}

/// A product with `m` is a multiple of `m`.
pub proof fn lemma_mul_mod_zero(x: int, m: int)
    requires
        m >= 1,
    ensures
        (x * m) % m == 0,
        (m * x) % m == 0,
{
    assert(x * m == x * m + 0 && m * x == x * m) by (nonlinear_arith);
    lemma_fundamental_div_mod_converse(x * m, m, x, 0);
}

/// Covering blocks of a byte count: `256 * blocks_for(x)` is the size
/// rounded up to whole blocks.
pub proof fn lemma_blocks_for(x: int)
    requires
        0 <= x,
    ensures
        x <= 256 * blocks_for(x),
        256 * blocks_for(x) < x + 256,
        0 <= blocks_for(x),
        256 * blocks_for(x) == ceil_to(x, 256),
{
    lemma_ceil_to(x, 256);
    lemma_fundamental_div_mod(x + 255, 256);
    lemma_mod_division_less_than_divisor(x + 255, 256);
    assert(256 * ((x + 255) / 256) == (x + 255) - (x + 255) % 256);
    vstd::arithmetic::div_mod::lemma_div_pos_is_pos(x + 255, 256);
}

/// Division by 256 is monotone.
pub proof fn lemma_div256_ordered(x: int, y: int)
    requires
        x <= y,
    ensures
        x / 256 <= y / 256,
{
    vstd::arithmetic::div_mod::lemma_div_is_ordered(x, y, 256);
}

/// The block span of a placement whose offset is block-aligned.
pub proof fn lemma_span_block_aligned(start: int, d: int, size: int)
    requires
        0 <= start <= d,
        (d - start) % 256 == 0,
        0 <= size,
    ensures
        first_block(start, d) + blocks_for(size) == blocks_for(d + size - start),
        256 * first_block(start, d) <= d - start,
{
    let dd = d - start;
    lemma_fundamental_div_mod(dd, 256);
    assert(dd == 256 * (dd / 256));
    lemma_div_add_multiple(dd / 256, size + 255);
    vstd::arithmetic::div_mod::lemma_div_pos_is_pos(dd, 256);
}

/// The block span of a rightmost placement with alignment below the block
/// size: `d = floor(run_end - size, align)` where `run_end - start` is a
/// multiple of 256 and `align` divides 256.  The padding dropped by the
/// floor and the offset of `d` inside its block together stay below one
/// block, so the covering block count is still `blocks_for(size)`.
pub proof fn lemma_span_floor_tail(start: int, run_end: int, size: int, align: int, d: int)
    requires
        0 <= start,
        start % 256 == 0,
        run_end % 256 == 0,
        1 <= size,
        is_power_of_two(align),
        align < 256,
        d == floor_to(run_end - size, align),
        start <= d,
    ensures
        first_block(start, d) + blocks_for(size) == blocks_for(d + size - start),
        256 * first_block(start, d) <= d - start,
{
    assert(is_power_of_two(256)) by {
        reveal_with_fuel(is_power_of_two, 10);
    }
    lemma_pow2_divides(align, 256);
    // d is a multiple of align, and so is start, hence so is d - start.
    lemma_floor_to(run_end - size, align);
    let m = (run_end - size) % align;
    lemma_mod_division_less_than_divisor(run_end - size, align);
    assert(d == run_end - size - m);
    lemma_mod_chain(start, 256, align);
    lemma_mod_diff_zero(d, start, align);
    let dd = d - start;
    // r: offset of d inside its block; a multiple of align.
    lemma_fundamental_div_mod(dd, 256);
    lemma_mod_division_less_than_divisor(dd, 256);
    let q = dd / 256;
    let r = dd % 256;
    vstd::arithmetic::div_mod::lemma_div_pos_is_pos(dd, 256);
    assert(r % align == 0) by {
        lemma_mul_mod_zero(q, 256);
        lemma_mod_chain(256 * q, 256, align);
        lemma_mod_diff_zero(dd, 256 * q, align);
    }
    // r + m < 256: r is a multiple of align below 256, so r <= 256 - align > 256 - align - m.
    assert(r + m < 256) by {
        if r + m >= 256 {
            lemma_fundamental_div_mod(r, align);
            assert(r == align * (r / align));
            assert(false) by (nonlinear_arith)
                requires
                    r == align * (r / align),
                    0 <= r < 256,
                    256int % align == 0,
                    0 <= m < align,
                    r + m >= 256,
                    align >= 1,
            {
                lemma_fundamental_div_mod(256, align);
            }
        }
    }
    // dd + size + m = run_end - start is a multiple of 256.
    lemma_mod_diff_zero(run_end, start, 256);
    assert(dd + size + m == run_end - start);
    // so r + size + m is a multiple of 256: call the quotient t.
    lemma_mul_mod_zero(q, 256);
    lemma_mod_diff_zero(run_end - start, 256 * q, 256);
    assert(r + size + m == (run_end - start) - 256 * q);
    lemma_fundamental_div_mod(r + size + m, 256);
    let t = (r + size + m) / 256;
    assert(r + size + m == 256 * t);
    vstd::arithmetic::div_mod::lemma_div_pos_is_pos(r + size + m, 256);
    // blocks_for(size) == t
    assert(size + 255 == t * 256 + (255 - r - m)) by (nonlinear_arith)
        requires r + size + m == 256 * t,
    ;
    lemma_fundamental_div_mod_converse(size + 255, 256, t, 255 - r - m);
    // blocks_for(r + size) == t
    assert(r + size + 255 == t * 256 + (255 - m)) by (nonlinear_arith)
        requires r + size + m == 256 * t,
    ;
    lemma_fundamental_div_mod_converse(r + size + 255, 256, t, 255 - m);
    // combine: blocks_for(dd + size) == q + t
    assert(dd + size + 255 == 256 * q + (r + size + 255));
    lemma_div_add_multiple(q, r + size + 255);
}

} // verus!
