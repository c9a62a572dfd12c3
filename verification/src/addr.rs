//! Alignment arithmetic on plain `usize` addresses.
//!
//! Every address the allocator hands out or stores is kept as a `usize`;
//! rounding an address up or down to an alignment boundary is the basic
//! operation under both the chunk geometry and the placement policy.

use vstd::prelude::*;

verus! {

use vstd::arithmetic::div_mod::{
    lemma_fundamental_div_mod,
    lemma_fundamental_div_mod_converse,
    lemma_mod_division_less_than_divisor,
};

/// `n` is a positive power of two.
pub open spec fn is_power_of_two(n: int) -> bool
    decreases n,
{
    if n <= 0 {
        false
    } else if n == 1 {
        true
    } else {
        n % 2 == 0 && is_power_of_two(n / 2)
    }
}

/// `n` rounded down to a multiple of `align` (exact integer arithmetic).
pub open spec fn floor_to(n: int, align: int) -> int
    recommends
        align >= 1,
{
    n - n % align
}

/// `n` rounded up to the next multiple of `align` (exact integer arithmetic).
pub open spec fn ceil_to(n: int, align: int) -> int
    recommends
        align >= 1,
{
    floor_to(n + align - 1, align)
}

/// Basic shape of `floor_to`: it lands on a multiple of `align`,
/// at or below `n`, and less than one stride away.
pub proof fn lemma_floor_to(n: int, align: int)
    requires
        align >= 1,
    ensures
        floor_to(n, align) % align == 0,
        floor_to(n, align) <= n,
        n < floor_to(n, align) + align,
        n % align == 0 ==> floor_to(n, align) == n,
{
    lemma_fundamental_div_mod(n, align);
    lemma_mod_division_less_than_divisor(n, align);
    assert(n - n % align == align * (n / align));
    assert(align * (n / align) == (n / align) * align) by (nonlinear_arith);
    lemma_fundamental_div_mod_converse(n - n % align, align, n / align, 0);
}

/// Basic shape of `ceil_to`: a multiple of `align`, at or above `n`,
/// and less than one stride away.
pub proof fn lemma_ceil_to(n: int, align: int)
    requires
        align >= 1,
    ensures
        ceil_to(n, align) % align == 0,
        n <= ceil_to(n, align),
        ceil_to(n, align) < n + align,
        n % align == 0 ==> ceil_to(n, align) == n,
        n % align != 0 ==> ceil_to(n, align) == n + align - n % align,
{
    lemma_floor_to(n + align - 1, align);
    lemma_fundamental_div_mod(n, align);
    lemma_mod_division_less_than_divisor(n, align);
    let q = n / align;
    let r = n % align;
    if r == 0 {
        assert(n + align - 1 == q * align + (align - 1)) by (nonlinear_arith)
            requires n == align * q + r, r == 0,
        ;
        lemma_fundamental_div_mod_converse(n + align - 1, align, q, align - 1);
    } else {
        assert(n + align - 1 == (q + 1) * align + (r - 1)) by (nonlinear_arith)
            requires n == align * q + r,
        ;
        lemma_fundamental_div_mod_converse(n + align - 1, align, q + 1, r - 1);
    }
}

/// A power of two divides every larger power of two.
pub proof fn lemma_pow2_divides(a: int, b: int)
    requires
        is_power_of_two(a),
        is_power_of_two(b),
        a <= b,
    ensures
        b % a == 0,
    decreases a,
{
    if a == 1 {
        assert(b % 1 == 0);
    } else if b == a {
        vstd::arithmetic::div_mod::lemma_mod_self_0(a);
    } else {
        assert(b > a && b != 1);
        lemma_pow2_divides(a / 2, b / 2);
        let ha = a / 2;
        let hb = b / 2;
        lemma_fundamental_div_mod(hb, ha);
        lemma_fundamental_div_mod(a, 2);
        lemma_fundamental_div_mod(b, 2);
        assert(b == a * (hb / ha)) by (nonlinear_arith)
            requires
                b == 2 * hb,
                a == 2 * ha,
                hb == ha * (hb / ha),
        ;
        assert(b == (hb / ha) * a + 0) by (nonlinear_arith)
            requires b == a * (hb / ha),
        ;
        lemma_fundamental_div_mod_converse(b, a, hb / ha, 0);
    }
}

/// If `align` divides `m` and `x` is a multiple of `m`, then `x` is a
/// multiple of `align`.
pub proof fn lemma_mod_chain(x: int, m: int, align: int)
    requires
        m >= 1,
        align >= 1,
        x % m == 0,
        m % align == 0,
    ensures
        x % align == 0,
{
    lemma_fundamental_div_mod(x, m);
    lemma_fundamental_div_mod(m, align);
    assert(x == ((m / align) * (x / m)) * align + 0) by (nonlinear_arith)
        requires
            x == m * (x / m),
            m == align * (m / align),
    ;
    lemma_fundamental_div_mod_converse(x, align, (m / align) * (x / m), 0);
}

/// `n` rounded up to a multiple of `align`.
///
/// `align` must be a positive power of two, and the rounded value must
/// still fit in a `usize`.
pub fn ceil_addr(n: usize, align: usize) -> (r: usize)
    requires
        is_power_of_two(align as int),
        ceil_to(n as int, align as int) <= usize::MAX,
    ensures
        r == ceil_to(n as int, align as int),
{
    proof {
        lemma_ceil_to(n as int, align as int);
    }
    let rem = n % align;
    if rem == 0 {
        n
    } else {
        n + (align - rem)
    }
}

/// `n` rounded down to a multiple of `align`; `align` must be a positive
/// power of two.
pub fn floor_addr(n: usize, align: usize) -> (r: usize)
    requires
        is_power_of_two(align as int),
    ensures
        r == floor_to(n as int, align as int),
{
    proof {
        lemma_floor_to(n as int, align as int);
        vstd::arithmetic::div_mod::lemma_mod_decreases(n as nat, align as nat);
    }
    n - n % align
}

/// Distance in bytes between two addresses, the lower one first.
pub fn bytes_between(start: usize, end: usize) -> (r: usize)
    requires
        start <= end,
    ensures
        r == end - start,
{
    end - start
}

} // verus!
