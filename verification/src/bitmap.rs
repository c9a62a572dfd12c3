//! A packed bit-array over fixed-size blocks.
//!
//! One bit per 256-byte block, most significant bit first within each
//! 64-bit word.  A set bit means the block is unavailable (allocated or a
//! sentinel); a clear bit means the block is free.  `set` and `unset`
//! update whole words at a time: a masked store on a partial leading word,
//! full-word stores in the middle, and a masked store on the tail.

use vstd::prelude::*;

verus! {

use vstd::arithmetic::div_mod::{
    lemma_fundamental_div_mod,
    lemma_fundamental_div_mod_converse,
    lemma_mod_division_less_than_divisor,
};
use crate::chunk_decoder::ChunkDecoder;

/// Bit `j` (counting from the most significant end) of word `w`.
pub open spec fn word_bit(w: u64, j: u64) -> bool
    recommends
        j < 64,
{
    (w << j) >> 63u64 == 1u64
}

/// Number of bits a word array holds.
pub open spec fn total_bits(words: Seq<u64>) -> int {
    64 * words.len() as int
}

/// Bit `i` of a whole bit-array laid out over 64-bit words.
pub open spec fn bit_at(words: Seq<u64>, i: int) -> bool
    recommends
        0 <= i < 64 * words.len(),
{
    word_bit(words[i / 64], (i % 64) as u64)
}

/// How many of the first `n` bits are clear (free blocks).
pub open spec fn count_free(words: Seq<u64>, n: int) -> int
    recommends
        0 <= n <= 64 * words.len(),
    decreases n,
{
    if n <= 0 {
        0
    } else {
        count_free(words, n - 1) + if bit_at(words, n - 1) { 0int } else { 1int }
    }
}

/// The zero word has no set bits; the all-ones word has every bit set.
pub proof fn lemma_const_word_bits()
    by (bit_vector)
    ensures
        forall|j: u64| j < 64 ==> !#[trigger] word_bit(0u64, j),
        forall|j: u64| j < 64 ==> #[trigger] word_bit(u64::MAX, j),
{
}

/// Or-ing a mask sets exactly the mask's bits.
pub proof fn lemma_word_or(w: u64, m: u64)
    by (bit_vector)
    ensures
        forall|j: u64| j < 64 ==> #[trigger] word_bit(w | m, j) == (word_bit(w, j) || word_bit(m, j)),
{
}

/// And-ing the complement of a mask clears exactly the mask's bits.
pub proof fn lemma_word_and_not(w: u64, m: u64)
    by (bit_vector)
    ensures
        forall|j: u64| j < 64 ==> #[trigger] word_bit(w & !m, j) == (word_bit(w, j) && !word_bit(m, j)),
{
}

/// Two prefixes of bit-arrays that agree bitwise hold the same number of
/// free bits.
pub proof fn lemma_count_free_agree(a: Seq<u64>, b: Seq<u64>, n: int)
    requires
        forall|i: int| 0 <= i < n ==> bit_at(a, i) == bit_at(b, i),
    ensures
        count_free(a, n) == count_free(b, n),
    decreases n,
{
    if n > 0 {
        lemma_count_free_agree(a, b, n - 1);
    }
}

/// Setting `len` previously clear bits removes exactly `len` free bits
/// from any prefix that covers the range.
pub proof fn lemma_count_free_set_range(a: Seq<u64>, b: Seq<u64>, n: int, pos: int, len: int)
    requires
        0 <= pos,
        0 <= len,
        pos + len <= n,
        forall|i: int| 0 <= i < n ==> #[trigger] bit_at(b, i) == if pos <= i < pos + len { true } else { bit_at(a, i) },
        forall|i: int| pos <= i < pos + len ==> !#[trigger] bit_at(a, i),
    ensures
        count_free(b, n) == count_free(a, n) - len,
    decreases n,
{
    if n > 0 {
        if len == 0 {
            lemma_count_free_agree(a, b, n);
        } else if pos + len <= n - 1 {
            lemma_count_free_set_range(a, b, n - 1, pos, len);
        } else {
            lemma_count_free_set_range(a, b, n - 1, pos, len - 1);
        }
    }
}

/// Clearing `len` previously set bits adds exactly `len` free bits to any
/// prefix that covers the range.
pub proof fn lemma_count_free_unset_range(a: Seq<u64>, b: Seq<u64>, n: int, pos: int, len: int)
    requires
        0 <= pos,
        0 <= len,
        pos + len <= n,
        forall|i: int| 0 <= i < n ==> #[trigger] bit_at(b, i) == if pos <= i < pos + len { false } else { bit_at(a, i) },
        forall|i: int| pos <= i < pos + len ==> #[trigger] bit_at(a, i),
    ensures
        count_free(b, n) == count_free(a, n) + len,
    decreases n,
{
    if n > 0 {
        if len == 0 {
            lemma_count_free_agree(a, b, n);
        } else if pos + len <= n - 1 {
            lemma_count_free_unset_range(a, b, n - 1, pos, len);
        } else {
            lemma_count_free_unset_range(a, b, n - 1, pos, len - 1);
        }
    }
}

/// A prefix never holds more free bits than its length, and a prefix of
/// clear bits holds exactly its length.
pub proof fn lemma_count_free_bounds(words: Seq<u64>, n: int)
    ensures
        0 <= count_free(words, n),
        count_free(words, n) <= n || n < 0,
        (forall|i: int| 0 <= i < n ==> !#[trigger] bit_at(words, i)) ==> count_free(words, n) == (if n >= 0 { n } else { 0 }),
    decreases n,
{
    if n > 0 {
        lemma_count_free_bounds(words, n - 1);
    }
}

/// Bit `i` lives in word `i / 64`; updating one word leaves every bit of
/// the other words unchanged.
pub proof fn lemma_bit_at_update(a: Seq<u64>, w: u64, wi: int, i: int)
    requires
        0 <= wi < a.len(),
        0 <= i < 64 * a.len(),
    ensures
        64 * wi <= i < 64 * wi + 64 ==> bit_at(a.update(wi, w), i) == word_bit(w, (i - 64 * wi) as u64),
        !(64 * wi <= i < 64 * wi + 64) ==> bit_at(a.update(wi, w), i) == bit_at(a, i),
{
    lemma_bit_index(i);
    if 64 * wi <= i < 64 * wi + 64 {
        lemma_fundamental_div_mod_converse(i, 64, wi, i - 64 * wi);
    } else {
        assert(i / 64 != wi) by {
            if i / 64 == wi {
                lemma_fundamental_div_mod(i, 64);
                lemma_mod_division_less_than_divisor(i, 64);
            }
        }
    }
}

/// Word and offset of bit `i`: `i / 64` is within range and recombines.
pub proof fn lemma_bit_index(i: int)
    requires
        0 <= i,
    ensures
        0 <= i / 64,
        64 * (i / 64) <= i < 64 * (i / 64) + 64,
        i % 64 == i - 64 * (i / 64),
{
    lemma_fundamental_div_mod(i, 64);
    lemma_mod_division_less_than_divisor(i, 64);
    vstd::arithmetic::div_mod::lemma_div_pos_is_pos(i, 64);
}

/// The packed bit-array.  It owns its backing words.
pub struct Bitmap {
    pub bits: Vec<u64>,
}

impl View for Bitmap {
    type V = Seq<u64>;

    open spec fn view(&self) -> Seq<u64> {
        self.bits@
    }
}

impl Bitmap {
    /// Wrap a word array as a bitmap.
    pub fn new(bits: Vec<u64>) -> (r: Bitmap)
        ensures
            r@ == bits@,
    {
        Bitmap { bits }
    }

    /// Zero all words: every bit becomes clear.
    pub fn clear(&mut self)
        ensures
            final(self)@.len() == old(self)@.len(),
            forall|i: int| 0 <= i < 64 * final(self)@.len() ==> !#[trigger] bit_at(final(self)@, i),
    {
        let n = self.bits.len();
        let mut k: usize = 0;
        while k < n
            invariant
                n == self@.len(),
                k <= n,
                forall|w: int| 0 <= w < k ==> self@[w] == 0u64,
            decreases n - k,
        {
            self.bits.set(k, 0u64);
            k += 1;
        }
        proof {
            lemma_const_word_bits();
            assert forall|i: int| 0 <= i < 64 * self@.len() implies !bit_at(self@, i) by {
                lemma_bit_index(i);
            }
        }
    }

    /// An iterator over the maximal runs of clear bits.
    pub fn decode(&self) -> (r: ChunkDecoder)
        requires
            self@.len() <= usize::MAX / 64,
        ensures
            r.spec_words() == self@,
            r.spec_cursor() == 0,
    {
        ChunkDecoder::new(&self.bits)
    }

    /// Set bits `[pos, pos + len)`.
    pub fn set(&mut self, pos: usize, len: usize)
        requires
            pos + len <= 64 * old(self)@.len(),
        ensures
            final(self)@.len() == old(self)@.len(),
            forall|i: int| 0 <= i < 64 * old(self)@.len() ==>
                #[trigger] bit_at(final(self)@, i) == if pos <= i < pos + len { true } else { bit_at(old(self)@, i) },
    {
        self.apply(pos, len, true)
    }

    /// Clear bits `[pos, pos + len)`.
    pub fn unset(&mut self, pos: usize, len: usize)
        requires
            pos + len <= 64 * old(self)@.len(),
        ensures
            final(self)@.len() == old(self)@.len(),
            forall|i: int| 0 <= i < 64 * old(self)@.len() ==>
                #[trigger] bit_at(final(self)@, i) == if pos <= i < pos + len { false } else { bit_at(old(self)@, i) },
    {
        self.apply(pos, len, false)
    }

    /// Write `value` into bits `[pos, pos + len)`, one word stride at a time.
    fn apply(&mut self, pos: usize, len: usize, value: bool)
        requires
            pos + len <= 64 * old(self)@.len(),
        ensures
            final(self)@.len() == old(self)@.len(),
            forall|i: int| 0 <= i < 64 * old(self)@.len() ==>
                #[trigger] bit_at(final(self)@, i) == if pos <= i < pos + len { value } else { bit_at(old(self)@, i) },
    {
        let ghost orig = self@;
        let mut i: usize = pos / 64;
        let l: usize = pos % 64;
        let mut remaining: usize = len;
        proof {
            lemma_bit_index(pos as int);
        }
        if l != 0 {
            let n = if remaining < 64 - l { remaining } else { 64 - l };
            self.update_word(i, l, n, value, Ghost(orig), Ghost(pos as int), Ghost(len as int));
            remaining -= n;
            i += 1;
        }
        while remaining > 0
            invariant
                pos + len <= 64 * orig.len(),
                self@.len() == orig.len(),
                remaining <= len,
                remaining > 0 ==> pos + (len - remaining) == 64 * i,
                forall|k: int| 0 <= k < 64 * orig.len() ==>
                    #[trigger] bit_at(self@, k) == if pos <= k < pos + (len - remaining) { value } else { bit_at(orig, k) },
            decreases remaining,
        {
            proof {
                lemma_bit_index((pos + (len - remaining)) as int);
                assert(i < orig.len()) by {
                    lemma_bit_index((pos + len - 1) as int);
                }
            }
            if remaining >= 64 {
                let ghost before = self@;
                let w = if value { u64::MAX } else { 0u64 };
                self.bits.set(i, w);
                proof {
                    lemma_const_word_bits();
                    assert forall|k: int| 0 <= k < 64 * orig.len() implies
                        #[trigger] bit_at(self@, k) == if pos <= k < pos + (len - (remaining - 64)) { value } else { bit_at(orig, k) } by {
                        lemma_bit_at_update(before, w, i as int, k);
                    }
                }
                remaining -= 64;
                i += 1;
            } else {
                self.update_word(i, 0, remaining, value, Ghost(orig), Ghost(pos as int), Ghost(len as int));
                remaining = 0;
            }
        }
    }

    /// Masked update of word `i`: write `value` into the `n` bits starting
    /// at offset `l` of that word, given those bits lie inside `[pos, pos+len)`
    /// and the bits of `[pos, pos+len)` before them are already written.
    fn update_word(&mut self, i: usize, l: usize, n: usize, value: bool,
                   Ghost(orig): Ghost<Seq<u64>>, Ghost(pos): Ghost<int>, Ghost(len): Ghost<int>)
        requires
            old(self)@.len() == orig.len(),
            l < 64,
            l + n <= 64,
            pos + len <= 64 * orig.len(),
            64 * i + l + n <= pos + len,
            pos <= 64 * i + l,
            forall|k: int| 0 <= k < 64 * orig.len() ==>
                #[trigger] bit_at(old(self)@, k) == if pos <= k < 64 * i + l { value } else { bit_at(orig, k) },
        ensures
            final(self)@.len() == orig.len(),
            forall|k: int| 0 <= k < 64 * orig.len() ==>
                #[trigger] bit_at(final(self)@, k) == if pos <= k < 64 * i + l + n { value } else { bit_at(orig, k) },
    {
        proof {
            lemma_bit_index(64 * i + l);
        }
        if n == 0 {
            return;
        }
        proof {
            assert(i < orig.len()) by (nonlinear_arith)
                requires
                    64 * i + l + n <= 64 * orig.len(),
                    n >= 1,
                    l >= 0,
            ;
        }
        let m = mask_range(l, n);
        let ghost before = self@;
        let w0 = self.bits[i];
        let w = if value { w0 | m } else { w0 & !m };
        self.bits.set(i, w);
        proof {
            if value {
                lemma_word_or(w0, m);
            } else {
                lemma_word_and_not(w0, m);
            }
            assert forall|k: int| 0 <= k < 64 * orig.len() implies
                #[trigger] bit_at(self@, k) == if pos <= k < 64 * i + l + n { value } else { bit_at(orig, k) } by {
                lemma_bit_at_update(before, w, i as int, k);
                if 64 * i <= k < 64 * i + 64 {
                    assert(bit_at(before, k) == word_bit(w0, (k - 64 * i) as u64)) by {
                        lemma_fundamental_div_mod_converse(k, 64, i as int, k - 64 * i);
                    }
                }
            }
        }
    }
}

/// A word whose bits `[l, l + n)` (most significant bit first) are set and
/// whose other bits are clear.
fn mask_range(l: usize, n: usize) -> (r: u64)
    requires
        l < 64,
        1 <= n,
        l + n <= 64,
    ensures
        forall|j: u64| j < 64 ==> #[trigger] word_bit(r, j) == (l <= j && j < l + n),
{
    let lv: u64 = l as u64;
    let nv: u64 = n as u64;
    let full: u64 = if n == 64 { u64::MAX } else { !(u64::MAX >> nv) };
    let r = full >> lv;
    proof {
        assert(forall|j: u64| j < 64 ==> #[trigger] word_bit(r, j) == (lv <= j && j < lv + nv)) by (bit_vector)
            requires
                lv < 64,
                1 <= nv,
                lv + nv <= 64,
                full == (if nv == 64 { u64::MAX } else { !(u64::MAX >> nv) }),
                r == full >> lv,
        ;
    }
    r
}

/// Round trip on the bitmap: writing a clear range and clearing it again
/// restores every bit.  (Starting from a range that already holds set bits
/// this fails: `set` is idempotent, so `unset` would clear those too.)
pub proof fn lemma_set_unset_roundtrip(a: Seq<u64>, b: Seq<u64>, c: Seq<u64>, pos: int, len: int)
    requires
        a.len() == b.len() == c.len(),
        0 <= pos,
        0 <= len,
        pos + len <= 64 * a.len(),
        forall|i: int| pos <= i < pos + len ==> !#[trigger] bit_at(a, i),
        forall|i: int| 0 <= i < 64 * a.len() ==>
            #[trigger] bit_at(b, i) == if pos <= i < pos + len { true } else { bit_at(a, i) },
        forall|i: int| 0 <= i < 64 * a.len() ==>
            #[trigger] bit_at(c, i) == if pos <= i < pos + len { false } else { bit_at(b, i) },
    ensures
        forall|i: int| 0 <= i < 64 * a.len() ==> #[trigger] bit_at(c, i) == bit_at(a, i),
{
}

} // verus!
