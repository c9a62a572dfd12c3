//! Decoding a bitmap into its free runs.
//!
//! `ChunkDecoder` walks a bitmap from low to high bit positions and emits
//! each maximal run of clear bits as a `Chunk { pos, len }` record, in
//! strictly increasing `pos` and with `len >= 1`.  The union of the emitted
//! runs is exactly the set of clear bits.

use vstd::prelude::*;

verus! {

use crate::bitmap::{bit_at, word_bit, total_bits, lemma_const_word_bits, lemma_bit_index};
use vstd::arithmetic::div_mod::lemma_fundamental_div_mod_converse;

/// A free run: `len` consecutive free blocks starting at block `pos`.
#[derive(Clone, Copy, Debug)]
pub struct Chunk {
    pub pos: usize,
    pub len: usize,
}

/// First position at or after `c` whose bit is clear (or the total count).
pub open spec fn skip_set(words: Seq<u64>, c: int) -> int
    recommends
        0 <= c,
    decreases total_bits(words) - c,
{
    if c >= total_bits(words) || c < 0 {
        total_bits(words)
    } else if !bit_at(words, c) {
        c
    } else {
        skip_set(words, c + 1)
    }
}

/// First position at or after `c` whose bit is set (or the total count).
pub open spec fn skip_clear(words: Seq<u64>, c: int) -> int
    recommends
        0 <= c,
    decreases total_bits(words) - c,
{
    if c >= total_bits(words) || c < 0 {
        total_bits(words)
    } else if bit_at(words, c) {
        c
    } else {
        skip_clear(words, c + 1)
    }
}

/// The free runs of the bit range `[c, total)`, in order.
pub open spec fn runs_from(words: Seq<u64>, c: int) -> Seq<Chunk>
    recommends
        0 <= c,
        total_bits(words) <= usize::MAX,
    decreases total_bits(words) - c,
        via runs_from_decreases
{
    let s = skip_set(words, c);
    if s >= total_bits(words) || c < 0 {
        Seq::empty()
    } else {
        let e = skip_clear(words, s);
        seq![Chunk { pos: s as usize, len: (e - s) as usize }] + runs_from(words, e)
    }
}

#[via_fn]
proof fn runs_from_decreases(words: Seq<u64>, c: int) {
    if 0 <= c <= total_bits(words) {
        lemma_skip_set(words, c);
        let s = skip_set(words, c);
        if s < total_bits(words) {
            lemma_skip_clear(words, s);
        }
    }
}

/// All free runs of a bitmap.
pub open spec fn runs_of(words: Seq<u64>) -> Seq<Chunk> {
    runs_from(words, 0)
}

/// Shape of `skip_set`: it stays within `[c, total]`, the skipped bits are
/// all set, and it stops on a clear bit if it stops early.
pub proof fn lemma_skip_set(words: Seq<u64>, c: int)
    requires
        0 <= c <= total_bits(words),
    ensures
        c <= skip_set(words, c) <= total_bits(words),
        forall|i: int| c <= i < skip_set(words, c) ==> #[trigger] bit_at(words, i),
        skip_set(words, c) < total_bits(words) ==> !bit_at(words, skip_set(words, c)),
    decreases total_bits(words) - c,
{
    if c < total_bits(words) && bit_at(words, c) {
        lemma_skip_set(words, c + 1);
    }
}

/// Shape of `skip_clear`, dual to `lemma_skip_set`.
pub proof fn lemma_skip_clear(words: Seq<u64>, c: int)
    requires
        0 <= c <= total_bits(words),
    ensures
        c <= skip_clear(words, c) <= total_bits(words),
        forall|i: int| c <= i < skip_clear(words, c) ==> !#[trigger] bit_at(words, i),
        skip_clear(words, c) < total_bits(words) ==> bit_at(words, skip_clear(words, c)),
    decreases total_bits(words) - c,
{
    if c < total_bits(words) && !bit_at(words, c) {
        lemma_skip_clear(words, c + 1);
    }
}

/// Every run lies in `[c, total)`, covers only clear bits, has `len >= 1`,
/// and every clear bit at or after `c` is covered by some run.
pub proof fn lemma_runs_from(words: Seq<u64>, c: int)
    requires
        0 <= c <= total_bits(words),
        total_bits(words) <= usize::MAX,
    ensures
        forall|k: int| 0 <= k < runs_from(words, c).len() ==> {
            let r = #[trigger] runs_from(words, c)[k];
            &&& c <= r.pos
            &&& 1 <= r.len
            &&& r.pos + r.len <= total_bits(words)
            &&& forall|i: int| r.pos <= i < r.pos + r.len ==> !#[trigger] bit_at(words, i)
        },
        forall|i: int| c <= i < total_bits(words) && !#[trigger] bit_at(words, i) ==>
            exists|k: int| 0 <= k < runs_from(words, c).len()
                && (#[trigger] runs_from(words, c)[k]).pos <= i
                && i < runs_from(words, c)[k].pos + runs_from(words, c)[k].len,
        runs_from(words, c).len() > 0 ==> runs_from(words, c)[0].pos == skip_set(words, c),
        forall|k: int| 0 <= k < runs_from(words, c).len() - 1 ==>
            (#[trigger] runs_from(words, c)[k]).pos + runs_from(words, c)[k].len
                < runs_from(words, c)[k + 1].pos,
    decreases total_bits(words) - c,
{
    let s = skip_set(words, c);
    lemma_skip_set(words, c);
    if s < total_bits(words) {
        let e = skip_clear(words, s);
        lemma_skip_clear(words, s);
        lemma_runs_from(words, e);
        let rs = runs_from(words, c);
        let rest = runs_from(words, e);
        let head = Chunk { pos: s as usize, len: (e - s) as usize };
        assert(rs == seq![head] + rest);
        // the runs come in strictly increasing positions: the bit at `e`
        // is set, so the next run starts past it
        if rest.len() > 0 {
            assert(e < total_bits(words));
            assert(bit_at(words, e));
            lemma_skip_set(words, e + 1);
            assert(skip_set(words, e) == skip_set(words, e + 1));
            assert(rs[1].pos == skip_set(words, e) >= e + 1);
        }
        assert forall|k: int| 0 <= k < rs.len() - 1 implies
            (#[trigger] rs[k]).pos + rs[k].len < rs[k + 1].pos by {
            if k > 0 {
                assert(rs[k] == rest[k - 1] && rs[k + 1] == rest[k]);
            }
        }
        assert forall|i: int| c <= i < total_bits(words) && !#[trigger] bit_at(words, i) implies
            exists|k: int| 0 <= k < rs.len()
                && (#[trigger] rs[k]).pos <= i && i < rs[k].pos + rs[k].len by {
            if i < e {
                assert(s <= i);
                assert(rs[0].pos <= i < rs[0].pos + rs[0].len);
            } else {
                let k0 = choose|k0: int| 0 <= k0 < runs_from(words, e).len()
                    && (#[trigger] runs_from(words, e)[k0]).pos <= i
                    && i < runs_from(words, e)[k0].pos + runs_from(words, e)[k0].len;
                assert(rs[k0 + 1].pos <= i < rs[k0 + 1].pos + rs[k0 + 1].len);
            }
        }
    }
}

/// A stretch of set bits moves `skip_set` past it unchanged.
pub proof fn lemma_skip_set_bulk(words: Seq<u64>, c: int, k: int)
    requires
        0 <= c,
        0 <= k,
        c + k <= total_bits(words),
        forall|i: int| c <= i < c + k ==> #[trigger] bit_at(words, i),
    ensures
        skip_set(words, c) == skip_set(words, c + k),
    decreases k,
{
    if k > 0 {
        lemma_skip_set_bulk(words, c + 1, k - 1);
    }
}

/// A stretch of clear bits moves `skip_clear` past it unchanged.
pub proof fn lemma_skip_clear_bulk(words: Seq<u64>, c: int, k: int)
    requires
        0 <= c,
        0 <= k,
        c + k <= total_bits(words),
        forall|i: int| c <= i < c + k ==> !#[trigger] bit_at(words, i),
    ensures
        skip_clear(words, c) == skip_clear(words, c + k),
    decreases k,
{
    if k > 0 {
        lemma_skip_clear_bulk(words, c + 1, k - 1);
    }
}

/// The bits of one whole word: an all-ones word holds 64 set bits, a zero
/// word 64 clear bits.
pub proof fn lemma_whole_word(words: Seq<u64>, q: int)
    requires
        0 <= q < words.len(),
    ensures
        words[q] == u64::MAX ==> forall|i: int| 64 * q <= i < 64 * q + 64 ==> #[trigger] bit_at(words, i),
        words[q] == 0u64 ==> forall|i: int| 64 * q <= i < 64 * q + 64 ==> !#[trigger] bit_at(words, i),
{
    lemma_const_word_bits();
    assert forall|i: int| 64 * q <= i < 64 * q + 64 implies
        bit_at(words, i) == word_bit(words[q], (i - 64 * q) as u64) by {
        lemma_fundamental_div_mod_converse(i, 64, q, i - 64 * q);
    }
}

/// A bit position is covered by one of the runs.
pub open spec fn covered(runs: Seq<Chunk>, i: int) -> bool {
    exists|k: int| 0 <= k < runs.len() && (#[trigger] runs[k]).pos <= i && i < runs[k].pos + runs[k].len
}

/// Decoding then re-setting every run complements the bitmap: a bit is
/// covered by a decoded run exactly when it was clear.
pub proof fn lemma_runs_complement(words: Seq<u64>)
    requires
        total_bits(words) <= usize::MAX,
    ensures
        forall|i: int| 0 <= i < total_bits(words) ==>
            (covered(runs_of(words), i) <==> !#[trigger] bit_at(words, i)),
{
    lemma_runs_from(words, 0);
    assert forall|i: int| 0 <= i < total_bits(words) implies
        (covered(runs_of(words), i) <==> !bit_at(words, i)) by {
        if covered(runs_of(words), i) {
            let k = choose|k: int| 0 <= k < runs_of(words).len()
                && (#[trigger] runs_of(words)[k]).pos <= i && i < runs_of(words)[k].pos + runs_of(words)[k].len;
            assert(!bit_at(words, i));
        }
    }
}

/// The run decoder.  It keeps its own copy of the bitmap words and a
/// cursor over bit positions; everything before the cursor has been
/// consumed.
pub struct ChunkDecoder {
    pub words: Vec<u64>,
    pub cursor: usize,
}

impl ChunkDecoder {
    /// The words being decoded.
    pub open spec fn spec_words(&self) -> Seq<u64> {
        self.words@
    }

    /// Current bit position.
    pub open spec fn spec_cursor(&self) -> int {
        self.cursor as int
    }

    /// The decoder can address every bit position in a `usize`.
    pub open spec fn inv(&self) -> bool {
        &&& self.words@.len() <= usize::MAX / 64
        &&& self.cursor <= 64 * self.words@.len()
    }

    /// Start decoding a word array from bit position zero.
    pub fn new(bits: &Vec<u64>) -> (r: ChunkDecoder)
        requires
            bits@.len() <= usize::MAX / 64,
        ensures
            r.spec_words() == bits@,
            r.spec_cursor() == 0,
            r.inv(),
    {
        let mut words: Vec<u64> = Vec::new();
        let mut k: usize = 0;
        while k < bits.len()
            invariant
                k <= bits@.len(),
                words@ == bits@.take(k as int),
            decreases bits@.len() - k,
        {
            words.push(bits[k]);
            proof {
                assert(words@ =~= bits@.take(k + 1));
            }
            k += 1;
        }
        proof {
            assert(bits@.take(k as int) =~= bits@);
        }
        ChunkDecoder { words, cursor: 0 }
    }

    /// Emit the next free run, or `None` when only set bits remain.
    pub fn next(&mut self) -> (r: Option<Chunk>)
        requires
            old(self).inv(),
        ensures
            final(self).inv(),
            final(self).spec_words() == old(self).spec_words(),
            old(self).spec_cursor() <= final(self).spec_cursor(),
            match r {
                None => {
                    &&& runs_from(old(self).spec_words(), old(self).spec_cursor()).len() == 0
                    &&& final(self).spec_cursor() == total_bits(old(self).spec_words())
                },
                Some(run) => {
                    &&& runs_from(old(self).spec_words(), old(self).spec_cursor())
                        == seq![run] + runs_from(final(self).spec_words(), final(self).spec_cursor())
                    &&& run.pos + run.len == final(self).spec_cursor()
                    &&& 1 <= run.len
                    &&& old(self).spec_cursor() <= run.pos
                    &&& old(self).spec_cursor() < final(self).spec_cursor()
                },
            },
    {
        let ghost w = self.words@;
        let ghost c0 = self.cursor as int;
        let total: usize = self.words.len() * 64;
        proof {
            lemma_skip_set(w, c0);
        }
        // skip the set bits, whole words at a time where possible
        loop
            invariant
                self.words@ == w,
                total == 64 * w.len(),
                c0 <= self.cursor <= total,
                skip_set(w, c0) == skip_set(w, self.cursor as int),
            ensures
                self.words@ == w,
                self.cursor == skip_set(w, c0),
            decreases total - self.cursor,
        {
            if self.cursor == total {
                break;
            }
            proof {
                lemma_bit_index(self.cursor as int);
            }
            if self.cursor % 64 == 0 {
                let word = self.words[self.cursor / 64];
                if word == u64::MAX {
                    proof {
                        lemma_whole_word(w, self.cursor as int / 64);
                        lemma_skip_set_bulk(w, self.cursor as int, 64);
                    }
                    self.cursor += 64;
                    continue;
                }
            }
            if bit_get(&self.words, self.cursor) {
                self.cursor += 1;
            } else {
                break;
            }
        }
        if self.cursor == total {
            return None;
        }
        let start = self.cursor;
        proof {
            lemma_skip_clear(w, start as int);
        }
        // count the clear bits of the run, whole words at a time
        loop
            invariant
                self.words@ == w,
                total == 64 * w.len(),
                start <= self.cursor <= total,
                skip_clear(w, start as int) == skip_clear(w, self.cursor as int),
            ensures
                self.words@ == w,
                start <= self.cursor,
                self.cursor == skip_clear(w, start as int),
            decreases total - self.cursor,
        {
            if self.cursor == total {
                break;
            }
            proof {
                lemma_bit_index(self.cursor as int);
            }
            if self.cursor % 64 == 0 {
                let word = self.words[self.cursor / 64];
                if word == 0 {
                    proof {
                        lemma_whole_word(w, self.cursor as int / 64);
                        lemma_skip_clear_bulk(w, self.cursor as int, 64);
                    }
                    self.cursor += 64;
                    continue;
                }
            }
            if !bit_get(&self.words, self.cursor) {
                self.cursor += 1;
            } else {
                break;
            }
        }
        Some(Chunk { pos: start, len: self.cursor - start })
    }
}

/// Read one bit of a word array.
fn bit_get(words: &Vec<u64>, i: usize) -> (b: bool)
    requires
        i < 64 * words@.len(),
    ensures
        b == bit_at(words@, i as int),
{
    proof {
        crate::bitmap::lemma_bit_index(i as int);
    }
    let w = words[i / 64];
    let j: u64 = (i % 64) as u64;
    let b = (w >> ((63 - j) as u64)) & 1 == 1;
    proof {
        assert(((w >> ((63 - j) as u64)) & 1 == 1) == word_bit(w, j)) by (bit_vector)
            requires j < 64,
        ;
    }
    b
}

} // verus!
