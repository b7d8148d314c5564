//! Table storage: one flat array of 32-bit words per pawn-count bucket, each
//! word packing the 30 card-arrangement verdicts of one position.  Words only
//! ever gain bits, so every update keeps the previous value as a subset.

use vstd::prelude::*;
use crate::bits::{pop, pop_below, bit};
use crate::block::{BLOCK_MASK, RESOLVED_BIT};
use crate::comb::{Comb, trinomial, spec_rank, lemma_trinomial_fits};
use crate::model::{PawnCount, TeamLayout};
use crate::iter::lemma_layout_rank;

verus! {

/// A stored verdict word carries arrangement bits only: nothing above the
/// 30-bit field, and in particular nothing above the resolved bit.
pub open spec fn word_ok(w: u32) -> bool {
    w & !(BLOCK_MASK | RESOLVED_BIT) == 0 && w & RESOLVED_BIT == 0
}

/// The verdict table of one pawn-count bucket: `num_chunks` layouts, each
/// owning a zero-padded chunk of `chunk_size` king-slot words.
pub struct Table {
    pub counts: PawnCount,
    pub chunk_size: usize,
    pub num_chunks: u64,
    pub words: Vec<u32>,
}

impl Table {
    pub open spec fn wf(&self) -> bool {
        &&& self.counts.count0 <= 4
        &&& self.counts.count1 <= 4
        &&& self.chunk_size == (self.counts.count0 + 1) * (self.counts.count1 + 1)
        &&& self.num_chunks == trinomial(25, self.counts.count0 + 1, self.counts.count1 + 1)
        &&& self.words@.len() == self.chunk_size * self.num_chunks
        &&& forall|i: int| 0 <= i < self.words@.len() ==> word_ok(#[trigger] self.words[i])
    }

    /// The word count is bounded by the largest bucket's size.
    pub proof fn lemma_len_bound(&self)
        requires
            self.wf(),
        ensures
            self.words@.len() <= 25 * 0x10000000000,
    {
        lemma_trinomial_fits(25, self.counts.count0 + 1, self.counts.count1 + 1);
        assert((self.counts.count0 + 1) * (self.counts.count1 + 1) <= 25) by (nonlinear_arith)
            requires
                self.counts.count0 <= 4 && self.counts.count1 <= 4,
        ;
        assert(self.chunk_size * self.num_chunks <= 25 * 0x10000000000) by (nonlinear_arith)
            requires
                0 <= self.chunk_size <= 25 && 0 <= self.num_chunks < 0x10000000000,
        ;
    }

    /// Allocate the zeroed table of a bucket.
    pub fn new(counts: PawnCount, comb: &Comb) -> (r: Table)
        requires
            comb.wf(),
            counts.count0 <= 4,
            counts.count1 <= 4,
        ensures
            r.wf(),
            r.counts == counts,
            forall|i: int| 0 <= i < r.words@.len() ==> r.words[i] == 0u32,
    {
        proof {
            assert((counts.count0 + 1) * (counts.count1 + 1) <= 25) by (nonlinear_arith)
                requires
                    counts.count0 <= 4 && counts.count1 <= 4,
            ;
            lemma_trinomial_fits(25, counts.count0 + 1, counts.count1 + 1);
            assert(word_ok(0u32)) by (bit_vector);
        }
        let chunk_size = (counts.count0 as usize + 1) * (counts.count1 as usize + 1);
        let num_chunks = comb.get(25, counts.count0 as i32 + 1, counts.count1 as i32 + 1);
        proof {
            assert((chunk_size as u64) * num_chunks <= 25 * 0x10000000000) by (nonlinear_arith)
                requires
                    chunk_size <= 25 && num_chunks < 0x10000000000,
            ;
        }
        let n: u64 = (chunk_size as u64) * num_chunks;
        let mut words: Vec<u32> = Vec::new();
        let mut i: u64 = 0;
        while i < n
            invariant
                i <= n,
                words@.len() == i,
                forall|j: int| 0 <= j < i ==> words[j] == 0u32,
            decreases n - i,
        {
            words.push(0);
            i += 1;
        }
        Table { counts, chunk_size, num_chunks, words }
    }

    /// The chunk that stores a layout's king-slot words.
    pub fn index(&self, comb: &Comb, layout: &TeamLayout) -> (r: SubTable)
        requires
            comb.wf(),
            self.wf(),
            layout.wf(self.counts),
        ensures
            r.base == self.chunk_size * spec_rank(25, layout.pieces0, layout.pieces1),
            r.base + self.chunk_size <= self.words@.len(),
            r.counts == self.counts,
            r.layout == *layout,
    {
        proof {
            lemma_layout_rank(self.counts, *layout);
            lemma_trinomial_fits(25, self.counts.count0 + 1, self.counts.count1 + 1);
        }
        let rank = self.counts.index(comb, layout);
        proof {
            self.lemma_len_bound();
            assert((self.counts.count0 + 1) * (self.counts.count1 + 1) <= 25) by (nonlinear_arith)
                requires
                    self.counts.count0 <= 4 && self.counts.count1 <= 4,
            ;
            let rk = rank as int;
            let cs = self.chunk_size as int;
            let nc = self.num_chunks as int;
            assert(cs * rk + cs <= cs * nc && cs * rk <= 25 * 0x10000000000) by (nonlinear_arith)
                requires
                    0 <= rk && rk < nc && 0 <= cs <= 25 && nc < 0x10000000000,
            ;
        }
        let base: u64 = (self.chunk_size as u64) * rank;
        let len = self.words.len();
        proof {
            assert(base + self.chunk_size <= len as u64);
        }
        SubTable { counts: self.counts, layout: *layout, base: base as usize }
    }

    /// Total set arrangement bits of the table: the sum over its words of
    /// the population of the 30-bit field.
    pub fn count_ones(&self) -> (r: u64)
        requires
            self.wf(),
        ensures
            r == words_pop(self.words@, self.words@.len() as int),
            r <= 30 * self.words@.len(),
    {
        let mut r: u64 = 0;
        let mut i: usize = 0;
        proof {
            self.lemma_len_bound();
        }
        while i < self.words.len()
            invariant
                self.wf(),
                i <= self.words@.len(),
                self.words@.len() <= 25 * 0x10000000000,
                r == words_pop(self.words@, i as int),
                r <= 30 * i,
            decreases self.words@.len() - i,
        {
            let w = self.words[i] & BLOCK_MASK;
            let p = crate::bits::popcount(w);
            proof {
                lemma_pop_block(self.words[i as int]);
            }
            r = r + p as u64;
            i += 1;
        }
        r
    }
}

/// The total of set arrangement bits over a word sequence: the win count of
/// a table, with the bits above the 30-bit field never counted.
pub open spec fn words_pop(s: Seq<u32>, n: int) -> int
    decreases n,
{
    if n <= 0 {
        0
    } else {
        words_pop(s, n - 1) + pop(s[n - 1] & BLOCK_MASK)
    }
}

/// The word-sequence total is nonnegative and at most thirty per word.
pub proof fn lemma_words_pop_bounds(s: Seq<u32>, n: int)
    requires
        0 <= n <= s.len(),
    ensures
        0 <= words_pop(s, n) <= 30 * n,
    decreases n,
{
    if n > 0 {
        lemma_words_pop_bounds(s, n - 1);
        lemma_pop_block(s[n - 1]);
    }
}

/// A word that only gained bits never loses count, so the totals of two
/// pointwise-grown sequences are ordered.
pub proof fn lemma_words_pop_grow(a: Seq<u32>, b: Seq<u32>, n: int)
    requires
        0 <= n <= a.len(),
        n <= b.len(),
        forall|i: int| 0 <= i < n ==> word_grows(#[trigger] a[i], b[i]),
    ensures
        words_pop(a, n) <= words_pop(b, n),
    decreases n,
{
    if n > 0 {
        lemma_words_pop_grow(a, b, n - 1);
        lemma_pop_grow(a[n - 1], b[n - 1]);
    }
}

/// Pointwise word growth never lowers the arrangement-bit count.
pub proof fn lemma_pop_grow(a: u32, b: u32)
    requires
        word_grows(a, b),
    ensures
        pop(a & BLOCK_MASK) <= pop(b & BLOCK_MASK),
{
    assert forall|i: u32| i < 32 implies bit(a & BLOCK_MASK, i) ==> bit(b & BLOCK_MASK, i) by {
        assert((a & b == a && (a & 0x3FFFFFFFu32) >> i & 1 == 1) ==> (b & 0x3FFFFFFFu32) >> i & 1
            == 1) by (bit_vector);
    }
    lemma_pop_subset_below(a & BLOCK_MASK, b & BLOCK_MASK, 32);
}

proof fn lemma_pop_subset_below(x: u32, y: u32, n: u32)
    requires
        n <= 32,
        forall|i: u32| i < 32 ==> bit(x, i) ==> bit(y, i),
    ensures
        pop_below(x, n as nat) <= pop_below(y, n as nat),
    decreases n,
{
    if n > 0 {
        lemma_pop_subset_below(x, y, (n - 1) as u32);
    }
}

/// The 30-bit field of any word holds at most 30 set bits.
pub proof fn lemma_pop_block(w: u32)
    ensures
        pop(w & BLOCK_MASK) <= 30,
{
    let v = w & BLOCK_MASK;
    assert(!(v >> 30u32 & 1 == 1) && !(v >> 31u32 & 1 == 1)) by (bit_vector)
        requires
            v == w & 0x3FFFFFFFu32,
    ;
    crate::bits::lemma_pop_below_le(v, 30);
    assert(pop_below(v, 32) == pop_below(v, 31) + if bit(v, 31) {
        1nat
    } else {
        0nat
    });
    assert(pop_below(v, 31) == pop_below(v, 30) + if bit(v, 30) {
        1nat
    } else {
        0nat
    });
}

/// A view of one layout's chunk of a table: the bucket, the layout, and the
/// chunk's starting word.
#[derive(Clone, Copy, Debug)]
pub struct SubTable {
    pub counts: PawnCount,
    pub layout: TeamLayout,
    pub base: usize,
}

/// One word grows into another when every set bit of the first is set in the
/// second.
pub open spec fn word_grows(a: u32, b: u32) -> bool {
    a & b == a
}

/// The unused headroom of a word: how many packed values above it still fit.
/// It strictly shrinks whenever a word gains a bit.
pub open spec fn word_slack(w: u32) -> nat {
    if w & BLOCK_MASK <= BLOCK_MASK {
        (BLOCK_MASK - (w & BLOCK_MASK)) as nat
    } else {
        0
    }
}

/// Growth facts at the level of one word.
pub proof fn lemma_word_grow(a: u32, b: u32)
    requires
        word_grows(a, b),
    ensures
        word_slack(b) <= word_slack(a),
        word_ok(a) && word_ok(b) && a != b ==> word_slack(b) < word_slack(a),
{
    assert((a & 0x3FFFFFFF) <= (b & 0x3FFFFFFF) && ((a & !(0x3FFFFFFFu32 | 0x40000000u32) == 0 && a
        & 0x40000000u32 == 0 && b & !(0x3FFFFFFFu32 | 0x40000000u32) == 0 && b & 0x40000000u32 == 0
        && a != b) ==> (a & 0x3FFFFFFF) < (b & 0x3FFFFFFF)) && (a & 0x3FFFFFFF) <= 0x3FFFFFFF && (b
        & 0x3FFFFFFF) <= 0x3FFFFFFF) by (bit_vector)
        requires
            a & b == a,
    ;
}

/// One word sequence grows into another pointwise.
pub open spec fn words_grow(a: Seq<u32>, b: Seq<u32>) -> bool {
    a.len() == b.len() && forall|i: int| 0 <= i < a.len() ==> word_grows(#[trigger] a[i], b[i])
}

/// The summed headroom of a word sequence.
pub open spec fn seq_slack(s: Seq<u32>) -> nat
    decreases s.len(),
{
    if s.len() == 0 {
        0
    } else {
        word_slack(s[0]) + seq_slack(s.drop_first())
    }
}

/// Pointwise growth never raises the summed headroom.
pub proof fn lemma_seq_slack_le(a: Seq<u32>, b: Seq<u32>)
    requires
        words_grow(a, b),
    ensures
        seq_slack(b) <= seq_slack(a),
    decreases a.len(),
{
    if a.len() > 0 {
        lemma_word_grow(a[0], b[0]);
        assert(words_grow(a.drop_first(), b.drop_first()));
        lemma_seq_slack_le(a.drop_first(), b.drop_first());
    }
}

/// A word that actually changed strictly lowers the summed headroom.
pub proof fn lemma_seq_slack_strict(a: Seq<u32>, b: Seq<u32>, w: int)
    requires
        words_grow(a, b),
        forall|i: int| 0 <= i < a.len() ==> word_ok(#[trigger] a[i]) && word_ok(b[i]),
        0 <= w < a.len(),
        a[w] != b[w],
    ensures
        seq_slack(b) < seq_slack(a),
    decreases a.len(),
{
    lemma_word_grow(a[0], b[0]);
    assert(words_grow(a.drop_first(), b.drop_first()));
    if w == 0 {
        lemma_seq_slack_le(a.drop_first(), b.drop_first());
    } else {
        lemma_seq_slack_strict(a.drop_first(), b.drop_first(), w - 1);
    }
}

} // verus!
