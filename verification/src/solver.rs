//! The propagation passes of the tablebase build: easy-win seeding, the
//! accumulate pass that finds newly lost positions, and the spread pass that
//! turns them into wins of their predecessors.

use vstd::prelude::*;
use crate::bits::{bit, pop, bit_positions, bit_seq, lemma_bit_seq, lemma_pop_move,
    lemma_pop_clear, lemma_pop_set, popcount};
use crate::block::{Block, BLOCK_MASK, spec_invert, spec_expand, spec_mask_at, mask_iter,
    lemma_mask_self_inverse, lemma_expand_domain};
use crate::card::{spec_card_map, spec_offset_mask_fixed, card_map, offset_mask_fixed};
use crate::comb::{Comb, trinomial, spec_rank, lemma_trinomial_fits};
use crate::model::{PawnCount, TeamLayout, KingPos, king_at, lemma_king_at,
    lemma_king_index_bound, lemma_king_total_le_chunk, lemma_king_index_injective,
    lemma_pop_high_zero};
use crate::tables::{Table, word_ok, word_grows, words_grow, seq_slack, lemma_seq_slack_le,
    lemma_seq_slack_strict, words_pop, lemma_words_pop_bounds, lemma_words_pop_grow};
use crate::iter::{layout_at, lemma_layout_at};

verus! {

/// Assorted single-word bit facts the solver leans on: or only grows a word,
/// growth is transitive, a strict growth is never undone, and or keeps the
/// word domain.
pub proof fn lemma_word_facts(a: u32, b: u32, c: u32)
    ensures
        word_grows(a, a | b),
        word_grows(a, b) && word_grows(b, c) ==> word_grows(a, c),
        word_grows(a, b) && word_grows(b, c) && a != b ==> a != c,
        word_ok(a) && word_ok(b) ==> word_ok(a | b),
        b & !BLOCK_MASK == 0 ==> word_ok(b),
        word_ok(a) && b & !BLOCK_MASK == 0 ==> word_ok(a | b),
        word_ok(a) ==> a & !BLOCK_MASK == 0,
        0u32 & !BLOCK_MASK == 0,
        a & b == b & a,
{
    assert(a & (a | b) == a && ((a & b == a && b & c == b) ==> a & c == a) && ((a & b == a && b & c
        == b && a != b) ==> a != c) && ((a & !(0x3FFFFFFFu32 | 0x40000000u32) == 0 && a
        & 0x40000000u32 == 0 && b & !(0x3FFFFFFFu32 | 0x40000000u32) == 0 && b & 0x40000000u32
        == 0) ==> ((a | b) & !(0x3FFFFFFFu32 | 0x40000000u32) == 0 && (a | b) & 0x40000000u32
        == 0)) && ((b & !0x3FFFFFFFu32 == 0) ==> (b & !(0x3FFFFFFFu32 | 0x40000000u32) == 0 && b
        & 0x40000000u32 == 0)) && ((a & !(0x3FFFFFFFu32 | 0x40000000u32) == 0 && a
        & 0x40000000u32 == 0) ==> a & !0x3FFFFFFFu32 == 0) && (0u32 & !0x3FFFFFFFu32
        == 0) && a & b == b & a) by (bit_vector);
}

/// The complete tablebase: one verdict table per pawn-count bucket, the card
/// geometry the solver consults, and the final statistics.
pub struct AllTables {
    pub size: u32,
    pub cards: u16,
    pub comb: Comb,
    pub mask_lookup: Vec<u32>,
    pub directions: u32,
    pub list: Vec<Table>,
    pub win_in1: u64,
    pub total_unresolved: u64,
}

impl AllTables {
    pub open spec fn wf(&self) -> bool {
        &&& self.comb.wf()
        &&& 1 <= self.size <= 5
        &&& pop(self.cards as u32) == 5
        &&& self.mask_lookup@.len() == 25
        &&& (forall|i: int| 0 <= i < 25 ==> #[trigger] self.mask_lookup[i] & !BLOCK_MASK == 0)
        &&& self.directions < 0x2000000
        &&& self.list@.len() == self.size * self.size
        &&& (forall|c0: int, c1: int|
            0 <= c0 < self.size && 0 <= c1 < self.size ==> {
                &&& (#[trigger] self.list[c0 * self.size + c1]).wf()
                &&& self.list[c0 * self.size + c1].counts == (PawnCount {
                    count0: c0 as u32,
                    count1: c1 as u32,
                })
            })
    }

    pub open spec fn tidx(&self, c: PawnCount) -> int {
        c.count0 * self.size + c.count1
    }

    /// Every entry of the table list is a well-formed table of its bucket.
    pub proof fn lemma_table_entry(&self, t: int)
        requires
            self.wf(),
            0 <= t < self.list@.len(),
        ensures
            self.list[t].wf(),
            self.list[t].counts.count0 <= 4,
            self.list[t].counts.count1 <= 4,
            self.tidx(self.list[t].counts) == t,
    {
        let s = self.size as int;
        vstd::arithmetic::div_mod::lemma_fundamental_div_mod(t, s);
        let c0 = t / s;
        let c1 = t % s;
        vstd::arithmetic::div_mod::lemma_mod_bound(t, s);
        assert(0 <= c0 < s && s * c0 == c0 * s) by (nonlinear_arith)
            requires
                t == s * c0 + c1 && 0 <= c1 < s && 0 <= t < s * s,
        ;
        assert(self.list[c0 * s + c1].wf());
    }

    /// The position of a bucket's table in the list.
    pub fn index_count(&self, counts: PawnCount) -> (r: usize)
        requires
            self.wf(),
            counts.count0 < self.size,
            counts.count1 < self.size,
        ensures
            r == self.tidx(counts),
            r < self.list@.len(),
            self.list[r as int].wf(),
            self.list[r as int].counts == counts,
    {
        proof {
            assert(counts.count0 * self.size + counts.count1 < self.size * self.size && self.size
                * self.size <= 25) by (nonlinear_arith)
                requires
                    counts.count0 < self.size && counts.count1 < self.size && self.size <= 5,
            ;
        }
        (counts.count0 as usize) * (self.size as usize) + counts.count1 as usize
    }

    /// Total set arrangement bits over all buckets: the number of won
    /// (position, arrangement) pairs the tablebase records.
    pub fn count_ones(&self) -> (r: u64)
        requires
            self.wf(),
        ensures
            r == tb_pop(self.list@, self.list@.len() as int),
    {
        let mut r: u64 = 0;
        let mut t: usize = 0;
        proof {
            assert(self.size * self.size <= 25) by (nonlinear_arith)
                requires
                    self.size <= 5,
            ;
        }
        while t < self.list.len()
            invariant
                self.wf(),
                t <= self.list@.len(),
                self.list@.len() <= 25,
                r == tb_pop(self.list@, t as int),
                r <= t * 0x2EE0000000000,
            decreases self.list@.len() - t,
        {
            proof {
                self.lemma_table_entry(t as int);
                self.list[t as int].lemma_len_bound();
            }
            let c = self.list[t].count_ones();
            r = r + c;
            t += 1;
        }
        r
    }

    /// Total number of king-slot positions over all buckets, counting each
    /// layout's true slot count rather than its padded chunk: the number of
    /// legal positions the tablebase covers.
    pub fn len(&self) -> (r: u64)
        requires
            self.wf(),
        ensures
            r == total_positions(self.list@, self.list@.len() as int),
    {
        let mut r: u64 = 0;
        let mut t: usize = 0;
        proof {
            assert(self.size * self.size <= 25) by (nonlinear_arith)
                requires
                    self.size <= 5,
            ;
        }
        while t < self.list.len()
            invariant
                self.wf(),
                t <= self.list@.len(),
                self.list@.len() <= 25,
                r == total_positions(self.list@, t as int),
                r <= t * 40000000000000,
            decreases self.list@.len() - t,
        {
            proof {
                self.lemma_table_entry(t as int);
            }
            let counts = self.list[t].counts;
            let layouts = counts.layouts(&self.comb);
            proof {
                lemma_trinomial_fits(25, counts.count0 + 1, counts.count1 + 1);
            }
            let mut j: usize = 0;
            let mut sub: u64 = 0;
            while j < layouts.len()
                invariant
                    self.wf(),
                    t < self.list@.len(),
                    counts == self.list[t as int].counts,
                    counts.count0 <= 4,
                    counts.count1 <= 4,
                    j <= layouts@.len(),
                    layouts@.len() < 0x10000000000,
                    layouts@.len() == trinomial(25, counts.count0 + 1, counts.count1 + 1),
                    forall|i: int|
                        0 <= i < layouts@.len() ==> (#[trigger] layouts[i]).wf(counts)
                            && layouts[i] == layout_at(counts, i),
                    sub == bucket_positions(counts, j as int),
                    sub <= j * 36,
                decreases layouts@.len() - j,
            {
                let ki = layouts[j].indexer();
                let tot = ki.total();
                proof {
                    lemma_king_total_le_chunk(layouts@[j as int], counts);
                    assert((counts.count0 + 1) * (counts.count1 + 1) <= 36) by (nonlinear_arith)
                        requires
                            counts.count0 <= 4 && counts.count1 <= 4,
                    ;
                }
                sub = sub + tot as u64;
                j += 1;
            }
            proof {
                assert(sub <= 36 * layouts@.len());
            }
            r = r + sub;
            t += 1;
        }
        r
    }
}

/// The total of set arrangement bits over the first `n` tables of a list.
pub open spec fn tb_pop(l: Seq<Table>, n: int) -> int
    decreases n,
{
    if n <= 0 {
        0
    } else {
        tb_pop(l, n - 1) + words_pop(l[n - 1].words@, l[n - 1].words@.len() as int)
    }
}

/// The number of king slots over the layouts of a bucket with rank below `n`.
pub open spec fn bucket_positions(counts: PawnCount, n: int) -> int
    decreases n,
{
    if n <= 0 {
        0
    } else {
        bucket_positions(counts, n - 1) + layout_at(counts, n - 1).king_total()
    }
}

/// The number of legal positions over the first `n` tables of a list.
pub open spec fn total_positions(l: Seq<Table>, n: int) -> int
    decreases n,
{
    if n <= 0 {
        0
    } else {
        total_positions(l, n - 1) + bucket_positions(
            l[n - 1].counts,
            trinomial(25, l[n - 1].counts.count0 + 1, l[n - 1].counts.count1 + 1) as int,
        )
    }
}

/// Growth of every word never lowers the win total.
pub proof fn lemma_tb_pop_grow(a: &AllTables, b: &AllTables, n: int)
    requires
        tables_grow(a, b),
        0 <= n <= a.list@.len(),
    ensures
        tb_pop(a.list@, n) <= tb_pop(b.list@, n),
    decreases n,
{
    if n > 0 {
        lemma_tb_pop_grow(a, b, n - 1);
        lemma_words_pop_grow(
            a.list@[n - 1].words@,
            b.list@[n - 1].words@,
            a.list@[n - 1].words@.len() as int,
        );
        lemma_words_pop_bounds(a.list@[n - 1].words@, a.list@[n - 1].words@.len() as int);
    }
}

/// The win total of a prefix depends only on the prefix's words.
pub proof fn lemma_tb_pop_eq(a: Seq<Table>, b: Seq<Table>, n: int)
    requires
        forall|t: int| 0 <= t < n ==> (#[trigger] a[t]).words@ == b[t].words@,
    ensures
        tb_pop(a, n) == tb_pop(b, n),
    decreases n,
{
    if n > 0 {
        lemma_tb_pop_eq(a, b, n - 1);
    }
}

/// Every position's stored word contains its easy-win seed: the arrangements
/// in which the side to move wins in one ply never leave a word once set.
pub open spec fn seeds_in(tb: &AllTables, size: u32, cards: u16) -> bool {
    forall|c0: int, c1: int, lx: int, kp: KingPos|
        0 <= c0 < size && 0 <= c1 < size && 0 <= lx < trinomial(25, c0 + 1, c1 + 1)
            && #[trigger] kp.wf(
            layout_at(PawnCount { count0: c0 as u32, count1: c1 as u32 }, lx),
        ) ==> ({
            let l = layout_at(PawnCount { count0: c0 as u32, count1: c1 as u32 }, lx);
            let t = tb.list@[c0 * size + c1];
            let i = t.chunk_size * lx + l.king_index(kp);
            t.words@[i] & spec_ez_word(cards, l, kp, 5) == spec_ez_word(cards, l, kp, 5)
        })
}

/// The marking phase's progress: buckets before the boundary hold exactly
/// their seeds on every king slot, buckets at or past it are still all zero.
pub open spec fn seed_phase(tb: &AllTables, size: u32, cards: u16, m: int) -> bool {
    &&& (forall|t: int, i: int|
        m <= t < tb.list@.len() && 0 <= i < tb.list@[t].words@.len()
            ==> #[trigger] tb.list@[t].words@[i] == 0u32)
    &&& (forall|c0: int, c1: int, lx: int, kp: KingPos|
        0 <= c0 < size && 0 <= c1 < size && c0 * size + c1 < m && 0 <= lx < trinomial(
            25,
            c0 + 1,
            c1 + 1,
        ) && #[trigger] kp.wf(layout_at(PawnCount { count0: c0 as u32, count1: c1 as u32 }, lx))
            ==> ({
            let l = layout_at(PawnCount { count0: c0 as u32, count1: c1 as u32 }, lx);
            let t = tb.list@[c0 * size + c1];
            let i = t.chunk_size * lx + l.king_index(kp);
            t.words@[i] == spec_ez_word(cards, l, kp, 5)
        }))
}

/// Monotone growth keeps every seed in place.
pub proof fn lemma_seed_kept(a: &AllTables, b: &AllTables, size: u32, cards: u16)
    requires
        a.wf(),
        a.size == size,
        tables_grow(a, b),
        seeds_in(a, size, cards),
    ensures
        seeds_in(b, size, cards),
{
    assert forall|c0: int, c1: int, lx: int, kp: KingPos|
        0 <= c0 < size && 0 <= c1 < size && 0 <= lx < trinomial(25, c0 + 1, c1 + 1)
            && #[trigger] kp.wf(
            layout_at(PawnCount { count0: c0 as u32, count1: c1 as u32 }, lx),
        ) implies ({
        let l = layout_at(PawnCount { count0: c0 as u32, count1: c1 as u32 }, lx);
        let t = b.list@[c0 * size + c1];
        let i = t.chunk_size * lx + l.king_index(kp);
        t.words@[i] & spec_ez_word(cards, l, kp, 5) == spec_ez_word(cards, l, kp, 5)
    }) by {
        let counts = PawnCount { count0: c0 as u32, count1: c1 as u32 };
        lemma_layout_at(counts, lx);
        let l = layout_at(counts, lx);
        let tix = c0 * size + c1;
        assert(0 <= tix < a.list@.len() && a.size * a.size <= 25) by (nonlinear_arith)
            requires
                0 <= c0 < size && 0 <= c1 < size && tix == c0 * size + c1 && a.list@.len() == size
                    * size && size <= 5 && a.size == size,
        ;
        a.lemma_table_entry(tix);
        lemma_king_index_bound(l, kp);
        lemma_king_total_le_chunk(l, counts);
        let cs = a.list@[tix].chunk_size as int;
        let nc = a.list@[tix].num_chunks as int;
        let q = l.king_index(kp);
        assert(0 <= cs * lx + q < cs * nc) by (nonlinear_arith)
            requires
                0 <= q < cs && 0 <= lx && lx + 1 <= nc,
        ;
        let i = cs * lx + q;
        let ez = spec_ez_word(cards, l, kp, 5);
        assert(b.list@[tix].chunk_size == a.list@[tix].chunk_size);
        assert(words_grow(a.list@[tix].words@, b.list@[tix].words@));
        assert(word_grows(a.list@[tix].words@[i], b.list@[tix].words@[i]));
        assert(a.list@[tix].words@[i] & ez == ez);
        lemma_word_facts(ez, a.list@[tix].words@[i], b.list@[tix].words@[i]);
        lemma_word_facts(a.list@[tix].words@[i], ez, 0);
        lemma_word_facts(b.list@[tix].words@[i], ez, 0);
        assert(word_grows(ez, a.list@[tix].words@[i]));
        assert(b.list@[tix].words@[i] & ez == ez) by {
            assert(word_grows(ez, b.list@[tix].words@[i]));
        }
    }
}

/// Both tablebases have the same shape: the same geometry and the same table
/// dimensions.
pub open spec fn same_frame(a: &AllTables, b: &AllTables) -> bool {
    &&& a.size == b.size
    &&& a.cards == b.cards
    &&& a.comb == b.comb
    &&& a.mask_lookup == b.mask_lookup
    &&& a.directions == b.directions
    &&& a.list@.len() == b.list@.len()
    &&& forall|t: int|
        0 <= t < a.list@.len() ==> {
            &&& (#[trigger] b.list[t]).counts == a.list[t].counts
            &&& b.list[t].chunk_size == a.list[t].chunk_size
            &&& b.list[t].num_chunks == a.list[t].num_chunks
            &&& b.list[t].words@.len() == a.list[t].words@.len()
        }
}

/// Every word of every table keeps its bits: the monotone growth of a build.
pub open spec fn tables_grow(a: &AllTables, b: &AllTables) -> bool {
    &&& same_frame(a, b)
    &&& forall|t: int|
        0 <= t < a.list@.len() ==> words_grow((#[trigger] a.list[t]).words@, b.list[t].words@)
}

/// No word of any table changed.
pub open spec fn tables_same(a: &AllTables, b: &AllTables) -> bool {
    &&& same_frame(a, b)
    &&& forall|t: int| 0 <= t < a.list@.len() ==> (#[trigger] a.list[t]).words@ == b.list[t].words@
}

pub proof fn lemma_grow_refl(a: &AllTables)
    ensures
        tables_grow(a, a),
        tables_same(a, a),
{
    assert forall|t: int| 0 <= t < a.list@.len() implies words_grow(
        (#[trigger] a.list[t]).words@,
        a.list[t].words@,
    ) by {
        lemma_words_grow_refl(a.list[t].words@);
    }
}

pub proof fn lemma_grow_trans(a: &AllTables, b: &AllTables, c: &AllTables)
    requires
        tables_grow(a, b),
        tables_grow(b, c),
    ensures
        tables_grow(a, c),
        !tables_same(a, b) ==> !tables_same(a, c),
        tables_same(a, b) && tables_same(b, c) ==> tables_same(a, c),
{
    assert forall|t: int| 0 <= t < a.list@.len() implies words_grow(
        (#[trigger] a.list[t]).words@,
        c.list[t].words@,
    ) by {
        assert forall|i: int| 0 <= i < a.list[t].words@.len() implies word_grows(
            #[trigger] a.list[t].words@[i],
            c.list[t].words@[i],
        ) by {
            lemma_word_facts(a.list[t].words@[i], b.list[t].words@[i], c.list[t].words@[i]);
        }
    }
    if !tables_same(a, b) {
        let t = choose|t: int|
            0 <= t < a.list@.len() && (#[trigger] a.list[t]).words@ != b.list[t].words@;
        assert(exists|i: int|
            0 <= i < a.list[t].words@.len() && (#[trigger] a.list[t].words@[i])
                != b.list[t].words@[i]) by {
            if forall|i: int|
                0 <= i < a.list[t].words@.len() ==> (#[trigger] a.list[t].words@[i])
                    == b.list[t].words@[i] {
                assert(a.list[t].words@ =~= b.list[t].words@);
            }
        }
        let i = choose|i: int|
            0 <= i < a.list[t].words@.len() && (#[trigger] a.list[t].words@[i])
                != b.list[t].words@[i];
        lemma_word_facts(a.list[t].words@[i], b.list[t].words@[i], c.list[t].words@[i]);
        assert(a.list[t].words@[i] != c.list[t].words@[i]);
        assert(a.list[t].words@ != c.list[t].words@);
    }
}

/// The summed headroom of all tables: the variant of the fixed-point loops.
pub open spec fn list_slack(l: Seq<Table>) -> nat
    decreases l.len(),
{
    if l.len() == 0 {
        0
    } else {
        seq_slack(l[0].words@) + list_slack(l.drop_first())
    }
}

pub open spec fn tb_slack(a: &AllTables) -> nat {
    list_slack(a.list@)
}

proof fn lemma_list_slack_le(a: Seq<Table>, b: Seq<Table>)
    requires
        a.len() == b.len(),
        forall|t: int| 0 <= t < a.len() ==> words_grow((#[trigger] a[t]).words@, b[t].words@),
    ensures
        list_slack(b) <= list_slack(a),
    decreases a.len(),
{
    if a.len() > 0 {
        lemma_seq_slack_le(a[0].words@, b[0].words@);
        lemma_list_slack_le(a.drop_first(), b.drop_first());
    }
}

proof fn lemma_list_slack_strict(a: Seq<Table>, b: Seq<Table>, t: int)
    requires
        a.len() == b.len(),
        forall|u: int| 0 <= u < a.len() ==> words_grow((#[trigger] a[u]).words@, b[u].words@),
        forall|u: int, i: int|
            0 <= u < a.len() && 0 <= i < (#[trigger] a[u]).words@.len() ==> word_ok(
                #[trigger] a[u].words@[i],
            ) && word_ok(b[u].words@[i]),
        0 <= t < a.len(),
        a[t].words@ != b[t].words@,
    ensures
        list_slack(b) < list_slack(a),
    decreases a.len(),
{
    if t == 0 {
        let aw = a[0].words@;
        let bw = b[0].words@;
        assert(exists|i: int| 0 <= i < aw.len() && aw[i] != #[trigger] bw[i]) by {
            if forall|i: int| 0 <= i < aw.len() ==> aw[i] == #[trigger] bw[i] {
                assert(aw =~= bw);
            }
        }
        let i = choose|i: int| 0 <= i < aw.len() && aw[i] != #[trigger] bw[i];
        lemma_seq_slack_strict(aw, bw, i);
        lemma_list_slack_le(a.drop_first(), b.drop_first());
    } else {
        lemma_seq_slack_le(a[0].words@, b[0].words@);
        let ad = a.drop_first();
        let bd = b.drop_first();
        assert forall|u: int, i: int|
            0 <= u < ad.len() && 0 <= i < (#[trigger] ad[u]).words@.len() implies word_ok(
            #[trigger] ad[u].words@[i],
        ) && word_ok(bd[u].words@[i]) by {
            assert(ad[u] == a[u + 1] && bd[u] == b[u + 1]);
            assert(word_ok(a[u + 1].words@[i]) && word_ok(b[u + 1].words@[i]));
        }
        lemma_list_slack_strict(ad, bd, t - 1);
    }
}

/// Growth never raises the headroom; growth that changed a word strictly
/// lowers it.  The strict case is what forces the fixed-point loops to end.
pub proof fn lemma_tb_slack(a: &AllTables, b: &AllTables)
    requires
        tables_grow(a, b),
        forall|t: int| 0 <= t < a.list@.len() ==> (#[trigger] a.list[t]).wf() && b.list[t].wf(),
    ensures
        tb_slack(b) <= tb_slack(a),
        !tables_same(a, b) ==> tb_slack(b) < tb_slack(a),
{
    lemma_list_slack_le(a.list@, b.list@);
    if !tables_same(a, b) {
        let t = choose|t: int|
            0 <= t < a.list@.len() && (#[trigger] a.list[t]).words@ != b.list[t].words@;
        lemma_list_slack_strict(a.list@, b.list@, t);
    }
}

/// Unchanged tables keep the same headroom.
pub proof fn lemma_slack_same(a: &AllTables, b: &AllTables)
    requires
        tables_same(a, b),
    ensures
        tb_slack(a) == tb_slack(b),
{
    lemma_list_slack_eq(a.list@, b.list@);
}

proof fn lemma_list_slack_eq(a: Seq<Table>, b: Seq<Table>)
    requires
        a.len() == b.len(),
        forall|t: int| 0 <= t < a.len() ==> (#[trigger] a[t]).words@ == b[t].words@,
    ensures
        list_slack(a) == list_slack(b),
    decreases a.len(),
{
    if a.len() > 0 {
        lemma_list_slack_eq(a.drop_first(), b.drop_first());
    }
}

} // verus!

verus! {

/// Reusable per-build scratch: the loss statuses and win words of the layout
/// being processed, and the dense index of every king placement.
pub struct LocalMem {
    pub wins: Vec<u32>,
    pub status: Vec<u32>,
    pub king_lookup: Vec<u8>,
}

impl LocalMem {
    /// The lookup gives every well-formed king placement of the layout its
    /// dense index.
    pub open spec fn lookup_ok(&self, layout: TeamLayout) -> bool {
        &&& self.king_lookup@.len() == 625
        &&& forall|k: KingPos|
            k.wf(layout) ==> self.king_lookup@[#[trigger] (k.king0 * 25 + k.king1)] as int
                == layout.king_index(k)
    }

    pub fn new() -> (r: LocalMem)
        ensures
            r.king_lookup@.len() == 625,
    {
        let mut king_lookup: Vec<u8> = Vec::new();
        let mut i: usize = 0;
        while i < 625
            invariant
                i <= 625,
                king_lookup@.len() == i,
            decreases 625 - i,
        {
            king_lookup.push(0);
            i += 1;
        }
        LocalMem { wins: Vec::new(), status: Vec::new(), king_lookup }
    }

    /// Record the dense index of every king placement of a layout.
    pub fn fill_lookup(&mut self, layout: TeamLayout, kings: &Vec<KingPos>)
        requires
            old(self).king_lookup@.len() == 625,
            kings@.len() == layout.king_total(),
            forall|j: int|
                0 <= j < kings@.len() ==> (#[trigger] kings[j]).wf(layout) && layout.king_index(
                    kings[j],
                ) == j,
            forall|k: KingPos|
                k.wf(layout) ==> 0 <= layout.king_index(k) < kings@.len() && kings[layout.king_index(
                    k,
                )] == k,
            kings@.len() <= 255,
        ensures
            final(self).lookup_ok(layout),
            final(self).wins == old(self).wins,
            final(self).status == old(self).status,
    {
        let mut j: usize = 0;
        while j < kings.len()
            invariant
                self.king_lookup@.len() == 625,
                self.wins == old(self).wins,
                self.status == old(self).status,
                j <= kings@.len(),
                kings@.len() <= 255,
                kings@.len() == layout.king_total(),
                forall|i: int|
                    0 <= i < kings@.len() ==> (#[trigger] kings[i]).wf(layout)
                        && layout.king_index(kings[i]) == i,
                forall|i: int|
                    0 <= i < j ==> self.king_lookup@[#[trigger] (kings[i].king0 * 25
                        + kings[i].king1)] as int == i,
            decreases kings@.len() - j,
        {
            let k = kings[j];
            let slot = (k.king0 as usize) * 25 + k.king1 as usize;
            self.king_lookup[slot] = j as u8;
            proof {
                assert forall|i: int|
                    0 <= i < j + 1 implies self.king_lookup@[#[trigger] (kings[i].king0 * 25
                    + kings[i].king1)] as int == i by {
                    if i < j {
                        let ki = kings[i];
                        let kj = kings[j as int];
                        if ki.king0 * 25 + ki.king1 == kj.king0 * 25 + kj.king1 {
                            assert(ki.king0 == kj.king0 && ki.king1 == kj.king1) by (nonlinear_arith)
                                requires
                                    ki.king0 * 25 + ki.king1 == kj.king0 * 25 + kj.king1
                                        && ki.king1 < 25 && kj.king1 < 25 && ki.king0 < 25
                                        && kj.king0 < 25,
                            ;
                            assert(layout.king_index(ki) == layout.king_index(kj));
                            assert(false);
                        }
                    }
                }
            }
            j += 1;
        }
        proof {
            assert forall|k: KingPos| k.wf(layout) implies self.king_lookup@[#[trigger] (k.king0
                * 25 + k.king1)] as int == layout.king_index(k) by {
                let i = layout.king_index(k);
                assert(kings[i] == k);
            }
        }
    }
}

/// A position is an easy win for the side to move with a given card when its
/// king can step onto its temple with the temple not blocked by its own
/// piece, or one of its pieces can step onto the enemy king.
pub open spec fn spec_ez_win(bm: u32, layout: TeamLayout, k: KingPos) -> bool {
    ||| (bit(spec_offset_mask_fixed(2, bm), k.king1) && !bit(layout.pieces1, 2))
    ||| spec_offset_mask_fixed(k.king0 as int, bm) & layout.pieces1 != 0
}

/// The seeded word of one king slot: over the first `n` cards of the hand,
/// the union of the expanded arrangement masks of the cards that win in one.
pub open spec fn spec_ez_word(cards: u16, layout: TeamLayout, k: KingPos, n: int) -> u32
    decreases n,
{
    if n <= 0 {
        0u32
    } else {
        let prev = spec_ez_word(cards, layout, k, n - 1);
        let c = bit_seq(cards as u32, 0)[n - 1];
        if spec_ez_win(spec_card_map(c as int), layout, k) {
            prev | spec_expand(spec_invert(spec_mask_at(n - 1)))
        } else {
            prev
        }
    }
}

impl AllTables {
    /// The easy-win words of one layout, one per king slot: for every card
    /// that wins in one ply, the arrangements in which the mover holds it.
    pub fn ez_win_for_each(&self, counts: PawnCount, layout: TeamLayout, kings: &Vec<KingPos>) -> (r:
        Vec<u32>)
        requires
            self.wf(),
            counts.count0 < self.size,
            counts.count1 < self.size,
            layout.wf(counts),
            kings@.len() == layout.king_total(),
            forall|j: int|
                0 <= j < kings@.len() ==> (#[trigger] kings[j]).wf(layout) && layout.king_index(
                    kings[j],
                ) == j,
        ensures
            r@.len() == layout.king_total(),
            forall|j: int|
                0 <= j < r@.len() ==> #[trigger] r[j] == spec_ez_word(
                    self.cards,
                    layout,
                    kings[j],
                    5,
                ) && r[j] & !BLOCK_MASK == 0,
    {
        let card_ids = bit_positions(self.cards as u32);
        proof {
            lemma_bit_seq(self.cards as u32, 0);
            crate::bits::lemma_pop_below_le(self.cards as u32, 0);
        }
        let mut r: Vec<u32> = Vec::new();
        let mut j: usize = 0;
        proof {
            lemma_word_facts(0, 0, 0);
        }
        while j < kings.len()
            invariant
                self.wf(),
                layout.wf(counts),
                card_ids@ == bit_seq(self.cards as u32, 0),
                card_ids@.len() == 5,
                kings@.len() == layout.king_total(),
                forall|i: int|
                    0 <= i < kings@.len() ==> (#[trigger] kings[i]).wf(layout)
                        && layout.king_index(kings[i]) == i,
                j <= kings@.len(),
                r@.len() == j,
                forall|i: int|
                    0 <= i < j ==> #[trigger] r[i] == spec_ez_word(self.cards, layout, kings[i], 5)
                        && r[i] & !BLOCK_MASK == 0,
            decreases kings@.len() - j,
        {
            let kp = kings[j];
            let mut w: u32 = 0;
            let mut ci: usize = 0;
            proof {
                lemma_word_facts(0, 0, 0);
            }
            while ci < 5
                invariant
                    self.wf(),
                    layout.wf(counts),
                    card_ids@ == bit_seq(self.cards as u32, 0),
                    card_ids@.len() == 5,
                    kp.wf(layout),
                    ci <= 5,
                    w == spec_ez_word(self.cards, layout, kp, ci as int),
                    w & !BLOCK_MASK == 0,
                decreases 5 - ci,
            {
                proof {
                    lemma_bit_seq(self.cards as u32, 0);
                }
                let c = card_ids[ci];
                proof {
                    let cs = self.cards as u32;
                    assert(bit(cs, c) && c < 32);
                    assert(c < 16) by (bit_vector)
                        requires
                            cs >> c & 1 == 1 && cs < 0x10000 && c < 32,
                    ;
                }
                let bm = card_map(c as usize, false);
                let temple_from = offset_mask_fixed(2, bm);
                let hit = if (temple_from >> kp.king1) & 1 == 1 && (layout.pieces1 >> 2u32) & 1
                    != 1 {
                    true
                } else {
                    let attack = offset_mask_fixed(kp.king0 as usize, bm);
                    attack & layout.pieces1 != 0
                };
                if hit {
                    let masks = mask_iter();
                    let m = Block(masks[ci]).invert();
                    let e = m.expand().0;
                    proof {
                        lemma_mask_self_inverse(ci as int);
                        lemma_word_facts(w, e, 0);
                        lemma_word_facts(e, w, 0);
                        lemma_word_facts(w | e, 0, 0);
                    }
                    w = w | e;
                }
                ci += 1;
            }
            r.push(w);
            j += 1;
        }
        r
    }
}

} // verus!

verus! {

/// One forward-move step of the accumulate pass: a side-0 piece moves from
/// `step.0` to `step.1`, and every successor verdict is folded into the loss
/// statuses of the source position's king slots.
pub struct Accum {
    pub layout: TeamLayout,
    pub current: PawnCount,
    pub take_one: Option<PawnCount>,
    pub mask: u32,
    pub step: (u32, u32),
}

/// Whether an accumulate step reaches a given source king placement: the
/// step must lead to an indexed successor, and the placement must survive it.
pub open spec fn accum_applies(acc: Accum, k: KingPos) -> bool {
    &&& !(bit(acc.layout.pieces1, acc.step.1) && acc.take_one.is_none())
    &&& k.king1 != acc.step.1
    &&& !(k.king0 == acc.step.0 && acc.step.1 == 22)
}

/// The bucket the successor position lives in.
pub open spec fn accum_tcounts(acc: Accum) -> PawnCount {
    if bit(acc.layout.pieces1, acc.step.1) {
        acc.take_one.unwrap()
    } else {
        acc.current
    }
}

/// The successor layout after the step's piece moves (and captures).
pub open spec fn accum_newl(acc: Accum) -> TeamLayout {
    TeamLayout {
        pieces0: acc.layout.pieces0 ^ (1u32 << acc.step.1) ^ (1u32 << acc.step.0),
        pieces1: if bit(acc.layout.pieces1, acc.step.1) {
            acc.layout.pieces1 & !(1u32 << acc.step.1)
        } else {
            acc.layout.pieces1
        },
    }
}

/// Where a source king placement's kings stand after the step.
pub open spec fn accum_newk(acc: Accum, k: KingPos) -> KingPos {
    KingPos {
        king0: if k.king0 == acc.step.0 {
            acc.step.1
        } else {
            k.king0
        },
        king1: k.king1,
    }
}

/// What one accumulate step adds to the loss status of a source placement:
/// the negated verdict word of its successor position, under the step's card
/// mask.
pub open spec fn accum_delta(tb: &AllTables, acc: Accum, k: KingPos) -> u32 {
    let t = tb.list@[tb.tidx(accum_tcounts(acc))];
    let newl = accum_newl(acc);
    let w = t.words@[t.chunk_size * spec_rank(25, newl.pieces0, newl.pieces1) + newl.king_index(
        accum_newk(acc, k),
    )];
    !w & acc.mask
}

/// An applicable step carries a well-formed source placement to a well-formed
/// placement of the successor layout.
proof fn lemma_accum_newk_wf(acc: Accum, tb: &AllTables, k: KingPos)
    requires
        acc.wf(tb),
        k.wf(acc.layout),
        accum_applies(acc, k),
    ensures
        accum_newk(acc, k).wf(accum_newl(acc)),
{
    lemma_pop_move(acc.layout.pieces0, acc.step.0, acc.step.1);
    if bit(acc.layout.pieces1, acc.step.1) {
        lemma_pop_clear(acc.layout.pieces1, acc.step.1);
    }
}

impl Accum {
    pub open spec fn wf(&self, tb: &AllTables) -> bool {
        &&& self.current.count0 < tb.size
        &&& self.current.count1 < tb.size
        &&& self.layout.wf(self.current)
        &&& self.mask & !BLOCK_MASK == 0
        &&& match self.take_one {
            Some(c) => c.count0 == self.current.count0 && c.count1 + 1 == self.current.count1,
            None => self.current.count1 == 0,
        }
        &&& self.step.0 < 25
        &&& self.step.1 < 25
        &&& self.step.0 != self.step.1
        &&& bit(self.layout.pieces0, self.step.0)
        &&& !bit(self.layout.pieces0, self.step.1)
    }

    /// Fold, for every king slot of the successor layout, the negated
    /// successor verdict under this step's card mask into the loss status of
    /// the matching source slot.  Statuses only gain bits, and only bits of
    /// the mask.
    pub fn accumulate(&self, tb: &AllTables, mem: &mut LocalMem)
        requires
            tb.wf(),
            self.wf(tb),
            old(mem).lookup_ok(self.layout),
            old(mem).status@.len() == self.layout.king_total(),
        ensures
            final(mem).lookup_ok(self.layout),
            final(mem).status@.len() == old(mem).status@.len(),
            final(mem).wins == old(mem).wins,
            final(mem).king_lookup == old(mem).king_lookup,
            words_grow(old(mem).status@, final(mem).status@),
            forall|i: int|
                0 <= i < final(mem).status@.len() ==> #[trigger] final(mem).status@[i] & !(old(
                    mem,
                ).status@[i] | self.mask) == 0,
            forall|k: KingPos|
                #[trigger] k.wf(self.layout) ==> final(mem).status@[self.layout.king_index(k)] == (
                if accum_applies(*self, k) {
                    old(mem).status@[self.layout.king_index(k)] | accum_delta(tb, *self, k)
                } else {
                    old(mem).status@[self.layout.king_index(k)]
                }),
    {
        proof {
            assert forall|k: KingPos| #[trigger] k.wf(self.layout) implies 0 <= self.layout.king_index(
                k,
            ) < old(mem).status@.len() by {
                lemma_king_index_bound(self.layout, k);
            }
        }
        let (from, to) = self.step;
        let p0 = self.layout.pieces0;
        let p1 = self.layout.pieces1;
        let new_p0 = p0 ^ (1u32 << to) ^ (1u32 << from);
        proof {
            lemma_pop_move(p0, from, to);
            lemma_pop_high_zero(p0);
        }
        let capture = (p1 >> to) & 1 == 1;
        if capture && self.take_one.is_none() {
            proof {
                lemma_words_grow_refl(mem.status@);
                lemma_status_frame(mem.status@, self.mask);
            }
            return ;
        }
        let tcounts = if capture {
            self.take_one.unwrap()
        } else {
            self.current
        };
        let new_p1 = if capture {
            proof {
                lemma_pop_clear(p1, to);
            }
            p1 & !(1u32 << to)
        } else {
            p1
        };
        let newl = TeamLayout { pieces0: new_p0, pieces1: new_p1 };
        proof {
            assert(new_p0 < 0x2000000 && new_p0 & new_p1 == 0 && (p1 & !(1u32 << to)) < 0x2000000)
                by (bit_vector)
                requires
                    p0 < 0x2000000,
                    p1 < 0x2000000,
                    p0 & p1 == 0,
                    from < 25,
                    to < 25,
                    p0 >> from & 1 == 1,
                    !(p0 >> to & 1 == 1),
                    new_p0 == p0 ^ (1u32 << to) ^ (1u32 << from),
                    new_p1 == (if p1 >> to & 1 == 1 {
                        p1 & !(1u32 << to)
                    } else {
                        p1
                    }),
            ;
            lemma_pop_high_zero(new_p0);
            assert(newl.wf(tcounts));
        }
        let ti = tb.index_count(tcounts);
        let base = tb.list[ti].index(&tb.comb, &newl).base;
        let ki = newl.indexer();
        let kings = ki.enumerate();
        let mut new_i: usize = 0;
        proof {
            lemma_words_grow_refl(mem.status@);
            lemma_status_frame(mem.status@, self.mask);
            lemma_king_total_le_chunk(newl, tcounts);
        }
        while new_i < kings.len()
            invariant
                tb.wf(),
                self.wf(tb),
                mem.lookup_ok(self.layout),
                mem.status@.len() == self.layout.king_total(),
                mem.wins == old(mem).wins,
                mem.king_lookup == old(mem).king_lookup,
                mem.status@.len() == old(mem).status@.len(),
                words_grow(old(mem).status@, mem.status@),
                forall|i: int|
                    0 <= i < mem.status@.len() ==> #[trigger] mem.status@[i] & !(old(
                        mem,
                    ).status@[i] | self.mask) == 0,
                from == self.step.0,
                to == self.step.1,
                p0 == self.layout.pieces0,
                p1 == self.layout.pieces1,
                new_p0 == p0 ^ (1u32 << to) ^ (1u32 << from),
                capture == bit(p1, to),
                capture ==> new_p1 == p1 & !(1u32 << to),
                !capture ==> new_p1 == p1,
                newl == (TeamLayout { pieces0: new_p0, pieces1: new_p1 }),
                newl.wf(tcounts),
                ti < tb.list@.len(),
                tb.list[ti as int].counts == tcounts,
                tb.list[ti as int].wf(),
                base + tb.list[ti as int].chunk_size <= tb.list[ti as int].words@.len(),
                kings@.len() == newl.king_total(),
                kings@.len() <= tb.list[ti as int].chunk_size,
                forall|j: int|
                    0 <= j < kings@.len() ==> (#[trigger] kings[j]).wf(newl) && newl.king_index(
                        kings[j],
                    ) == j,
                forall|kp: KingPos|
                    kp.wf(newl) ==> 0 <= newl.king_index(kp) < kings@.len() && kings@[newl.king_index(
                        kp,
                    )] == kp,
                new_i <= kings@.len(),
                accum_newl(*self) == newl,
                accum_tcounts(*self) == tcounts,
                tb.tidx(tcounts) == ti,
                base == tb.list[ti as int].chunk_size * spec_rank(25, newl.pieces0, newl.pieces1),
                forall|k: KingPos|
                    #[trigger] k.wf(self.layout) ==> mem.status@[self.layout.king_index(k)] == (
                    if accum_applies(*self, k) && newl.king_index(accum_newk(*self, k)) < new_i {
                        old(mem).status@[self.layout.king_index(k)] | accum_delta(tb, *self, k)
                    } else {
                        old(mem).status@[self.layout.king_index(k)]
                    }),
            decreases kings@.len() - new_i,
        {
            let newk = kings[new_i];
            let mut ok0 = newk.king0;
            let mut skip = false;
            if newk.king0 == to {
                if from == 22 {
                    skip = true;
                } else {
                    ok0 = from;
                }
            }
            if !skip {
                let oldk = KingPos { king0: ok0, king1: newk.king1 };
                proof {
                    lemma_pop_move(p0, from, to);
                    if capture {
                        lemma_pop_clear(p1, to);
                    }
                    assert(oldk.wf(self.layout));
                    lemma_king_index_bound(self.layout, oldk);
                    lemma_king_total_le_chunk(newl, tcounts);
                }
                let old_i = mem.king_lookup[(ok0 as usize) * 25 + newk.king1 as usize] as usize;
                let words_len = tb.list[ti].words.len();
                proof {
                    assert(base + new_i < words_len);
                }
                let w = tb.list[ti].words[base + new_i];
                let ghost pre = mem.status@;
                let s = mem.status[old_i];
                mem.status[old_i] = s | (!w & self.mask);
                proof {
                    lemma_word_facts(s, !w & self.mask, 0);
                    let m = self.mask;
                    assert((s | (!w & m)) & !(s | m) == 0 && (!w & m) & !m == 0) by (bit_vector);
                    assert forall|i: int| 0 <= i < mem.status@.len() implies word_grows(
                        #[trigger] old(mem).status@[i],
                        mem.status@[i],
                    ) && mem.status@[i] & !(old(mem).status@[i] | self.mask) == 0 by {
                        lemma_word_facts(old(mem).status@[i], pre[i], mem.status@[i]);
                        if i == old_i {
                            let o = old(mem).status@[i];
                            let p = pre[i];
                            let m = self.mask;
                            assert((o & p == o && p & (p | (!w & m)) == p && p & !(o | m) == 0)
                                ==> (o & (p | (!w & m)) == o && (p | (!w & m)) & !(o | m)
                                == 0)) by (bit_vector);
                        }
                    }
                    // the updated slot is the one the step maps to this
                    // successor, and no other placement shares it
                    assert(accum_applies(*self, oldk) && accum_newk(*self, oldk) == newk);
                    assert(newl.king_index(accum_newk(*self, oldk)) == new_i);
                    assert(pre[old_i as int] == old(mem).status@[old_i as int]);
                    assert forall|k: KingPos| #[trigger] k.wf(self.layout) implies mem.status@[self.layout.king_index(
                        k,
                    )] == (if accum_applies(*self, k) && newl.king_index(accum_newk(*self, k))
                        < new_i + 1 {
                        old(mem).status@[self.layout.king_index(k)] | accum_delta(tb, *self, k)
                    } else {
                        old(mem).status@[self.layout.king_index(k)]
                    }) by {
                        lemma_king_index_bound(self.layout, k);
                        lemma_pop_move(p0, from, to);
                        if capture {
                            lemma_pop_clear(p1, to);
                        }
                        if accum_applies(*self, k) {
                            lemma_accum_newk_wf(*self, tb, k);
                            let nk = accum_newk(*self, k);
                            lemma_king_index_bound(newl, nk);
                            let nj = newl.king_index(nk);
                            assert(kings@[nj] == nk);
                            if nj == new_i {
                                assert(nk == newk);
                                assert(k == oldk);
                                assert(self.layout.king_index(k) == old_i);
                            } else {
                                if self.layout.king_index(k) == old_i {
                                    lemma_king_index_injective(self.layout, k, oldk);
                                }
                            }
                        } else {
                            if self.layout.king_index(k) == old_i {
                                lemma_king_index_injective(self.layout, k, oldk);
                            }
                        }
                    }
                }
            } else {
                proof {
                    // the skipped successor slot has a king on the source
                    // square 22, so no admissible source placement maps to it
                    assert forall|k: KingPos| #[trigger] k.wf(self.layout) implies mem.status@[self.layout.king_index(
                        k,
                    )] == (if accum_applies(*self, k) && newl.king_index(accum_newk(*self, k))
                        < new_i + 1 {
                        old(mem).status@[self.layout.king_index(k)] | accum_delta(tb, *self, k)
                    } else {
                        old(mem).status@[self.layout.king_index(k)]
                    }) by {
                        lemma_king_index_bound(self.layout, k);
                        lemma_pop_move(p0, from, to);
                        if capture {
                            lemma_pop_clear(p1, to);
                        }
                        if accum_applies(*self, k) {
                            lemma_accum_newk_wf(*self, tb, k);
                            let nk = accum_newk(*self, k);
                            lemma_king_index_bound(newl, nk);
                            let nj = newl.king_index(nk);
                            assert(kings@[nj] == nk);
                            if nj == new_i {
                                assert(nk == newk);
                                assert(false);
                            }
                        }
                    }
                }
            }
            new_i += 1;
        }
        proof {
            assert forall|k: KingPos| #[trigger] k.wf(self.layout) && accum_applies(
                *self,
                k,
            ) implies newl.king_index(accum_newk(*self, k)) < kings@.len() by {
                lemma_accum_newk_wf(*self, tb, k);
                lemma_king_index_bound(newl, accum_newk(*self, k));
            }
        }
    }
}

proof fn lemma_words_grow_refl(a: Seq<u32>)
    ensures
        words_grow(a, a),
{
    assert forall|i: int| 0 <= i < a.len() implies word_grows(#[trigger] a[i], a[i]) by {
        let x = a[i];
        assert(x & x == x) by (bit_vector);
    }
}

proof fn lemma_status_frame(a: Seq<u32>, m: u32)
    ensures
        forall|i: int| 0 <= i < a.len() ==> #[trigger] a[i] & !(a[i] | m) == 0,
{
    assert forall|i: int| 0 <= i < a.len() implies #[trigger] a[i] & !(a[i] | m) == 0 by {
        let x = a[i];
        assert(x & !(x | m) == 0) by (bit_vector);
    }
}

} // verus!

verus! {

/// One retrograde step of the spread pass: a side-1 piece stood on `step.1`
/// in the predecessor and moved to `step.0`; newly proven losses of the
/// current layout become wins of the predecessor's king slots.
pub struct Spread {
    pub layout: TeamLayout,
    pub current: PawnCount,
    pub leave_one: Option<PawnCount>,
    pub go_up: bool,
    pub step: (u32, u32),
}

/// Whether a spread step reaches a given predecessor king placement: the
/// uncapture bucket must exist, the predecessor's king may not cross its own
/// temple, and its first king cannot stand on the square being vacated.
pub open spec fn spread_applies(sp: Spread, kp: KingPos) -> bool {
    &&& !(sp.go_up && sp.leave_one.is_none())
    &&& !(kp.king1 == sp.step.1 && sp.step.0 == 2)
    &&& kp.king0 != sp.step.0
}

/// The bucket the predecessor position lives in.
pub open spec fn spread_tcounts(sp: Spread) -> PawnCount {
    if sp.go_up {
        sp.leave_one.unwrap()
    } else {
        sp.current
    }
}

/// The predecessor layout: the moved side-1 piece put back, and an uncaptured
/// side-0 piece added on the vacated square when going up.
pub open spec fn spread_newl(sp: Spread) -> TeamLayout {
    TeamLayout {
        pieces0: if sp.go_up {
            sp.layout.pieces0 | (1u32 << sp.step.0)
        } else {
            sp.layout.pieces0
        },
        pieces1: sp.layout.pieces1 ^ (1u32 << sp.step.1) ^ (1u32 << sp.step.0),
    }
}

/// The current-layout king placement a predecessor placement came from.
pub open spec fn spread_oldk(sp: Spread, kp: KingPos) -> KingPos {
    KingPos {
        king0: kp.king0,
        king1: if kp.king1 == sp.step.1 {
            sp.step.0
        } else {
            kp.king1
        },
    }
}

/// An applicable spread step draws its predecessor placement from a
/// well-formed placement of the current layout.
proof fn lemma_spread_oldk_wf(sp: Spread, tb: &AllTables, kp: KingPos)
    requires
        sp.wf(tb),
        kp.wf(spread_newl(sp)),
        spread_applies(sp, kp),
    ensures
        spread_oldk(sp, kp).wf(sp.layout),
{
    lemma_pop_move(sp.layout.pieces1, sp.step.0, sp.step.1);
    if sp.go_up {
        let p0 = sp.layout.pieces0;
        let p1 = sp.layout.pieces1;
        let from = sp.step.0;
        assert(!(p0 >> from & 1 == 1)) by (bit_vector)
            requires
                p0 & p1 == 0,
                p1 >> from & 1 == 1,
                from < 25,
        ;
        lemma_pop_set(sp.layout.pieces0, sp.step.0);
    }
}

impl Spread {
    pub open spec fn wf(&self, tb: &AllTables) -> bool {
        &&& self.current.count0 < tb.size
        &&& self.current.count1 < tb.size
        &&& self.layout.wf(self.current)
        &&& match self.leave_one {
            Some(c) => c.count0 == self.current.count0 + 1 && c.count1 == self.current.count1
                && c.count0 < tb.size,
            None => self.current.count0 + 1 == tb.size,
        }
        &&& self.step.0 < 25
        &&& self.step.1 < 25
        &&& self.step.0 != self.step.1
        &&& bit(self.layout.pieces1, self.step.0)
        &&& !bit(self.layout.pieces0, self.step.1)
        &&& !bit(self.layout.pieces1, self.step.1)
    }

    /// Or each king slot's win word into the matching slot of the predecessor
    /// layout's chunk.  Tables only grow; the result reports whether any word
    /// changed.
    pub fn spreadout(&self, tb: &mut AllTables, mem: &LocalMem) -> (r: bool)
        requires
            old(tb).wf(),
            self.wf(old(tb)),
            mem.lookup_ok(self.layout),
            mem.wins@.len() == self.layout.king_total(),
            forall|i: int| 0 <= i < mem.wins@.len() ==> #[trigger] mem.wins@[i] & !BLOCK_MASK == 0,
        ensures
            final(tb).wf(),
            tables_grow(old(tb), final(tb)),
            r == !tables_same(old(tb), final(tb)),
            self.go_up && self.leave_one.is_none() ==> r == false && *final(tb) == *old(tb),
            forall|t: int|
                0 <= t < old(tb).list@.len() && t != old(tb).tidx(spread_tcounts(*self))
                    ==> final(tb).list@[t] == old(tb).list@[t],
            forall|i: int|
                (0 <= i < old(tb).list@[old(tb).tidx(spread_tcounts(*self))].words@.len() && !(
                old(tb).list@[old(tb).tidx(spread_tcounts(*self))].chunk_size * spec_rank(
                    25,
                    spread_newl(*self).pieces0,
                    spread_newl(*self).pieces1,
                ) <= i < old(tb).list@[old(tb).tidx(spread_tcounts(*self))].chunk_size * spec_rank(
                    25,
                    spread_newl(*self).pieces0,
                    spread_newl(*self).pieces1,
                ) + spread_newl(*self).king_total()) && !(self.go_up && self.leave_one.is_none()))
                    ==> #[trigger] final(tb).list@[old(tb).tidx(spread_tcounts(*self))].words@[i]
                    == old(tb).list@[old(tb).tidx(spread_tcounts(*self))].words@[i],
            forall|kp: KingPos|
                #[trigger] kp.wf(spread_newl(*self)) ==> ({
                    let tix = old(tb).tidx(spread_tcounts(*self));
                    let t0 = old(tb).list@[tix];
                    let nl = spread_newl(*self);
                    let i = t0.chunk_size * spec_rank(25, nl.pieces0, nl.pieces1) + nl.king_index(
                        kp,
                    );
                    final(tb).list@[tix].words@[i] == (if spread_applies(*self, kp) {
                        t0.words@[i] | mem.wins@[self.layout.king_index(spread_oldk(*self, kp))]
                    } else {
                        t0.words@[i]
                    })
                }),
    {
        let (from, to) = self.step;
        let p0 = self.layout.pieces0;
        let p1 = self.layout.pieces1;
        let new_p1 = p1 ^ (1u32 << to) ^ (1u32 << from);
        proof {
            lemma_pop_move(p1, from, to);
            lemma_pop_high_zero(p1);
            lemma_grow_refl(tb);
        }
        if self.go_up && self.leave_one.is_none() {
            return false;
        }
        let tcounts = if self.go_up {
            self.leave_one.unwrap()
        } else {
            self.current
        };
        let new_p0 = if self.go_up {
            proof {
                assert(!(p0 >> from & 1 == 1)) by (bit_vector)
                    requires
                        p0 & p1 == 0,
                        p1 >> from & 1 == 1,
                        from < 25,
                ;
                lemma_pop_set(p0, from);
                lemma_pop_high_zero(p0);
            }
            p0 | (1u32 << from)
        } else {
            p0
        };
        let newl = TeamLayout { pieces0: new_p0, pieces1: new_p1 };
        proof {
            assert(new_p1 < 0x2000000 && new_p0 & new_p1 == 0 && (p0 | (1u32 << from)) < 0x2000000)
                by (bit_vector)
                requires
                    p0 < 0x2000000,
                    p1 < 0x2000000,
                    p0 & p1 == 0,
                    from < 25,
                    to < 25,
                    p1 >> from & 1 == 1,
                    !(p1 >> to & 1 == 1),
                    !(p0 >> to & 1 == 1),
                    new_p1 == p1 ^ (1u32 << to) ^ (1u32 << from),
                    new_p0 == (if p0 >> from & 1 == 1 {
                        p0
                    } else {
                        p0 | (1u32 << from)
                    }) || new_p0 == p0,
            ;
            lemma_pop_high_zero(new_p1);
            assert(newl.wf(tcounts));
        }
        let ti = tb.index_count(tcounts);
        let base = tb.list[ti].index(&tb.comb, &newl).base;
        let ki = newl.indexer();
        let kings = ki.enumerate();
        let mut new_i: usize = 0;
        let mut progress = false;
        proof {
            lemma_king_total_le_chunk(newl, tcounts);
        }
        while new_i < kings.len()
            invariant
                old(tb).wf(),
                tb.wf(),
                self.wf(old(tb)),
                tables_grow(old(tb), tb),
                progress == !tables_same(old(tb), tb),
                mem.lookup_ok(self.layout),
                mem.wins@.len() == self.layout.king_total(),
                forall|i: int|
                    0 <= i < mem.wins@.len() ==> #[trigger] mem.wins@[i] & !BLOCK_MASK == 0,
                from == self.step.0,
                to == self.step.1,
                p0 == self.layout.pieces0,
                p1 == self.layout.pieces1,
                new_p1 == p1 ^ (1u32 << to) ^ (1u32 << from),
                self.go_up ==> new_p0 == p0 | (1u32 << from),
                !self.go_up ==> new_p0 == p0,
                newl == (TeamLayout { pieces0: new_p0, pieces1: new_p1 }),
                newl.wf(tcounts),
                ti < tb.list@.len(),
                tb.list[ti as int].counts == tcounts,
                base + tb.list[ti as int].chunk_size <= tb.list[ti as int].words@.len(),
                kings@.len() == newl.king_total(),
                kings@.len() <= tb.list[ti as int].chunk_size,
                forall|j: int|
                    0 <= j < kings@.len() ==> (#[trigger] kings[j]).wf(newl) && newl.king_index(
                        kings[j],
                    ) == j,
                forall|kp: KingPos|
                    kp.wf(newl) ==> 0 <= newl.king_index(kp) < kings@.len() && kings@[newl.king_index(
                        kp,
                    )] == kp,
                new_i <= kings@.len(),
                spread_newl(*self) == newl,
                spread_tcounts(*self) == tcounts,
                old(tb).tidx(spread_tcounts(*self)) == ti,
                base == tb.list[ti as int].chunk_size * spec_rank(25, newl.pieces0, newl.pieces1),
                forall|t: int|
                    0 <= t < old(tb).list@.len() && t != ti ==> tb.list@[t] == old(tb).list@[t],
                forall|i: int|
                    (0 <= i < old(tb).list@[ti as int].words@.len() && !(base <= i < base
                        + kings@.len())) ==> #[trigger] tb.list@[ti as int].words@[i] == old(
                        tb,
                    ).list@[ti as int].words@[i],
                forall|kp: KingPos|
                    #[trigger] kp.wf(newl) ==> ({
                        let i = base + newl.king_index(kp);
                        tb.list@[ti as int].words@[i] == (if spread_applies(*self, kp)
                            && newl.king_index(kp) < new_i {
                            old(tb).list@[ti as int].words@[i] | mem.wins@[self.layout.king_index(
                                spread_oldk(*self, kp),
                            )]
                        } else {
                            old(tb).list@[ti as int].words@[i]
                        })
                    }),
            decreases kings@.len() - new_i,
        {
            let newk = kings[new_i];
            let ghost tb_iter = *tb;
            let mut ok1 = newk.king1;
            let mut skip = false;
            if newk.king1 == to {
                if from == 2 {
                    skip = true;
                } else {
                    ok1 = from;
                }
            }
            if !skip && newk.king0 == from {
                skip = true;
            }
            if !skip {
                let oldk = KingPos { king0: newk.king0, king1: ok1 };
                proof {
                    lemma_pop_move(p1, from, to);
                    if self.go_up {
                        assert(!(p0 >> from & 1 == 1)) by (bit_vector)
                            requires
                                p0 & p1 == 0,
                                p1 >> from & 1 == 1,
                                from < 25,
                        ;
                        lemma_pop_set(p0, from);
                    }
                    assert(oldk.wf(self.layout));
                    lemma_king_index_bound(self.layout, oldk);
                }
                let old_i = mem.king_lookup[(newk.king0 as usize) * 25 + ok1 as usize] as usize;
                let tmp = mem.wins[old_i];
                let words_len = tb.list[ti].words.len();
                proof {
                    assert(base + new_i < words_len);
                }
                let idx = base + new_i;
                let fetch = tb.list[ti].words[idx];
                if fetch | tmp != fetch {
                    let ghost pre = *tb;
                    proof {
                        pre.lemma_table_entry(ti as int);
                    }
                    tb.list[ti].words[idx] = fetch | tmp;
                    progress = true;
                    proof {
                        lemma_word_facts(fetch, tmp, 0);
                        assert(word_ok(fetch | tmp));
                        assert(tb.list[ti as int].wf()) by {
                            assert forall|i: int|
                                0 <= i < tb.list[ti as int].words@.len() implies word_ok(
                                #[trigger] tb.list[ti as int].words[i],
                            ) by {
                                if i != idx {
                                    assert(tb.list[ti as int].words[i] == pre.list[
                                    ti as int].words[i]);
                                }
                            }
                        }
                        assert(tb.wf()) by {
                            assert forall|c0: int, c1: int|
                                0 <= c0 < tb.size && 0 <= c1 < tb.size implies {
                                &&& (#[trigger] tb.list[c0 * tb.size + c1]).wf()
                                &&& tb.list[c0 * tb.size + c1].counts == (PawnCount {
                                    count0: c0 as u32,
                                    count1: c1 as u32,
                                })
                            } by {
                                assert(0 <= c0 * pre.size + c1 < pre.size
                                    * pre.size) by (nonlinear_arith)
                                    requires
                                        0 <= c0 < pre.size && 0 <= c1 < pre.size,
                                ;
                                assert(pre.list[c0 * pre.size + c1].wf());
                                if c0 * pre.size + c1 != ti {
                                    assert(tb.list[c0 * tb.size + c1] == pre.list[c0 * pre.size
                                        + c1]);
                                }
                            }
                        }
                        assert(tables_grow(old(tb), tb)) by {
                            assert forall|t: int| 0 <= t < old(tb).list@.len() implies words_grow(
                                (#[trigger] old(tb).list[t]).words@,
                                tb.list[t].words@,
                            ) by {
                                assert(words_grow(old(tb).list[t].words@, pre.list[t].words@));
                                assert forall|i: int|
                                    0 <= i < old(tb).list[t].words@.len() implies word_grows(
                                    #[trigger] old(tb).list[t].words@[i],
                                    tb.list[t].words@[i],
                                ) by {
                                    lemma_word_facts(
                                        old(tb).list[t].words@[i],
                                        pre.list[t].words@[i],
                                        tb.list[t].words@[i],
                                    );
                                }
                            }
                        }
                        assert(!tables_same(old(tb), tb)) by {
                            lemma_word_facts(
                                old(tb).list[ti as int].words@[idx as int],
                                pre.list[ti as int].words@[idx as int],
                                tb.list[ti as int].words@[idx as int],
                            );
                            assert(old(tb).list[ti as int].words@[idx as int] != tb.list[
                                ti as int].words@[idx as int]);
                            assert(old(tb).list[ti as int].words@ != tb.list[ti as int].words@);
                        }
                        assert(spread_applies(*self, newk) && spread_oldk(*self, newk) == oldk);
                        assert(fetch == old(tb).list@[ti as int].words@[idx as int]);
                        assert forall|i: int|
                            (0 <= i < old(tb).list@[ti as int].words@.len() && !(base <= i < base
                                + kings@.len())) implies #[trigger] tb.list@[ti as int].words@[i]
                            == old(tb).list@[ti as int].words@[i] by {
                            assert(i != idx);
                            assert(tb.list@[ti as int].words@[i] == pre.list@[ti as int].words@[i]);
                        }
                        lemma_spread_slot(
                            *self,
                            old(tb),
                            &tb_iter,
                            tb,
                            newl,
                            kings@,
                            base,
                            ti as int,
                            new_i as int,
                            mem.wins@,
                            self.layout,
                        );
                    }
                } else {
                    proof {
                        assert(spread_applies(*self, newk) && spread_oldk(*self, newk) == oldk);
                        assert(tb.list@[ti as int].words@[idx as int] == old(tb).list@[
                        ti as int].words@[idx as int] | tmp) by {
                            assert(fetch | tmp == fetch);
                            assert(fetch == old(tb).list@[ti as int].words@[idx as int]);
                        }
                        lemma_spread_slot(
                            *self,
                            old(tb),
                            &tb_iter,
                            tb,
                            newl,
                            kings@,
                            base,
                            ti as int,
                            new_i as int,
                            mem.wins@,
                            self.layout,
                        );
                    }
                }
            } else {
                proof {
                    assert(!spread_applies(*self, kings@[new_i as int]));
                    lemma_spread_slot(
                        *self,
                        old(tb),
                        &tb_iter,
                        tb,
                        newl,
                        kings@,
                        base,
                        ti as int,
                        new_i as int,
                        mem.wins@,
                        self.layout,
                    );
                }
            }
            new_i += 1;
        }
        progress
    }
}

/// Advancing the spread loop by one slot: the slot just handled now carries
/// its final value, and every other slot is as it was.
proof fn lemma_spread_slot(
    sp: Spread,
    start: &AllTables,
    before: &AllTables,
    after: &AllTables,
    newl: TeamLayout,
    kings: Seq<KingPos>,
    base: usize,
    ti: int,
    new_i: int,
    wins: Seq<u32>,
    layout: TeamLayout,
)
    requires
        layout == sp.layout,
        newl == spread_newl(sp),
        0 <= ti < start.list@.len(),
        0 <= new_i < kings.len(),
        kings.len() == newl.king_total(),
        forall|j: int|
            0 <= j < kings.len() ==> (#[trigger] kings[j]).wf(newl) && newl.king_index(kings[j])
                == j,
        forall|kp: KingPos|
            kp.wf(newl) ==> 0 <= newl.king_index(kp) < kings.len() && kings[newl.king_index(kp)]
                == kp,
        // slots below new_i already carry their final value
        forall|kp: KingPos|
            #[trigger] kp.wf(newl) ==> ({
                let i = base + newl.king_index(kp);
                before.list@[ti].words@[i] == (if spread_applies(sp, kp) && newl.king_index(kp)
                    < new_i {
                    start.list@[ti].words@[i] | wins[layout.king_index(spread_oldk(sp, kp))]
                } else {
                    start.list@[ti].words@[i]
                })
            }),
        // this iteration changed at most the handled slot, and gave it its
        // final value when the step applies to it
        forall|i: int|
            0 <= i < before.list@[ti].words@.len() && i != base + new_i
                ==> after.list@[ti].words@[i] == before.list@[ti].words@[i],
        after.list@[ti].words@.len() == before.list@[ti].words@.len(),
        base + kings.len() <= before.list@[ti].words@.len(),
        spread_applies(sp, kings[new_i]) ==> after.list@[ti].words@[base + new_i] == start.list@[
            ti].words@[base + new_i] | wins[layout.king_index(spread_oldk(sp, kings[new_i]))],
        !spread_applies(sp, kings[new_i]) ==> after.list@[ti].words@[base + new_i]
            == before.list@[ti].words@[base + new_i],
    ensures
        forall|kp: KingPos|
            #[trigger] kp.wf(newl) ==> ({
                let i = base + newl.king_index(kp);
                after.list@[ti].words@[i] == (if spread_applies(sp, kp) && newl.king_index(kp)
                    < new_i + 1 {
                    start.list@[ti].words@[i] | wins[layout.king_index(spread_oldk(sp, kp))]
                } else {
                    start.list@[ti].words@[i]
                })
            }),
{
    assert forall|kp: KingPos| #[trigger] kp.wf(newl) implies ({
        let i = base + newl.king_index(kp);
        after.list@[ti].words@[i] == (if spread_applies(sp, kp) && newl.king_index(kp) < new_i
            + 1 {
            start.list@[ti].words@[i] | wins[layout.king_index(spread_oldk(sp, kp))]
        } else {
            start.list@[ti].words@[i]
        })
    }) by {
        let j = newl.king_index(kp);
        if j == new_i {
            assert(kings[j] == kp);
        }
    }
}

} // verus!

verus! {

/// What one layout pass reports: whether any table word changed, and whether
/// any of the layout's sub-verdicts is still open.
pub struct UpdateStatus {
    pub progress: bool,
    pub unresolved: u64,
}

/// The bucket context a layout pass runs in: the bucket itself, its inverse,
/// the bucket captures lead to, the bucket uncaptures lead to, and whether
/// this is the final uncapture pass.
#[derive(Clone, Copy, Debug, PartialEq, Eq, Structural)]
pub struct ImmutableUpdate {
    pub current: PawnCount,
    pub inv_current: PawnCount,
    pub take_one: Option<PawnCount>,
    pub leave_one: Option<PawnCount>,
    pub go_up: bool,
}

impl ImmutableUpdate {
    pub open spec fn wf(&self, tb: &AllTables) -> bool {
        &&& self.current.count0 < tb.size
        &&& self.current.count1 < tb.size
        &&& self.inv_current == self.current.invert_spec()
        &&& match self.take_one {
            Some(c) => self.current.count1 > 0 && c.count0 == self.current.count0 && c.count1 + 1
                == self.current.count1,
            None => self.current.count1 == 0,
        }
        &&& match self.leave_one {
            Some(c) => c.count0 == self.current.count0 + 1 && c.count1 == self.current.count1
                && c.count0 < tb.size,
            None => self.current.count0 + 1 == tb.size,
        }
    }
}

/// One layout's worth of work: the layout and its bucket context.
pub struct Update {
    pub layout: TeamLayout,
    pub immutable: ImmutableUpdate,
}

/// How many of the first `n` slots' arrangements are covered by neither the
/// inverted win word nor the loss status: the still-open sub-verdicts.
pub open spec fn open_pairs(wins: Seq<u32>, status: Seq<u32>, n: int) -> int
    decreases n,
{
    if n <= 0 {
        0
    } else {
        open_pairs(wins, status, n - 1) + (30 - pop(
            (spec_invert(wins[n - 1]) | status[n - 1]) & BLOCK_MASK,
        ))
    }
}

/// Whether the first `n` slots have every arrangement covered by the inverted
/// win word or the loss status.
pub open spec fn slots_decided(wins: Seq<u32>, status: Seq<u32>, n: int) -> bool
    decreases n,
{
    if n <= 0 {
        true
    } else {
        slots_decided(wins, status, n - 1) && (spec_invert(wins[n - 1]) | status[n - 1])
            & BLOCK_MASK == BLOCK_MASK
    }
}

/// Bit facts behind the statistics: folding with `and` tracks whether every
/// word covered the 30-bit field, masking a word before `or` changes nothing,
/// and `or` with zero is the identity.
pub proof fn lemma_stat_bits(a: u32, v: u32)
    ensures
        ((a & v) & BLOCK_MASK == BLOCK_MASK) <==> (a & BLOCK_MASK == BLOCK_MASK && v & BLOCK_MASK
            == BLOCK_MASK),
        BLOCK_MASK & BLOCK_MASK == BLOCK_MASK,
        BLOCK_MASK & !BLOCK_MASK == 0,
        a & !BLOCK_MASK == 0 ==> (a & v) & !BLOCK_MASK == 0,
        a & !BLOCK_MASK == 0 ==> ((a == BLOCK_MASK) <==> (a & BLOCK_MASK == BLOCK_MASK)),
        (a | (v & !a)) == (a | v),
        0u32 | a == a,
        a | 0u32 == a,
{
    assert((((a & v) & 0x3FFFFFFFu32 == 0x3FFFFFFF) <==> (a & 0x3FFFFFFFu32 == 0x3FFFFFFF && v
        & 0x3FFFFFFFu32 == 0x3FFFFFFF)) && 0x3FFFFFFFu32 & 0x3FFFFFFF == 0x3FFFFFFF
        && 0x3FFFFFFFu32 & !0x3FFFFFFFu32 == 0 && (a
        & !0x3FFFFFFFu32 == 0 ==> (a & v) & !0x3FFFFFFFu32 == 0) && (a & !0x3FFFFFFFu32 == 0 ==> ((
    a == 0x3FFFFFFF) <==> (a & 0x3FFFFFFFu32 == 0x3FFFFFFF))) && (a | (v & !a)) == (a | v) && 0u32
        | a == a && a | 0u32 == a) by (bit_vector);
}

/// The stored verdict word of a position as seen from the other side: the
/// entry of the inverted placement in the inverted bucket's table.
pub open spec fn inv_entry(tb: &AllTables, u: Update, k: KingPos) -> u32 {
    let invl = u.layout.invert_spec();
    let t = tb.list@[tb.tidx(u.immutable.inv_current)];
    t.words@[t.chunk_size * spec_rank(25, invl.pieces0, invl.pieces1) + invl.king_index(
        k.invert_spec(),
    )]
}

/// The accumulate step a layout pass runs for direction `d` and target `to`.
pub open spec fn accum_of(tb: &AllTables, u: Update, d: u32, to: u32) -> Accum {
    Accum {
        layout: u.layout,
        current: u.immutable.current,
        take_one: u.immutable.take_one,
        mask: tb.mask_lookup@[d as int],
        step: ((to + 12 - d) as u32, to),
    }
}

/// Whether direction `d` admits a side-0 move onto `to`: both squares on the
/// board, the source held and the target free.
pub open spec fn accum_step_ok(u: Update, d: u32, to: u32) -> bool {
    &&& to < 25
    &&& to + 12 >= d
    &&& to + 12 - d < 25
    &&& to + 12 - d != to
    &&& bit(u.layout.pieces0, (to + 12 - d) as u32)
    &&& !bit(u.layout.pieces0, to)
}

/// The raw not-lost word of one source slot after the first `n` targets of
/// direction `d`, continuing from `start`.
pub open spec fn loss_fold_tos(
    tb: &AllTables,
    u: Update,
    k: KingPos,
    d: u32,
    tos: Seq<u32>,
    n: int,
    start: u32,
) -> u32
    decreases n,
{
    if n <= 0 {
        start
    } else {
        let prev = loss_fold_tos(tb, u, k, d, tos, n - 1, start);
        let to = tos[n - 1];
        if accum_step_ok(u, d, to) && accum_applies(accum_of(tb, u, d, to), k) {
            prev | accum_delta(tb, accum_of(tb, u, d, to), k)
        } else {
            prev
        }
    }
}

/// The raw not-lost word of one source slot after the first `n` directions.
pub open spec fn loss_fold_dirs(tb: &AllTables, u: Update, k: KingPos, dirs: Seq<u32>, n: int) -> u32
    decreases n,
{
    if n <= 0 {
        0u32
    } else {
        let prev = loss_fold_dirs(tb, u, k, dirs, n - 1);
        let d = dirs[n - 1];
        if d < 25 {
            let tm = spec_offset_mask_fixed(d as int, u.layout.pieces0) & !u.layout.pieces0;
            loss_fold_tos(tb, u, k, d, bit_seq(tm, 0), bit_seq(tm, 0).len() as int, prev)
        } else {
            prev
        }
    }
}

/// The lost-mask of one source slot: every move reaching an already-won
/// successor contributes its not-lost bits; what no move saves is lost.
pub open spec fn lost_mask(tb: &AllTables, u: Update, k: KingPos) -> u32 {
    let dirs = bit_seq(tb.directions, 0);
    !spec_invert(spec_expand(spec_invert(loss_fold_dirs(tb, u, k, dirs, dirs.len() as int))))
}

/// The final loss status of one source slot: the lost-mask minus the
/// arrangements its own stored word already marks won.
pub open spec fn status_of(tb: &AllTables, u: Update, k: KingPos) -> u32 {
    lost_mask(tb, u, k) & !spec_invert(inv_entry(tb, u, k))
}

/// Whether every arrangement of one slot is decided: covered by the win word
/// or the lost-mask.
pub open spec fn slot_decided(tb: &AllTables, u: Update, k: KingPos) -> bool {
    (spec_invert(inv_entry(tb, u, k)) | lost_mask(tb, u, k)) & BLOCK_MASK == BLOCK_MASK
}

/// How many arrangements of the first `n` slots of the layout are open:
/// neither won nor lost.
pub open spec fn open_sum(tb: &AllTables, u: Update, n: int) -> int
    decreases n,
{
    if n <= 0 {
        0
    } else {
        open_sum(tb, u, n - 1) + (30 - pop(
            (spec_invert(inv_entry(tb, u, king_at(u.layout, n - 1))) | lost_mask(
                tb,
                u,
                king_at(u.layout, n - 1),
            )) & BLOCK_MASK,
        ))
    }
}

/// The number of open sub-verdicts of the whole layout.
pub open spec fn unresolved_of(tb: &AllTables, u: Update) -> int {
    open_sum(tb, u, u.layout.king_total())
}

/// When the scratch vectors hold each slot's stored word and lost-mask in
/// index order, the index-wise statistics agree with the placement-wise ones.
proof fn lemma_open_bridge(tb: &AllTables, u: Update, wins: Seq<u32>, status: Seq<u32>, n: int)
    requires
        0 <= n,
        forall|j: int|
            0 <= j < n ==> #[trigger] wins[j] == inv_entry(tb, u, king_at(u.layout, j))
                && status[j] == lost_mask(tb, u, king_at(u.layout, j)),
    ensures
        open_pairs(wins, status, n) == open_sum(tb, u, n),
        slots_decided(wins, status, n) <==> (forall|j: int|
            0 <= j < n ==> (spec_invert(#[trigger] wins[j]) | status[j]) & BLOCK_MASK
                == BLOCK_MASK),
    decreases n,
{
    if n > 0 {
        lemma_open_bridge(tb, u, wins, status, n - 1);
    }
}

impl Update {
    pub open spec fn wf(&self, tb: &AllTables) -> bool {
        &&& self.immutable.wf(tb)
        &&& self.layout.wf(self.immutable.current)
    }

    /// Compute the loss statuses of this layout from the verdicts of every
    /// successor position, then intersect away the already-won arrangements.
    /// Returns, when counting, how many sub-verdicts are still open, and
    /// otherwise whether any king slot is unresolved.
    pub fn get_unresolved(&self, tb: &AllTables, mem: &mut LocalMem, count_all: bool) -> (r: u64)
        requires
            tb.wf(),
            self.wf(tb),
            old(mem).king_lookup@.len() == 625,
        ensures
            final(mem).lookup_ok(self.layout),
            final(mem).status@.len() == self.layout.king_total(),
            final(mem).wins@.len() == self.layout.king_total(),
            forall|k: KingPos|
                #[trigger] k.wf(self.layout) ==> final(mem).wins@[self.layout.king_index(k)]
                    == inv_entry(tb, *self, k),
            forall|k: KingPos|
                #[trigger] k.wf(self.layout) ==> final(mem).status@[self.layout.king_index(k)]
                    == status_of(tb, *self, k),
            count_all ==> r == unresolved_of(tb, *self),
            !count_all ==> ((r == 0) <==> (forall|k: KingPos|
                #[trigger] k.wf(self.layout) ==> slot_decided(tb, *self, k))),
            !count_all ==> r <= 1,
            count_all ==> r <= 1080,
    {
        let counts = self.immutable.current;
        let ki = self.layout.indexer();
        let kings = ki.enumerate();
        proof {
            lemma_king_total_le_chunk(self.layout, counts);
            assert((counts.count0 + 1) * (counts.count1 + 1) <= 25) by (nonlinear_arith)
                requires
                    counts.count0 <= 4 && counts.count1 <= 4,
            ;
        }
        mem.fill_lookup(self.layout, &kings);
        let total = kings.len();
        let mut st: Vec<u32> = Vec::new();
        let mut i: usize = 0;
        while i < total
            invariant
                i <= total,
                st@.len() == i,
                forall|j: int| 0 <= j < i ==> st@[j] == 0u32,
            decreases total - i,
        {
            st.push(0);
            i += 1;
        }
        mem.status = st;
        proof {
            assert forall|k: KingPos| #[trigger] k.wf(self.layout) implies 0 <= self.layout.king_index(
                k,
            ) < mem.status@.len() && mem.status@[self.layout.king_index(k)] == 0u32 by {
                lemma_king_index_bound(self.layout, k);
            }
        }
        let mut wn: Vec<u32> = Vec::new();
        let mut i2: usize = 0;
        while i2 < total
            invariant
                i2 <= total,
                wn@.len() == i2,
                forall|j: int| 0 <= j < i2 ==> wn@[j] == 0u32,
            decreases total - i2,
        {
            wn.push(0);
            i2 += 1;
        }
        mem.wins = wn;
        proof {
            assert forall|k: KingPos| #[trigger] k.wf(self.layout) implies 0 <= self.layout.king_index(
                k,
            ) < mem.wins@.len() && mem.wins@[self.layout.king_index(k)] == 0u32 by {
                lemma_king_index_bound(self.layout, k);
            }
        }
        // load the inverted position's verdicts: the same placements with the
        // other side to move
        let inv_layout = self.layout.invert();
        proof {
            crate::model::lemma_teamlayout_invert_involution(self.layout, counts);
        }
        let iti = tb.index_count(self.immutable.inv_current);
        let ibase = tb.list[iti].index(&tb.comb, &inv_layout).base;
        let iki = inv_layout.indexer();
        let ikings = iki.enumerate();
        proof {
            lemma_king_total_le_chunk(inv_layout, self.immutable.inv_current);
        }
        let mut inv_i: usize = 0;
        while inv_i < ikings.len()
            invariant
                tb.wf(),
                self.wf(tb),
                mem.lookup_ok(self.layout),
                mem.status@.len() == self.layout.king_total(),
                mem.wins@.len() == self.layout.king_total(),
                inv_layout == self.layout.invert_spec(),
                inv_layout.wf(self.immutable.inv_current),
                inv_layout.invert_spec() == self.layout,
                iti < tb.list@.len(),
                tb.list[iti as int].counts == self.immutable.inv_current,
                ibase + tb.list[iti as int].chunk_size <= tb.list[iti as int].words@.len(),
                ikings@.len() == inv_layout.king_total(),
                ikings@.len() <= tb.list[iti as int].chunk_size,
                forall|k: KingPos|
                    #[trigger] k.wf(self.layout) ==> mem.status@[self.layout.king_index(k)]
                        == 0u32,
                forall|j: int|
                    0 <= j < ikings@.len() ==> (#[trigger] ikings[j]).wf(inv_layout)
                        && inv_layout.king_index(ikings[j]) == j,
                forall|q: KingPos|
                    q.wf(inv_layout) ==> 0 <= inv_layout.king_index(q) < ikings@.len()
                        && ikings@[inv_layout.king_index(q)] == q,
                inv_i <= ikings@.len(),
                tb.tidx(self.immutable.inv_current) == iti,
                ibase == tb.list[iti as int].chunk_size * spec_rank(
                    25,
                    inv_layout.pieces0,
                    inv_layout.pieces1,
                ),
                forall|k: KingPos|
                    #[trigger] k.wf(self.layout) ==> mem.wins@[self.layout.king_index(k)] == (
                    if inv_layout.king_index(k.invert_spec()) < inv_i {
                        inv_entry(tb, *self, k)
                    } else {
                        0u32
                    }),
            decreases ikings@.len() - inv_i,
        {
            let kp = ikings[inv_i];
            let kinv = kp.invert();
            proof {
                crate::model::lemma_kingpos_invert_involution(
                    kp,
                    inv_layout,
                    self.immutable.inv_current,
                );
                lemma_king_index_bound(self.layout, kinv);
            }
            let slot = mem.king_lookup[(kinv.king0 as usize) * 25 + kinv.king1 as usize] as usize;
            let words_len = tb.list[iti].words.len();
            proof {
                assert(ibase + inv_i < words_len);
            }
            let w = tb.list[iti].words[ibase + inv_i];
            let ghost pre_wins = mem.wins@;
            mem.wins[slot] = w;
            proof {
                assert forall|k: KingPos| #[trigger] k.wf(self.layout) implies mem.wins@[self.layout.king_index(
                    k,
                )] == (if inv_layout.king_index(k.invert_spec()) < inv_i + 1 {
                    inv_entry(tb, *self, k)
                } else {
                    0u32
                }) by {
                    lemma_king_index_bound(self.layout, k);
                    crate::model::lemma_kingpos_invert_involution(
                        k,
                        self.layout,
                        self.immutable.current,
                    );
                    lemma_king_index_bound(inv_layout, k.invert_spec());
                    let nj = inv_layout.king_index(k.invert_spec());
                    assert(ikings@[nj] == k.invert_spec());
                    if nj == inv_i {
                        // this is the placement the handled entry belongs to
                        assert(k.invert_spec() == kp);
                        assert(k == kinv);
                        assert(self.layout.king_index(k) == slot);
                    } else {
                        if self.layout.king_index(k) == slot {
                            lemma_king_index_injective(self.layout, k, kinv);
                        }
                    }
                }
            }
            inv_i += 1;
        }
        proof {
            assert forall|k: KingPos| #[trigger] k.wf(self.layout) implies mem.wins@[self.layout.king_index(
                k,
            )] == inv_entry(tb, *self, k) by {
                crate::model::lemma_kingpos_invert_involution(
                    k,
                    self.layout,
                    self.immutable.current,
                );
                lemma_king_index_bound(inv_layout, k.invert_spec());
            }
        }
        // accumulate over every direction and every target square
        let dirs = bit_positions(tb.directions);
        let mut di: usize = 0;
        while di < dirs.len()
            invariant
                tb.wf(),
                self.wf(tb),
                mem.lookup_ok(self.layout),
                mem.status@.len() == self.layout.king_total(),
                mem.wins@.len() == self.layout.king_total(),
                forall|k: KingPos|
                    #[trigger] k.wf(self.layout) ==> mem.wins@[self.layout.king_index(k)]
                        == inv_entry(tb, *self, k),
                dirs@ == bit_seq(tb.directions, 0),
                di <= dirs@.len(),
                forall|k: KingPos|
                    #[trigger] k.wf(self.layout) ==> mem.status@[self.layout.king_index(k)]
                        == loss_fold_dirs(tb, *self, k, dirs@, di as int),
            decreases dirs@.len() - di,
        {
            let d = dirs[di];
            proof {
                lemma_bit_seq(tb.directions, 0);
            }
            if d < 25 {
                let mask = tb.mask_lookup[d as usize];
                let p0 = self.layout.pieces0;
                let to_mask = offset_mask_fixed(d as usize, p0) & !p0;
                let tos = bit_positions(to_mask);
                let mut toi: usize = 0;
                while toi < tos.len()
                    invariant
                        tb.wf(),
                        self.wf(tb),
                        mem.lookup_ok(self.layout),
                        mem.status@.len() == self.layout.king_total(),
                        mem.wins@.len() == self.layout.king_total(),
                        forall|k: KingPos|
                            #[trigger] k.wf(self.layout) ==> mem.wins@[self.layout.king_index(k)]
                                == inv_entry(tb, *self, k),
                        mask == tb.mask_lookup@[d as int],
                        d < 25,
                        p0 == self.layout.pieces0,
                        dirs@ == bit_seq(tb.directions, 0),
                        di < dirs@.len(),
                        d == dirs@[di as int],
                        to_mask == spec_offset_mask_fixed(d as int, p0) & !p0,
                        tos@ == bit_seq(to_mask, 0),
                        toi <= tos@.len(),
                        forall|k: KingPos|
                            #[trigger] k.wf(self.layout) ==> mem.status@[self.layout.king_index(
                                k,
                            )] == loss_fold_tos(
                                tb,
                                *self,
                                k,
                                d,
                                tos@,
                                toi as int,
                                loss_fold_dirs(tb, *self, k, dirs@, di as int),
                            ),
                    decreases tos@.len() - toi,
                {
                    let to = tos[toi];
                    if to < 25 && to + 12 >= d {
                        let from = to + 12 - d;
                        if from < 25 && from != to && (p0 >> from) & 1 == 1 && (p0 >> to) & 1
                            != 1 {
                            let acc = Accum {
                                layout: self.layout,
                                current: self.immutable.current,
                                take_one: self.immutable.take_one,
                                mask,
                                step: (from, to),
                            };
                            proof {
                                assert(acc == accum_of(tb, *self, d, to));
                                assert(accum_step_ok(*self, d, to));
                            }
                            acc.accumulate(tb, mem);
                            proof {
                                assert forall|k: KingPos| #[trigger] k.wf(self.layout) implies
                                    mem.status@[self.layout.king_index(k)] == loss_fold_tos(
                                    tb,
                                    *self,
                                    k,
                                    d,
                                    tos@,
                                    toi as int + 1,
                                    loss_fold_dirs(tb, *self, k, dirs@, di as int),
                                ) by {
                                    lemma_king_index_bound(self.layout, k);
                                    assert(tos@[toi as int] == to);
                                }
                            }
                        } else {
                            proof {
                                assert(!accum_step_ok(*self, d, to));
                                assert forall|k: KingPos| #[trigger] k.wf(self.layout) implies
                                    mem.status@[self.layout.king_index(k)] == loss_fold_tos(
                                    tb,
                                    *self,
                                    k,
                                    d,
                                    tos@,
                                    toi as int + 1,
                                    loss_fold_dirs(tb, *self, k, dirs@, di as int),
                                ) by {
                                    lemma_king_index_bound(self.layout, k);
                                    assert(tos@[toi as int] == to);
                                }
                            }
                        }
                    } else {
                        proof {
                            assert(!accum_step_ok(*self, d, to));
                            assert forall|k: KingPos| #[trigger] k.wf(self.layout) implies
                                mem.status@[self.layout.king_index(k)] == loss_fold_tos(
                                tb,
                                *self,
                                k,
                                d,
                                tos@,
                                toi as int + 1,
                                loss_fold_dirs(tb, *self, k, dirs@, di as int),
                            ) by {
                                lemma_king_index_bound(self.layout, k);
                                assert(tos@[toi as int] == to);
                            }
                        }
                    }
                    toi += 1;
                }
                proof {
                    assert forall|k: KingPos| #[trigger] k.wf(self.layout) implies mem.status@[self.layout.king_index(
                        k,
                    )] == loss_fold_dirs(tb, *self, k, dirs@, di as int + 1) by {
                        assert(dirs@[di as int] == d && d < 25);
                    }
                }
            } else {
                proof {
                    assert forall|k: KingPos| #[trigger] k.wf(self.layout) implies mem.status@[self.layout.king_index(
                        k,
                    )] == loss_fold_dirs(tb, *self, k, dirs@, di as int + 1) by {
                        assert(dirs@[di as int] == d && !(d < 25));
                    }
                }
            }
            di += 1;
        }
        // convert per-move-card information into the per-arrangement loss mask
        let mut i3: usize = 0;
        while i3 < mem.status.len()
            invariant
                tb.wf(),
                self.wf(tb),
                mem.lookup_ok(self.layout),
                mem.status@.len() == self.layout.king_total(),
                mem.wins@.len() == self.layout.king_total(),
                forall|k: KingPos|
                    #[trigger] k.wf(self.layout) ==> mem.wins@[self.layout.king_index(k)]
                        == inv_entry(tb, *self, k),
                dirs@ == bit_seq(tb.directions, 0),
                i3 <= mem.status@.len(),
                forall|k: KingPos|
                    #[trigger] k.wf(self.layout) ==> mem.status@[self.layout.king_index(k)] == (
                    if self.layout.king_index(k) < i3 {
                        lost_mask(tb, *self, k)
                    } else {
                        loss_fold_dirs(tb, *self, k, dirs@, dirs@.len() as int)
                    }),
            decreases mem.status@.len() - i3,
        {
            let x = mem.status[i3];
            mem.status[i3] = !Block(x).invert().expand().invert().0;
            proof {
                assert forall|k: KingPos| #[trigger] k.wf(self.layout) implies mem.status@[self.layout.king_index(
                    k,
                )] == (if self.layout.king_index(k) < i3 + 1 {
                    lost_mask(tb, *self, k)
                } else {
                    loss_fold_dirs(tb, *self, k, dirs@, dirs@.len() as int)
                }) by {
                    lemma_king_index_bound(self.layout, k);
                }
            }
            i3 += 1;
        }
        // at this point status holds the lost-mask and wins the stored word
        // of each slot; tie the index order to the king placements
        let total2 = mem.status.len();
        proof {
            assert forall|j: int| 0 <= j < total2 implies kings@[j] == king_at(self.layout, j)
                && #[trigger] mem.wins@[j] == inv_entry(tb, *self, king_at(self.layout, j))
                && mem.status@[j] == lost_mask(tb, *self, king_at(self.layout, j)) by {
                lemma_king_at(self.layout, j);
                lemma_king_index_injective(self.layout, kings@[j], king_at(self.layout, j));
            }
            lemma_open_bridge(tb, *self, mem.wins@, mem.status@, total2 as int);
        }
        let ghost wpre = mem.wins@;
        let ghost spre = mem.status@;
        let r = self.check_unresolved(mem, count_all);
        proof {
            if !count_all {
                assert forall|j: int|
                    0 <= j < total2 implies (slot_decided(tb, *self, king_at(self.layout, j))
                    == ((spec_invert(wpre[j]) | spre[j]) & BLOCK_MASK == BLOCK_MASK)) by {}
                if forall|j: int|
                    0 <= j < total2 ==> (spec_invert(#[trigger] wpre[j]) | spre[j]) & BLOCK_MASK
                        == BLOCK_MASK {
                    assert forall|k: KingPos| #[trigger] k.wf(self.layout) implies slot_decided(
                        tb,
                        *self,
                        k,
                    ) by {
                        lemma_king_index_bound(self.layout, k);
                        let j = self.layout.king_index(k);
                        lemma_king_at(self.layout, j);
                        lemma_king_index_injective(self.layout, k, king_at(self.layout, j));
                        assert((spec_invert(wpre[j]) | spre[j]) & BLOCK_MASK == BLOCK_MASK);
                    }
                } else {
                    let j = choose|j: int|
                        0 <= j < total2 && !((spec_invert(#[trigger] wpre[j]) | spre[j])
                            & BLOCK_MASK == BLOCK_MASK);
                    lemma_king_at(self.layout, j);
                    assert(!slot_decided(tb, *self, king_at(self.layout, j)));
                }
            }
        }
        r
    }

    /// Intersect the loss statuses with the not-already-won arrangements, and
    /// report either how many sub-verdicts are still open or whether any king
    /// slot has one.
    pub fn check_unresolved(&self, mem: &mut LocalMem, count_all: bool) -> (r: u64)
        requires
            old(mem).wins@.len() == old(mem).status@.len(),
            old(mem).status@.len() <= 36,
        ensures
            final(mem).wins == old(mem).wins,
            final(mem).king_lookup == old(mem).king_lookup,
            final(mem).status@.len() == old(mem).status@.len(),
            forall|i: int|
                0 <= i < final(mem).status@.len() ==> #[trigger] final(mem).status@[i] == old(
                    mem,
                ).status@[i] & !spec_invert(old(mem).wins@[i]),
            count_all ==> r == open_pairs(
                old(mem).wins@,
                old(mem).status@,
                old(mem).status@.len() as int,
            ),
            !count_all ==> r == (if slots_decided(
                old(mem).wins@,
                old(mem).status@,
                old(mem).status@.len() as int,
            ) {
                0int
            } else {
                1int
            }),
            !count_all ==> r <= 1,
            count_all ==> r <= 30 * old(mem).status@.len(),
    {
        let mut all_done: u32 = BLOCK_MASK;
        let mut total_unres: u64 = 0;
        let mut i: usize = 0;
        proof {
            lemma_stat_bits(BLOCK_MASK, 0);
        }
        while i < mem.status.len()
            invariant
                mem.wins == old(mem).wins,
                mem.king_lookup == old(mem).king_lookup,
                mem.status@.len() == old(mem).status@.len(),
                mem.wins@.len() == mem.status@.len(),
                mem.status@.len() <= 36,
                i <= mem.status@.len(),
                total_unres <= 30 * i,
                count_all ==> total_unres == open_pairs(old(mem).wins@, old(mem).status@, i as int),
                all_done & !BLOCK_MASK == 0,
                !count_all ==> ((all_done & BLOCK_MASK == BLOCK_MASK) <==> slots_decided(
                    old(mem).wins@,
                    old(mem).status@,
                    i as int,
                )),
                forall|j: int|
                    0 <= j < i ==> #[trigger] mem.status@[j] == old(mem).status@[j] & !spec_invert(
                        old(mem).wins@[j],
                    ),
                forall|j: int| i <= j < mem.status@.len() ==> #[trigger] mem.status@[j] == old(
                    mem,
                ).status@[j],
            decreases mem.status@.len() - i,
        {
            let w = Block(mem.wins[i]).invert().0;
            let l = mem.status[i];
            mem.status[i] = l & !w;
            if count_all {
                let p = crate::bits::popcount((w | l) & BLOCK_MASK);
                proof {
                    crate::tables::lemma_pop_block(w | l);
                }
                total_unres = total_unres + (30 - p) as u64;
            } else {
                proof {
                    lemma_stat_bits(all_done, w | l);
                }
                all_done = all_done & (w | l);
            }
            i += 1;
        }
        proof {
            lemma_stat_bits(all_done, 0);
        }
        if count_all {
            total_unres
        } else {
            if all_done != BLOCK_MASK {
                1
            } else {
                0
            }
        }
    }

    /// Run one accumulate-then-spread pass over this layout.  Tables only
    /// grow; `progress` reports whether any word changed, and `unresolved`
    /// whether a sub-verdict of the layout is still open.
    pub fn update_layout(&self, tb: &mut AllTables, mem: &mut LocalMem) -> (r: UpdateStatus)
        requires
            old(tb).wf(),
            self.wf(old(tb)),
            old(mem).king_lookup@.len() == 625,
        ensures
            final(tb).wf(),
            tables_grow(old(tb), final(tb)),
            r.progress == !tables_same(old(tb), final(tb)),
            r.unresolved <= 1,
            (r.unresolved == 0) <==> (forall|k: KingPos|
                #[trigger] k.wf(self.layout) ==> slot_decided(old(tb), *self, k)),
            forall|t: int|
                0 <= t < old(tb).list@.len() && t != old(tb).tidx(self.immutable.current) && (match
                    self.immutable.leave_one {
                    Option::Some(c) => t != old(tb).tidx(c),
                    Option::None => true,
                }) ==> final(tb).list@[t] == old(tb).list@[t],
            final(mem).king_lookup@.len() == 625,
    {
        let unresolved = self.get_unresolved(tb, mem, false);
        let mut progress = false;
        let ghost tb0 = *tb;
        proof {
            lemma_grow_refl(tb);
        }
        let dirs = bit_positions(tb.directions);
        let mut di: usize = 0;
        while di < dirs.len()
            invariant
                old(tb).wf(),
                tb.wf(),
                self.wf(old(tb)),
                tb0 == *old(tb),
                tables_grow(old(tb), tb),
                progress == !tables_same(old(tb), tb),
                same_frame(old(tb), tb),
                forall|t: int|
                    0 <= t < old(tb).list@.len() && t != old(tb).tidx(self.immutable.current) && (
                    match self.immutable.leave_one {
                        Option::Some(c) => t != old(tb).tidx(c),
                        Option::None => true,
                    }) ==> tb.list@[t] == old(tb).list@[t],
                mem.lookup_ok(self.layout),
                mem.status@.len() == self.layout.king_total(),
                mem.king_lookup@.len() == 625,
                di <= dirs@.len(),
            decreases dirs@.len() - di,
        {
            let d = dirs[di];
            if d < 25 {
                let mask = tb.mask_lookup[d as usize];
                // expand the lost arrangements to the predecessor space
                let mut wn: Vec<u32> = Vec::new();
                let mut i: usize = 0;
                while i < mem.status.len()
                    invariant
                        mem.status@.len() == self.layout.king_total(),
                        i <= mem.status@.len(),
                        wn@.len() == i,
                        forall|j: int| 0 <= j < i ==> #[trigger] wn@[j] & !BLOCK_MASK == 0,
                    decreases mem.status@.len() - i,
                {
                    let e = Block(mem.status[i] & mask).expand();
                    proof {
                        lemma_expand_domain(mem.status@[i as int] & mask);
                    }
                    wn.push(e.0);
                    i += 1;
                }
                mem.wins = wn;
                let p0 = self.layout.pieces0;
                let p1 = self.layout.pieces1;
                let to_mask_raw = offset_mask_fixed(d as usize, p1);
                let to_mask = to_mask_raw & !p0 & !p1;
                let tos = bit_positions(to_mask);
                let mut toi: usize = 0;
                while toi < tos.len()
                    invariant
                        old(tb).wf(),
                        tb.wf(),
                        self.wf(old(tb)),
                        tables_grow(old(tb), tb),
                        progress == !tables_same(old(tb), tb),
                        forall|t: int|
                            0 <= t < old(tb).list@.len() && t != old(tb).tidx(
                                self.immutable.current,
                            ) && (match self.immutable.leave_one {
                                Option::Some(c) => t != old(tb).tidx(c),
                                Option::None => true,
                            }) ==> tb.list@[t] == old(tb).list@[t],
                        mem.lookup_ok(self.layout),
                        mem.status@.len() == self.layout.king_total(),
                        mem.wins@.len() == self.layout.king_total(),
                        mem.king_lookup@.len() == 625,
                        forall|j: int|
                            0 <= j < mem.wins@.len() ==> #[trigger] mem.wins@[j] & !BLOCK_MASK
                                == 0,
                        d < 25,
                        p0 == self.layout.pieces0,
                        p1 == self.layout.pieces1,
                        toi <= tos@.len(),
                    decreases tos@.len() - toi,
                {
                    let to = tos[toi];
                    if to < 25 && to + 12 >= d {
                        let from = to + 12 - d;
                        if from < 25 && from != to && (p1 >> from) & 1 == 1 && (p1 >> to) & 1 != 1
                            && (p0 >> to) & 1 != 1 {
                            let sp = Spread {
                                layout: self.layout,
                                current: self.immutable.current,
                                leave_one: self.immutable.leave_one,
                                go_up: self.immutable.go_up,
                                step: (from, to),
                            };
                            let ghost pre = *tb;
                            let p2 = sp.spreadout(tb, mem);
                            proof {
                                lemma_grow_trans(old(tb), &pre, tb);
                                if !p2 {
                                    lemma_same_step(old(tb), &pre, tb, progress);
                                }
                                assert forall|t: int|
                                    0 <= t < old(tb).list@.len() && t != old(tb).tidx(
                                        self.immutable.current,
                                    ) && (match self.immutable.leave_one {
                                        Option::Some(c) => t != old(tb).tidx(c),
                                        Option::None => true,
                                    }) implies tb.list@[t] == old(tb).list@[t] by {
                                    if sp.go_up && sp.leave_one.is_none() {
                                        assert(*tb == pre);
                                    } else {
                                        assert(t != pre.tidx(spread_tcounts(sp)));
                                        assert(tb.list@[t] == pre.list@[t]);
                                    }
                                }
                            }
                            progress = progress || p2;
                        }
                    }
                    toi += 1;
                }
            }
            di += 1;
        }
        UpdateStatus { progress, unresolved }
    }
}

/// If the last step changed nothing, whether anything has changed since the
/// start is unaffected.
pub proof fn lemma_same_step(a: &AllTables, b: &AllTables, c: &AllTables, p: bool)
    requires
        tables_grow(a, b),
        tables_grow(b, c),
        tables_same(b, c),
        p == !tables_same(a, b),
    ensures
        p == !tables_same(a, c),
{
    if tables_same(a, b) {
        assert forall|t: int| 0 <= t < a.list@.len() implies (#[trigger] a.list[t]).words@
            == c.list[t].words@ by {
            assert(a.list[t].words@ == b.list[t].words@ && b.list[t].words@ == c.list[t].words@);
        }
    } else {
        lemma_grow_trans(a, b, c);
    }
}

} // verus!

verus! {

impl AllTables {
    /// Or a value into one verdict word.  The single mutation primitive of
    /// the tablebase: the word only gains bits and everything else is
    /// untouched.
    pub fn fetch_or_word(&mut self, ti: usize, idx: usize, v: u32)
        requires
            old(self).wf(),
            ti < old(self).list@.len(),
            idx < old(self).list@[ti as int].words@.len(),
            v & !BLOCK_MASK == 0,
        ensures
            final(self).wf(),
            tables_grow(old(self), final(self)),
            final(self).win_in1 == old(self).win_in1,
            final(self).total_unresolved == old(self).total_unresolved,
            final(self).list@[ti as int].words@ == old(self).list@[ti as int].words@.update(
                idx as int,
                old(self).list@[ti as int].words@[idx as int] | v,
            ),
            forall|t: int|
                0 <= t < old(self).list@.len() && t != ti ==> final(self).list@[t] == old(
                    self,
                ).list@[t],
    {
        proof {
            self.lemma_table_entry(ti as int);
        }
        let ghost pre = *self;
        let fetch = self.list[ti].words[idx];
        self.list[ti].words[idx] = fetch | v;
        proof {
            lemma_word_facts(fetch, v, 0);
            assert(self.list[ti as int].wf()) by {
                assert forall|i: int| 0 <= i < self.list[ti as int].words@.len() implies word_ok(
                    #[trigger] self.list[ti as int].words[i],
                ) by {
                    if i != idx {
                        assert(self.list[ti as int].words[i] == pre.list[ti as int].words[i]);
                    }
                }
            }
            assert(self.wf()) by {
                assert forall|c0: int, c1: int| 0 <= c0 < self.size && 0 <= c1 < self.size implies {
                    &&& (#[trigger] self.list[c0 * self.size + c1]).wf()
                    &&& self.list[c0 * self.size + c1].counts == (PawnCount {
                        count0: c0 as u32,
                        count1: c1 as u32,
                    })
                } by {
                    assert(0 <= c0 * pre.size + c1 < pre.size * pre.size) by (nonlinear_arith)
                        requires
                            0 <= c0 < pre.size && 0 <= c1 < pre.size,
                    ;
                    assert(pre.list[c0 * pre.size + c1].wf());
                    if c0 * pre.size + c1 != ti {
                        assert(self.list[c0 * self.size + c1] == pre.list[c0 * pre.size + c1]);
                    }
                }
            }
            assert(tables_grow(old(self), self)) by {
                assert forall|t: int| 0 <= t < old(self).list@.len() implies words_grow(
                    (#[trigger] old(self).list[t]).words@,
                    self.list[t].words@,
                ) by {
                    assert forall|i: int|
                        0 <= i < old(self).list[t].words@.len() implies word_grows(
                        #[trigger] old(self).list[t].words@[i],
                        self.list[t].words@[i],
                    ) by {
                        lemma_word_facts(old(self).list[t].words@[i], v, 0);
                        if t != ti || i != idx {
                            assert(self.list[t].words@[i] == old(self).list[t].words@[i]);
                            lemma_words_grow_refl(old(self).list[t].words@);
                        }
                    }
                }
            }
        }
    }

    /// Seed the easy wins of every layout of one bucket: each position that
    /// wins in one ply gets, for each winning card, the arrangements holding
    /// that card ored into its word.
    #[verifier::rlimit(50)]
    pub fn mark_bucket(&mut self, counts: PawnCount) -> (win1: u64)
        requires
            old(self).wf(),
            counts.count0 < old(self).size,
            counts.count1 < old(self).size,
        ensures
            final(self).wf(),
            tables_grow(old(self), final(self)),
            final(self).win_in1 == old(self).win_in1,
            final(self).total_unresolved == old(self).total_unresolved,
            win1 <= 0x2EE0000000000,
            win1 == words_pop(
                final(self).list@[old(self).tidx(counts)].words@,
                final(self).list@[old(self).tidx(counts)].words@.len() as int,
            ),
            forall|t: int|
                0 <= t < old(self).list@.len() && t != old(self).tidx(counts)
                    ==> final(self).list@[t] == old(self).list@[t],
            forall|lx: int, kp: KingPos|
                0 <= lx < trinomial(25, counts.count0 + 1, counts.count1 + 1) && #[trigger] kp.wf(
                    layout_at(counts, lx),
                ) ==> ({
                    let t0 = old(self).list@[old(self).tidx(counts)];
                    let i = t0.chunk_size * lx + layout_at(counts, lx).king_index(kp);
                    final(self).list@[old(self).tidx(counts)].words@[i] == t0.words@[i]
                        | spec_ez_word(old(self).cards, layout_at(counts, lx), kp, 5)
                }),
    {
        let ghost tb0 = *self;
        proof {
            lemma_grow_refl(self);
        }
        let layouts = counts.layouts(&self.comb);
        let ghost tix = self.tidx(counts);
        let ghost t0 = self.list@[tix];
        proof {
            assert(0 <= counts.count0 * self.size + counts.count1 < self.size
                * self.size) by (nonlinear_arith)
                requires
                    counts.count0 < self.size && counts.count1 < self.size,
            ;
            self.lemma_table_entry(tix);
        }
        let mut li: usize = 0;
        while li < layouts.len()
            invariant
                old(self).wf(),
                self.wf(),
                tables_grow(old(self), self),
                self.win_in1 == old(self).win_in1,
                self.total_unresolved == old(self).total_unresolved,
                same_frame(old(self), self),
                counts.count0 < self.size,
                counts.count1 < self.size,
                layouts@.len() == trinomial(25, counts.count0 + 1, counts.count1 + 1),
                forall|i: int|
                    0 <= i < layouts@.len() ==> (#[trigger] layouts[i]).wf(counts) && layouts[i]
                        == layout_at(counts, i),
                li <= layouts@.len(),
                tix == old(self).tidx(counts),
                0 <= tix < old(self).list@.len(),
                t0 == old(self).list@[tix],
                old(self).list@[tix].counts == counts,
                forall|t: int|
                    0 <= t < old(self).list@.len() && t != tix ==> self.list@[t] == old(
                        self,
                    ).list@[t],
                forall|lx: int, kp: KingPos|
                    0 <= lx < layouts@.len() && #[trigger] kp.wf(layouts@[lx]) ==> ({
                        let i = t0.chunk_size * lx + layouts@[lx].king_index(kp);
                        self.list@[tix].words@[i] == (if lx < li {
                            t0.words@[i] | spec_ez_word(old(self).cards, layouts@[lx], kp, 5)
                        } else {
                            t0.words@[i]
                        })
                    }),
            decreases layouts@.len() - li,
        {
            let layout = layouts[li];
            let ki = layout.indexer();
            let kings = ki.enumerate();
            let words = self.ez_win_for_each(counts, layout, &kings);
            let ti = self.index_count(counts);
            let base = self.list[ti].index(&self.comb, &layout).base;
            proof {
                lemma_king_total_le_chunk(layout, counts);
                lemma_layout_at(counts, li as int);
                assert(ti == tix);
                assert(base == t0.chunk_size * li);
            }
            let mut j: usize = 0;
            while j < words.len()
                invariant
                    old(self).wf(),
                    self.wf(),
                    tables_grow(old(self), self),
                    self.win_in1 == old(self).win_in1,
                    self.total_unresolved == old(self).total_unresolved,
                    counts.count0 < self.size,
                    counts.count1 < self.size,
                    ti < self.list@.len(),
                    ti == tix,
                    t0 == old(self).list@[tix],
                    0 <= tix < old(self).list@.len(),
                    self.list@[ti as int].counts == counts,
                    base + self.list@[ti as int].chunk_size <= self.list@[ti as int].words@.len(),
                    base == t0.chunk_size * li,
                    li < layouts@.len(),
                    layout == layouts@[li as int],
                    layouts@.len() == trinomial(25, counts.count0 + 1, counts.count1 + 1),
                    forall|i: int|
                        0 <= i < layouts@.len() ==> (#[trigger] layouts[i]).wf(counts)
                            && layouts[i] == layout_at(counts, i),
                    words@.len() == layout.king_total(),
                    words@.len() <= self.list@[ti as int].chunk_size,
                    self.list@[ti as int].chunk_size == t0.chunk_size,
                    forall|i: int|
                        0 <= i < words@.len() ==> #[trigger] words[i] & !BLOCK_MASK == 0,
                    forall|i: int|
                        0 <= i < kings@.len() ==> (#[trigger] kings[i]).wf(layout)
                            && layout.king_index(kings[i]) == i,
                    forall|kp: KingPos|
                        kp.wf(layout) ==> 0 <= layout.king_index(kp) < kings@.len()
                            && kings@[layout.king_index(kp)] == kp,
                    kings@.len() == words@.len(),
                    forall|i: int|
                        0 <= i < words@.len() ==> #[trigger] words[i] == spec_ez_word(
                            self.cards,
                            layout,
                            kings[i],
                            5,
                        ),
                    self.cards == old(self).cards,
                    j <= words@.len(),
                    forall|t: int|
                        0 <= t < old(self).list@.len() && t != tix ==> self.list@[t] == old(
                            self,
                        ).list@[t],
                    forall|lx: int, kp: KingPos|
                        0 <= lx < layouts@.len() && #[trigger] kp.wf(layouts@[lx]) ==> ({
                            let i = t0.chunk_size * lx + layouts@[lx].king_index(kp);
                            self.list@[tix].words@[i] == (if lx < li || (lx == li
                                && layouts@[lx].king_index(kp) < j) {
                                t0.words@[i] | spec_ez_word(old(self).cards, layouts@[lx], kp, 5)
                            } else {
                                t0.words@[i]
                            })
                        }),
                decreases words@.len() - j,
            {
                let ghost pre = *self;
                let words_len = self.list[ti].words.len();
                proof {
                    assert(base + j < words_len);
                }
                self.fetch_or_word(ti, base + j, words[j]);
                proof {
                    lemma_grow_trans(old(self), &pre, self);
                    assert forall|lx: int, kp: KingPos|
                        0 <= lx < layouts@.len() && #[trigger] kp.wf(layouts@[lx]) implies ({
                        let i = t0.chunk_size * lx + layouts@[lx].king_index(kp);
                        self.list@[tix].words@[i] == (if lx < li || (lx == li
                            && layouts@[lx].king_index(kp) < j + 1) {
                            t0.words@[i] | spec_ez_word(old(self).cards, layouts@[lx], kp, 5)
                        } else {
                            t0.words@[i]
                        })
                    }) by {
                        lemma_king_index_bound(layouts@[lx], kp);
                        lemma_king_total_le_chunk(layouts@[lx], counts);
                        old(self).lemma_table_entry(tix);
                        let cs = t0.chunk_size as int;
                        let q = layouts@[lx].king_index(kp);
                        assert(0 <= q < cs && 0 <= j < cs);
                        let nl = layouts@.len() as int;
                        assert(0 <= cs * lx + q < cs * nl) by (nonlinear_arith)
                            requires
                                0 <= q < cs && 0 <= lx && lx + 1 <= nl,
                        ;
                        assert(t0.words@.len() == cs * nl);
                        if lx != li {
                            assert(cs * lx + q != cs * li + j) by (nonlinear_arith)
                                requires
                                    0 <= q < cs && 0 <= j < cs && lx != li && 0 <= lx && 0 <= li,
                            ;
                        } else {
                            if q == j {
                                assert(kings@[q] == kp);
                                let ii = cs * lx + q;
                                assert(ii == base + j);
                                assert(pre.list@[tix].words@[ii] == t0.words@[ii]);
                                assert(self.list@[tix].words@[ii] == pre.list@[tix].words@[ii]
                                    | words@[j as int]);
                                assert(words@[j as int] == spec_ez_word(
                                    old(self).cards,
                                    layouts@[lx],
                                    kp,
                                    5,
                                ));
                            }
                        }
                    }
                }
                j += 1;
            }
            li += 1;
        }
        proof {
            assert forall|lx: int, kp: KingPos|
                0 <= lx < trinomial(25, counts.count0 + 1, counts.count1 + 1) && #[trigger] kp.wf(
                    layout_at(counts, lx),
                ) implies ({
                let i = t0.chunk_size * lx + layout_at(counts, lx).king_index(kp);
                self.list@[tix].words@[i] == t0.words@[i] | spec_ez_word(
                    old(self).cards,
                    layout_at(counts, lx),
                    kp,
                    5,
                )
            }) by {
                assert(layouts@[lx] == layout_at(counts, lx));
                assert(kp.wf(layouts@[lx]));
            }
        }
        let ti2 = self.index_count(counts);
        proof {
            self.list@[ti2 as int].lemma_len_bound();
        }
        self.list[ti2].count_ones()
    }
}

} // verus!
