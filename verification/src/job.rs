//! The per-bucket fixed-point driver: iterate accumulate and spread over
//! every layout of a bucket until no word changes, then run one final pass
//! that uncaptures into the next-larger bucket.

use vstd::prelude::*;
use crate::bits::pop;
use crate::comb::{Comb, lemma_trinomial_fits};
use crate::model::{PawnCount, TeamLayout};
use crate::tables::Table;
use crate::solver::{AllTables, LocalMem, ImmutableUpdate, Update, tables_grow, tables_same,
    tb_slack, lemma_grow_refl, lemma_grow_trans, lemma_tb_slack, lemma_same_step, unresolved_of,
    spec_ez_word, seeds_in, seed_phase, lemma_seed_kept, tb_pop, lemma_tb_pop_grow,
    lemma_tb_pop_eq, lemma_stat_bits};
use crate::tables::words_pop;
use crate::iter::layout_at;
use crate::model::KingPos;
use crate::block::BLOCK_MASK;

verus! {

/// The work of one bucket: the layouts still being iterated, the layouts
/// already fully resolved, and the bucket context.
pub struct TableJob {
    pub layouts: Vec<TeamLayout>,
    pub resolved: Vec<TeamLayout>,
    pub update: ImmutableUpdate,
    pub total_unresolved: u64,
    pub done: bool,
}

impl TableJob {
    pub open spec fn wf(&self, tb: &AllTables) -> bool {
        &&& self.update.wf(tb)
        &&& forall|j: int|
            0 <= j < self.layouts@.len() ==> (#[trigger] self.layouts@[j]).wf(self.update.current)
        &&& forall|j: int|
            0 <= j < self.resolved@.len() ==> (#[trigger] self.resolved@[j]).wf(
                self.update.current,
            )
        &&& self.layouts@.len() + self.resolved@.len() <= 0x10000000000
        &&& self.total_unresolved <= 0x8000000000000
    }

    /// How far the job still has to go: two phases before the final uncapture
    /// pass, one during it, none after.
    pub open spec fn state_measure(&self) -> nat {
        if self.done {
            0
        } else if self.update.go_up {
            1
        } else {
            2
        }
    }

    /// Set a bucket's job up: its layouts in rank order and its neighbouring
    /// buckets.
    pub fn new(tb: &AllTables, counts: PawnCount) -> (r: TableJob)
        requires
            tb.wf(),
            counts.count0 < tb.size,
            counts.count1 < tb.size,
        ensures
            r.wf(tb),
            r.update.current == counts,
            r.update.inv_current == counts.invert_spec(),
            r.update.take_one == (if counts.count1 != 0 {
                Option::Some(PawnCount { count0: counts.count0, count1: (counts.count1 - 1) as u32 })
            } else {
                Option::<PawnCount>::None
            }),
            r.update.leave_one == (if counts.count0 + 1 != tb.size {
                Option::Some(PawnCount { count0: (counts.count0 + 1) as u32, count1: counts.count1 })
            } else {
                Option::<PawnCount>::None
            }),
            !r.done,
            !r.update.go_up,
            r.total_unresolved == 0,
            r.resolved@.len() == 0,
            r.layouts@.len() == crate::comb::trinomial(25, counts.count0 + 1, counts.count1 + 1),
            forall|j: int|
                0 <= j < r.layouts@.len() ==> #[trigger] r.layouts@[j] == layout_at(counts, j),
    {
        let update = ImmutableUpdate {
            current: counts,
            inv_current: counts.invert(),
            take_one: if counts.count1 != 0 {
                Some(PawnCount::new(counts.count0, counts.count1 - 1))
            } else {
                None
            },
            leave_one: if counts.count0 + 1 != tb.size {
                Some(PawnCount::new(counts.count0 + 1, counts.count1))
            } else {
                None
            },
            go_up: false,
        };
        let layouts = counts.layouts(&tb.comb);
        proof {
            lemma_trinomial_fits(25, counts.count0 + 1, counts.count1 + 1);
        }
        TableJob { layouts, resolved: Vec::new(), update, total_unresolved: 0, done: false }
    }

    /// A no-op placeholder for the missing half of a symmetric pair.
    pub fn dummy(tb: &AllTables, counts: PawnCount) -> (r: TableJob)
        requires
            tb.wf(),
            counts.count0 < tb.size,
            counts.count1 < tb.size,
        ensures
            r.wf(tb),
            r.done,
            r.total_unresolved == 0,
    {
        let mut j = TableJob::new(tb, counts);
        j.done = true;
        j.layouts = Vec::new();
        j
    }

    /// Seed the easy wins of this bucket and return how many bits that set.
    pub fn mark_ez_win(&self, tb: &mut AllTables) -> (win1: u64)
        requires
            old(tb).wf(),
            self.wf(old(tb)),
        ensures
            final(tb).wf(),
            tables_grow(old(tb), final(tb)),
            self.wf(final(tb)),
            final(tb).win_in1 == old(tb).win_in1,
            final(tb).total_unresolved == old(tb).total_unresolved,
            win1 <= 0x2EE0000000000,
            win1 == words_pop(
                final(tb).list@[old(tb).tidx(self.update.current)].words@,
                final(tb).list@[old(tb).tidx(self.update.current)].words@.len() as int,
            ),
            forall|t: int|
                0 <= t < old(tb).list@.len() && t != old(tb).tidx(self.update.current)
                    ==> final(tb).list@[t] == old(tb).list@[t],
            forall|lx: int, kp: KingPos|
                0 <= lx < crate::comb::trinomial(
                    25,
                    self.update.current.count0 + 1,
                    self.update.current.count1 + 1,
                ) && #[trigger] kp.wf(layout_at(self.update.current, lx)) ==> ({
                    let t0 = old(tb).list@[old(tb).tidx(self.update.current)];
                    let i = t0.chunk_size * lx + layout_at(self.update.current, lx).king_index(kp);
                    final(tb).list@[old(tb).tidx(self.update.current)].words@[i] == t0.words@[i]
                        | spec_ez_word(old(tb).cards, layout_at(self.update.current, lx), kp, 5)
                }),
    {
        tb.mark_bucket(self.update.current)
    }

    /// Run one pass over every remaining layout, retiring the layouts whose
    /// verdicts are all decided.  After a pass without progress, bring all
    /// layouts back for the final uncapture pass; after that pass the job is
    /// done.
    pub fn next(&mut self, tb: &mut AllTables, mem: &mut LocalMem) -> (r: Option<()>)
        requires
            old(tb).wf(),
            old(self).wf(old(tb)),
            old(mem).king_lookup@.len() == 625,
        ensures
            final(tb).wf(),
            tables_grow(old(tb), final(tb)),
            final(self).wf(final(tb)),
            final(self).update.current == old(self).update.current,
            final(self).total_unresolved == old(self).total_unresolved,
            final(mem).king_lookup@.len() == 625,
            final(self).state_measure() <= old(self).state_measure(),
            r.is_some() <==> !old(self).done,
            old(self).done ==> *final(self) == *old(self),
            r.is_none() ==> tables_same(old(tb), final(tb)) && final(self).state_measure() == old(
                self,
            ).state_measure(),
            r.is_some() ==> !tables_same(old(tb), final(tb)) || final(self).state_measure() < old(
                self,
            ).state_measure(),
            !old(self).done ==> final(self).done == old(self).update.go_up,
            !old(self).done ==> final(self).update.inv_current == old(self).update.inv_current
                && final(self).update.take_one == old(self).update.take_one
                && final(self).update.leave_one == old(self).update.leave_one,
            !old(self).done ==> final(self).update.go_up == (old(self).update.go_up
                || tables_same(old(tb), final(tb))),
            !old(self).done ==> final(self).layouts@.len() + final(self).resolved@.len() == old(
                self,
            ).layouts@.len() + old(self).resolved@.len(),
            !old(self).done && !old(self).update.go_up && tables_same(old(tb), final(tb))
                ==> final(self).resolved@.len() == 0,
            !old(self).done ==> forall|j: int|
                0 <= j < final(self).layouts@.len() ==> old(self).layouts@.contains(
                    #[trigger] final(self).layouts@[j],
                ) || old(self).resolved@.contains(final(self).layouts@[j]),
            !old(self).done ==> forall|j: int|
                0 <= j < final(self).resolved@.len() ==> old(self).layouts@.contains(
                    #[trigger] final(self).resolved@[j],
                ) || old(self).resolved@.contains(final(self).resolved@[j]),
    {
        if self.done {
            proof {
                lemma_grow_refl(tb);
            }
            return None;
        }
        let mut progress = false;
        let mut keep: Vec<TeamLayout> = Vec::new();
        proof {
            lemma_grow_refl(tb);
        }
        let n = self.layouts.len();
        let mut li: usize = 0;
        while li < n
            invariant
                old(tb).wf(),
                tb.wf(),
                old(self).wf(old(tb)),
                self.update == old(self).update,
                self.done == old(self).done,
                self.layouts == old(self).layouts,
                self.total_unresolved == old(self).total_unresolved,
                tables_grow(old(tb), tb),
                progress == !tables_same(old(tb), tb),
                mem.king_lookup@.len() == 625,
                n == self.layouts@.len(),
                li <= n,
                keep@.len() + self.resolved@.len() == old(self).resolved@.len() + li,
                forall|j: int|
                    0 <= j < keep@.len() ==> (#[trigger] keep@[j]).wf(self.update.current),
                forall|j: int|
                    0 <= j < self.resolved@.len() ==> (#[trigger] self.resolved@[j]).wf(
                        self.update.current,
                    ),
                forall|j: int|
                    0 <= j < keep@.len() ==> old(self).layouts@.contains(#[trigger] keep@[j]),
                forall|j: int|
                    0 <= j < self.resolved@.len() ==> old(self).layouts@.contains(
                        #[trigger] self.resolved@[j],
                    ) || old(self).resolved@.contains(self.resolved@[j]),
            decreases n - li,
        {
            let lay = self.layouts[li];
            let u = Update { layout: lay, immutable: self.update };
            let ghost pre = *tb;
            let st = u.update_layout(tb, mem);
            proof {
                lemma_grow_trans(old(tb), &pre, tb);
                if !st.progress {
                    lemma_same_step(old(tb), &pre, tb, progress);
                }
            }
            progress = progress || st.progress;
            proof {
                assert(old(self).layouts@.contains(lay)) by {
                    assert(old(self).layouts@[li as int] == lay);
                }
            }
            if st.unresolved == 0 {
                self.resolved.push(lay);
            } else {
                keep.push(lay);
            }
            li += 1;
        }
        self.layouts = keep;
        if self.update.go_up {
            self.done = true;
        } else if !progress {
            // bring every resolved layout back for the uncapture pass
            while self.resolved.len() > 0
                invariant
                    self.update == old(self).update,
                    self.done == old(self).done,
                    self.total_unresolved == old(self).total_unresolved,
                    forall|j: int|
                        0 <= j < self.layouts@.len() ==> (#[trigger] self.layouts@[j]).wf(
                            self.update.current,
                        ),
                    forall|j: int|
                        0 <= j < self.resolved@.len() ==> (#[trigger] self.resolved@[j]).wf(
                            self.update.current,
                        ),
                    self.layouts@.len() + self.resolved@.len() == old(self).layouts@.len() + old(
                        self,
                    ).resolved@.len(),
                    forall|j: int|
                        0 <= j < self.layouts@.len() ==> old(self).layouts@.contains(
                            #[trigger] self.layouts@[j],
                        ) || old(self).resolved@.contains(self.layouts@[j]),
                    forall|j: int|
                        0 <= j < self.resolved@.len() ==> old(self).layouts@.contains(
                            #[trigger] self.resolved@[j],
                        ) || old(self).resolved@.contains(self.resolved@[j]),
                decreases self.resolved@.len(),
            {
                let x = self.resolved.pop().unwrap();
                self.layouts.push(x);
            }
            self.update = ImmutableUpdate {
                current: self.update.current,
                inv_current: self.update.inv_current,
                take_one: self.update.take_one,
                leave_one: self.update.leave_one,
                go_up: true,
            };
        }
        Some(())
    }

    /// Count the still-open sub-verdicts of the bucket's remaining layouts:
    /// the sum, over them, of the (king slot, arrangement) pairs that are
    /// neither won nor lost against the current tables.
    pub fn count_unresolved(&mut self, tb: &AllTables, mem: &mut LocalMem)
        requires
            tb.wf(),
            old(self).wf(tb),
            old(mem).king_lookup@.len() == 625,
        ensures
            final(self).wf(tb),
            final(self).total_unresolved <= 0x8000000000000,
            final(self).total_unresolved == layouts_open(
                tb,
                old(self).update,
                old(self).layouts@,
                old(self).layouts@.len() as int,
            ),
            final(self).layouts == old(self).layouts,
            final(self).resolved == old(self).resolved,
            final(self).update == old(self).update,
            final(self).done == old(self).done,
            final(mem).king_lookup@.len() == 625,
    {
        let n = self.layouts.len();
        let mut li: usize = 0;
        let mut acc: u64 = 0;
        while li < n
            invariant
                tb.wf(),
                self.wf(tb),
                self.layouts == old(self).layouts,
                self.resolved == old(self).resolved,
                self.update == old(self).update,
                self.done == old(self).done,
                mem.king_lookup@.len() == 625,
                n == self.layouts@.len(),
                li <= n,
                n <= 0x10000000000,
                acc == layouts_open(tb, self.update, self.layouts@, li as int),
                acc <= 1080 * li,
            decreases n - li,
        {
            let lay = self.layouts[li];
            let u = Update { layout: lay, immutable: self.update };
            let c = u.get_unresolved(tb, mem, true);
            acc = acc + c;
            li += 1;
        }
        self.total_unresolved = acc;
        proof {
            assert(acc <= 1080 * 0x10000000000);
        }
    }
}

/// The open sub-verdicts of the first `n` layouts of a list, measured against
/// the given tables.
pub open spec fn layouts_open(
    tb: &AllTables,
    imm: ImmutableUpdate,
    ls: Seq<TeamLayout>,
    n: int,
) -> int
    decreases n,
{
    if n <= 0 {
        0
    } else {
        layouts_open(tb, imm, ls, n - 1) + unresolved_of(
            tb,
            Update { layout: ls[n - 1], immutable: imm },
        )
    }
}

} // verus!

verus! {

/// Marking one bucket over an all-zero table advances the seeding phase by
/// one: its slots now hold exactly their seed words.
proof fn lemma_mark_step(pre: &AllTables, post: &AllTables, size: u32, cards: u16, s0: u32, s1: u32)
    requires
        pre.wf(),
        pre.size == size,
        pre.cards == cards,
        s0 < size,
        s1 < size,
        seed_phase(pre, size, cards, s0 * size + s1),
        tables_grow(pre, post),
        forall|t: int|
            0 <= t < pre.list@.len() && t != pre.tidx(PawnCount { count0: s0, count1: s1 })
                ==> post.list@[t] == pre.list@[t],
        forall|lx: int, kp: KingPos|
            0 <= lx < crate::comb::trinomial(25, s0 + 1, s1 + 1) && #[trigger] kp.wf(
                layout_at(PawnCount { count0: s0, count1: s1 }, lx),
            ) ==> ({
                let t0 = pre.list@[pre.tidx(PawnCount { count0: s0, count1: s1 })];
                let i = t0.chunk_size * lx + layout_at(
                    PawnCount { count0: s0, count1: s1 },
                    lx,
                ).king_index(kp);
                post.list@[pre.tidx(PawnCount { count0: s0, count1: s1 })].words@[i] == t0.words@[i]
                    | spec_ez_word(cards, layout_at(PawnCount { count0: s0, count1: s1 }, lx), kp, 5)
            }),
    ensures
        seed_phase(post, size, cards, s0 * size + s1 + 1),
{
    let m = (s0 * size + s1) as int;
    assert(0 <= m < size * size && pre.tidx(PawnCount { count0: s0, count1: s1 })
        == m) by (nonlinear_arith)
        requires
            s0 < size && s1 < size && size <= 5 && m == s0 * size + s1 && pre.size == size
                && pre.tidx(PawnCount { count0: s0, count1: s1 }) == s0 * pre.size + s1,
    ;
    assert forall|c0: int, c1: int, lx: int, kp: KingPos|
        0 <= c0 < size && 0 <= c1 < size && c0 * size + c1 < m + 1 && 0 <= lx
            < crate::comb::trinomial(25, c0 + 1, c1 + 1) && #[trigger] kp.wf(
            layout_at(PawnCount { count0: c0 as u32, count1: c1 as u32 }, lx),
        ) implies ({
        let l = layout_at(PawnCount { count0: c0 as u32, count1: c1 as u32 }, lx);
        let t = post.list@[c0 * size + c1];
        let i = t.chunk_size * lx + l.king_index(kp);
        t.words@[i] == spec_ez_word(cards, l, kp, 5)
    }) by {
        let counts = PawnCount { count0: c0 as u32, count1: c1 as u32 };
        crate::iter::lemma_layout_at(counts, lx);
        let l = layout_at(counts, lx);
        let tix = c0 * size + c1;
        if tix == m {
            assert(c0 == s0 && c1 == s1) by (nonlinear_arith)
                requires
                    c0 * size + c1 == s0 * size + s1 && 0 <= c1 < size && 0 <= s1 < size && 0 <= c0
                        && 0 <= s0,
            ;
            pre.lemma_table_entry(tix);
            crate::model::lemma_king_index_bound(l, kp);
            crate::model::lemma_king_total_le_chunk(l, counts);
            let cs = pre.list@[tix].chunk_size as int;
            let nc = pre.list@[tix].num_chunks as int;
            let q = l.king_index(kp);
            assert(0 <= cs * lx + q < cs * nc) by (nonlinear_arith)
                requires
                    0 <= q < cs && 0 <= lx && lx + 1 <= nc,
            ;
            assert(pre.list@[tix].words@[cs * lx + q] == 0u32);
            lemma_stat_bits(spec_ez_word(cards, l, kp, 5), 0);
        } else {
            assert(post.list@[tix] == pre.list@[tix]);
        }
    }
    assert forall|t: int, i: int|
        m + 1 <= t < post.list@.len() && 0 <= i < post.list@[t].words@.len()
            implies #[trigger] post.list@[t].words@[i] == 0u32 by {
        assert(post.list@[t] == pre.list@[t]);
    }
}

/// When every bucket has been seeded, every word contains its seed.
proof fn lemma_seed_phase_done(tb: &AllTables, size: u32, cards: u16)
    requires
        tb.wf(),
        tb.size == size,
        seed_phase(tb, size, cards, tb.list@.len() as int),
    ensures
        seeds_in(tb, size, cards),
{
    assert forall|c0: int, c1: int, lx: int, kp: KingPos|
        0 <= c0 < size && 0 <= c1 < size && 0 <= lx < crate::comb::trinomial(25, c0 + 1, c1 + 1)
            && #[trigger] kp.wf(
            layout_at(PawnCount { count0: c0 as u32, count1: c1 as u32 }, lx),
        ) implies ({
        let l = layout_at(PawnCount { count0: c0 as u32, count1: c1 as u32 }, lx);
        let t = tb.list@[c0 * size + c1];
        let i = t.chunk_size * lx + l.king_index(kp);
        t.words@[i] & spec_ez_word(cards, l, kp, 5) == spec_ez_word(cards, l, kp, 5)
    }) by {
        assert(0 <= c0 * size + c1 < size * size) by (nonlinear_arith)
            requires
                0 <= c0 < size && 0 <= c1 < size,
        ;
        let l = layout_at(PawnCount { count0: c0 as u32, count1: c1 as u32 }, lx);
        let ez = spec_ez_word(cards, l, kp, 5);
        crate::solver::lemma_word_facts(ez, 0, 0);
        lemma_stat_bits(ez, 0);
        assert(ez & (ez | 0u32) == ez && ez | 0u32 == ez);
    }
}

impl AllTables {
    /// Build the complete tablebase for up to `size - 1` pawns per side with
    /// the given five cards: allocate the tables, seed the easy wins, then
    /// drive every bucket pair to its fixed point and run its final
    /// uncapture pass.
    pub fn build(size: u32, cards: u16) -> (r: AllTables)
        requires
            1 <= size <= 5,
            pop(cards as u32) == 5,
        ensures
            r.wf(),
            r.size == size,
            r.cards == cards,
            seeds_in(&r, size, cards),
            r.win_in1 <= tb_pop(r.list@, r.list@.len() as int),
    {
        let comb = Comb::new();
        // card geometry: which arrangements each move direction belongs to
        let masks = crate::block::mask_iter();
        let card_ids = crate::bits::bit_positions(cards as u32);
        proof {
            crate::bits::lemma_bit_seq(cards as u32, 0);
        }
        let mut mask_lookup: Vec<u32> = Vec::new();
        let mut mi: usize = 0;
        while mi < 25
            invariant
                mi <= 25,
                mask_lookup@.len() == mi,
                forall|i: int| 0 <= i < mi ==> #[trigger] mask_lookup[i] & !BLOCK_MASK == 0,
            decreases 25 - mi,
        {
            proof {
                crate::solver::lemma_word_facts(0, 0, 0);
            }
            mask_lookup.push(0);
            mi += 1;
        }
        let mut directions: u32 = 0;
        let mut j: usize = 0;
        while j < 5
            invariant
                card_ids@.len() == 5,
                card_ids@ == crate::bits::bit_seq(cards as u32, 0),
                masks@.len() == 5,
                forall|i: int| 0 <= i < 5 ==> masks@[i] == crate::block::spec_mask_at(i),
                mask_lookup@.len() == 25,
                forall|i: int| 0 <= i < 25 ==> #[trigger] mask_lookup[i] & !BLOCK_MASK == 0,
                directions < 0x2000000,
                j <= 5,
            decreases 5 - j,
        {
            let c = card_ids[j];
            if c < 16 {
                let bm = crate::card::card_map(c as usize, false);
                let obits = crate::bits::bit_positions(bm);
                let mut oi: usize = 0;
                while oi < obits.len()
                    invariant
                        masks@.len() == 5,
                        forall|i: int| 0 <= i < 5 ==> masks@[i] == crate::block::spec_mask_at(i),
                        j < 5,
                        mask_lookup@.len() == 25,
                        forall|i: int| 0 <= i < 25 ==> #[trigger] mask_lookup[i] & !BLOCK_MASK
                            == 0,
                        oi <= obits@.len(),
                    decreases obits@.len() - oi,
                {
                    let o = obits[oi];
                    if o < 25 {
                        let m = masks[j];
                        proof {
                            crate::block::lemma_mask_self_inverse(j as int);
                            crate::solver::lemma_word_facts(mask_lookup@[o as int], m, 0);
                            crate::solver::lemma_word_facts(m, mask_lookup@[o as int], 0);
                            crate::solver::lemma_word_facts(mask_lookup@[o as int] | m, 0, 0);
                        }
                        let cur = mask_lookup[o as usize];
                        mask_lookup[o as usize] = cur | m;
                    }
                    oi += 1;
                }
                proof {
                    crate::card::lemma_or_small(directions, bm);
                }
                directions = directions | bm;
            }
            j += 1;
        }
        // one zeroed table per bucket
        let mut list: Vec<Table> = Vec::new();
        let mut c0: u32 = 0;
        while c0 < size
            invariant
                1 <= size <= 5,
                comb.wf(),
                c0 <= size,
                list@.len() == c0 * size,
                forall|a: int, b: int|
                    0 <= a < c0 && 0 <= b < size ==> {
                        &&& (#[trigger] list[a * size + b]).wf()
                        &&& list[a * size + b].counts == (PawnCount {
                            count0: a as u32,
                            count1: b as u32,
                        })
                    },
                forall|t: int, i: int|
                    0 <= t < list@.len() && 0 <= i < list@[t].words@.len()
                        ==> #[trigger] list@[t].words@[i] == 0u32,
            decreases size - c0,
        {
            let mut c1: u32 = 0;
            while c1 < size
                invariant
                    1 <= size <= 5,
                    comb.wf(),
                    c0 < size,
                    c1 <= size,
                    list@.len() == c0 * size + c1,
                    forall|a: int, b: int|
                        0 <= a < c0 && 0 <= b < size ==> {
                            &&& (#[trigger] list[a * size + b]).wf()
                            &&& list[a * size + b].counts == (PawnCount {
                                count0: a as u32,
                                count1: b as u32,
                            })
                        },
                    forall|b: int|
                        0 <= b < c1 ==> {
                            &&& (#[trigger] list[c0 * size + b]).wf()
                            &&& list[c0 * size + b].counts == (PawnCount {
                                count0: c0 as u32,
                                count1: b as u32,
                            })
                        },
                    forall|t: int, i: int|
                        0 <= t < list@.len() && 0 <= i < list@[t].words@.len()
                            ==> #[trigger] list@[t].words@[i] == 0u32,
                decreases size - c1,
            {
                list.push(Table::new(PawnCount::new(c0, c1), &comb));
                proof {
                    assert forall|a: int, b: int| 0 <= a < c0 && 0 <= b < size implies 0 <= #[trigger] (a
                        * size + b) < c0 * size + c1 by {
                        assert(a * size + b < c0 * size) by (nonlinear_arith)
                            requires
                                0 <= a < c0 && 0 <= b < size,
                        ;
                    }
                }
                c1 += 1;
            }
            proof {
                assert(c0 * size + size == (c0 + 1) * size) by (nonlinear_arith);
            }
            c0 += 1;
        }
        let mut tb = AllTables {
            size,
            cards,
            comb,
            mask_lookup,
            directions,
            list,
            win_in1: 0,
            total_unresolved: 0,
        };
        proof {
            assert(tb.wf());
            assert(seed_phase(&tb, size, cards, 0));
        }
        // seed the easy wins of every bucket and record how many bits it set
        let mut win1: u64 = 0;
        let mut s0: u32 = 0;
        while s0 < size
            invariant
                tb.wf(),
                tb.size == size,
                tb.cards == cards,
                s0 <= size,
                win1 <= s0 * 5 * 0x2EE0000000000,
                win1 == tb_pop(tb.list@, (s0 * size) as int),
                seed_phase(&tb, size, cards, (s0 * size) as int),
                tb.win_in1 == 0,
                tb.total_unresolved == 0,
            decreases size - s0,
        {
            let mut s1: u32 = 0;
            while s1 < size
                invariant
                    tb.wf(),
                    tb.size == size,
                    tb.cards == cards,
                    s0 < size,
                    s1 <= size,
                    win1 <= (s0 * 5 + s1) * 0x2EE0000000000,
                    win1 == tb_pop(tb.list@, (s0 * size + s1) as int),
                    seed_phase(&tb, size, cards, (s0 * size + s1) as int),
                    tb.win_in1 == 0,
                    tb.total_unresolved == 0,
                decreases size - s1,
            {
                let ghost m = (s0 * size + s1) as int;
                let ghost pre = tb;
                proof {
                    assert(0 <= m < size * size && tb.tidx(
                        PawnCount { count0: s0, count1: s1 },
                    ) == m) by (nonlinear_arith)
                        requires
                            s0 < size && s1 < size && size <= 5 && m == s0 * size + s1 && tb.size
                                == size && tb.tidx(PawnCount { count0: s0, count1: s1 }) == s0
                                * tb.size + s1,
                    ;
                }
                let c = tb.mark_bucket(PawnCount::new(s0, s1));
                win1 = win1 + c;
                proof {
                    lemma_mark_step(&pre, &tb, size, cards, s0, s1);
                    lemma_tb_pop_eq(pre.list@, tb.list@, m);
                }
                s1 += 1;
            }
            proof {
                assert((s0 * 5 + size) <= (s0 + 1) * 5 && s0 * size + size == (s0 + 1)
                    * size) by (nonlinear_arith)
                    requires
                        size <= 5,
                ;
            }
            s0 += 1;
        }
        proof {
            assert(size * size == tb.list@.len());
            lemma_seed_phase_done(&tb, size, cards);
        }
        // drive each bucket pair to quiescence, in dependency order
        let mut mem = LocalMem::new();
        let mut total_unres: u64 = 0;
        let mut pairs: u64 = 0;
        let mut p0: u32 = 0;
        while p0 < size
            invariant
                tb.wf(),
                tb.size == size,
                tb.cards == cards,
                seeds_in(&tb, size, cards),
                win1 <= tb_pop(tb.list@, tb.list@.len() as int),
                mem.king_lookup@.len() == 625,
                p0 <= size,
                pairs <= 5 * p0,
                total_unres <= pairs * 0x10000000000000,
            decreases size - p0,
        {
            let mut p1: u32 = 0;
            while p1 < p0 + 1
                invariant
                    tb.wf(),
                    tb.size == size,
                    tb.cards == cards,
                    seeds_in(&tb, size, cards),
                    win1 <= tb_pop(tb.list@, tb.list@.len() as int),
                    mem.king_lookup@.len() == 625,
                    p0 < size,
                    p1 <= p0 + 1,
                    pairs <= 5 * p0 + p1,
                    total_unres <= pairs * 0x10000000000000,
                decreases p0 + 1 - p1,
            {
                let counts = PawnCount::new(p0, p1);
                let mut j1 = TableJob::new(&tb, counts);
                let mut j2 = if p0 > p1 {
                    TableJob::new(&tb, counts.invert())
                } else {
                    TableJob::dummy(&tb, counts)
                };
                let mut any_progress = true;
                while any_progress
                    invariant
                        tb.wf(),
                        tb.size == size,
                        tb.cards == cards,
                        seeds_in(&tb, size, cards),
                        win1 <= tb_pop(tb.list@, tb.list@.len() as int),
                        j1.wf(&tb),
                        j2.wf(&tb),
                        mem.king_lookup@.len() == 625,
                        j1.total_unresolved <= 0x8000000000000,
                        j2.total_unresolved <= 0x8000000000000,
                    decreases
                            tb_slack(&tb),
                            j1.state_measure() + j2.state_measure(),
                            (if any_progress {
                                1int
                            } else {
                                0int
                            }),
                {
                    any_progress = false;
                    let ghost it0 = tb;
                    let r1 = j1.next(&mut tb, &mut mem);
                    let ghost mid = tb;
                    let r2 = j2.next(&mut tb, &mut mem);
                    if r1.is_some() || r2.is_some() {
                        any_progress = true;
                    }
                    proof {
                        lemma_grow_trans(&it0, &mid, &tb);
                        assert forall|t: int| 0 <= t < it0.list@.len() implies (
                        #[trigger] it0.list[t]).wf() && tb.list[t].wf() by {
                            it0.lemma_table_entry(t);
                            tb.lemma_table_entry(t);
                        }
                        assert forall|t: int| 0 <= t < it0.list@.len() implies (
                        #[trigger] it0.list[t]).wf() && mid.list[t].wf() by {
                            it0.lemma_table_entry(t);
                            mid.lemma_table_entry(t);
                        }
                        assert forall|t: int| 0 <= t < mid.list@.len() implies (
                        #[trigger] mid.list[t]).wf() && tb.list[t].wf() by {
                            mid.lemma_table_entry(t);
                            tb.lemma_table_entry(t);
                        }
                        lemma_tb_slack(&it0, &mid);
                        lemma_tb_slack(&mid, &tb);
                        lemma_tb_slack(&it0, &tb);
                        lemma_seed_kept(&it0, &tb, size, cards);
                        lemma_tb_pop_grow(&it0, &tb, it0.list@.len() as int);
                        // each round either leaves everything untouched and
                        // clears the flag, shrinks the tables' headroom, or
                        // moves a job's phase forward
                        if r1.is_none() && r2.is_none() {
                            crate::solver::lemma_slack_same(&it0, &mid);
                            crate::solver::lemma_slack_same(&mid, &tb);
                        } else {
                            if tables_same(&it0, &mid) && tables_same(&mid, &tb) {
                                crate::solver::lemma_slack_same(&it0, &mid);
                                crate::solver::lemma_slack_same(&mid, &tb);
                            }
                        }
                    }
                }
                j1.count_unresolved(&tb, &mut mem);
                j2.count_unresolved(&tb, &mut mem);
                total_unres = total_unres + j1.total_unresolved + j2.total_unresolved;
                pairs = pairs + 1;
                p1 += 1;
            }
            p0 += 1;
        }
        tb.win_in1 = win1;
        tb.total_unresolved = total_unres;
        tb
    }
}

} // verus!
