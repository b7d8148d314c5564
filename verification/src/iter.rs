//! Enumeration of all team layouts of a bucket, in rank order.

use vstd::prelude::*;
use crate::bits::pop;
use crate::comb::{Comb, trinomial, spec_rank, spec_unrank, ranking, unranking, lemma_rank_bound,
    lemma_rank_unrank, lemma_unrank_rank, lemma_trinomial_fits};
use crate::model::{PawnCount, TeamLayout, lemma_pop_high_zero};

verus! {

/// The layout of a given rank within a bucket.
pub open spec fn layout_at(counts: PawnCount, r: int) -> TeamLayout {
    let (s1, s2) = spec_unrank(25, r, counts.count0 + 1, counts.count1 + 1);
    TeamLayout { pieces0: s1, pieces1: s2 }
}

/// A rebuilt layout is well formed and ranks back to its index.
pub proof fn lemma_layout_at(counts: PawnCount, r: int)
    requires
        counts.count0 <= 4,
        counts.count1 <= 4,
        0 <= r < trinomial(25, counts.count0 + 1, counts.count1 + 1),
    ensures
        layout_at(counts, r).wf(counts),
        spec_rank(25, layout_at(counts, r).pieces0, layout_at(counts, r).pieces1) == r,
{
    lemma_rank_unrank(25, r, counts.count0 + 1, counts.count1 + 1);
    let l = layout_at(counts, r);
    let p0 = l.pieces0;
    let p1 = l.pieces1;
    assert(p0 < 0x2000000 && p1 < 0x2000000) by (bit_vector)
        requires
            p0 >> 25u32 == 0 && p1 >> 25u32 == 0,
    ;
    lemma_pop_high_zero(p0);
    lemma_pop_high_zero(p1);
}

/// The rank of a well-formed layout lies below the bucket's layout count.
pub proof fn lemma_layout_rank(counts: PawnCount, l: TeamLayout)
    requires
        counts.count0 <= 4,
        counts.count1 <= 4,
        l.wf(counts),
    ensures
        spec_rank(25, l.pieces0, l.pieces1) < trinomial(25, counts.count0 + 1, counts.count1 + 1),
        layout_at(counts, spec_rank(25, l.pieces0, l.pieces1) as int) == l,
{
    lemma_pop_high_zero(l.pieces0);
    lemma_pop_high_zero(l.pieces1);
    lemma_rank_bound(25, l.pieces0, l.pieces1);
    let p0 = l.pieces0;
    let p1 = l.pieces1;
    assert(p0 >> 25u32 == 0 && p1 >> 25u32 == 0) by (bit_vector)
        requires
            p0 < 0x2000000 && p1 < 0x2000000,
    ;
    lemma_unrank_rank(25, l.pieces0, l.pieces1);
}

impl PawnCount {
    /// Number of layouts in this bucket.
    pub fn total(&self, comb: &Comb) -> (r: u64)
        requires
            comb.wf(),
            self.count0 <= 4,
            self.count1 <= 4,
        ensures
            r == trinomial(25, self.count0 + 1, self.count1 + 1),
    {
        comb.get(25, self.count0 as i32 + 1, self.count1 as i32 + 1)
    }

    /// The rank of a layout of this bucket.
    pub fn index(&self, comb: &Comb, l: &TeamLayout) -> (r: u64)
        requires
            comb.wf(),
            self.count0 <= 4,
            self.count1 <= 4,
            l.wf(*self),
        ensures
            r == spec_rank(25, l.pieces0, l.pieces1),
            r < trinomial(25, self.count0 + 1, self.count1 + 1),
            layout_at(*self, r as int) == *l,
    {
        proof {
            lemma_pop_high_zero(l.pieces0);
            lemma_pop_high_zero(l.pieces1);
            lemma_layout_rank(*self, *l);
        }
        ranking(comb, l.pieces0, l.pieces1)
    }

    /// All layouts of this bucket, in rank order.
    pub fn layouts(&self, comb: &Comb) -> (r: Vec<TeamLayout>)
        requires
            comb.wf(),
            self.count0 <= 4,
            self.count1 <= 4,
        ensures
            r.len() == trinomial(25, self.count0 + 1, self.count1 + 1),
            forall|j: int|
                0 <= j < r.len() ==> #[trigger] r[j] == layout_at(*self, j) && r[j].wf(*self),
    {
        let mut it = TeamLayoutIter::new(*self, comb);
        let mut r: Vec<TeamLayout> = Vec::new();
        proof {
            lemma_trinomial_fits(25, self.count0 + 1, self.count1 + 1);
        }
        loop
            invariant
                comb.wf(),
                it.wf(),
                it.counts == *self,
                self.count0 <= 4,
                self.count1 <= 4,
                it.total == trinomial(25, self.count0 + 1, self.count1 + 1),
                r.len() == it.next_rank,
                forall|j: int|
                    0 <= j < r.len() ==> #[trigger] r[j] == layout_at(*self, j) && r[j].wf(*self),
            decreases it.total - it.next_rank,
        {
            match it.next(comb) {
                Some(l) => {
                    r.push(l);
                },
                None => {
                    return r;
                },
            }
        }
    }
}

/// Walks the layouts of one bucket in rank order.
pub struct TeamLayoutIter {
    pub counts: PawnCount,
    pub next_rank: u64,
    pub total: u64,
}

impl TeamLayoutIter {
    pub open spec fn wf(&self) -> bool {
        &&& self.counts.count0 <= 4
        &&& self.counts.count1 <= 4
        &&& self.total == trinomial(25, self.counts.count0 + 1, self.counts.count1 + 1)
        &&& self.next_rank <= self.total
    }

    pub fn new(counts: PawnCount, comb: &Comb) -> (r: TeamLayoutIter)
        requires
            comb.wf(),
            counts.count0 <= 4,
            counts.count1 <= 4,
        ensures
            r.wf(),
            r.counts == counts,
            r.next_rank == 0,
    {
        let total = counts.total(comb);
        TeamLayoutIter { counts, next_rank: 0, total }
    }

    /// The next layout in rank order, or nothing when the bucket is spent.
    pub fn next(&mut self, comb: &Comb) -> (r: Option<TeamLayout>)
        requires
            comb.wf(),
            old(self).wf(),
        ensures
            final(self).wf(),
            final(self).counts == old(self).counts,
            final(self).total == old(self).total,
            old(self).next_rank < old(self).total ==> r == Some(
                layout_at(old(self).counts, old(self).next_rank as int),
            ) && final(self).next_rank == old(self).next_rank + 1 && r.unwrap().wf(
                old(self).counts,
            ),
            old(self).next_rank == old(self).total ==> r.is_none() && final(self).next_rank == old(
                self,
            ).next_rank,
    {
        if self.next_rank == self.total {
            return None;
        }
        proof {
            lemma_layout_at(self.counts, self.next_rank as int);
        }
        let (s1, s2) = unranking(
            comb,
            self.next_rank,
            25,
            self.counts.count0 + 1,
            self.counts.count1 + 1,
        );
        self.next_rank = self.next_rank + 1;
        Some(TeamLayout { pieces0: s1, pieces1: s2 })
    }
}

/// The successor of a layout in rank order, wrapping at the end of the
/// bucket: the advancing step the layout walk is built on.
pub fn g(comb: &Comb, s: (u32, u32)) -> (r: (u32, u32))
    requires
        comb.wf(),
        s.0 & s.1 == 0,
        s.0 < 0x2000000,
        s.1 < 0x2000000,
        1 <= pop(s.0) <= 5,
        1 <= pop(s.1) <= 5,
    ensures
        ({
            let rank = spec_rank(25, s.0, s.1) as int;
            let tot = trinomial(25, pop(s.0) as int, pop(s.1) as int) as int;
            let nxt = if rank + 1 < tot {
                rank + 1
            } else {
                0
            };
            (r.0, r.1) == spec_unrank(25, nxt, pop(s.0) as int, pop(s.1) as int)
        }),
{
    proof {
        lemma_pop_high_zero(s.0);
        lemma_pop_high_zero(s.1);
        lemma_rank_bound(25, s.0, s.1);
        lemma_trinomial_fits(25, pop(s.0) as int, pop(s.1) as int);
    }
    let ones = crate::bits::popcount(s.0);
    let twos = crate::bits::popcount(s.1);
    let rank = ranking(comb, s.0, s.1);
    let tot = comb.get(25, ones as i32, twos as i32);
    let nxt = if rank + 1 < tot {
        rank + 1
    } else {
        0
    };
    proof {
        crate::comb::lemma_trinomial_pos(25, pop(s.0) as int, pop(s.1) as int);
    }
    unranking(comb, nxt, 25, ones, twos)
}

} // verus!
