//! The position model: pawn counts, team layouts, king placements, and the
//! dense king-slot indexer within a layout.

use vstd::prelude::*;
use crate::bits::{bit, pop_below, pop, bit_seq, bit_positions, popcount, lemma_bit_seq,
    lemma_pop_below_mono};


verus! {

/// Number of non-king pawns of each side.  Identifies a table bucket.
#[derive(Clone, Copy, Debug, Default, PartialEq, Eq, Structural)]
pub struct PawnCount {
    pub count0: u32,
    pub count1: u32,
}

/// The occupancy bitboards of the two sides over the 25 squares, kings
/// included, with no record of which piece is the king.
#[derive(Clone, Copy, Debug, Default, PartialEq, Eq, Structural)]
pub struct TeamLayout {
    pub pieces0: u32,
    pub pieces1: u32,
}

/// The squares of the two kings.
#[derive(Clone, Copy, Debug, Default, PartialEq, Eq, Structural)]
pub struct KingPos {
    pub king0: u32,
    pub king1: u32,
}

impl PawnCount {
    pub open spec fn wf(self, size: u32) -> bool {
        &&& self.count0 < size
        &&& self.count1 < size
        &&& size <= 5
    }

    pub fn new(count0: u32, count1: u32) -> (r: PawnCount)
        ensures
            r.count0 == count0,
            r.count1 == count1,
    {
        PawnCount { count0, count1 }
    }

    /// Swap the two sides' counts.
    pub fn invert(self) -> (r: PawnCount)
        ensures
            r.count0 == self.count1,
            r.count1 == self.count0,
            r.invert_spec() == self,
    {
        PawnCount { count0: self.count1, count1: self.count0 }
    }

    pub open spec fn invert_spec(self) -> PawnCount {
        PawnCount { count0: self.count1, count1: self.count0 }
    }
}

/// Swapping the counts twice gives the counts back.
pub proof fn lemma_pawncount_invert_involution(c: PawnCount)
    ensures
        c.invert_spec().invert_spec() == c,
{
}

/// Reversal of the low 25 bits of a word: the 180-degree rotation of a board.
pub open spec fn spec_rev25(x: u32) -> u32 {
    let a = (x >> 1) & 0x55555555 | (x & 0x55555555) << 1;
    let b = (a >> 2) & 0x33333333 | (a & 0x33333333) << 2;
    let c = (b >> 4) & 0x0F0F0F0F | (b & 0x0F0F0F0F) << 4;
    let d = (c >> 8) & 0x00FF00FF | (c & 0x00FF00FF) << 8;
    let e = d >> 16 | d << 16;
    e >> 7
}

/// Reverse the 25 board bits of a word by the masked-exchange shuffle.
pub fn rev25(x: u32) -> (r: u32)
    ensures
        r == spec_rev25(x),
{
    let a = (x >> 1) & 0x55555555 | (x & 0x55555555) << 1;
    let b = (a >> 2) & 0x33333333 | (a & 0x33333333) << 2;
    let c = (b >> 4) & 0x0F0F0F0F | (b & 0x0F0F0F0F) << 4;
    let d = (c >> 8) & 0x00FF00FF | (c & 0x00FF00FF) << 8;
    let e = d >> 16 | d << 16;
    e >> 7
}

/// The reversal swaps bit `j` with bit `24 - j` and keeps the word within the
/// 25 board bits.
pub proof fn lemma_rev25_bits(x: u32, j: u32)
    requires
        x < 0x2000000,
        j < 25,
    ensures
        spec_rev25(x) < 0x2000000,
        bit(spec_rev25(x), j) == bit(x, (24 - j) as u32),
    decreases 25 - j,
{
    assert(spec_rev25(x) < 0x2000000 && (spec_rev25(x) >> j & 1 == x >> ((24 - j) as u32) & 1))
        by (bit_vector)
        requires
            x < 0x2000000,
            j < 25,
    ;
}

/// Reversing twice gives the word back, and reversal respects disjointness.
pub proof fn lemma_rev25_involution(x: u32, y: u32)
    requires
        x < 0x2000000,
        y < 0x2000000,
    ensures
        spec_rev25(spec_rev25(x)) == x,
        x & y == 0 ==> spec_rev25(x) & spec_rev25(y) == 0,
        x & y == y & x,
{
    assert(spec_rev25(spec_rev25(x)) == x && (x & y == 0 ==> spec_rev25(x) & spec_rev25(y) == 0)
        && x & y == y & x) by (bit_vector)
        requires
            x < 0x2000000,
            y < 0x2000000,
    ;
}

/// Reversal keeps the number of set bits.
pub proof fn lemma_rev25_pop(x: u32)
    requires
        x < 0x2000000,
    ensures
        pop(spec_rev25(x)) == pop(x),
{
    lemma_rev25_bits(x, 0);
    lemma_pop_high_zero(x);
    lemma_pop_high_zero(spec_rev25(x));
    lemma_pop_rev_partial(x, 25);
}

/// Bits at or above 25 of a small word contribute nothing.
pub proof fn lemma_pop_high_zero(x: u32)
    requires
        x < 0x2000000,
    ensures
        pop(x) == pop_below(x, 25),
{
    lemma_pop_between(x, 25, 32);
}

proof fn lemma_pop_between(x: u32, m: u32, n: u32)
    requires
        x < 0x2000000,
        25 <= m <= n <= 32,
    ensures
        pop_below(x, n as nat) == pop_below(x, m as nat),
    decreases n,
{
    if m < n {
        lemma_pop_between(x, m, (n - 1) as u32);
        assert(!(x >> ((n - 1) as u32) & 1 == 1)) by (bit_vector)
            requires
                x < 0x2000000,
                25 <= n - 1,
                n <= 32,
        ;
    }
}

proof fn lemma_pop_rev_partial(x: u32, j: u32)
    requires
        x < 0x2000000,
        j <= 25,
    ensures
        pop_below(spec_rev25(x), j as nat) + pop_below(x, (25 - j) as nat) == pop_below(x, 25),
    decreases j,
{
    if j > 0 {
        lemma_pop_rev_partial(x, (j - 1) as u32);
        lemma_rev25_bits(x, (j - 1) as u32);
    }
}

impl TeamLayout {
    /// The structural invariant of a layout in the bucket `counts`: the two
    /// sides are disjoint, stay on the board, and hold one king plus the
    /// bucket's pawns each.
    pub open spec fn wf(self, counts: PawnCount) -> bool {
        &&& self.pieces0 & self.pieces1 == 0
        &&& self.pieces0 < 0x2000000
        &&& self.pieces1 < 0x2000000
        &&& pop(self.pieces0) == counts.count0 + 1
        &&& pop(self.pieces1) == counts.count1 + 1
    }

    pub fn new(pieces0: u32, pieces1: u32) -> (r: TeamLayout)
        ensures
            r.pieces0 == pieces0,
            r.pieces1 == pieces1,
    {
        TeamLayout { pieces0, pieces1 }
    }

    /// The bucket this layout belongs to; the piece counts must be positive.
    pub fn counts(self) -> (r: PawnCount)
        requires
            pop(self.pieces0) >= 1,
            pop(self.pieces1) >= 1,
        ensures
            r.count0 + 1 == pop(self.pieces0),
            r.count1 + 1 == pop(self.pieces1),
    {
        PawnCount { count0: popcount(self.pieces0) - 1, count1: popcount(self.pieces1) - 1 }
    }

    pub open spec fn invert_spec(self) -> TeamLayout {
        TeamLayout { pieces0: spec_rev25(self.pieces1), pieces1: spec_rev25(self.pieces0) }
    }

    /// Flip the board 180 degrees and swap the sides, so that the side to
    /// move becomes side 0 of the new perspective.
    pub fn invert(self) -> (r: TeamLayout)
        ensures
            r == self.invert_spec(),
    {
        TeamLayout { pieces0: rev25(self.pieces1), pieces1: rev25(self.pieces0) }
    }
}

/// Inverting a well-formed layout twice gives the layout back, and the
/// inverse is well formed for the swapped counts.
pub proof fn lemma_teamlayout_invert_involution(l: TeamLayout, counts: PawnCount)
    requires
        l.wf(counts),
    ensures
        l.invert_spec().invert_spec() == l,
        l.invert_spec().wf(counts.invert_spec()),
{
    lemma_rev25_involution(l.pieces0, l.pieces1);
    lemma_rev25_involution(l.pieces1, l.pieces0);
    lemma_rev25_pop(l.pieces0);
    lemma_rev25_pop(l.pieces1);
    lemma_rev25_bits(l.pieces0, 0);
    lemma_rev25_bits(l.pieces1, 0);
}

impl KingPos {
    /// The structural invariant of a king placement within a layout: each
    /// king stands on a square of its own side, and neither king stands on
    /// the temple square it is trying to reach.
    pub open spec fn wf(self, layout: TeamLayout) -> bool {
        &&& self.king0 < 25
        &&& self.king1 < 25
        &&& bit(layout.pieces0, self.king0)
        &&& bit(layout.pieces1, self.king1)
        &&& self.king0 != 22
        &&& self.king1 != 2
    }

    pub fn new(king0: u32, king1: u32) -> (r: KingPos)
        ensures
            r.king0 == king0,
            r.king1 == king1,
    {
        KingPos { king0, king1 }
    }

    pub open spec fn invert_spec(self) -> KingPos {
        KingPos { king0: (24 - self.king1) as u32, king1: (24 - self.king0) as u32 }
    }

    /// Map both kings through the 180-degree board flip and swap them.
    pub fn invert(self) -> (r: KingPos)
        requires
            self.king0 < 25,
            self.king1 < 25,
        ensures
            r == self.invert_spec(),
    {
        KingPos { king0: 24 - self.king1, king1: 24 - self.king0 }
    }
}

/// Inverting a well-formed king placement twice gives it back, and the
/// inverse is well formed for the inverted layout.
pub proof fn lemma_kingpos_invert_involution(k: KingPos, layout: TeamLayout, counts: PawnCount)
    requires
        k.wf(layout),
        layout.wf(counts),
    ensures
        k.invert_spec().invert_spec() == k,
        k.invert_spec().wf(layout.invert_spec()),
{
    let p0 = layout.pieces0;
    let p1 = layout.pieces1;
    lemma_rev25_bits(p1, (24 - k.king1) as u32);
    lemma_rev25_bits(p0, (24 - k.king0) as u32);
}

} // verus!

verus! {

/// Bits of an intersection belong to both operands; bits of a masked word
/// stay below the mask's width.
proof fn lemma_mask_bits(x: u32, i: u32, k: u32)
    requires
        i < 32,
        k < 32,
    ensures
        bit(x & !(1u32 << 22), i) == (bit(x, i) && i != 22),
        bit(x & !(1u32 << 2), i) == (bit(x, i) && i != 2),
        bit(x & !(0xFFFFFFFFu32 << k), i) == (bit(x, i) && i < k),
        x < 0x2000000 && bit(x, i) ==> i < 25,
{
    assert(((x & !(1u32 << 22)) >> i & 1 == 1 <==> (x >> i & 1 == 1 && i != 22)) && ((x & !(1u32
        << 2)) >> i & 1 == 1 <==> (x >> i & 1 == 1 && i != 2)) && ((x & !(0xFFFFFFFFu32 << k)) >> i & 1
        == 1 <==> (x >> i & 1 == 1 && i < k)) && (x < 0x2000000 && x >> i & 1 == 1 ==> i < 25))
        by (bit_vector)
        requires
            i < 32,
            k < 32,
    ;
}

/// A word whose bits all lie in another word has no more of them below any
/// boundary.
proof fn lemma_pop_subset(x: u32, y: u32, n: u32)
    requires
        n <= 32,
        forall|i: u32| i < 32 ==> bit(y, i) ==> bit(x, i),
    ensures
        pop_below(y, n as nat) <= pop_below(x, n as nat),
    decreases n,
{
    if n > 0 {
        lemma_pop_subset(x, y, (n - 1) as u32);
    }
}

/// Counting below a boundary equals counting a low-masked copy outright.
proof fn lemma_pop_low_mask(m: u32, k: u32, n: u32)
    requires
        k < 32,
        n <= 32,
    ensures
        pop_below(m & !(0xFFFFFFFFu32 << k), n as nat) == pop_below(
            m,
            (if n <= k { n } else { k }) as nat,
        ),
    decreases n,
{
    if n > 0 {
        lemma_pop_low_mask(m, k, (n - 1) as u32);
        lemma_mask_bits(m, (n - 1) as u32, k);
    }
}

impl TeamLayout {
    /// The squares side 0's king may stand on: side 0's pieces away from its
    /// destination temple.
    pub open spec fn king_mask0(self) -> u32 {
        self.pieces0 & !(1u32 << 22)
    }

    /// The squares side 1's king may stand on.
    pub open spec fn king_mask1(self) -> u32 {
        self.pieces1 & !(1u32 << 2)
    }

    /// Number of king placements the layout admits.
    pub open spec fn king_total(self) -> int {
        pop(self.king_mask0()) as int * pop(self.king_mask1()) as int
    }

    /// The dense index of a king placement: kings are ordered by square, the
    /// first king's rank weighted by the second's slot count.
    pub open spec fn king_index(self, k: KingPos) -> int {
        pop_below(self.king_mask0(), k.king0 as nat) as int * pop(self.king_mask1()) as int
            + pop_below(self.king_mask1(), k.king1 as nat) as int
    }

    /// Build the king-slot indexer of this layout.
    pub fn indexer(self) -> (r: KingIndexer)
        ensures
            r.wf(self),
    {
        let mask0 = self.pieces0 & !(1u32 << 22);
        let mask1 = self.pieces1 & !(1u32 << 2);
        let a = popcount(mask0);
        let b = popcount(mask1);
        KingIndexer { mask0, mask1, a: a as usize, b: b as usize, layout: Ghost(self) }
    }
}

/// A well-formed king placement has an index below the layout's slot count.
pub proof fn lemma_king_index_bound(layout: TeamLayout, k: KingPos)
    requires
        k.wf(layout),
    ensures
        0 <= layout.king_index(k) < layout.king_total(),
{
    let m0 = layout.king_mask0();
    let m1 = layout.king_mask1();
    lemma_mask_bits(layout.pieces0, k.king0, 0);
    lemma_mask_bits(layout.pieces1, k.king1, 0);
    lemma_pop_below_mono(m0, (k.king0 + 1) as nat, 32);
    lemma_pop_below_mono(m1, (k.king1 + 1) as nat, 32);
    let i0 = pop_below(m0, k.king0 as nat) as int;
    let i1 = pop_below(m1, k.king1 as nat) as int;
    let a = pop(m0) as int;
    let b = pop(m1) as int;
    assert(i0 < a && i1 < b);
    assert(i0 * b + i1 < a * b) by (nonlinear_arith)
        requires
            0 <= i0 && 0 <= i1 && i0 < a && i1 < b,
    ;
}

/// The number of king slots never exceeds the product of the piece counts.
pub proof fn lemma_king_total_le_chunk(layout: TeamLayout, counts: PawnCount)
    requires
        layout.wf(counts),
    ensures
        layout.king_total() <= (counts.count0 + 1) * (counts.count1 + 1),
        layout.king_total() >= 0,
{
    assert forall|i: u32| i < 32 implies bit(layout.king_mask0(), i) ==> bit(
        layout.pieces0,
        i,
    ) by {
        lemma_mask_bits(layout.pieces0, i, 0);
    }
    assert forall|i: u32| i < 32 implies bit(layout.king_mask1(), i) ==> bit(
        layout.pieces1,
        i,
    ) by {
        lemma_mask_bits(layout.pieces1, i, 0);
    }
    lemma_pop_subset(layout.pieces0, layout.king_mask0(), 32);
    lemma_pop_subset(layout.pieces1, layout.king_mask1(), 32);
    let a = pop(layout.king_mask0()) as int;
    let b = pop(layout.king_mask1()) as int;
    assert(a * b <= (counts.count0 + 1) * (counts.count1 + 1) && a * b >= 0) by (nonlinear_arith)
        requires
            0 <= a <= counts.count0 + 1 && 0 <= b <= counts.count1 + 1,
    ;
}

/// The king-slot indexer of one layout: the admissible squares of each king
/// and their counts.
pub struct KingIndexer {
    pub mask0: u32,
    pub mask1: u32,
    pub a: usize,
    pub b: usize,
    pub layout: Ghost<TeamLayout>,
}

impl KingIndexer {
    pub open spec fn wf(self, layout: TeamLayout) -> bool {
        &&& self.layout@ == layout
        &&& self.mask0 == layout.king_mask0()
        &&& self.mask1 == layout.king_mask1()
        &&& self.a == pop(self.mask0)
        &&& self.b == pop(self.mask1)
        &&& self.a <= 32
        &&& self.b <= 32
    }

    /// How many king placements the layout admits.
    pub fn total(&self) -> (r: usize)
        requires
            self.wf(self.layout@),
        ensures
            r == self.layout@.king_total(),
    {
        let ghost layout = self.layout;
        proof {
            assert(self.a * self.b <= 1024) by (nonlinear_arith)
                requires
                    self.a <= 32 && self.b <= 32,
            ;
        }
        self.a * self.b
    }

    /// The dense index of a king placement.
    pub fn index(&self, k: KingPos) -> (r: usize)
        requires
            self.wf(self.layout@),
            k.wf(self.layout@),
        ensures
            r == self.layout@.king_index(k),
            r < self.layout@.king_total(),
    {
        let ghost layout = self.layout;
        proof {
            lemma_king_index_bound(layout@, k);
            lemma_pop_low_mask(self.mask0, k.king0, 32);
            lemma_pop_low_mask(self.mask1, k.king1, 32);
            crate::bits::lemma_pop_below_le(self.mask0, k.king0 as nat);
            crate::bits::lemma_pop_below_le(self.mask1, k.king1 as nat);
        }
        let i0 = popcount(self.mask0 & !(0xFFFFFFFFu32 << k.king0)) as usize;
        let i1 = popcount(self.mask1 & !(0xFFFFFFFFu32 << k.king1)) as usize;
        proof {
            assert(i0 * self.b + i1 <= 1056) by (nonlinear_arith)
                requires
                    i0 <= 32 && i1 <= 32 && self.b <= 32,
            ;
        }
        i0 * self.b + i1
    }

    /// All king placements of the layout, in index order: the entry at any
    /// offset indexes back to that offset, and every well-formed placement
    /// stands at its own index.
    pub fn enumerate(&self) -> (r: Vec<KingPos>)
        requires
            self.wf(self.layout@),
            self.layout@.pieces0 < 0x2000000,
            self.layout@.pieces1 < 0x2000000,
        ensures
            r.len() == self.layout@.king_total(),
            forall|j: int|
                0 <= j < r.len() ==> (#[trigger] r[j]).wf(self.layout@)
                    && self.layout@.king_index(r[j]) == j,
            forall|k: KingPos|
                k.wf(self.layout@) ==> 0 <= self.layout@.king_index(k) < r.len()
                    && r[self.layout@.king_index(k)] == k,
    {
        let ghost layout = self.layout;
        let b0 = bit_positions(self.mask0);
        let b1 = bit_positions(self.mask1);
        proof {
            lemma_bit_seq(self.mask0, 0);
            lemma_bit_seq(self.mask1, 0);
        }
        let mut r: Vec<KingPos> = Vec::new();
        let mut i0: usize = 0;
        while i0 < b0.len()
            invariant
                self.wf(layout@),
                layout@.pieces0 < 0x2000000,
                layout@.pieces1 < 0x2000000,
                b0@ == bit_seq(self.mask0, 0),
                b1@ == bit_seq(self.mask1, 0),
                b0.len() == self.a,
                b1.len() == self.b,
                i0 <= self.a,
                r.len() == i0 * self.b,
                forall|j: int|
                    0 <= j < r.len() ==> (#[trigger] r[j]).wf(layout@) && layout@.king_index(r[j])
                        == j,
                forall|k: KingPos|
                    k.wf(layout@) && 0 <= layout@.king_index(k) < r.len() ==> r[layout@.king_index(
                        k,
                    )] == k,
            decreases b0.len() - i0,
        {
            let k0 = b0[i0];
            let mut i1: usize = 0;
            while i1 < b1.len()
                invariant
                    self.wf(layout@),
                    layout@.pieces0 < 0x2000000,
                    layout@.pieces1 < 0x2000000,
                    b0@ == bit_seq(self.mask0, 0),
                    b1@ == bit_seq(self.mask1, 0),
                    b0.len() == self.a,
                    b1.len() == self.b,
                    i0 < self.a,
                    i1 <= self.b,
                    k0 == b0@[i0 as int],
                    r.len() == i0 * self.b + i1,
                    forall|j: int|
                        0 <= j < r.len() ==> (#[trigger] r[j]).wf(layout@) && layout@.king_index(
                            r[j],
                        ) == j,
                    forall|k: KingPos|
                        k.wf(layout@) && 0 <= layout@.king_index(k) < r.len() ==> r[layout@.king_index(
                            k,
                        )] == k,
                decreases b1.len() - i1,
            {
                let k1 = b1[i1];
                let kp = KingPos { king0: k0, king1: k1 };
                proof {
                    lemma_bit_seq(self.mask0, 0);
                    lemma_bit_seq(self.mask1, 0);
                    lemma_mask_bits(layout@.pieces0, k0, 0);
                    lemma_mask_bits(layout@.pieces1, k1, 0);
                    assert(kp.wf(layout@));
                    assert(layout@.king_index(kp) == i0 * self.b + i1);
                    assert forall|k: KingPos|
                        k.wf(layout@) && layout@.king_index(k) == r.len() implies k == kp by {
                        let q = pop_below(self.mask0, k.king0 as nat) as int;
                        let t = pop_below(self.mask1, k.king1 as nat) as int;
                        lemma_mask_bits(layout@.pieces0, k.king0, 0);
                        lemma_mask_bits(layout@.pieces1, k.king1, 0);
                        lemma_pop_below_mono(self.mask0, (k.king0 + 1) as nat, 32);
                        lemma_pop_below_mono(self.mask1, (k.king1 + 1) as nat, 32);
                        assert(q == i0 && t == i1) by (nonlinear_arith)
                            requires
                                0 <= q && 0 <= t && t < self.b && q * self.b + t == i0 * self.b
                                    + i1 && 0 <= i1 < self.b && 0 <= i0,
                        ;
                    }
                    assert(r.len() + 1 == i0 * self.b + (i1 + 1));
                }
                r.push(kp);
                i1 += 1;
            }
            proof {
                assert(i0 * self.b + self.b == (i0 + 1) * self.b) by (nonlinear_arith);
            }
            i0 += 1;
        }
        proof {
            assert forall|k: KingPos| k.wf(layout@) implies 0 <= layout@.king_index(k) < r.len()
                && r[layout@.king_index(k)] == k by {
                lemma_king_index_bound(layout@, k);
            }
        }
        r
    }
}

} // verus!

verus! {

/// The king-slot index separates distinct placements: no two well-formed
/// king placements of a layout share an index.
pub proof fn lemma_king_index_injective(layout: TeamLayout, k1: KingPos, k2: KingPos)
    requires
        k1.wf(layout),
        k2.wf(layout),
        layout.king_index(k1) == layout.king_index(k2),
    ensures
        k1 == k2,
{
    let m0 = layout.king_mask0();
    let m1 = layout.king_mask1();
    lemma_bit_seq(m0, 0);
    lemma_bit_seq(m1, 0);
    lemma_mask_bits(layout.pieces0, k1.king0, 0);
    lemma_mask_bits(layout.pieces1, k1.king1, 0);
    lemma_mask_bits(layout.pieces0, k2.king0, 0);
    lemma_mask_bits(layout.pieces1, k2.king1, 0);
    lemma_pop_below_mono(m1, (k1.king1 + 1) as nat, 32);
    lemma_pop_below_mono(m1, (k2.king1 + 1) as nat, 32);
    let q1 = pop_below(m0, k1.king0 as nat) as int;
    let t1 = pop_below(m1, k1.king1 as nat) as int;
    let q2 = pop_below(m0, k2.king0 as nat) as int;
    let t2 = pop_below(m1, k2.king1 as nat) as int;
    let b = pop(m1) as int;
    assert(q1 == q2 && t1 == t2) by (nonlinear_arith)
        requires
            q1 * b + t1 == q2 * b + t2 && 0 <= t1 < b && 0 <= t2 < b && 0 <= q1 && 0 <= q2,
    ;
    // equal ranks pick out the same set bit
    assert(bit_seq(m0, 0)[q1] == k1.king0 && bit_seq(m0, 0)[q2] == k2.king0);
    assert(bit_seq(m1, 0)[t1] == k1.king1 && bit_seq(m1, 0)[t2] == k2.king1);
}

} // verus!

verus! {

/// The king placement at a given slot index of a layout: the quotient picks
/// the first king's set bit, the remainder the second's.
pub open spec fn king_at(layout: TeamLayout, j: int) -> KingPos {
    let b = pop(layout.king_mask1()) as int;
    KingPos {
        king0: bit_seq(layout.king_mask0(), 0)[j / b],
        king1: bit_seq(layout.king_mask1(), 0)[j % b],
    }
}

/// Every slot index below the layout's slot count names a well-formed king
/// placement, and that placement indexes back to the slot.
pub proof fn lemma_king_at(layout: TeamLayout, j: int)
    requires
        layout.pieces0 < 0x2000000,
        layout.pieces1 < 0x2000000,
        0 <= j < layout.king_total(),
    ensures
        king_at(layout, j).wf(layout),
        layout.king_index(king_at(layout, j)) == j,
{
    let m0 = layout.king_mask0();
    let m1 = layout.king_mask1();
    let a = pop(m0) as int;
    let b = pop(m1) as int;
    lemma_bit_seq(m0, 0);
    lemma_bit_seq(m1, 0);
    vstd::arithmetic::div_mod::lemma_fundamental_div_mod(j, b);
    vstd::arithmetic::div_mod::lemma_mod_bound(j, b);
    let q = j / b;
    let t = j % b;
    assert(0 <= q < a) by (nonlinear_arith)
        requires
            j == b * q + t && 0 <= t < b && 0 <= j < a * b,
    ;
    let k0 = bit_seq(m0, 0)[q];
    let k1 = bit_seq(m1, 0)[t];
    lemma_mask_bits(layout.pieces0, k0, 0);
    lemma_mask_bits(layout.pieces1, k1, 0);
    assert(q * b + t == j) by (nonlinear_arith)
        requires
            j == b * q + t,
    ;
}

} // verus!
