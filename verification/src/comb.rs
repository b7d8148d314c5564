//! Trinomial coefficients and the perfect-hash ranking of two-colour board
//! layouts: a bijection between layouts and dense integer indices.

use vstd::prelude::*;
use crate::bits::{bit, pop_below, bit_seq, bit_positions, lemma_bit_seq, lemma_pop_below_mono};

verus! {

/// The trinomial coefficient `n! / (k1! k2! (n-k1-k2)!)`: the number of ways
/// to place `k1` pieces of one colour and `k2` of another on `n` cells.
pub open spec fn trinomial(n: int, k1: int, k2: int) -> nat
    decreases n,
{
    if k1 < 0 || k2 < 0 || k1 + k2 > n {
        0
    } else if n == 0 {
        1
    } else {
        trinomial(n - 1, k1 - 1, k2) + trinomial(n - 1, k1, k2 - 1) + trinomial(n - 1, k1, k2)
    }
}

/// An upper bound that grows by a factor of three per cell.
pub open spec fn tri_bound(n: nat) -> nat
    decreases n,
{
    if n == 0 {
        1
    } else {
        3 * tri_bound((n - 1) as nat)
    }
}

pub proof fn lemma_trinomial_le_bound(n: int, k1: int, k2: int)
    ensures
        n < 0 ==> trinomial(n, k1, k2) == 0,
        n >= 0 ==> trinomial(n, k1, k2) <= tri_bound(n as nat),
    decreases (if n >= 0 { n + 1 } else { 0 }),
{
    if n > 0 {
        lemma_trinomial_le_bound(n - 1, k1 - 1, k2);
        lemma_trinomial_le_bound(n - 1, k1, k2 - 1);
        lemma_trinomial_le_bound(n - 1, k1, k2);
    }
}

/// Every trinomial of at most 25 cells fits comfortably in a 64-bit word.
pub proof fn lemma_trinomial_fits(n: int, k1: int, k2: int)
    requires
        n <= 25,
    ensures
        trinomial(n, k1, k2) < 0x10000000000,
{
    lemma_trinomial_le_bound(n, k1, k2);
    if n >= 0 {
        assert(tri_bound(25) == 847288609443) by {
            reveal_with_fuel(tri_bound, 27);
        }
        lemma_tri_bound_mono(n as nat, 25);
    }
}

proof fn lemma_tri_bound_mono(m: nat, n: nat)
    requires
        m <= n,
    ensures
        tri_bound(m) <= tri_bound(n),
    decreases n,
{
    if m < n {
        lemma_tri_bound_mono(m, (n - 1) as nat);
    }
}

/// A trinomial with admissible arguments is positive.
pub proof fn lemma_trinomial_pos(n: int, k1: int, k2: int)
    requires
        0 <= k1,
        0 <= k2,
        k1 + k2 <= n,
    ensures
        trinomial(n, k1, k2) >= 1,
    decreases n,
{
    if n > 0 {
        if k1 > 0 {
            lemma_trinomial_pos(n - 1, k1 - 1, k2);
        } else if k2 > 0 {
            lemma_trinomial_pos(n - 1, k1, k2 - 1);
        } else {
            lemma_trinomial_pos(n - 1, k1, k2);
        }
    }
}

/// The precomputed table of trinomials for up to 25 cells and up to five
/// pieces of each colour.
pub struct Comb {
    tab: Vec<u64>,
}

impl Comb {
    pub closed spec fn wf(&self) -> bool {
        &&& self.tab.len() == 26 * 6 * 6
        &&& forall|n: int, a: int, b: int|
            0 <= n < 26 && 0 <= a < 6 && 0 <= b < 6 ==> self.tab[(n * 6 + a) * 6 + b]
                == trinomial(n, a, b)
    }

    /// Fill the table by the three-way Pascal recurrence.
    pub fn new() -> (r: Comb)
        ensures
            r.wf(),
    {
        let mut tab: Vec<u64> = Vec::new();
        let mut n: usize = 0;
        while n < 26
            invariant
                n <= 26,
                tab.len() == n * 36,
                forall|m: int, a: int, b: int|
                    0 <= m < n && 0 <= a < 6 && 0 <= b < 6 ==> tab[(m * 6 + a) * 6 + b]
                        == trinomial(m, a, b),
            decreases 26 - n,
        {
            let mut a: usize = 0;
            while a < 6
                invariant
                    n < 26,
                    a <= 6,
                    tab.len() == n * 36 + a * 6,
                    forall|m: int, x: int, y: int|
                        0 <= m < n && 0 <= x < 6 && 0 <= y < 6 ==> tab[(m * 6 + x) * 6 + y]
                            == trinomial(m, x, y),
                    forall|x: int, y: int|
                        0 <= x < a && 0 <= y < 6 ==> tab[(n * 6 + x) * 6 + y] == trinomial(
                            n as int,
                            x,
                            y,
                        ),
                decreases 6 - a,
            {
                let mut b: usize = 0;
                while b < 6
                    invariant
                        n < 26,
                        a < 6,
                        b <= 6,
                        tab.len() == n * 36 + a * 6 + b,
                        forall|m: int, x: int, y: int|
                            0 <= m < n && 0 <= x < 6 && 0 <= y < 6 ==> tab[(m * 6 + x) * 6 + y]
                                == trinomial(m, x, y),
                        forall|x: int, y: int|
                            0 <= x < a && 0 <= y < 6 ==> tab[(n * 6 + x) * 6 + y] == trinomial(
                                n as int,
                                x,
                                y,
                            ),
                        forall|y: int|
                            0 <= y < b ==> tab[(n * 6 + a as int) * 6 + y] == trinomial(
                                n as int,
                                a as int,
                                y,
                            ),
                    decreases 6 - b,
                {
                    let v: u64 = if a + b > n {
                        0
                    } else if n == 0 {
                        1
                    } else {
                        let t1: u64 = if a > 0 {
                            tab[((n - 1) * 6 + (a - 1)) * 6 + b]
                        } else {
                            0
                        };
                        let t2: u64 = if b > 0 {
                            tab[((n - 1) * 6 + a) * 6 + (b - 1)]
                        } else {
                            0
                        };
                        let t3: u64 = tab[((n - 1) * 6 + a) * 6 + b];
                        proof {
                            lemma_trinomial_fits(n - 1, a as int - 1, b as int);
                            lemma_trinomial_fits(n - 1, a as int, b as int - 1);
                            lemma_trinomial_fits(n - 1, a as int, b as int);
                        }
                        t1 + t2 + t3
                    };
                    assert(v == trinomial(n as int, a as int, b as int));
                    tab.push(v);
                    b += 1;
                }
                a += 1;
            }
            n += 1;
        }
        Comb { tab }
    }

    /// Look a trinomial up; out-of-range lower arguments give zero, as the
    /// coefficient itself does.
    pub fn get(&self, n: i32, k1: i32, k2: i32) -> (r: u64)
        requires
            self.wf(),
            n < 26,
            k1 < 6,
            k2 < 6,
        ensures
            r == trinomial(n as int, k1 as int, k2 as int),
    {
        if n < 0 || k1 < 0 || k2 < 0 {
            0
        } else {
            self.tab[((n as usize) * 6 + k1 as usize) * 6 + k2 as usize]
        }
    }
}

/// The rank of the layout `(s1, s2)` among all layouts with the same piece
/// counts on the cells below `n`: the sum, over the set bits, of the
/// trinomials of the arrangements that come earlier.
pub open spec fn spec_rank(n: u32, s1: u32, s2: u32) -> nat
    decreases n,
{
    if n == 0 {
        0
    } else {
        let i = (n - 1) as u32;
        let rest = spec_rank(i, s1, s2);
        if bit(s1, i) {
            trinomial(i as int, pop_below(s1, i as nat) as int + 1, pop_below(s2, i as nat) as int)
                + rest
        } else if bit(s2, i) {
            trinomial(i as int, pop_below(s1, i as nat) - 1, pop_below(s2, i as nat) as int + 1)
                + trinomial(i as int, pop_below(s1, i as nat) as int, pop_below(s2, i as nat) as int + 1)
                + rest
        } else {
            rest
        }
    }
}

/// The layout of rank `r` among the placements of `k1` pieces of colour one
/// and `k2` of colour two on the cells below `n`.
pub open spec fn spec_unrank(n: u32, r: int, k1: int, k2: int) -> (u32, u32)
    decreases n,
{
    if n == 0 {
        (0u32, 0u32)
    } else {
        let i = (n - 1) as u32;
        let v0 = trinomial(i as int, k1, k2) as int;
        let v1 = trinomial(i as int, k1 - 1, k2) as int;
        if r >= v0 + v1 {
            let (a, b) = spec_unrank(i, r - v0 - v1, k1, k2 - 1);
            (a, b | (1u32 << i))
        } else if r >= v0 {
            let (a, b) = spec_unrank(i, r - v0, k1 - 1, k2);
            (a | (1u32 << i), b)
        } else {
            spec_unrank(i, r, k1, k2)
        }
    }
}

proof fn lemma_bit_facts(x: u32, y: u32, i: u32, j: u32)
    requires
        i < 32,
        j < 32,
    ensures
        bit(x | y, i) == (bit(x, i) || bit(y, i)),
        x & y == 0 ==> !(bit(x, i) && bit(y, i)),
        bit(1u32 << j, i) == (i == j),
        x >> j == 0 && i >= j ==> !bit(x, i),
{
    assert(((x | y) >> i & 1 == 1 <==> (x >> i & 1 == 1 || y >> i & 1 == 1)) && (x & y == 0 ==> !(x
        >> i & 1 == 1 && y >> i & 1 == 1)) && ((1u32 << j) >> i & 1 == 1 <==> i == j) && (x >> j
        == 0 && i >= j ==> !(x >> i & 1 == 1))) by (bit_vector)
        requires
            i < 32,
            j < 32,
    ;
}

/// `spec_rank` and `pop_below` read only the bits below the boundary.
proof fn lemma_rank_ext(n: u32, s1: u32, s2: u32, t1: u32, t2: u32)
    requires
        n <= 32,
        forall|i: u32| i < n ==> bit(s1, i) == bit(t1, i) && bit(s2, i) == bit(t2, i),
    ensures
        spec_rank(n, s1, s2) == spec_rank(n, t1, t2),
        pop_below(s1, n as nat) == pop_below(t1, n as nat),
        pop_below(s2, n as nat) == pop_below(t2, n as nat),
    decreases n,
{
    if n > 0 {
        lemma_rank_ext((n - 1) as u32, s1, s2, t1, t2);
    }
}

/// Disjoint words have additive counts, bounded by the boundary.
proof fn lemma_pop_disjoint(s1: u32, s2: u32, n: u32)
    requires
        n <= 32,
        s1 & s2 == 0,
    ensures
        pop_below(s1, n as nat) + pop_below(s2, n as nat) == pop_below(s1 | s2, n as nat) <= n,
    decreases n,
{
    if n > 0 {
        lemma_pop_disjoint(s1, s2, (n - 1) as u32);
        lemma_bit_facts(s1, s2, (n - 1) as u32, 0);
    }
}

/// The rank of any layout is below the trinomial of its counts.
pub proof fn lemma_rank_bound(n: u32, s1: u32, s2: u32)
    requires
        n <= 32,
        s1 & s2 == 0,
    ensures
        spec_rank(n, s1, s2) < trinomial(
            n as int,
            pop_below(s1, n as nat) as int,
            pop_below(s2, n as nat) as int,
        ),
    decreases n,
{
    lemma_pop_disjoint(s1, s2, n);
    if n == 0 {
    } else {
        let i = (n - 1) as u32;
        lemma_rank_bound(i, s1, s2);
        lemma_bit_facts(s1, s2, i, 0);
        let o = pop_below(s1, i as nat) as int;
        let t = pop_below(s2, i as nat) as int;
        lemma_pop_disjoint(s1, s2, i);
        if bit(s1, i) {
            assert(trinomial(n as int, o + 1, t) == trinomial(i as int, o, t) + trinomial(
                i as int,
                o + 1,
                t - 1,
            ) + trinomial(i as int, o + 1, t));
        } else if bit(s2, i) {
            assert(trinomial(n as int, o, t + 1) == trinomial(i as int, o - 1, t + 1) + trinomial(
                i as int,
                o,
                t,
            ) + trinomial(i as int, o, t + 1));
        } else {
            assert(trinomial(n as int, o, t) == trinomial(i as int, o - 1, t) + trinomial(
                i as int,
                o,
                t - 1,
            ) + trinomial(i as int, o, t));
        }
    }
}

/// Unranking inverts ranking: recovering a layout from its own rank and
/// counts gives the layout back.
pub proof fn lemma_unrank_rank(n: u32, s1: u32, s2: u32)
    requires
        n <= 32,
        s1 & s2 == 0,
        n < 32 ==> s1 >> n == 0 && s2 >> n == 0,
    ensures
        spec_unrank(
            n,
            spec_rank(n, s1, s2) as int,
            pop_below(s1, n as nat) as int,
            pop_below(s2, n as nat) as int,
        ) == (s1, s2),
    decreases n,
{
    if n == 0 {
        assert(s1 == 0 && s2 == 0) by (bit_vector)
            requires
                s1 >> 0u32 == 0 && s2 >> 0u32 == 0,
        ;
    } else {
        let i = (n - 1) as u32;
        let o = pop_below(s1, i as nat) as int;
        let t = pop_below(s2, i as nat) as int;
        let r = spec_rank(n, s1, s2) as int;
        let rest = spec_rank(i, s1, s2) as int;
        lemma_bit_facts(s1, s2, i, i);
        lemma_rank_bound(i, s1, s2);
        if bit(s1, i) {
            // the cleared word agrees with s1 below i and is zero from i up
            let c = s1 & !(1u32 << i);
            assert(c >> i == 0 && s2 >> i == 0 && (c | (1u32 << i)) == s1 && c & s2 == 0)
                by (bit_vector)
                requires
                    i < 32,
                    s1 >> i & 1 == 1,
                    s1 & s2 == 0,
                    i < 31 ==> s1 >> (i + 1) == 0 && s2 >> (i + 1) == 0,
                    c == s1 & !(1u32 << i),
            ;
            assert forall|j: u32| j < i implies bit(c, j) == bit(s1, j) && bit(s2, j) == bit(
                s2,
                j,
            ) by {
                assert(j < i ==> (c >> j & 1 == (s1 & !(1u32 << i)) >> j & 1 && (s1 & !(1u32 << i))
                    >> j & 1 == s1 >> j & 1)) by (bit_vector)
                    requires
                        i < 32,
                        c == s1 & !(1u32 << i),
                ;
            }
            lemma_rank_ext(i, s1, s2, c, s2);
            lemma_unrank_rank(i, c, s2);
            assert(pop_below(s1, n as nat) == o + 1);
            assert(r == trinomial(i as int, o + 1, t) + rest);
            assert(rest < trinomial(i as int, o, t));
            lemma_trinomial_nonneg(i as int, o + 1, t);
        } else if bit(s2, i) {
            let c = s2 & !(1u32 << i);
            assert(c >> i == 0 && s1 >> i == 0 && (c | (1u32 << i)) == s2 && s1 & c == 0)
                by (bit_vector)
                requires
                    i < 32,
                    s2 >> i & 1 == 1,
                    s1 & s2 == 0,
                    i < 31 ==> s1 >> (i + 1) == 0 && s2 >> (i + 1) == 0,
                    c == s2 & !(1u32 << i),
            ;
            assert forall|j: u32| j < i implies bit(s1, j) == bit(s1, j) && bit(c, j) == bit(
                s2,
                j,
            ) by {
                assert(j < i ==> (c >> j & 1 == s2 >> j & 1)) by (bit_vector)
                    requires
                        i < 32,
                        c == s2 & !(1u32 << i),
                ;
            }
            lemma_rank_ext(i, s1, s2, s1, c);
            lemma_unrank_rank(i, s1, c);
            assert(pop_below(s2, n as nat) == t + 1);
        } else {
            assert(s1 >> i == 0 && s2 >> i == 0) by (bit_vector)
                requires
                    i < 32,
                    !(s1 >> i & 1 == 1),
                    !(s2 >> i & 1 == 1),
                    i < 31 ==> s1 >> (i + 1) == 0 && s2 >> (i + 1) == 0,
            ;
            lemma_unrank_rank(i, s1, s2);
        }
    }
}

proof fn lemma_trinomial_nonneg(n: int, k1: int, k2: int)
    ensures
        trinomial(n, k1, k2) >= 0,
{
}

/// Ranking inverts unranking: the layout of rank `r` is well formed, has the
/// requested counts, and ranks back to `r`.
pub proof fn lemma_rank_unrank(n: u32, r: int, k1: int, k2: int)
    requires
        n <= 32,
        0 <= r < trinomial(n as int, k1, k2),
    ensures
        ({
            let (s1, s2) = spec_unrank(n, r, k1, k2);
            &&& s1 & s2 == 0
            &&& (n < 32 ==> s1 >> n == 0 && s2 >> n == 0)
            &&& pop_below(s1, n as nat) == k1
            &&& pop_below(s2, n as nat) == k2
            &&& spec_rank(n, s1, s2) == r
        }),
    decreases n,
{
    if n == 0 {
        assert(k1 == 0 && k2 == 0);
        assert((0u32 >> 0u32) == 0 && 0u32 & 0u32 == 0) by (bit_vector);
    } else {
        let i = (n - 1) as u32;
        let v0 = trinomial(i as int, k1, k2) as int;
        let v1 = trinomial(i as int, k1 - 1, k2) as int;
        assert(trinomial(n as int, k1, k2) == trinomial(i as int, k1 - 1, k2) + trinomial(
            i as int,
            k1,
            k2 - 1,
        ) + trinomial(i as int, k1, k2));
        if r >= v0 + v1 {
            assert(trinomial(i as int, k1, k2 - 1) > 0);
            assert(k2 >= 1);
            lemma_rank_unrank(i, r - v0 - v1, k1, k2 - 1);
            let (a, b) = spec_unrank(i, r - v0 - v1, k1, k2 - 1);
            let b2 = b | (1u32 << i);
            assert(b2 >> i & 1 == 1 && a & b2 == 0 && (n < 32 ==> a >> n == 0 && b2 >> n == 0)
                && !(a >> i & 1 == 1) && a >> i == 0) by (bit_vector)
                requires
                    i < 32,
                    n == i + 1,
                    a & b == 0,
                    i < 32 ==> a >> i == 0 && b >> i == 0,
                    b2 == b | (1u32 << i),
            ;
            assert forall|j: u32| j < i implies bit(a, j) == bit(a, j) && bit(b2, j) == bit(
                b,
                j,
            ) by {
                assert(j < i ==> b2 >> j & 1 == b >> j & 1) by (bit_vector)
                    requires
                        i < 32,
                        b2 == b | (1u32 << i),
                ;
            }
            lemma_rank_ext(i, a, b2, a, b);
            assert(pop_below(b2, n as nat) == pop_below(b2, i as nat) + 1);
            assert(spec_rank(n, a, b2) == trinomial(i as int, k1 - 1, k2) + trinomial(
                i as int,
                k1,
                k2,
            ) + spec_rank(i, a, b2));
        } else if r >= v0 {
            assert(trinomial(i as int, k1 - 1, k2) > 0);
            assert(k1 >= 1);
            lemma_rank_unrank(i, r - v0, k1 - 1, k2);
            let (a, b) = spec_unrank(i, r - v0, k1 - 1, k2);
            let a2 = a | (1u32 << i);
            assert(a2 >> i & 1 == 1 && a2 & b == 0 && (n < 32 ==> a2 >> n == 0 && b >> n == 0)
                && !(b >> i & 1 == 1)) by (bit_vector)
                requires
                    i < 32,
                    n == i + 1,
                    a & b == 0,
                    i < 32 ==> a >> i == 0 && b >> i == 0,
                    a2 == a | (1u32 << i),
            ;
            assert forall|j: u32| j < i implies bit(a2, j) == bit(a, j) && bit(b, j) == bit(
                b,
                j,
            ) by {
                assert(j < i ==> a2 >> j & 1 == a >> j & 1) by (bit_vector)
                    requires
                        i < 32,
                        a2 == a | (1u32 << i),
                ;
            }
            lemma_rank_ext(i, a2, b, a, b);
            assert(pop_below(a2, n as nat) == pop_below(a2, i as nat) + 1);
        } else {
            lemma_rank_unrank(i, r, k1, k2);
            let (a, b) = spec_unrank(i, r, k1, k2);
            assert(!(a >> i & 1 == 1) && !(b >> i & 1 == 1) && (n < 32 ==> a >> n == 0 && b >> n
                == 0)) by (bit_vector)
                requires
                    i < 32,
                    n == i + 1,
                    i < 32 ==> a >> i == 0 && b >> i == 0,
            ;
        }
    }
}

} // verus!

verus! {

/// A stretch of empty cells leaves rank and counts unchanged.
proof fn lemma_rank_skip(s1: u32, s2: u32, lo: u32, hi: u32)
    requires
        lo <= hi <= 32,
        forall|i: u32| lo <= i < hi ==> !bit(s1, i) && !bit(s2, i),
    ensures
        spec_rank(hi, s1, s2) == spec_rank(lo, s1, s2),
        pop_below(s1, hi as nat) == pop_below(s1, lo as nat),
        pop_below(s2, hi as nat) == pop_below(s2, lo as nat),
    decreases hi,
{
    if lo < hi {
        lemma_rank_skip(s1, s2, lo, (hi - 1) as u32);
    }
}

proof fn lemma_or_rearrange(a: u32, b: u32, c: u32)
    ensures
        a | (b | c) == (a | c) | b,
        a | 0 == a,
        0u32 | a == a,
{
    assert(a | (b | c) == (a | c) | b && a | 0 == a && 0u32 | a == a) by (bit_vector);
}

/// Compute the rank of a layout by scanning its set bits upward and summing
/// the trinomials of the arrangements that precede it.
pub fn ranking(comb: &Comb, s1: u32, s2: u32) -> (r: u64)
    requires
        comb.wf(),
        s1 & s2 == 0,
        s1 < 0x2000000,
        s2 < 0x2000000,
        crate::bits::pop(s1) <= 5,
        crate::bits::pop(s2) <= 5,
    ensures
        r == spec_rank(25, s1, s2),
        r < trinomial(
            25,
            pop_below(s1, 25) as int,
            pop_below(s2, 25) as int,
        ),
{
    let ghost x: u32 = s1 | s2;
    let ps = bit_positions(s1 | s2);
    proof {
        lemma_bit_seq(x, 0);
        assert(x < 0x4000000 && x >> 25u32 == 0 && s1 >> 25u32 == 0 && s2 >> 25u32 == 0)
            by (bit_vector)
            requires
                s1 < 0x2000000,
                s2 < 0x2000000,
                x == s1 | s2,
        ;
    }
    let mut ones: u32 = 0;
    let mut twos: u32 = 0;
    let mut acc: u64 = 0;
    let ghost mut m: u32 = 0;
    let mut j: usize = 0;
    while j < ps.len()
        invariant
            comb.wf(),
            s1 & s2 == 0,
            s1 < 0x2000000,
            s2 < 0x2000000,
            crate::bits::pop(s1) <= 5,
            crate::bits::pop(s2) <= 5,
            x == s1 | s2,
            x >> 25u32 == 0,
            ps@ == bit_seq(x, 0),
            j <= ps.len(),
            m <= 25,
            pop_below(x, m as nat) == j,
            ones == pop_below(s1, m as nat),
            twos == pop_below(s2, m as nat),
            acc == spec_rank(m, s1, s2),
        decreases ps.len() - j,
    {
        proof {
            lemma_bit_seq(x, 0);
        }
        let p = ps[j];
        proof {
            // the entry at offset j is a set bit with exactly j set bits below
            assert(bit(x, p) && pop_below(x, p as nat) == j && p < 32);
            assert(p < 25) by {
                lemma_bit_facts(x, x, p, 25);
            }
            assert(m <= p) by {
                if p < m {
                    lemma_pop_below_mono(x, (p + 1) as nat, m as nat);
                }
            }
            assert forall|q: u32| m <= q < p implies !bit(s1, q) && !bit(s2, q) by {
                lemma_bit_facts(s1, s2, q, 0);
                if bit(x, q) {
                    lemma_pop_below_mono(x, m as nat, q as nat);
                    lemma_pop_below_mono(x, (q + 1) as nat, p as nat);
                }
            }
            lemma_rank_skip(s1, s2, m, p);
            lemma_pop_below_mono(s1, (p + 1) as nat, 32);
            lemma_pop_below_mono(s2, (p + 1) as nat, 32);
            lemma_bit_facts(s1, s2, p, 0);
            lemma_rank_bound(p, s1, s2);
            lemma_trinomial_fits(p as int, pop_below(s1, p as nat) as int, pop_below(s2, p as nat) as int);
        }
        let is_one = (s1 >> p) & 1 == 1;
        if is_one {
            let v = comb.get(p as i32, ones as i32 + 1, twos as i32);
            proof {
                lemma_trinomial_fits(p as int, ones as int + 1, twos as int);
            }
            acc = acc + v;
            ones = ones + 1;
        } else {
            proof {
                assert(bit(s2, p));
            }
            let v1 = comb.get(p as i32, ones as i32 - 1, twos as i32 + 1);
            let v2 = comb.get(p as i32, ones as i32, twos as i32 + 1);
            proof {
                lemma_trinomial_fits(p as int, ones as int - 1, twos as int + 1);
                lemma_trinomial_fits(p as int, ones as int, twos as int + 1);
            }
            acc = acc + v1 + v2;
            twos = twos + 1;
        }
        proof {
            m = (p + 1) as u32;
        }
        j += 1;
    }
    proof {
        lemma_bit_seq(x, 0);
        assert(pop_below(x, m as nat) == crate::bits::pop(x));
        assert forall|q: u32| m <= q < 25 implies !bit(s1, q) && !bit(s2, q) by {
            lemma_bit_facts(s1, s2, q, 0);
            if bit(x, q) {
                lemma_pop_below_mono(x, m as nat, q as nat);
                lemma_pop_below_mono(x, (q + 1) as nat, 32);
            }
        }
        lemma_rank_skip(s1, s2, m, 25);
        lemma_rank_bound(25, s1, s2);
    }
    acc
}

/// Rebuild the layout of a given rank by the greedy descent over cells.
pub fn unranking(comb: &Comb, r: u64, n: u32, ones: u32, twos: u32) -> (s: (u32, u32))
    requires
        comb.wf(),
        n <= 25,
        ones <= 5,
        twos <= 5,
        (r as int) < trinomial(n as int, ones as int, twos as int),
    ensures
        s == spec_unrank(n, r as int, ones as int, twos as int),
{
    let mut s1: u32 = 0;
    let mut s2: u32 = 0;
    let mut i: u32 = n;
    let mut rr: u64 = r;
    let mut k1: i32 = ones as i32;
    let mut k2: i32 = twos as i32;
    proof {
        let first = spec_unrank(n, r as int, ones as int, twos as int);
        lemma_zero_or(first.0);
        lemma_zero_or(first.1);
    }
    while i > 0
        invariant
            comb.wf(),
            i <= n <= 25,
            k1 < 6,
            k2 < 6,
            (rr as int) < trinomial(i as int, k1 as int, k2 as int),
            spec_unrank(n, r as int, ones as int, twos as int) == (
                s1 | spec_unrank(i, rr as int, k1 as int, k2 as int).0,
                s2 | spec_unrank(i, rr as int, k1 as int, k2 as int).1,
            ),
        decreases i,
    {
        let v0 = comb.get(i as i32 - 1, k1, k2);
        let v1 = comb.get(i as i32 - 1, k1 - 1, k2);
        proof {
            lemma_trinomial_fits(i as int - 1, k1 as int, k2 as int);
            lemma_trinomial_fits(i as int - 1, k1 as int - 1, k2 as int);
            lemma_or_rearrange(s1, 0, 0);
            lemma_or_rearrange(s2, 0, 0);
        }
        let ghost prev = spec_unrank(i, rr as int, k1 as int, k2 as int);
        if rr >= v0 + v1 {
            proof {
                let nxt = spec_unrank((i - 1) as u32, rr as int - v0 as int - v1 as int, k1 as int, k2 as int - 1);
                lemma_or_rearrange(s2, nxt.1, 1u32 << (i - 1) as u32);
            }
            rr = rr - v0 - v1;
            k2 = k2 - 1;
            s2 = s2 | (1u32 << (i - 1));
        } else if rr >= v0 {
            proof {
                let nxt = spec_unrank((i - 1) as u32, rr as int - v0 as int, k1 as int - 1, k2 as int);
                lemma_or_rearrange(s1, nxt.0, 1u32 << (i - 1) as u32);
            }
            rr = rr - v0;
            k1 = k1 - 1;
            s1 = s1 | (1u32 << (i - 1));
        }
        i = i - 1;
    }
    proof {
        lemma_zero_or(s1);
        lemma_zero_or(s2);
        lemma_or_rearrange(s1, 0, 0);
        lemma_or_rearrange(s2, 0, 0);
    }
    (s1, s2)
}

proof fn lemma_zero_or(a: u32)
    ensures
        0u32 | a == a,
        a | 0u32 == a,
{
    lemma_or_rearrange(a, 0, 0);
}

} // verus!
