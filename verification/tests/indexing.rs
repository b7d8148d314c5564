use onitama_solver::comb::{Comb, ranking, unranking};
use onitama_solver::model::{PawnCount, TeamLayout, KingPos};
use onitama_solver::iter::{TeamLayoutIter, g};
use onitama_solver::bits::popcount;

/// The trinomial by the multiplicative formula, as an independent reference.
fn reference_trinomial(n: u32, k1: u32, k2: u32) -> u128 {
    if k1 + k2 > n {
        return 0;
    }
    let fact = |m: u32| -> u128 {
        let mut r: u128 = 1;
        for i in 1..=m as u128 {
            r *= i;
        }
        r
    };
    fact(n) / (fact(k1) * fact(k2) * fact(n - k1 - k2))
}

#[test]
fn trinomial_table_matches_reference() {
    let comb = Comb::new();
    for n in 0..26i32 {
        for k1 in 0..6i32 {
            for k2 in 0..6i32 {
                let expect = reference_trinomial(n as u32, k1 as u32, k2 as u32);
                assert_eq!(comb.get(n, k1, k2) as u128, expect);
            }
        }
    }
    // the layout count of the three-per-side bucket, by closed form
    assert_eq!(comb.get(25, 3, 3), 3_542_000);
}

#[test]
fn rank_unrank_identity() {
    let comb = Comb::new();
    for (c0, c1) in [(0u32, 0u32), (0, 1), (1, 1), (2, 1)] {
        let total = comb.get(25, c0 as i32 + 1, c1 as i32 + 1);
        for r in 0..total {
            let (s1, s2) = unranking(&comb, r, 25, c0 + 1, c1 + 1);
            assert_eq!(popcount(s1), c0 + 1);
            assert_eq!(popcount(s2), c1 + 1);
            assert_eq!(s1 & s2, 0);
            assert_eq!(ranking(&comb, s1, s2), r);
        }
    }
}

#[test]
fn layout_iterator_visits_every_layout_once() {
    let comb = Comb::new();
    for (c0, c1) in [(0u32, 0u32), (1, 0), (1, 1)] {
        let counts = PawnCount::new(c0, c1);
        let layouts = counts.layouts(&comb);
        assert_eq!(layouts.len() as u64, comb.get(25, c0 as i32 + 1, c1 as i32 + 1));
        for (j, l) in layouts.iter().enumerate() {
            // well formed and ranked at its own position
            assert_eq!(popcount(l.pieces0), c0 + 1);
            assert_eq!(popcount(l.pieces1), c1 + 1);
            assert_eq!(l.pieces0 & l.pieces1, 0);
            assert_eq!(counts.index(&comb, l), j as u64);
        }
        let mut it = TeamLayoutIter::new(counts, &comb);
        let mut n = 0usize;
        while let Some(l) = it.next(&comb) {
            assert_eq!(l, layouts[n]);
            n += 1;
        }
        assert_eq!(n, layouts.len());
    }
}

#[test]
fn successor_step_matches_iterator() {
    let comb = Comb::new();
    let counts = PawnCount::new(1, 1);
    let layouts = counts.layouts(&comb);
    for j in 0..200 {
        let cur = layouts[j];
        let nxt = layouts[(j + 1) % layouts.len()];
        assert_eq!(g(&comb, (cur.pieces0, cur.pieces1)), (nxt.pieces0, nxt.pieces1));
    }
    // the step wraps from the last layout back to the first
    let last = layouts[layouts.len() - 1];
    assert_eq!(
        g(&comb, (last.pieces0, last.pieces1)),
        (layouts[0].pieces0, layouts[0].pieces1)
    );
}

#[test]
fn inversions_are_involutions() {
    let c = PawnCount::new(2, 1);
    assert_eq!(c.invert().invert(), c);
    assert_eq!(c.invert(), PawnCount::new(1, 2));
    let l = TeamLayout::new(0b1_00000_00001, 0b10_00000_00000_00000);
    assert_eq!(l.invert().invert(), l);
    let k = KingPos::new(5, 19);
    assert_eq!(k.invert().invert(), k);
    assert_eq!(k.invert(), KingPos::new(24 - 19, 24 - 5));
}

#[test]
fn king_indexer_bijection() {
    let l = TeamLayout::new(0b00000_00000_00000_01010_00001, 0b10001_00000_00100_00000_00000);
    let ki = l.indexer();
    let kings = ki.enumerate();
    assert_eq!(kings.len(), ki.total());
    for (j, k) in kings.iter().enumerate() {
        assert_eq!(ki.index(*k), j);
        assert_ne!(k.king0, 22);
        assert_ne!(k.king1, 2);
        assert_ne!(l.pieces0 & (1 << k.king0), 0);
        assert_ne!(l.pieces1 & (1 << k.king1), 0);
    }
}
