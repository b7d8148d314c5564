use onitama_solver::solver::{AllTables, Update, ImmutableUpdate, LocalMem};
use onitama_solver::block::{Block, mask_iter, BLOCK_MASK};
use onitama_solver::model::{PawnCount, TeamLayout, KingPos};
use onitama_solver::comb::Comb;

#[test]
fn counts0() {
    let comb = Comb::new();
    for layout in PawnCount::default().layouts(&comb) {
        println!("{:?}", layout);
    }
}

#[test]
fn mask_test() {
    for mask in mask_iter() {
        assert_eq!(mask, Block(mask).invert().0)
    }
}

#[test]
fn block_invert_involution() {
    for x in [0u32, 1, BLOCK_MASK, 0b101010_010101_111000_000111_110011] {
        let once = Block(x & BLOCK_MASK).invert();
        assert_eq!(Block(once.0).invert().0, x & BLOCK_MASK);
    }
}

#[test]
fn expand_stays_in_block() {
    for x in [1u32, 0b100000, 0x3F, BLOCK_MASK] {
        assert_eq!(Block(x).expand().0 & !BLOCK_MASK, 0);
    }
}

/// The kings-only build: every sub-verdict resolves, and the totals match an
/// exhaustive game-tree solution of the two-king endgame.
#[test]
fn build_kings_only() {
    let tb = AllTables::build(1, 0b11111);
    assert_eq!(tb.count_ones(), 11514);
    assert_eq!(tb.win_in1, 5181);
    assert_eq!(tb.total_unresolved, 0);
    // entries: all (king0, king1) pairs off their temples, 30 verdicts each
    assert_eq!(tb.len(), 553);
}

/// One pawn per side: the total of won sub-verdicts the build reports for
/// this piece count.
#[test]
fn build_one_pawn_per_side() {
    let tb = AllTables::build(2, 0b11111);
    assert_eq!(tb.count_ones(), 6_752_579);
}

/// Easy-win seeding alone, checked against a from-scratch reading of the
/// rules: a position is seeded for a card exactly when the moving side's king
/// can step onto its temple square, or any of its pieces can step onto the
/// enemy king.
#[test]
fn ez_seeding_matches_rules() {
    let comb = Comb::new();
    let tb = AllTables::build(1, 0b11111);
    // independent card tables: rows written from the top of the board down
    let card_maps: [u32; 5] = [
        0b00000_00100_00010_00100_00000,
        0b00000_00100_01010_00000_00000,
        0b00000_00100_01000_00100_00000,
        0b00000_01010_01010_00000_00000,
        0b00000_00100_10001_00000_00000,
    ];
    // deltas of the moving side: a reversed-card step from square s lands on
    // s + (12 - b) for each forward bit b, when it stays on the board
    let reaches = |src: u32, dst: u32, card: usize| -> bool {
        let (sr, sc) = (src / 5, src % 5);
        let (dr, dc) = (dst / 5, dst % 5);
        for b in 0..25u32 {
            if card_maps[card] & (1 << b) != 0 {
                let (br, bc) = (b / 5, b % 5);
                // the mover's delta is the reverse of the forward bitmap cell
                if dr as i32 - sr as i32 == 2 - br as i32 && dc as i32 - sc as i32 == 2 - bc as i32
                {
                    return true;
                }
            }
        }
        false
    };
    let masks = mask_iter();
    let counts = PawnCount::new(0, 0);
    for layout in counts.layouts(&comb) {
        let kings = layout.indexer().enumerate();
        let words = tb.ez_win_for_each(counts, layout, &kings);
        for (i, kp) in kings.iter().enumerate() {
            let mut expect = 0u32;
            for c in 0..5usize {
                let temple_free = layout.pieces1 & (1 << 2) == 0;
                let temple_win = reaches(kp.king1, 2, c) && temple_free;
                let mut capture = false;
                for p in 0..25u32 {
                    if layout.pieces1 & (1 << p) != 0 && reaches(p, kp.king0, c) {
                        capture = true;
                    }
                }
                if temple_win || capture {
                    expect |= Block(masks[c]).invert().expand().0;
                }
            }
            assert_eq!(words[i], expect, "layout {:?} kings {:?}", layout, kp);
        }
    }
}

#[test]
fn position_inversion_round_trip() {
    let layout = TeamLayout::new(0b1 | (1 << 7), (1 << 20) | (1 << 13));
    let kp = KingPos::new(7, 20);
    let il = layout.invert();
    let ik = kp.invert();
    assert_eq!(il.invert(), layout);
    assert_eq!(ik.invert(), kp);
    // the flipped king stands on the flipped side's board
    assert_ne!(il.pieces1 & (1 << ik.king1), 0);
    assert_ne!(il.pieces0 & (1 << ik.king0), 0);
}

/// Intersecting the loss statuses with the already-won arrangements, slot by
/// slot: each status loses exactly the bits of its inverted win word.
#[test]
fn check_unresolved_masks_out_wins() {
    let mut mem = LocalMem::new();
    let m0 = mask_iter()[0];
    mem.wins = vec![m0, 0, BLOCK_MASK];
    mem.status = vec![BLOCK_MASK, BLOCK_MASK, BLOCK_MASK];
    let u = Update {
        layout: TeamLayout::new(1, 2),
        immutable: ImmutableUpdate {
            current: PawnCount::new(0, 0),
            inv_current: PawnCount::new(0, 0),
            take_one: None,
            leave_one: None,
            go_up: false,
        },
    };
    let unresolved = u.check_unresolved(&mut mem, false);
    // the masks are their own inverses, so exactly their bits are cleared
    assert_eq!(mem.status[0], BLOCK_MASK & !m0);
    assert_eq!(mem.status[1], BLOCK_MASK);
    assert_eq!(mem.status[2], 0);
    // every slot had all 30 sub-verdicts decided
    assert_eq!(unresolved, 0);

    let mut mem2 = LocalMem::new();
    mem2.wins = vec![0, m0];
    mem2.status = vec![0, 0];
    let count = u.check_unresolved(&mut mem2, true);
    // the first slot is fully open, the second keeps only the mask's bits
    assert_eq!(count, 30 + 30 - m0.count_ones() as u64);
}
