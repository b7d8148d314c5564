use onitama_solver::board::Board as ConstraintBoard;
use onitama_solver::legacy::board::{Board as LegacyBoard, next};
use onitama_solver::onitama::{Board as HandBoard, BoardIncomplete};

#[test]
fn constraint_board_check() {
    let all = ConstraintBoard { sides: [u32::MAX, u32::MAX] };
    assert_eq!(all.check(), Some(all));
    let lopsided = ConstraintBoard { sides: [u32::MAX, 0b11111000] };
    assert_eq!(lopsided.check(), None);
    assert_eq!(all.swap(), all);
}

#[test]
fn constraint_board_backward() {
    let all = ConstraintBoard { sides: [u32::MAX, u32::MAX] };
    let r = all.backward(0b01, 0b10).unwrap();
    // the source becomes ours only, and the destination may or may not have
    // held an opponent piece
    assert_eq!(r[0].sides[1], u32::MAX);
    assert_eq!(r[1].sides[1], u32::MAX);
    assert_eq!(r[0].sides[0] & 0b10, 0);
    assert_ne!(r[1].sides[0] & 0b10, 0);
}

#[test]
fn legacy_board_generators() {
    let combos = LegacyBoard::generate_combinations(0);
    // the empty word comes first and every combination stays on the board
    assert_eq!(combos[0], 0);
    for &c in &combos {
        assert!(c < 1 << 10);
        assert!(c.count_ones() <= 4);
    }
    // all combinations of up to four pieces over ten squares
    let expect: u32 = (0u32..1 << 10).filter(|x| x.count_ones() <= 4).count() as u32;
    assert_eq!(combos.len() as u32, expect);
    let all = LegacyBoard::generate_all();
    assert!(all.len() > combos.len());
}

#[test]
fn legacy_board_ops() {
    let b = LegacyBoard { sides: [0b0011, 0b1100] };
    assert_eq!(b.check(), Some(b));
    assert!(b.includes(&LegacyBoard { sides: [0b0111, 0b1100] }));
    assert!(!b.includes(&LegacyBoard { sides: [0b1000, 0b1100] }));
    let clash = LegacyBoard { sides: [0b0110, 0b0100] };
    assert_eq!(clash.check(), None);
    assert_eq!(next(0, 0, 4), 1);
    assert_eq!(next(1, 0, 4), 0b10);
    assert_eq!(next(0b11, 0, 2), 0b100);
}

#[test]
fn hand_board_summary() {
    let b = HandBoard {
        pawns: [0b1010, 0b100000],
        cards: [0b00011, 0b01100],
        kings: [12, 7],
    };
    let inc = b.incomplete();
    assert_eq!(inc.pawn_n, [2, 1]);
    assert_eq!(inc.cards, b.cards);
    assert_eq!(inc.king1, 7);
    // with no card able to reach the first temple, nothing is lost
    let safe = BoardIncomplete { pawn_n: [0, 0], cards: [0, 0], king1: 0 };
    assert!(!safe.is_lost());
}

#[test]
fn hand_board_temple_threat() {
    // the first card steps one ahead or one aside; from squares 7 and 1 it
    // reaches the first side's temple on square 22 via the offset table
    for king1 in 0..25u8 {
        let b = BoardIncomplete { pawn_n: [0, 0], cards: [0, 0b1], king1 };
        assert_eq!(b.is_lost(), king1 == 7 || king1 == 1, "king1 {}", king1);
    }
}
