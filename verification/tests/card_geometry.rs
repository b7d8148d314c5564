use onitama_solver::card::{cards_mask, offset_mask, offset_mask_fixed, undo_offset,
    reverse_bitmap, get_bitmap};
use onitama_solver::bits::{bit_positions, popcount};

#[test]
pub fn test() {
    let cards = 1;
    let res10 = 0b00000_10000_01000_10000_00000;
    let res12 = 0b00000_00100_00010_00100_00000;
    let res10_rev = 0b00000_10000_00000_10000_00000;
    let res3_rev = 0b00100_00010_00000_00000_00000;
    let mask10 = cards_mask::<false>(10, cards);
    let mask10_rev = cards_mask::<true>(10, cards);
    let mask12 = cards_mask::<false>(12, cards);
    let mask3_rev = cards_mask::<true>(3, cards);
    assert_eq!(res12, mask12);
    assert_eq!(res10, mask10);
    assert_eq!(res10_rev, mask10_rev);
    assert_eq!(res3_rev, mask3_rev);
}

#[test]
fn offset_round_trip() {
    // undoing an offset recovers the on-board part of the bitmap
    let bm = get_bitmap::<false>(0b1);
    for offset in 0..25u8 {
        let m = offset_mask(offset, bm);
        let undone = undo_offset(offset, m);
        // the undone mask is the part of bm that stayed on the board
        assert_eq!(undone & bm, undone);
        assert_eq!(offset_mask(offset, undone), m);
    }
}

#[test]
fn reverse_bitmap_involution() {
    for &x in &[0b1u32, 0x155_5555, 0x1FF_FFFF, 0b00000_00100_00010_00100_00000] {
        assert_eq!(reverse_bitmap(reverse_bitmap(x)), x);
    }
    // bit 0 maps to bit 24
    assert_eq!(reverse_bitmap(1), 1 << 24);
}

#[test]
fn fixed_offset_targets() {
    // a piece in the middle moving by the first card's bitmap reaches the
    // bitmap itself
    let bm = get_bitmap::<false>(0b1);
    assert_eq!(offset_mask_fixed(12, bm), bm);
    // moves from the bottom-left corner never wrap to the right edge
    for c in 0..16u16 {
        let b = get_bitmap::<false>(1 << c);
        let t = offset_mask_fixed(0, b);
        for p in bit_positions(t) {
            assert!(p < 25);
            assert!(p % 5 <= 2, "wrapped move from corner");
        }
    }
}

#[test]
fn bit_positions_lists_set_bits() {
    assert_eq!(bit_positions(0), Vec::<u32>::new());
    assert_eq!(bit_positions(0b1010001), vec![0, 4, 6]);
    assert_eq!(bit_positions(1 << 31), vec![31]);
    let x = 0xDEADBEEFu32;
    let ps = bit_positions(x);
    assert_eq!(ps.len() as u32, popcount(x));
    let mut back = 0u32;
    for p in ps {
        back |= 1 << p;
    }
    assert_eq!(back, x);
}
