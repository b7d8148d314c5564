//! Card geometry: the sixteen canonical movement cards as 25-bit bitmaps
//! centred on the middle square, and the masks that slide a bitmap to a
//! square of the board without wrapping around its edge.

use vstd::prelude::*;
use crate::model::{spec_rev25, rev25};

verus! {

pub const TABLE_MASK: u32 = 0x1FFFFFF;

/// For each square, the part of a centred bitmap whose cells stay on the
/// board when the bitmap is slid so that its centre lands on that square.
pub open spec fn spec_board_mask(offset: int) -> u32 {
    if offset == 0 {
        0b00000_00000_00111_00111_00111u32
    } else if offset == 1 {
        0b00000_00000_01111_01111_01111u32
    } else if offset == 2 {
        0b00000_00000_11111_11111_11111u32
    } else if offset == 3 {
        0b00000_00000_11110_11110_11110u32
    } else if offset == 4 {
        0b00000_00000_11100_11100_11100u32
    } else if offset == 5 {
        0b00000_00111_00111_00111_00111u32
    } else if offset == 6 {
        0b00000_01111_01111_01111_01111u32
    } else if offset == 7 {
        0b00000_11111_11111_11111_11111u32
    } else if offset == 8 {
        0b00000_11110_11110_11110_11110u32
    } else if offset == 9 {
        0b00000_11100_11100_11100_11100u32
    } else if offset == 10 {
        0b00111_00111_00111_00111_00111u32
    } else if offset == 11 {
        0b01111_01111_01111_01111_01111u32
    } else if offset == 12 {
        0b11111_11111_11111_11111_11111u32
    } else if offset == 13 {
        0b11110_11110_11110_11110_11110u32
    } else if offset == 14 {
        0b11100_11100_11100_11100_11100u32
    } else if offset == 15 {
        0b00111_00111_00111_00111_00000u32
    } else if offset == 16 {
        0b01111_01111_01111_01111_00000u32
    } else if offset == 17 {
        0b11111_11111_11111_11111_00000u32
    } else if offset == 18 {
        0b11110_11110_11110_11110_00000u32
    } else if offset == 19 {
        0b11100_11100_11100_11100_00000u32
    } else if offset == 20 {
        0b00111_00111_00111_00000_00000u32
    } else if offset == 21 {
        0b01111_01111_01111_00000_00000u32
    } else if offset == 22 {
        0b11111_11111_11111_00000_00000u32
    } else if offset == 23 {
        0b11110_11110_11110_00000_00000u32
    } else {
        0b11100_11100_11100_00000_00000u32
    }
}

/// Look up the board mask of a square.
pub fn board_mask(offset: usize) -> (r: u32)
    requires
        offset < 25,
    ensures
        r == spec_board_mask(offset as int),
{
    let masks: [u32; 25] = [
        0b00000_00000_00111_00111_00111u32,
        0b00000_00000_01111_01111_01111u32,
        0b00000_00000_11111_11111_11111u32,
        0b00000_00000_11110_11110_11110u32,
        0b00000_00000_11100_11100_11100u32,
        0b00000_00111_00111_00111_00111u32,
        0b00000_01111_01111_01111_01111u32,
        0b00000_11111_11111_11111_11111u32,
        0b00000_11110_11110_11110_11110u32,
        0b00000_11100_11100_11100_11100u32,
        0b00111_00111_00111_00111_00111u32,
        0b01111_01111_01111_01111_01111u32,
        0b11111_11111_11111_11111_11111u32,
        0b11110_11110_11110_11110_11110u32,
        0b11100_11100_11100_11100_11100u32,
        0b00111_00111_00111_00111_00000u32,
        0b01111_01111_01111_01111_00000u32,
        0b11111_11111_11111_11111_00000u32,
        0b11110_11110_11110_11110_00000u32,
        0b11100_11100_11100_11100_00000u32,
        0b00111_00111_00111_00000_00000u32,
        0b01111_01111_01111_00000_00000u32,
        0b11111_11111_11111_00000_00000u32,
        0b11110_11110_11110_00000_00000u32,
        0b11100_11100_11100_00000_00000u32,
    ];
    masks[offset]
}

/// One centred 25-bit bitmap per card, rows written from the top of the
/// board down.
pub open spec fn spec_card_map(card: int) -> u32 {
    if card == 0 {
        0b00000_00100_00010_00100_00000u32
    } else if card == 1 {
        0b00000_00100_01010_00000_00000u32
    } else if card == 2 {
        0b00000_00100_01000_00100_00000u32
    } else if card == 3 {
        0b00000_01010_01010_00000_00000u32
    } else if card == 4 {
        0b00000_00100_10001_00000_00000u32
    } else if card == 5 {
        0b00100_00000_00000_00100_00000u32
    } else if card == 6 {
        0b00000_01010_00000_01010_00000u32
    } else if card == 7 {
        0b00000_00100_00000_01010_00000u32
    } else if card == 8 {
        0b00000_10001_00000_01010_00000u32
    } else if card == 9 {
        0b00000_01010_00000_00100_00000u32
    } else if card == 10 {
        0b00000_01000_10000_00010_00000u32
    } else if card == 11 {
        0b00000_00010_00001_01000_00000u32
    } else if card == 12 {
        0b00000_01000_01010_00010_00000u32
    } else if card == 13 {
        0b00000_00010_01010_01000_00000u32
    } else if card == 14 {
        0b00000_01000_00010_01000_00000u32
    } else {
        0b00000_00010_01000_00010_00000u32
    }
}

/// Look up a card's bitmap, forward or rotated 180 degrees.
pub fn card_map(card: usize, reversed: bool) -> (r: u32)
    requires
        card < 16,
    ensures
        !reversed ==> r == spec_card_map(card as int),
        reversed ==> r == spec_rev25(spec_card_map(card as int)),
        r < 0x2000000,
{
    let maps: [u32; 16] = [
        0b00000_00100_00010_00100_00000u32,
        0b00000_00100_01010_00000_00000u32,
        0b00000_00100_01000_00100_00000u32,
        0b00000_01010_01010_00000_00000u32,
        0b00000_00100_10001_00000_00000u32,
        0b00100_00000_00000_00100_00000u32,
        0b00000_01010_00000_01010_00000u32,
        0b00000_00100_00000_01010_00000u32,
        0b00000_10001_00000_01010_00000u32,
        0b00000_01010_00000_00100_00000u32,
        0b00000_01000_10000_00010_00000u32,
        0b00000_00010_00001_01000_00000u32,
        0b00000_01000_01010_00010_00000u32,
        0b00000_00010_01010_01000_00000u32,
        0b00000_01000_00010_01000_00000u32,
        0b00000_00010_01000_00010_00000u32,
    ];
    let m = maps[card];
    if reversed {
        proof {
            crate::model::lemma_rev25_bits(spec_card_map(card as int), 0);
        }
        rev25(m)
    } else {
        m
    }
}

/// Reverse a 25-bit bitmap: the same card as seen by the other player.
pub fn reverse_bitmap(board: u32) -> (r: u32)
    ensures
        r == spec_rev25(board),
{
    rev25(board)
}

/// The union of the bitmaps of the cards in a hand.
pub open spec fn spec_get_bitmap(rev: bool, cards: u16, n: int) -> u32
    decreases n,
{
    if n <= 0 {
        0u32
    } else {
        let prev = spec_get_bitmap(rev, cards, n - 1);
        if cards >> ((n - 1) as u16) & 1 == 1 {
            prev | (if rev {
                spec_rev25(spec_card_map(n - 1))
            } else {
                spec_card_map(n - 1)
            })
        } else {
            prev
        }
    }
}

/// Union the bitmaps of all cards of a hand.
pub fn get_bitmap<const S: bool>(cards: u16) -> (r: u32)
    ensures
        r == spec_get_bitmap(S, cards, 16),
        r < 0x2000000,
{
    let mut r: u32 = 0;
    let mut c: usize = 0;
    while c < 16
        invariant
            c <= 16,
            r == spec_get_bitmap(S, cards, c as int),
            r < 0x2000000,
        decreases 16 - c,
    {
        if (cards >> (c as u16)) & 1 == 1 {
            let m = card_map(c, S);
            proof {
                lemma_or_small(r, m);
            }
            r = r | m;
        }
        c += 1;
    }
    r
}

pub proof fn lemma_or_small(a: u32, b: u32)
    requires
        a < 0x2000000,
        b < 0x2000000,
    ensures
        a | b < 0x2000000,
{
    assert(a | b < 0x2000000) by (bit_vector)
        requires
            a < 0x2000000,
            b < 0x2000000,
    ;
}

/// Slide a centred bitmap so its centre lands on `offset`, dropping the cells
/// that would leave the board, with the bitmap kept fixed and the board
/// shifted under it.
pub open spec fn spec_offset_mask(offset: int, mask: u32) -> u32 {
    ((((mask & spec_board_mask(offset)) as u64) << 12 >> (offset as u64)) & 0x1FFFFFF) as u32
}

/// The target squares a piece on `offset` reaches by the moves of `mask`.
pub open spec fn spec_offset_mask_fixed(offset: int, mask: u32) -> u32 {
    ((((mask & spec_board_mask(24 - offset)) as u64) << (offset as u64) >> 12) & 0x1FFFFFF) as u32
}

/// Offset a bitmap with the board sliding under the bitmap.
pub fn offset_mask(offset: u8, mask: u32) -> (r: u32)
    requires
        offset < 25,
    ensures
        r == spec_offset_mask(offset as int, mask),
        r < 0x2000000,
{
    let n = mask & board_mask(offset as usize);
    let w = (((n as u64) << 12) >> (offset as u64)) & 0x1FFFFFF;
    proof {
        lemma_low25_u64(((n as u64) << 12) >> (offset as u64));
    }
    w as u32
}

proof fn lemma_low25_u64(v: u64)
    ensures
        v & 0x1FFFFFF < 0x2000000,
{
    assert(v & 0x1FFFFFF < 0x2000000) by (bit_vector);
}

/// Offset a bitmap with the bitmap sliding over the board: the legal target
/// mask of a source square.
pub fn offset_mask_fixed(offset: usize, mask: u32) -> (r: u32)
    requires
        offset < 25,
    ensures
        r == spec_offset_mask_fixed(offset as int, mask),
        r < 0x2000000,
{
    let n = mask & board_mask(24 - offset);
    let w = (((n as u64) << (offset as u64)) >> 12) & 0x1FFFFFF;
    proof {
        lemma_low25_u64(((n as u64) << (offset as u64)) >> 12);
    }
    w as u32
}

/// Undo `offset_mask`: slide the board back under the bitmap.
pub fn undo_offset(offset: u8, mask: u32) -> (r: u32)
    requires
        offset < 25,
    ensures
        r == (((mask as u64) << (offset as u64)) >> 12) as u32,
{
    (((mask as u64) << (offset as u64)) >> 12) as u32
}

/// The squares from which the cards of a hand reach the square `offset`.
pub fn cards_mask<const S: bool>(offset: u8, cards: u16) -> (r: u32)
    requires
        offset < 25,
    ensures
        r == spec_offset_mask(offset as int, spec_get_bitmap(S, cards, 16)),
{
    let bitmap = get_bitmap::<S>(cards);
    offset_mask(offset, bitmap)
}

} // verus!
