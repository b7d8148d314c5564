//! A draft position encoding with explicit hands of cards: full boards and
//! the partial boards that a first-level index works over.

use vstd::prelude::*;
use crate::bits::{pop, popcount};
use crate::card::{cards_mask, spec_offset_mask, spec_get_bitmap};

verus! {

/// A full position: pawn boards, hands, and king squares of both sides.
#[derive(PartialEq, Eq, Default, Clone, Copy, Debug)]
pub struct Board {
    pub pawns: [u32; 2],
    pub cards: [u16; 2],
    pub kings: [u8; 2],
}

/// The part of a position a first-level index ranges over: pawn counts,
/// hands, and the second king.
#[derive(Clone, Copy, PartialEq, Eq, Default, Debug)]
pub struct BoardIncomplete {
    pub pawn_n: [u8; 2],
    pub cards: [u16; 2],
    pub king1: u8,
}

impl BoardIncomplete {
    /// Whether the second side's hand attacks the first side's temple square,
    /// so the position is already lost for the first side.
    pub fn is_lost(&self) -> (r: bool)
        requires
            self.king1 < 32,
        ensures
            r == ((1u32 << self.king1) & spec_offset_mask(
                22,
                spec_get_bitmap(false, self.cards[1], 16),
            ) != 0),
    {
        let king1_temple_attack = cards_mask::<false>(22, self.cards[1]);
        (1u32 << self.king1) & king1_temple_attack != 0
    }
}

impl Board {
    /// Forget the pawn squares, keeping only their counts.
    pub fn incomplete(&self) -> (r: BoardIncomplete)
        requires
            pop(self.pawns[0]) <= 255,
            pop(self.pawns[1]) <= 255,
        ensures
            r.pawn_n[0] == pop(self.pawns[0]),
            r.pawn_n[1] == pop(self.pawns[1]),
            r.cards == self.cards,
            r.king1 == self.kings[1],
    {
        BoardIncomplete {
            pawn_n: [popcount(self.pawns[0]) as u8, popcount(self.pawns[1]) as u8],
            cards: self.cards,
            king1: self.kings[1],
        }
    }
}

} // verus!
