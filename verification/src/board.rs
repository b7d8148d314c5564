//! A constraint board over five squares: each side's word says on which
//! squares that side is still allowed, and a square both sides allow may also
//! be empty.

use vstd::prelude::*;
use crate::bits::{pop, popcount};

verus! {

/// How many non-shared squares one side may claim.
pub const MAX_PIECES: u32 = 2;

/// A pair of permission words, one per side.
#[derive(Clone, Copy, PartialEq, Eq, Debug)]
pub struct Board {
    pub sides: [u32; 2],
}

impl Board {
    pub open spec fn check_spec(self) -> Option<Board> {
        if pop(self.sides[0] & !self.sides[1]) > MAX_PIECES || pop(
            self.sides[1] & !self.sides[0],
        ) > MAX_PIECES {
            None
        } else if self.sides[0] | self.sides[1] == 0xFFFFFFFFu32 {
            Some(self)
        } else {
            None
        }
    }

    /// Reject a board that commits a side to more pieces than allowed or
    /// whose words fail to cover every square.
    pub fn check(self) -> (r: Option<Board>)
        ensures
            r == self.check_spec(),
    {
        let me = self.sides[0];
        let you = self.sides[1];
        if popcount(me & !you) > MAX_PIECES {
            return None;
        }
        if popcount(you & !me) > MAX_PIECES {
            return None;
        }
        if me | you == 0xFFFFFFFFu32 {
            Some(self)
        } else {
            None
        }
    }

    pub open spec fn backward_spec(self, from: u32, to: u32) -> Option<[Board; 2]> {
        if self.sides[0] & to == 0 {
            None
        } else if self.sides[0] & self.sides[1] & from == 0 {
            None
        } else {
            let me = self.sides[0] | from;
            let you = (self.sides[1] & !from) | to;
            Some(
                [
                    Board { sides: [you & !to, me] },
                    Board { sides: [you, me] },
                ],
            )
        }
    }

    /// Undo a move from `from` to `to`: the piece must have been ours at
    /// `to`, and `from` must have been allowed empty.  Two boards come back,
    /// for the two things `to` may have held before.
    pub fn backward(&self, from: u32, to: u32) -> (r: Option<[Board; 2]>)
        ensures
            r == self.backward_spec(from, to),
    {
        if self.sides[0] & to == 0 {
            // `to` must be able to be ours
            return None;
        }
        if self.sides[0] & self.sides[1] & from == 0 {
            // `from` must be able to be empty
            return None;
        }
        let me = self.sides[0] | from;
        let you = (self.sides[1] & !from) | to;
        let with_you = Board { sides: [me, you] };
        let without_you = Board { sides: [me, you & !to] };
        let r = Some([without_you.swap(), with_you.swap()]);
        proof {
            assert(r =~~= self.backward_spec(from, to));
        }
        r
    }

    /// Exchange the two sides' words.
    pub fn swap(self) -> (r: Board)
        ensures
            r == (Board { sides: [self.sides[1], self.sides[0]] }),
            r.sides[0] == self.sides[1],
            r.sides[1] == self.sides[0],
    {
        Board { sides: [self.sides[1], self.sides[0]] }
    }
}

} // verus!
