//! An earlier constraint-board draft over ten squares: both words zero means
//! the square is unconstrained, and the two sides never share a square.

use vstd::prelude::*;
use crate::bits::{pop, popcount};

verus! {

/// Number of squares of this draft's board.
pub const BOARD_SIZE: u32 = 10;

/// Most pieces one side may hold.
pub const MAX_PIECES: u32 = 4;

/// A pair of requirement words, one per side.
#[derive(Clone, Copy, PartialEq, Eq, Debug, Default)]
pub struct Board {
    pub sides: [u32; 2],
}

impl Board {
    pub open spec fn check_spec(self) -> Option<Board> {
        if pop(self.sides[0]) > MAX_PIECES || pop(self.sides[1]) > MAX_PIECES {
            None
        } else if self.sides[0] & self.sides[1] == 0 {
            Some(self)
        } else {
            None
        }
    }

    /// Reject a board with too many pieces on a side or with a square claimed
    /// by both sides.
    pub fn check(self) -> (r: Option<Board>)
        ensures
            r == self.check_spec(),
    {
        if popcount(self.sides[0]) > MAX_PIECES {
            return None;
        }
        if popcount(self.sides[1]) > MAX_PIECES {
            return None;
        }
        if self.sides[0] & self.sides[1] == 0 {
            Some(self)
        } else {
            None
        }
    }

    /// Whether this board requires no more than the other: every piece this
    /// board demands, the other demands too.
    pub fn includes(&self, rhs: &Board) -> (r: bool)
        ensures
            r == (self.sides[0] & !rhs.sides[0] == 0 && self.sides[1] & !rhs.sides[1] == 0),
    {
        self.sides[0] & !rhs.sides[0] == 0 && self.sides[1] & !rhs.sides[1] == 0
    }

    pub open spec fn backward_spec(self, from: u32, to: u32) -> Option<[Board; 2]> {
        if self.sides[1] & to != 0 {
            None
        } else if (self.sides[0] | self.sides[1]) & from != 0 {
            None
        } else {
            let me = self.sides[0] | from | to;
            Some(
                [
                    Board { sides: [self.sides[1], me & !to] },
                    Board { sides: [self.sides[1], me] },
                ],
            )
        }
    }

    /// Undo a move from `from` to `to`: the destination may not be required
    /// by the opponent and the source must have been free.
    pub fn backward(&self, from: u32, to: u32) -> (r: Option<[Board; 2]>)
        ensures
            r == self.backward_spec(from, to),
    {
        if self.sides[1] & to != 0 {
            return None;
        }
        if (self.sides[0] | self.sides[1]) & from != 0 {
            return None;
        }
        let me = self.sides[0] | from | to;
        let with_me = Board { sides: [me, self.sides[1]] };
        let without_me = Board { sides: [me & !to, self.sides[1]] };
        let r = Some([without_me.swap(), with_me.swap()]);
        proof {
            assert(r =~~= self.backward_spec(from, to));
        }
        r
    }

    /// Exchange the two sides' words.
    pub fn swap(self) -> (r: Board)
        ensures
            r == (Board { sides: [self.sides[1], self.sides[0]] }),
            r.sides[0] == self.sides[1],
            r.sides[1] == self.sides[0],
    {
        Board { sides: [self.sides[1], self.sides[0]] }
    }

    /// Every board whose two sides are combinations the generator yields.
    pub fn generate_all() -> (r: Vec<Board>)
        ensures
            forall|i: int| 0 <= i < r@.len() ==> (#[trigger] r@[i]).sides[0] & 0xFFFFFC00u32 == 0,
    {
        let mut list: Vec<Board> = Vec::new();
        let mes = Board::generate_combinations(0);
        let mut i: usize = 0;
        while i < mes.len()
            invariant
                i <= mes@.len(),
                forall|k: int| 0 <= k < mes@.len() ==> #[trigger] mes@[k] & 0xFFFFFC00u32 == 0,
                forall|k: int|
                    0 <= k < list@.len() ==> (#[trigger] list@[k]).sides[0] & 0xFFFFFC00u32 == 0,
            decreases mes@.len() - i,
        {
            let me = mes[i];
            let yous = Board::generate_combinations(me);
            let mut j: usize = 0;
            while j < yous.len()
                invariant
                    i < mes@.len(),
                    me == mes@[i as int],
                    me & 0xFFFFFC00u32 == 0,
                    j <= yous@.len(),
                    forall|k: int|
                        0 <= k < list@.len() ==> (#[trigger] list@[k]).sides[0] & 0xFFFFFC00u32
                            == 0,
                decreases yous@.len() - j,
            {
                list.push(Board { sides: [me, yous[j]] });
                j += 1;
            }
            i += 1;
        }
        list
    }

    /// All piece combinations over the board squares that avoid `skip`, in
    /// the generator's order: a strictly increasing run of on-board words
    /// that starts from the empty word and avoids the skipped squares.
    pub fn generate_combinations(skip: u32) -> (r: Vec<u32>)
        ensures
            r@.len() >= 1,
            r@[0] == 0u32,
            forall|i: int|
                0 <= i < r@.len() ==> #[trigger] r@[i] & 0xFFFFFC00u32 == 0 && r@[i] & skip == 0,
            forall|i: int, j: int| 0 <= i < j < r@.len() ==> #[trigger] r@[i] < #[trigger] r@[j],
    {
        let skip_all = skip | !0x3FFu32;
        let mut r: Vec<u32> = Vec::new();
        proof {
            lemma_board_bits(0, skip, skip_all);
        }
        r.push(0);
        let mut prev: u32 = 0;
        loop
            invariant
                skip_all == skip | !0x3FFu32,
                r@.len() >= 1,
                r@[0] == 0u32,
                prev == r@[r@.len() - 1],
                prev < 0x400,
                forall|i: int|
                    0 <= i < r@.len() ==> #[trigger] r@[i] & 0xFFFFFC00u32 == 0 && r@[i] & skip
                        == 0,
                forall|i: int, j: int| 0 <= i < j < r@.len() ==> #[trigger] r@[i] < #[trigger] r@[j],
            ensures
                r@.len() >= 1,
                r@[0] == 0u32,
                forall|i: int|
                    0 <= i < r@.len() ==> #[trigger] r@[i] & 0xFFFFFC00u32 == 0 && r@[i] & skip
                        == 0,
                forall|i: int, j: int| 0 <= i < j < r@.len() ==> #[trigger] r@[i] < #[trigger] r@[j],
            decreases 0x400 - prev,
        {
            let p = next(prev, skip_all, MAX_PIECES);
            if p == 0 || p <= prev {
                break ;
            }
            proof {
                lemma_board_bits(p, skip, skip_all);
            }
            r.push(p);
            prev = p;
        }
        r
    }
}

proof fn lemma_board_bits(p: u32, skip: u32, skip_all: u32)
    requires
        skip_all == skip | !0x3FFu32,
        p == 0 || p & skip_all == 0,
    ensures
        p & 0xFFFFFC00u32 == 0,
        p < 0x400,
        p & skip == 0,
{
    assert((((p == 0 || p & skip_all == 0) && skip_all == skip | !0x3FFu32) ==> (p & 0xFFFFFC00u32
        == 0 && p & skip == 0)) && (p & 0xFFFFFC00u32 == 0 ==> p < 0x400)) by (bit_vector)
        requires
            p == 0 || p & skip_all == 0,
            skip_all == skip | !0x3FFu32,
    ;
}

/// The next combination after `board`: add one when the budget allows, else
/// carry over the lowest piece, always avoiding the `skip` squares.
pub fn next(board: u32, skip: u32, max: u32) -> (r: u32)
    ensures
        r == ({
            let neg = ((0x100000000 - board) % 0x100000000) as u32;
            let one: int = if pop(board) < max {
                1
            } else {
                (board & neg) as int
            };
            let sum = ((one + (board | skip)) % 0x100000000) as u32;
            sum & !skip
        }),
        r & skip == 0,
{
    let neg: u32 = (((0x100000000u64 - (board as u64)) % 0x100000000u64)) as u32;
    let res: u32 = if popcount(board) < max {
        1
    } else {
        board & neg
    };
    let sum: u32 = (((res as u64) + ((board | skip) as u64)) % 0x100000000u64) as u32;
    proof {
        assert((sum & !skip) & skip == 0) by (bit_vector);
    }
    sum & !skip
}

} // verus!
