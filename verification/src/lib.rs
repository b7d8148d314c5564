//! A retrograde endgame tablebase builder for Onitama on a 5x5 board.
//!
//! The solver enumerates every position with at most a fixed number of pawns
//! per side, packs the 30 card-arrangement sub-verdicts of each position into
//! one 32-bit word, and iterates an accumulate / spread propagation until no
//! word changes.  Only bits are ever set, so the iteration converges.


pub mod bits;
pub mod comb;
pub mod model;
pub mod iter;
pub mod card;
pub mod block;
pub mod tables;
pub mod solver;
pub mod job;
pub mod board;
pub mod legacy;
pub mod onitama;
