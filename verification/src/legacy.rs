//! An earlier draft of the constraint-board model, kept for its generators.

pub mod board;
