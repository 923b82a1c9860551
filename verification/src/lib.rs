//! A verified solver for generalized peg-solitaire puzzles.
//!
//! A board is a rectangular grid of cells, each a peg, an empty hole, or
//! absent (outside the puzzle's playable shape). A jump moves a peg over an
//! adjacent peg into the hole directly beyond it, removing the jumped peg.
//! The solver searches depth-first for a jump sequence that leaves at most
//! one peg, memoizing boards proven to be dead ends so transpositions are
//! pruned, and records each executed jump in a play history.

pub mod board;
pub mod direction;
pub mod play;
pub mod position;
pub mod solver;
pub mod visited;
