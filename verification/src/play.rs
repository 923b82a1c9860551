use vstd::prelude::*;

use crate::board::Board;
use crate::position::Position;

verus! {

/// An immutable record of one executed jump: the peg's starting cell, the
/// cell it landed on, and a full snapshot of the board just after the jump.
/// Plays are pushed onto the history when a jump is made and popped when it
/// is backtracked; on success the history is the solution trace.
#[derive(Debug)]
pub struct Play {
    pub start: Position,
    pub end: Position,
    pub state: Board,
}

} // verus!
