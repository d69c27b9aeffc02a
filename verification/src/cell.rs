//! The board's cell and the game's state machine values.

use vstd::prelude::*;

verus! {

/// What the game as a whole is in: play goes on, a mine went off, or every
/// safe cell is open. `Dead` and `Won` are terminal.
#[derive(Clone, Copy, Debug, PartialEq, Eq, Structural)]
pub enum GameState {
    Normal,
    Dead,
    Won,
}

/// A cell's underlying kind: a mine, or the count of mines among its
/// neighbors.
#[derive(Clone, Copy, Debug, PartialEq, Eq, Structural)]
pub enum CellType {
    Number(usize),
    Mine,
}

/// One cell of the board: its kind plus the two independent player marks.
#[derive(Clone, Copy, Debug, PartialEq, Eq, Structural)]
pub struct Cell {
    pub typ: CellType,
    pub flagged: bool,
    pub opened: bool,
}

} // verus!
