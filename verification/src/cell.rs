use vstd::prelude::*;

verus! {

/// What the player sees of a cell.
#[derive(Clone, Copy, Debug, PartialEq, Eq, Structural)]
pub enum CellState {
    Hidden,
    Revealed,
    Flagged,
}

/// One square of the board.
#[derive(Clone, Copy, Debug, PartialEq, Eq, Structural)]
pub struct Cell {
    pub is_mine: bool,
    pub state: CellState,
    /// Number of mines among the (up to eight) surrounding cells.
    pub adjacent_mines: u8,
}

impl Cell {
    /// The cell every board starts with: hidden, no mine, count zero.
    pub open spec fn fresh() -> Cell {
        Cell { is_mine: false, state: CellState::Hidden, adjacent_mines: 0 }
    }

    pub fn new() -> (c: Cell)
        ensures
            c == Cell::fresh(),
    {
        Cell { is_mine: false, state: CellState::Hidden, adjacent_mines: 0 }
    }
}

} // verus!
