use vstd::prelude::*;

verus! {

/// A zero-based grid position: `x` is the column, `y` the row.
#[derive(Clone, Copy, Debug, PartialEq, Eq, Structural)]
pub struct Coordinate {
    pub x: usize,
    pub y: usize,
}

/// What the presentation layer is told about one cell.
#[derive(Clone, Copy, Debug, PartialEq, Eq, Structural)]
pub enum CellView {
    Covered,
    Flagged,
    Revealed(u8),
    RevealedMine,
}

/// A cell whose visible state changed during an action.
#[derive(Clone, Copy, Debug, PartialEq, Eq, Structural)]
pub struct CellChange {
    pub coord: Coordinate,
    pub view: CellView,
}

/// Failures of board and session operations.
#[derive(Clone, Copy, Debug, PartialEq, Eq, Structural)]
pub enum GameError {
    InvalidDimensions,
    TooManyMines,
    MinesAlreadyPlaced,
    OutOfBounds,
    GameOver,
}

/// One grid position's state.
#[derive(Clone, Copy, Debug, PartialEq, Eq, Structural)]
pub struct Cell {
    pub is_mine: bool,
    pub is_covered: bool,
    pub is_flagged: bool,
    /// Number of mined cells among the (up to eight) neighbours.
    pub adjacent_mine_count: u8,
}

impl Cell {
    /// The view that a cell in this state shows.
    pub open spec fn view_of(self) -> CellView {
        if self.is_flagged {
            CellView::Flagged
        } else if self.is_covered {
            CellView::Covered
        } else if self.is_mine {
            CellView::RevealedMine
        } else {
            CellView::Revealed(self.adjacent_mine_count)
        }
    }

    /// The fresh cell: covered, unflagged, no mine, count zero.
    pub open spec fn fresh() -> Cell {
        Cell { is_mine: false, is_covered: true, is_flagged: false, adjacent_mine_count: 0 }
    }

    pub fn view(&self) -> (r: CellView)
        ensures
            r == self.view_of(),
    {
        if self.is_flagged {
            CellView::Flagged
        } else if self.is_covered {
            CellView::Covered
        } else if self.is_mine {
            CellView::RevealedMine
        } else {
            CellView::Revealed(self.adjacent_mine_count)
        }
    }
}

impl Default for Cell {
    fn default() -> (r: Cell)
        ensures
            r == Cell::fresh(),
    {
        Cell { is_mine: false, is_covered: true, is_flagged: false, adjacent_mine_count: 0 }
    }
}

} // verus!
