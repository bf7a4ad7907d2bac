//! Rule engine of a Minesweeper-style puzzle: a grid of concealed cells, some
//! of which hide mines, with cascade reveal, flags and win/loss detection.

pub mod board;
pub mod cell;
pub mod layout;
pub mod cascade;
pub mod session;

pub use board::Board;
pub use cascade::RevealOutcome;
pub use cell::{Cell, CellChange, CellView, Coordinate, GameError};
pub use session::{ActionResult, GameSession, GameState};
