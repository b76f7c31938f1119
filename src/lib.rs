//! A minesweeper board and game engine with verified reveal, flag and win logic.

pub mod board;
pub mod cell;
pub mod game;
pub mod point;

pub use board::{Board, BoardView, Error};
pub use cell::{Cell, CellState, CellValue};
pub use game::{Command, Game, Status};
pub use point::Point;
