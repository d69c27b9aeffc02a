//! An N-dimensional minesweeper engine: a board of hidden cells laid out
//! over any number of axes, with flood-fill reveal, flagging, win/loss
//! detection, deterministic seeded mine placement, and dirty-cell tracking
//! for incremental redraw.

pub mod cell;
pub mod codec;
pub mod counts;
pub mod error;
pub mod game;
pub mod grid;
pub mod laws;
pub mod place;
pub mod rand;

pub use cell::{Cell, CellType, GameState};
pub use game::Game;

pub use codec::flatten;
pub use error::GameError;
pub use grid::{cells, is_neighbour_of, max_dist, neighbours};
pub use rand::{seed, Rand};
