//! A deterministic, fixed-size puzzle-board engine: a bit-packed grid of
//! symbols with flood-fill cluster discovery, cluster removal followed by
//! per-column gravity collapse, pseudo-random refill, and whole-board
//! recomputation of the selectable-cluster map.

use vstd::prelude::*;

pub mod board;
pub mod game;
pub mod island;
pub mod isles;
pub mod rng;
pub mod state;
pub mod tribit;

pub use board::Board;
pub use game::Game;
pub use island::Island;
pub use isles::Isles;
pub use rng::RandomStateGenerator;
pub use state::State;
pub use tribit::TribitFields;

verus! {

/// Grid width in cells.
pub const BOARD_X: u8 = 8;

/// Grid height in cells.
pub const BOARD_Y: u8 = 7;

/// Total number of cells.
pub const BOARD_SIZE: usize = 56;

/// Width in bits of one packed cell.
pub const TRIBIT_WIDTH: u8 = 3;

/// Bytes needed to pack `BOARD_SIZE` cells of `TRIBIT_WIDTH` bits each.
pub const TRIBIT_ARRAY_SIZE: usize = 21;

} // verus!
