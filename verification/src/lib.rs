//! Game logic of a 2048-style sliding-tile puzzle: a fixed-size grid of
//! numbered tiles that spawn at random cells, slide and merge on directional
//! moves, and accumulate a score.
//!
//! A driver calls [`Board::update`] once per frame with the time that has
//! passed, and one of the four `merge_from_..` operations when the player
//! asks for a move. A move only sends tiles on their way; tiles that have
//! met on one cell merge, and the score grows, in the update in which the
//! last animation ends. The tile that answers the move spawns in that same
//! update.
//!
//! Time is counted in whole ticks (the driver chooses the unit, typically
//! milliseconds). All grid coordinates are zero-based, `x` growing to the
//! right and `y` growing downwards.
//!
//! The modules, bottom up:
//! - [`settings`], [`tile`]: the configuration and one tile;
//! - [`grid`]: which tiles lie on which cell;
//! - [`sweep`], [`slide`], [`spawn`]: merge resolution, moves and spawns on
//!   a collection of tiles, with what is proved of them in [`sweep_proofs`],
//!   [`slide_proofs`] and [`regular`];
//! - [`state`], [`game`]: a board as a mathematical value, what one call and
//!   what a sequence of calls does to it;
//! - [`board`]: the board itself.

pub mod board;
pub mod game;
pub mod grid;
pub mod regular;
pub mod settings;
pub mod slide;
pub mod slide_proofs;
pub mod spawn;
pub mod state;
pub mod sweep;
pub mod sweep_proofs;
pub mod tile;

pub use board::Board;
pub use game::Step;
pub use settings::Settings;
pub use slide::Direction;
pub use state::BoardView;
pub use tile::{Tile, TileState};
