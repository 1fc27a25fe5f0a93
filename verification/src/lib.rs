//! Minesweeper on a grid of any number of dimensions.
//!
//! The engine has three parts. `coordinates` maps between N-dimensional
//! coordinates and flat storage indices and enumerates the neighbours of a
//! cell. `board` owns the cells (`cell`), places the mines (`setup`,
//! `sampling`), counts the mines around every cell (`layout`), toggles flags
//! and reveals cells, spreading from cells with no mine around them
//! (`flood`, `spread`). `game` tracks whether play is in progress, won or
//! lost.
//!
//! The remaining modules hold what is proved of these parts: `index_laws`,
//! `offset_laws`, `neighbor_laws` and `adjacency` about the grid, `laws`
//! about boards and games.

pub mod cell;
pub mod coordinates;
pub mod layout;
pub mod setup;
pub mod sampling;
pub mod flood;
pub mod spread;
pub mod board;
pub mod game;
pub mod index_laws;
pub mod offset_laws;
pub mod neighbor_laws;
pub mod adjacency;
pub mod laws;
pub mod prelude;
