//! Board engine of a Minesweeper-style game: a tile grid with mines and
//! neighbour counts, and the live board that reveals, cascades and flags.

pub mod components;
pub mod events;
pub mod resources;
