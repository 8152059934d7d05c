//! A minesweeper playing field: a grid of tiles, random mine placement,
//! neighbour counts and the flood-fill reveal, with machine-checked contracts.

pub mod field;
pub mod util;
