//! Tile addresses of the web-map grid.
//!
//! At zoom level `z` the world is cut into `2^z` columns and `2^z` rows. A
//! [`Tile`] names one cell of that grid by its column `x`, its row `y` and the
//! zoom level. This crate holds the integer side of that grid: which addresses
//! are valid, how a tile is built from raw numbers, and which tiles touch a
//! given tile.
//!
//! Every function here is proved against its contract, and none of them panics.

pub mod neighbors;
pub mod tile;

pub use neighbors::get_neighbors;
pub use tile::minmax;
pub use tile::Tile;
pub use tile::TileError;
