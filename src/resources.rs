pub mod board;
pub mod tile;
pub mod tile_map;
