pub mod cell;
pub mod game_map;
pub mod position;
pub mod ship;
