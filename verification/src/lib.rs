//! A Sokoban puzzle engine: level text is parsed into a grid of tiles, and the
//! pusher is moved over that grid under the usual box-pushing rules.

pub mod tile;
pub mod grid;
pub mod level;
pub mod parse;
pub mod blocks;
pub mod collection;
