pub mod board;
pub mod counter;
pub mod rng;
pub mod tile;
