pub mod cellset;
pub mod error;
pub mod game;
pub mod grid;
pub mod laws;
pub mod render;
pub mod seed;
pub mod shape;
pub mod world;

pub use crate::cellset::Coord;
pub use crate::error::GameError;
pub use crate::game::Game;
pub use crate::shape::Boundary;
