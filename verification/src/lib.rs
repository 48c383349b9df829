//! Map generation and movement for a terminal horror game.

pub mod common;
mod random;
pub mod wfc;
pub mod player;
pub mod dungeon;
pub mod render;
pub mod input;
