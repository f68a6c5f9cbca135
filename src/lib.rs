//! Procedural two-dimensional maps: mazes on a (possibly wrapped) grid,
//! cellular-automaton caves, and dungeons made of rooms joined by corridors.
//!
//! Every random choice is drawn from a caller-supplied `rand::rngs::StdRng`,
//! so a fixed seed gives a fixed map.

pub mod random;
pub mod grid;
pub mod path;
pub mod maze;
pub mod generate;
pub mod cave;
pub mod dungeon;
