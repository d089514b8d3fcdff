//! Procedural generation of a square grid of connected pipe tiles (a
//! Wang-tile dungeon): a weighted random draw constrained by what the
//! already placed neighbours allow, spread outward from one seed tile.

pub mod catalog;
pub mod sampler;
pub mod grid;
pub mod generator;
