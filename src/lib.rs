//! Grid containers, movement and vision classification, and an A* path
//! search over caller-supplied world models.

pub mod geometry;
pub mod astar;
pub mod bitgrid;
pub mod flags;
pub mod game;
pub mod grid;
pub mod map;
pub mod prng;
pub mod provider;
