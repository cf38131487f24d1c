//! The queries that a world model answers for path search and visibility.

use crate::geometry::{abs_diff, adjacent, Coord, Size};
use vstd::prelude::*;

verus! {

/// Walkability and step cost of the cells of a bounded area.
pub trait PathProvider {
    /// The area that a search may visit.
    spec fn area(&self) -> Size;

    /// Whether a mover with the given movement mask may enter `p`.
    spec fn walkable(&self, p: Coord, movement: u8) -> bool;

    /// The traversal cost multiplier of `p` for the given movement mask.
    spec fn step_cost(&self, p: Coord, movement: u8) -> u32;

    fn bounds(&self) -> (r: Size)
        ensures
            r == self.area(),
    ;

    fn is_walkable(&self, p: Coord, movement: u8) -> (r: bool)
        ensures
            r == self.walkable(p, movement),
    ;

    fn cost(&self, p: Coord, movement: u8) -> (r: u32)
        ensures
            r == self.step_cost(p, movement),
    ;
}

/// Whether a cell blocks sight for a viewer with a given vision mask.
pub trait FovProvider {
    spec fn opaque(&self, p: Coord, vision: u8) -> bool;

    fn is_opaque(&self, p: Coord, vision: u8) -> (r: bool)
        ensures
            r == self.opaque(p, vision),
    ;
}

/// Neighbors, step costs and distances of a world's cells.
pub trait PathMap {
    /// The cells around `p` that a path may enter, each with its cost.
    fn successors(&self, p: Coord, movement: u8) -> (r: Vec<(Coord, u32)>)
        ensures
            r@.len() <= 8,
            forall|i: int| 0 <= i < r@.len() ==> adjacent(p, #[trigger] r@[i].0),
    ;

    /// The cost of moving to `p`.
    fn cost(&self, p: Coord, movement: u8) -> (r: u32);

    /// The taxicab distance between two cells.
    fn distance(&self, a: Coord, b: Coord) -> (r: u64)
        ensures
            r == abs_diff(a.x as int, b.x as int) + abs_diff(a.y as int, b.y as int),
    ;
}

} // verus!
