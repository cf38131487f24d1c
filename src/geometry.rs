//! Integer coordinates, rectangular sizes and the row-major mapping between
//! coordinates and cell indices.

use vstd::arithmetic::div_mod::{
    lemma_fundamental_div_mod, lemma_fundamental_div_mod_converse, lemma_mod_pos_bound,
    lemma_multiply_divide_lt,
};
use vstd::prelude::*;

verus! {

/// A signed two-dimensional grid coordinate.
#[derive(Clone, Copy, Debug, PartialEq, Eq, Structural, Hash)]
pub struct Coord {
    pub x: i32,
    pub y: i32,
}

impl Coord {
    pub fn new(x: i32, y: i32) -> (r: Coord)
        ensures
            r.x == x,
            r.y == y,
    {
        Coord { x, y }
    }
}

/// The width and height of a rectangular grid area anchored at the origin.
#[derive(Clone, Copy, Debug, PartialEq, Eq, Structural, Hash)]
pub struct Size {
    pub width: u32,
    pub height: u32,
}

/// The largest side of a grid: every cell must have an `i32` coordinate.
pub const MAX_SIDE: u32 = 0x7fff_ffff;

impl Size {
    /// Number of cells in the area.
    pub open spec fn cell_count(self) -> nat {
        (self.width * self.height) as nat
    }

    /// Every cell has an `i32` coordinate and a `usize` index.
    pub open spec fn wf(self) -> bool {
        &&& self.width <= MAX_SIDE
        &&& self.height <= MAX_SIDE
        &&& self.cell_count() <= usize::MAX
    }

    pub open spec fn holds(self, p: Coord) -> bool {
        0 <= p.x < self.width && 0 <= p.y < self.height
    }

    /// Row-major index of a coordinate.
    pub open spec fn index_of(self, p: Coord) -> int {
        p.y * self.width + p.x
    }

    /// Coordinate of a row-major index.
    pub open spec fn point_of(self, i: int) -> Coord {
        Coord { x: (i % (self.width as int)) as i32, y: (i / (self.width as int)) as i32 }
    }

    pub fn new(width: u32, height: u32) -> (r: Size)
        ensures
            r.width == width,
            r.height == height,
    {
        Size { width, height }
    }

    pub fn width(&self) -> (r: u32)
        ensures
            r == self.width,
    {
        self.width
    }

    pub fn height(&self) -> (r: u32)
        ensures
            r == self.height,
    {
        self.height
    }

    /// Whether every cell has an `i32` coordinate and a `usize` index.
    pub fn is_valid(&self) -> (r: bool)
        ensures
            r == self.wf(),
    {
        if self.width > MAX_SIDE || self.height > MAX_SIDE {
            return false;
        }
        proof {
            let w = self.width as int;
            let h = self.height as int;
            assert(0 <= w * h <= 0x7fff_ffff * 0x7fff_ffff) by (nonlinear_arith)
                requires
                    0 <= w <= 0x7fff_ffff,
                    0 <= h <= 0x7fff_ffff,
            ;
        }
        (self.width as u64) * (self.height as u64) <= usize::MAX as u64
    }

    /// Number of cells in the area.
    pub fn count(&self) -> (r: usize)
        requires
            self.wf(),
        ensures
            r == self.cell_count(),
    {
        (self.width as usize) * (self.height as usize)
    }

    /// Whether a coordinate lies inside the area.
    pub fn contains(&self, p: Coord) -> (r: bool)
        ensures
            r == self.holds(p),
    {
        0 <= p.x && 0 <= p.y && (p.x as u32) < self.width && (p.y as u32) < self.height
    }

    /// Row-major index of a coordinate known to lie inside the area.
    pub fn point_to_index(&self, p: Coord) -> (r: usize)
        requires
            self.wf(),
            self.holds(p),
        ensures
            r == self.index_of(p),
            r < self.cell_count(),
    {
        proof {
            lemma_index_point(*self, p);
        }
        (p.y as usize) * (self.width as usize) + (p.x as usize)
    }

    /// Coordinate of a row-major index known to lie inside the area.
    pub fn index_to_point(&self, i: usize) -> (r: Coord)
        requires
            self.wf(),
            i < self.cell_count(),
        ensures
            r == self.point_of(i as int),
            self.holds(r),
            self.index_of(r) == i,
    {
        proof {
            lemma_point_index(*self, i as int);
        }
        let w = self.width as usize;
        Coord { x: (i % w) as i32, y: (i / w) as i32 }
    }

    /// Every coordinate of the area, in row-major order.
    pub fn points(&self) -> (r: Vec<Coord>)
        requires
            self.wf(),
        ensures
            r@.len() == self.cell_count(),
            forall|i: int| 0 <= i < r@.len() ==> r@[i] == #[trigger] self.point_of(i),
    {
        let n = self.count();
        let mut r: Vec<Coord> = Vec::with_capacity(n);
        let mut i: usize = 0;
        while i < n
            invariant
                self.wf(),
                n == self.cell_count(),
                i <= n,
                r@.len() == i,
                forall|k: int| 0 <= k < i ==> r@[k] == #[trigger] self.point_of(k),
            decreases n - i,
        {
            r.push(self.index_to_point(i));
            i = i + 1;
        }
        r
    }
}

/// A coordinate inside an area has an index inside the area, which maps back
/// to the coordinate.
pub proof fn lemma_index_point(s: Size, p: Coord)
    requires
        s.wf(),
        s.holds(p),
    ensures
        0 <= s.index_of(p) < s.cell_count(),
        s.point_of(s.index_of(p)) == p,
{
    let w = s.width as int;
    let h = s.height as int;
    let x = p.x as int;
    let y = p.y as int;
    assert(0 <= y * w + x < w * h) by (nonlinear_arith)
        requires
            0 <= x < w,
            0 <= y < h,
    ;
    lemma_fundamental_div_mod_converse(y * w + x, w, y, x);
}

/// An index inside an area has a coordinate inside the area, which maps back
/// to the index.
pub proof fn lemma_point_index(s: Size, i: int)
    requires
        s.wf(),
        0 <= i < s.cell_count(),
    ensures
        s.holds(s.point_of(i)),
        s.index_of(s.point_of(i)) == i,
{
    let w = s.width as int;
    let h = s.height as int;
    assert(w > 0) by (nonlinear_arith)
        requires
            0 <= i < w * h,
            h >= 0,
    ;
    lemma_fundamental_div_mod(i, w);
    lemma_mod_pos_bound(i, w);
    lemma_multiply_divide_lt(i, w, h);
    assert(i / w >= 0) by (nonlinear_arith)
        requires
            i == w * (i / w) + i % w,
            0 <= i % w < w,
            0 <= i,
    ;
    assert((i / w) * w == w * (i / w)) by (nonlinear_arith);
    assert(s.point_of(i).x == i % w);
    assert(s.point_of(i).y == i / w);
}

/// Distinct coordinates inside an area have distinct indices, all below the
/// number of cells.
pub proof fn lemma_index_injective(s: Size, p: Coord, q: Coord)
    requires
        s.holds(p),
        s.holds(q),
    ensures
        0 <= s.index_of(p) < s.cell_count(),
        s.index_of(p) == s.index_of(q) ==> p == q,
{
    let w = s.width as int;
    let h = s.height as int;
    assert(0 <= p.y * w + p.x < w * h) by (nonlinear_arith)
        requires
            0 <= p.x < w,
            0 <= p.y < h,
    ;
    lemma_fundamental_div_mod_converse(s.index_of(p), w, p.y as int, p.x as int);
    lemma_fundamental_div_mod_converse(s.index_of(q), w, q.y as int, q.x as int);
}

/// Whether `b` is one of the eight cells around `a`.
pub open spec fn adjacent(a: Coord, b: Coord) -> bool {
    a != b && -1 <= b.x - a.x <= 1 && -1 <= b.y - a.y <= 1
}

/// The offset of each of the eight directions: north, north-east, east,
/// south-east, south, south-west, west, north-west.
pub open spec fn direction(k: int) -> (int, int) {
    if k == 0 {
        (0, -1)
    } else if k == 1 {
        (1, -1)
    } else if k == 2 {
        (1, 0)
    } else if k == 3 {
        (1, 1)
    } else if k == 4 {
        (0, 1)
    } else if k == 5 {
        (-1, 1)
    } else if k == 6 {
        (-1, 0)
    } else {
        (-1, -1)
    }
}

/// A diagonal direction moves along both axes.
pub open spec fn is_ordinal(k: int) -> bool {
    direction(k).0 != 0 && direction(k).1 != 0
}

/// The cell one step from `p` in direction `k`, when it has `i32` coordinates.
pub open spec fn spec_step(p: Coord, k: int) -> Option<Coord> {
    let x = p.x + direction(k).0;
    let y = p.y + direction(k).1;
    if i32::MIN <= x <= i32::MAX && i32::MIN <= y <= i32::MAX {
        Some(Coord { x: x as i32, y: y as i32 })
    } else {
        None
    }
}

/// The cell one step from `p` in direction `k` (below 8), if its coordinates
/// fit in `i32`; `ordinal` tells whether the step is diagonal.
pub fn step(p: Coord, k: usize) -> (r: (Option<Coord>, bool))
    requires
        k < 8,
    ensures
        r.0 == spec_step(p, k as int),
        r.1 == is_ordinal(k as int),
        r.0 is Some ==> adjacent(p, r.0->0),
        r.0 is Some ==> r.1 == (r.0->0.x != p.x && r.0->0.y != p.y),
{
    let (dx, dy): (i64, i64) = if k == 0 {
        (0, -1)
    } else if k == 1 {
        (1, -1)
    } else if k == 2 {
        (1, 0)
    } else if k == 3 {
        (1, 1)
    } else if k == 4 {
        (0, 1)
    } else if k == 5 {
        (-1, 1)
    } else if k == 6 {
        (-1, 0)
    } else {
        (-1, -1)
    };
    let x = p.x as i64 + dx;
    let y = p.y as i64 + dy;
    let ordinal = dx != 0 && dy != 0;
    if i32::MIN as i64 <= x && x <= i32::MAX as i64 && i32::MIN as i64 <= y && y <= i32::MAX as i64 {
        (Some(Coord { x: x as i32, y: y as i32 }), ordinal)
    } else {
        (None, ordinal)
    }
}

/// Steps in two different directions lead to different cells.
pub proof fn lemma_steps_differ(p: Coord, d: int, k: int)
    requires
        0 <= d < 8,
        0 <= k < 8,
        d != k,
        spec_step(p, d) is Some,
        spec_step(p, k) is Some,
    ensures
        spec_step(p, d)->0 != spec_step(p, k)->0,
{
}

/// Every cell around `a` is one step from `a` in one of the eight directions.
pub proof fn lemma_adjacent_direction(a: Coord, b: Coord) -> (k: int)
    requires
        adjacent(a, b),
    ensures
        0 <= k < 8,
        spec_step(a, k) == Some(b),
{
    let dx = b.x - a.x;
    let dy = b.y - a.y;
    let k: int = if dx == 0 && dy == -1 {
        0
    } else if dx == 1 && dy == -1 {
        1
    } else if dx == 1 && dy == 0 {
        2
    } else if dx == 1 && dy == 1 {
        3
    } else if dx == 0 && dy == 1 {
        4
    } else if dx == -1 && dy == 1 {
        5
    } else if dx == -1 && dy == 0 {
        6
    } else {
        7
    };
    k
}

/// Distance between two integers.
pub open spec fn abs_diff(a: int, b: int) -> int {
    if a < b {
        b - a
    } else {
        a - b
    }
}

/// A point in the world: a map's place in the world, and height level.
#[derive(Clone, Copy, Debug, PartialEq, Eq, Structural, Hash, Default)]
pub struct WorldPosition {
    pub x: i32,
    pub y: i32,
    pub z: i32,
}

impl WorldPosition {
    /// The horizontal part of the position.
    pub fn xy(&self) -> (r: Coord)
        ensures
            r.x == self.x,
            r.y == self.y,
    {
        Coord { x: self.x, y: self.y }
    }
}

} // verus!
