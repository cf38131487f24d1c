//! A dense two-dimensional container with one value per cell, stored in
//! row-major order.

use crate::geometry::{lemma_index_point, lemma_point_index, Coord, Size};
use vstd::prelude::*;

verus! {

/// The source coordinate that a blit reads for destination cell `q`, when
/// `q` lies in the copied region.
pub open spec fn blit_source(to: Coord, from: Coord, region: Size, q: Coord) -> Option<(int, int)> {
    let dx = q.x - to.x;
    let dy = q.y - to.y;
    if 0 <= dx < region.width && 0 <= dy < region.height {
        Some((from.x + dx, from.y + dy))
    } else {
        None
    }
}

/// Whether integer coordinates lie inside an area.
pub open spec fn holds_xy(s: Size, x: int, y: int) -> bool {
    0 <= x < s.width && 0 <= y < s.height
}

/// A dense grid of values, one per cell, in row-major order.
pub struct Grid<T> {
    pub size: Size,
    pub cells: Vec<T>,
}

impl<T> Grid<T> {
    /// The cell sequence has one value for each cell of the area.
    pub open spec fn wf(&self) -> bool {
        self.size.wf() && self.cells@.len() == self.size.cell_count()
    }

    /// The value held at an in-bounds coordinate.
    pub open spec fn cell(&self, p: Coord) -> T {
        self.cells@[self.size.index_of(p)]
    }

    /// The value held at in-bounds integer coordinates.
    pub open spec fn cell_xy(&self, x: int, y: int) -> T {
        self.cells@[y * self.size.width + x]
    }

    /// The cells after writing `v` at `p`: unchanged when `p` is outside.
    pub open spec fn written(&self, p: Coord, v: T) -> Seq<T> {
        if self.size.holds(p) {
            self.cells@.update(self.size.index_of(p), v)
        } else {
            self.cells@
        }
    }

    /// The value of cell `q` after a blit from `source`.
    pub open spec fn blitted(&self, to: Coord, source: &Grid<T>, from: Coord, region: Size, q: Coord) -> T {
        match blit_source(to, from, region, q) {
            Some((sx, sy)) => if holds_xy(source.size, sx, sy) {
                source.cell_xy(sx, sy)
            } else {
                self.cell(q)
            },
            None => self.cell(q),
        }
    }

    /// A grid of the given size with every cell set to `value`.
    pub fn new_copy(size: Size, value: T) -> (r: Grid<T>)
        where
            T: Copy,
        requires
            size.wf(),
        ensures
            r.wf(),
            r.size == size,
            forall|i: int| 0 <= i < r.cells@.len() ==> r.cells@[i] == value,
    {
        let n = size.count();
        let mut cells: Vec<T> = Vec::with_capacity(n);
        let mut i: usize = 0;
        while i < n
            invariant
                i <= n,
                cells@.len() == i,
                forall|k: int| 0 <= k < i ==> cells@[k] == value,
            decreases n - i,
        {
            cells.push(value);
            i = i + 1;
        }
        Grid { size, cells }
    }

    /// A grid of the given size whose cells are produced by `f`, called once
    /// per coordinate in row-major order.
    pub fn new_fn<F: Fn(Coord) -> T>(size: Size, f: F) -> (r: Grid<T>)
        requires
            size.wf(),
            forall|p: Coord| size.holds(p) ==> #[trigger] f.requires((p,)),
        ensures
            r.wf(),
            r.size == size,
            forall|i: int|
                0 <= i < r.cells@.len() ==> f.ensures((size.point_of(i),), #[trigger] r.cells@[i]),
    {
        let n = size.count();
        let mut cells: Vec<T> = Vec::with_capacity(n);
        let mut i: usize = 0;
        while i < n
            invariant
                size.wf(),
                n == size.cell_count(),
                forall|p: Coord| size.holds(p) ==> #[trigger] f.requires((p,)),
                i <= n,
                cells@.len() == i,
                forall|k: int| 0 <= k < i ==> f.ensures((size.point_of(k),), #[trigger] cells@[k]),
            decreases n - i,
        {
            let p = size.index_to_point(i);
            let v = f(p);
            cells.push(v);
            i = i + 1;
        }
        Grid { size, cells }
    }

    /// Whether the cell sequence has one value for each cell of the area.
    pub fn is_wf(&self) -> (r: bool)
        ensures
            r == self.wf(),
    {
        self.size.is_valid() && self.cells.len() == self.size.count()
    }

    pub fn width(&self) -> (r: u32)
        ensures
            r == self.size.width,
    {
        self.size.width
    }

    pub fn height(&self) -> (r: u32)
        ensures
            r == self.size.height,
    {
        self.size.height
    }

    pub fn size(&self) -> (r: Size)
        ensures
            r == self.size,
    {
        self.size
    }

    /// Number of cells.
    pub fn len(&self) -> (r: usize)
        ensures
            r == self.cells@.len(),
    {
        self.cells.len()
    }

    pub fn is_empty(&self) -> (r: bool)
        ensures
            r == (self.cells@.len() == 0),
    {
        self.cells.len() == 0
    }

    pub fn in_bounds(&self, p: Coord) -> (r: bool)
        ensures
            r == self.size.holds(p),
    {
        self.size.contains(p)
    }

    /// Index of an in-bounds coordinate; the caller has checked the bounds.
    pub fn get_idx_unchecked(&self, p: Coord) -> (r: usize)
        requires
            self.wf(),
            self.size.holds(p),
        ensures
            r == self.size.index_of(p),
            r < self.cells@.len(),
    {
        self.size.point_to_index(p)
    }

    /// Index of a coordinate, or `None` outside the grid.
    pub fn get_idx(&self, p: Coord) -> (r: Option<usize>)
        requires
            self.wf(),
        ensures
            r == (if self.size.holds(p) { Some(self.size.index_of(p) as usize) } else { None::<usize> }),
    {
        if self.size.contains(p) {
            Some(self.size.point_to_index(p))
        } else {
            None
        }
    }

    /// Coordinate of an in-range index; the caller has checked the range.
    pub fn index_to_pt_unchecked(&self, idx: usize) -> (r: Coord)
        requires
            self.wf(),
            idx < self.cells@.len(),
        ensures
            r == self.size.point_of(idx as int),
            self.size.holds(r),
            self.size.index_of(r) == idx,
    {
        self.size.index_to_point(idx)
    }

    /// Coordinate of an index, or `None` past the last cell.
    pub fn index_to_pt(&self, idx: usize) -> (r: Option<Coord>)
        requires
            self.wf(),
        ensures
            r == (if idx < self.cells@.len() { Some(self.size.point_of(idx as int)) } else { None::<Coord> }),
    {
        if idx < self.cells.len() {
            Some(self.size.index_to_point(idx))
        } else {
            None
        }
    }

    /// The value at a coordinate, or `None` outside the grid.
    pub fn get(&self, p: Coord) -> (r: Option<&T>)
        requires
            self.wf(),
        ensures
            r.is_some() == self.size.holds(p),
            self.size.holds(p) ==> *r.unwrap() == self.cell(p),
    {
        if self.size.contains(p) {
            let i = self.size.point_to_index(p);
            Some(&self.cells[i])
        } else {
            None
        }
    }

    /// The value at an in-bounds coordinate; the caller has checked the bounds.
    pub fn get_unchecked(&self, p: Coord) -> (r: &T)
        requires
            self.wf(),
            self.size.holds(p),
        ensures
            *r == self.cell(p),
    {
        let i = self.size.point_to_index(p);
        &self.cells[i]
    }

    /// Writes `value` at `p` and returns the value it replaced; outside the
    /// grid nothing changes and `None` is returned.
    pub fn set(&mut self, p: Coord, value: T) -> (r: Option<T>)
        requires
            old(self).wf(),
        ensures
            final(self).wf(),
            final(self).size == old(self).size,
            final(self).cells@ == old(self).written(p, value),
            r == (if old(self).size.holds(p) { Some(old(self).cell(p)) } else { None::<T> }),
    {
        if self.size.contains(p) {
            Some(self.set_unchecked(p, value))
        } else {
            None
        }
    }

    /// Writes `value` at an in-bounds `p` and returns the value it replaced;
    /// the caller has checked the bounds.
    pub fn set_unchecked(&mut self, p: Coord, value: T) -> (r: T)
        requires
            old(self).wf(),
            old(self).size.holds(p),
        ensures
            final(self).wf(),
            final(self).size == old(self).size,
            final(self).cells@ == old(self).written(p, value),
            r == old(self).cell(p),
    {
        let i = self.size.point_to_index(p);
        let mut v = value;
        std::mem::swap(&mut self.cells[i], &mut v);
        v
    }

    /// Every value of the grid, in row-major order.
    pub fn iter(&self) -> (r: Vec<T>)
        where
            T: Copy,
        ensures
            r@ == self.cells@,
    {
        let n = self.cells.len();
        let mut r: Vec<T> = Vec::with_capacity(n);
        let mut i: usize = 0;
        while i < n
            invariant
                n == self.cells@.len(),
                i <= n,
                r@ == self.cells@.subrange(0, i as int),
            decreases n - i,
        {
            r.push(self.cells[i]);
            i = i + 1;
            assert(r@ =~= self.cells@.subrange(0, i as int));
        }
        assert(r@ =~= self.cells@);
        r
    }

    /// Every coordinate of the grid with its value, in row-major order.
    pub fn enumerate(&self) -> (r: Vec<(Coord, T)>)
        where
            T: Copy,
        requires
            self.wf(),
        ensures
            r@.len() == self.cells@.len(),
            forall|i: int|
                0 <= i < r@.len() ==> #[trigger] r@[i] == (self.size.point_of(i), self.cells@[i]),
    {
        let n = self.cells.len();
        let mut r: Vec<(Coord, T)> = Vec::with_capacity(n);
        let mut i: usize = 0;
        while i < n
            invariant
                self.wf(),
                n == self.cells@.len(),
                i <= n,
                r@.len() == i,
                forall|k: int|
                    0 <= k < i ==> #[trigger] r@[k] == (self.size.point_of(k), self.cells@[k]),
            decreases n - i,
        {
            r.push((self.size.index_to_point(i), self.cells[i]));
            i = i + 1;
        }
        r
    }

    /// Copies the `region`-sized rectangle at `from` in `source` to the
    /// rectangle at `to` in this grid, cell by cell; cells whose source or
    /// destination lies outside its grid are skipped.
    pub fn blit_copy(&mut self, to: Coord, source: &Grid<T>, from: Coord, region: Size)
        where
            T: Copy,
        requires
            old(self).wf(),
            source.wf(),
        ensures
            final(self).wf(),
            final(self).size == old(self).size,
            forall|q: Coord|
                old(self).size.holds(q) ==> #[trigger] final(self).cell(q) == old(self).blitted(
                    to,
                    source,
                    from,
                    region,
                    q,
                ),
    {
        let ghost start = self.cells@;
        let mut y: u32 = 0;
        while y < region.height
            invariant
                self.wf(),
                self.size == old(self).size,
                start == old(self).cells@,
                source.wf(),
                y <= region.height,
                forall|q: Coord|
                    self.size.holds(q) ==> #[trigger] self.cell(q) == blit_partial(
                        self.size,
                        start,
                        to,
                        source.size,
                        source.cells@,
                        from,
                        region,
                        q,
                        y as int,
                        0,
                    ),
            decreases region.height - y,
        {
            let mut x: u32 = 0;
            while x < region.width
                invariant
                    self.wf(),
                    self.size == old(self).size,
                    start == old(self).cells@,
                    source.wf(),
                    y < region.height,
                    x <= region.width,
                    forall|q: Coord|
                        self.size.holds(q) ==> #[trigger] self.cell(q) == blit_partial(
                            self.size,
                            start,
                            to,
                            source.size,
                            source.cells@,
                            from,
                            region,
                            q,
                            y as int,
                            x as int,
                        ),
                decreases region.width - x,
            {
                let sx: i64 = from.x as i64 + x as i64;
                let sy: i64 = from.y as i64 + y as i64;
                let tx: i64 = to.x as i64 + x as i64;
                let ty: i64 = to.y as i64 + y as i64;
                let ghost before = self.cells@;
                if sx <= i32::MAX as i64 && sy <= i32::MAX as i64 && tx <= i32::MAX as i64 && ty
                    <= i32::MAX as i64 {
                    let sp = Coord { x: sx as i32, y: sy as i32 };
                    let tp = Coord { x: tx as i32, y: ty as i32 };
                    if let Some(v) = source.get(sp) {
                        let val: T = *v;
                        let ghost sz = self.size;
                        assert forall|q: Coord| sz.holds(q) implies before[sz.index_of(q)]
                            == blit_partial(sz, start, to, source.size, source.cells@, from, region, q, y as int, x as int) by {
                            assert(self.cell(q) == blit_partial(sz, start, to, source.size, source.cells@, from, region, q, y as int, x as int));
                        }
                        self.set(tp, val);
                        proof {
                            if self.size.holds(tp) {
                                lemma_index_point(self.size, tp);
                            }
                            assert forall|q: Coord| self.size.holds(q) implies #[trigger] self.cell(q)
                                == blit_partial(
                                self.size,
                                start,
                                to,
                                source.size,
                                source.cells@,
                                from,
                                region,
                                q,
                                y as int,
                                x + 1,
                            ) by {
                                lemma_index_point(self.size, q);
                            }
                        }
                    }
                }
                x = x + 1;
            }
            y = y + 1;
        }
    }
}

/// Writing `v` at an in-bounds `p` and reading `p` back gives `v`, and every
/// other cell keeps its value; a write outside the grid changes nothing.
pub proof fn lemma_grid_round_trip<T>(before: Grid<T>, after: Grid<T>, p: Coord, v: T)
    requires
        before.wf(),
        after.size == before.size,
        after.cells@ == before.written(p, v),
    ensures
        after.wf(),
        before.size.holds(p) ==> after.cell(p) == v,
        forall|q: Coord|
            before.size.holds(q) && q != p ==> #[trigger] after.cell(q) == before.cell(q),
        !before.size.holds(p) ==> after.cells@ == before.cells@,
{
    if before.size.holds(p) {
        lemma_index_point(before.size, p);
    }
    assert forall|q: Coord| before.size.holds(q) && q != p implies #[trigger] after.cell(q)
        == before.cell(q) by {
        lemma_index_point(before.size, q);
        if before.size.holds(p) {
            lemma_index_point(before.size, p);
        }
    }
}

/// The value of cell `q` while a blit is under way, once every row above `y`
/// and the first `x` cells of row `y` have been copied.
pub open spec fn blit_partial<T>(
    size: Size,
    start: Seq<T>,
    to: Coord,
    src_size: Size,
    src: Seq<T>,
    from: Coord,
    region: Size,
    q: Coord,
    y: int,
    x: int,
) -> T {
    let dx = q.x - to.x;
    let dy = q.y - to.y;
    if 0 <= dx < region.width && 0 <= dy < region.height && (dy < y || (dy == y && dx < x))
        && holds_xy(src_size, from.x + dx, from.y + dy) {
        src[(from.y + dy) * src_size.width + from.x + dx]
    } else {
        start[size.index_of(q)]
    }
}

} // verus!
