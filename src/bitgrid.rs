//! A grid of single bits, packed into a `bitvec` bit-vector.

use crate::geometry::{lemma_index_point, Coord, Size};
use crate::grid::{blit_partial, blit_source, holds_xy};
use bitvec::order::Lsb0;
use bitvec::vec::BitVec;
use vstd::prelude::*;

verus! {

/// Packed bit storage: a `bitvec` bit-vector, read and written only through
/// `bits_of` and the functions below.
#[verifier::external_body]
pub struct Bits {
    inner: BitVec<usize, Lsb0>,
}

/// The bits held by packed storage, in order.
pub uninterp spec fn bits_of(b: Bits) -> Seq<bool>;

/// The most bits that a bit-vector can hold.
pub const MAX_BITS: usize = usize::MAX / 8;

/// Relies on `BitVec::repeat`: `len` copies of `bit`; it panics beyond the
/// encodable length.
#[verifier::external_body]
fn bits_repeat(bit: bool, len: usize) -> (r: Bits)
    requires
        len <= MAX_BITS,
    ensures
        bits_of(r) == Seq::new(len as nat, |_i: int| bit),
{
    Bits { inner: BitVec::repeat(bit, len) }
}

/// Relies on `BitVec::with_capacity`: an empty bit-vector; it panics beyond
/// the encodable length.
#[verifier::external_body]
fn bits_with_capacity(capacity: usize) -> (r: Bits)
    requires
        capacity <= MAX_BITS,
    ensures
        bits_of(r) == Seq::<bool>::empty(),
{
    Bits { inner: BitVec::with_capacity(capacity) }
}

/// Relies on `BitVec::push`: appends one bit; it panics beyond the encodable
/// length.
#[verifier::external_body]
fn bits_push(b: &mut Bits, bit: bool)
    requires
        bits_of(*old(b)).len() < MAX_BITS,
    ensures
        bits_of(*final(b)) == bits_of(*old(b)).push(bit),
{
    b.inner.push(bit)
}

/// Relies on `BitVec::len`: the number of bits held.
#[verifier::external_body]
fn bits_len(b: &Bits) -> (r: usize)
    ensures
        r == bits_of(*b).len(),
{
    b.inner.len()
}

/// Relies on indexing a `BitSlice`: the bit at `i`; it panics past the end.
#[verifier::external_body]
fn bits_get(b: &Bits, i: usize) -> (r: bool)
    requires
        i < bits_of(*b).len(),
    ensures
        r == bits_of(*b)[i as int],
{
    b.inner[i]
}

/// Relies on `BitSlice::replace`: writes the bit at `i` and returns the bit it
/// held; it panics past the end.
#[verifier::external_body]
fn bits_replace(b: &mut Bits, i: usize, bit: bool) -> (r: bool)
    requires
        i < bits_of(*old(b)).len(),
    ensures
        r == bits_of(*old(b))[i as int],
        bits_of(*final(b)) == bits_of(*old(b)).update(i as int, bit),
{
    b.inner.replace(i, bit)
}

/// A grid of booleans packed one bit per cell, in row-major order.
pub struct BitGrid {
    pub size: Size,
    pub cells: Bits,
}

impl BitGrid {
    /// The bits of the grid, in row-major order.
    pub open spec fn bits(&self) -> Seq<bool> {
        bits_of(self.cells)
    }

    /// The bit sequence has one bit for each cell of the area.
    pub open spec fn wf(&self) -> bool {
        &&& self.size.wf()
        &&& self.size.cell_count() <= MAX_BITS
        &&& self.bits().len() == self.size.cell_count()
    }

    /// The bit held at an in-bounds coordinate.
    pub open spec fn cell(&self, p: Coord) -> bool {
        self.bits()[self.size.index_of(p)]
    }

    /// The bit held at in-bounds integer coordinates.
    pub open spec fn cell_xy(&self, x: int, y: int) -> bool {
        self.bits()[y * self.size.width + x]
    }

    /// The bits after writing `v` at `p`: unchanged when `p` is outside.
    pub open spec fn written(&self, p: Coord, v: bool) -> Seq<bool> {
        if self.size.holds(p) {
            self.bits().update(self.size.index_of(p), v)
        } else {
            self.bits()
        }
    }

    /// The bit of cell `q` after a blit from `source`.
    pub open spec fn blitted(&self, to: Coord, source: &BitGrid, from: Coord, region: Size, q: Coord) -> bool {
        match blit_source(to, from, region, q) {
            Some((sx, sy)) => if holds_xy(source.size, sx, sy) {
                source.cell_xy(sx, sy)
            } else {
                self.cell(q)
            },
            None => self.cell(q),
        }
    }

    /// Whether a grid of this size fits in a bit-vector.
    pub open spec fn fits(size: Size) -> bool {
        size.wf() && size.cell_count() <= MAX_BITS
    }

    /// A grid of the given size with every cell set to `value`.
    pub fn new_copy(size: Size, value: bool) -> (r: BitGrid)
        requires
            BitGrid::fits(size),
        ensures
            r.wf(),
            r.size == size,
            forall|i: int| 0 <= i < r.bits().len() ==> r.bits()[i] == value,
    {
        let n = size.count();
        BitGrid { size, cells: bits_repeat(value, n) }
    }

    /// A grid of the given size with every cell set to `value`.
    pub fn new_clone(size: Size, value: bool) -> (r: BitGrid)
        requires
            BitGrid::fits(size),
        ensures
            r.wf(),
            r.size == size,
            forall|i: int| 0 <= i < r.bits().len() ==> r.bits()[i] == value,
    {
        BitGrid::new_copy(size, value)
    }

    /// A grid of the given size with every cell clear.
    pub fn new_default(size: Size) -> (r: BitGrid)
        requires
            BitGrid::fits(size),
        ensures
            r.wf(),
            r.size == size,
            forall|i: int| 0 <= i < r.bits().len() ==> !r.bits()[i],
    {
        BitGrid::new_copy(size, false)
    }

    /// A grid of the given size whose cells are produced by `f`, called once
    /// per coordinate in row-major order.
    pub fn new_fn<F: Fn(Coord) -> bool>(size: Size, f: F) -> (r: BitGrid)
        requires
            BitGrid::fits(size),
            forall|p: Coord| size.holds(p) ==> #[trigger] f.requires((p,)),
        ensures
            r.wf(),
            r.size == size,
            forall|i: int|
                0 <= i < r.bits().len() ==> f.ensures((size.point_of(i),), #[trigger] r.bits()[i]),
    {
        let n = size.count();
        let mut cells = bits_with_capacity(n);
        let mut i: usize = 0;
        while i < n
            invariant
                BitGrid::fits(size),
                n == size.cell_count(),
                forall|p: Coord| size.holds(p) ==> #[trigger] f.requires((p,)),
                i <= n,
                bits_of(cells).len() == i,
                forall|k: int|
                    0 <= k < i ==> f.ensures((size.point_of(k),), #[trigger] bits_of(cells)[k]),
            decreases n - i,
        {
            let p = size.index_to_point(i);
            let v = f(p);
            bits_push(&mut cells, v);
            i = i + 1;
        }
        BitGrid { size, cells }
    }

    /// Whether the bit sequence has one bit for each cell of the area.
    pub fn is_wf(&self) -> (r: bool)
        ensures
            r == self.wf(),
    {
        self.size.is_valid() && self.size.count() <= MAX_BITS && bits_len(&self.cells)
            == self.size.count()
    }

    pub fn width(&self) -> (r: u32)
        ensures
            r == self.size.width,
    {
        self.size.width
    }

    pub fn height(&self) -> (r: u32)
        ensures
            r == self.size.height,
    {
        self.size.height
    }

    pub fn size(&self) -> (r: Size)
        ensures
            r == self.size,
    {
        self.size
    }

    /// Number of cells.
    pub fn len(&self) -> (r: usize)
        ensures
            r == self.bits().len(),
    {
        bits_len(&self.cells)
    }

    pub fn is_empty(&self) -> (r: bool)
        ensures
            r == (self.bits().len() == 0),
    {
        bits_len(&self.cells) == 0
    }

    pub fn in_bounds(&self, p: Coord) -> (r: bool)
        ensures
            r == self.size.holds(p),
    {
        self.size.contains(p)
    }

    /// Index of an in-bounds coordinate; the caller has checked the bounds.
    pub fn get_idx_unchecked(&self, p: Coord) -> (r: usize)
        requires
            self.wf(),
            self.size.holds(p),
        ensures
            r == self.size.index_of(p),
            r < self.bits().len(),
    {
        self.size.point_to_index(p)
    }

    /// Index of a coordinate, or `None` outside the grid.
    pub fn get_idx(&self, p: Coord) -> (r: Option<usize>)
        requires
            self.wf(),
        ensures
            r == (if self.size.holds(p) { Some(self.size.index_of(p) as usize) } else { None::<usize> }),
    {
        if self.size.contains(p) {
            Some(self.size.point_to_index(p))
        } else {
            None
        }
    }

    /// Coordinate of an in-range index; the caller has checked the range.
    pub fn index_to_pt_unchecked(&self, idx: usize) -> (r: Coord)
        requires
            self.wf(),
            idx < self.bits().len(),
        ensures
            r == self.size.point_of(idx as int),
            self.size.holds(r),
            self.size.index_of(r) == idx,
    {
        self.size.index_to_point(idx)
    }

    /// Coordinate of an index, or `None` past the last cell.
    pub fn index_to_pt(&self, idx: usize) -> (r: Option<Coord>)
        requires
            self.wf(),
        ensures
            r == (if idx < self.bits().len() { Some(self.size.point_of(idx as int)) } else { None::<Coord> }),
    {
        if idx < bits_len(&self.cells) {
            Some(self.size.index_to_point(idx))
        } else {
            None
        }
    }

    /// The bit at a coordinate, or `None` outside the grid.
    pub fn get(&self, p: Coord) -> (r: Option<bool>)
        requires
            self.wf(),
        ensures
            r == (if self.size.holds(p) { Some(self.cell(p)) } else { None::<bool> }),
    {
        if self.size.contains(p) {
            Some(bits_get(&self.cells, self.size.point_to_index(p)))
        } else {
            None
        }
    }

    /// The bit at an in-bounds coordinate; the caller has checked the bounds.
    pub fn get_unchecked(&self, p: Coord) -> (r: bool)
        requires
            self.wf(),
            self.size.holds(p),
        ensures
            r == self.cell(p),
    {
        bits_get(&self.cells, self.size.point_to_index(p))
    }

    /// Writes `value` at `p` and returns the bit it replaced; outside the grid
    /// nothing changes and `None` is returned.
    pub fn set(&mut self, p: Coord, value: bool) -> (r: Option<bool>)
        requires
            old(self).wf(),
        ensures
            final(self).wf(),
            final(self).size == old(self).size,
            final(self).bits() == old(self).written(p, value),
            r == (if old(self).size.holds(p) { Some(old(self).cell(p)) } else { None::<bool> }),
    {
        if self.size.contains(p) {
            Some(self.set_unchecked(p, value))
        } else {
            None
        }
    }

    /// Writes `value` at an in-bounds `p` and returns the bit it replaced; the
    /// caller has checked the bounds.
    pub fn set_unchecked(&mut self, p: Coord, value: bool) -> (r: bool)
        requires
            old(self).wf(),
            old(self).size.holds(p),
        ensures
            final(self).wf(),
            final(self).size == old(self).size,
            final(self).bits() == old(self).written(p, value),
            r == old(self).cell(p),
    {
        let i = self.size.point_to_index(p);
        bits_replace(&mut self.cells, i, value)
    }

    /// Copies the `region`-sized rectangle at `from` in `source` to the
    /// rectangle at `to` in this grid, cell by cell; cells whose source or
    /// destination lies outside its grid are skipped.
    pub fn blit_copy(&mut self, to: Coord, source: &BitGrid, from: Coord, region: Size)
        requires
            old(self).wf(),
            source.wf(),
        ensures
            final(self).wf(),
            final(self).size == old(self).size,
            forall|q: Coord|
                old(self).size.holds(q) ==> #[trigger] final(self).cell(q) == old(self).blitted(
                    to,
                    source,
                    from,
                    region,
                    q,
                ),
    {
        let ghost start = self.bits();
        let mut y: u32 = 0;
        while y < region.height
            invariant
                self.wf(),
                self.size == old(self).size,
                start == old(self).bits(),
                source.wf(),
                y <= region.height,
                forall|q: Coord|
                    self.size.holds(q) ==> #[trigger] self.cell(q) == blit_partial(
                        self.size,
                        start,
                        to,
                        source.size,
                        source.bits(),
                        from,
                        region,
                        q,
                        y as int,
                        0,
                    ),
            decreases region.height - y,
        {
            let mut x: u32 = 0;
            while x < region.width
                invariant
                    self.wf(),
                    self.size == old(self).size,
                    start == old(self).bits(),
                    source.wf(),
                    y < region.height,
                    x <= region.width,
                    forall|q: Coord|
                        self.size.holds(q) ==> #[trigger] self.cell(q) == blit_partial(
                            self.size,
                            start,
                            to,
                            source.size,
                            source.bits(),
                            from,
                            region,
                            q,
                            y as int,
                            x as int,
                        ),
                decreases region.width - x,
            {
                let sx: i64 = from.x as i64 + x as i64;
                let sy: i64 = from.y as i64 + y as i64;
                let tx: i64 = to.x as i64 + x as i64;
                let ty: i64 = to.y as i64 + y as i64;
                let ghost before = self.bits();
                if sx <= i32::MAX as i64 && sy <= i32::MAX as i64 && tx <= i32::MAX as i64 && ty
                    <= i32::MAX as i64 {
                    let sp = Coord { x: sx as i32, y: sy as i32 };
                    let tp = Coord { x: tx as i32, y: ty as i32 };
                    if let Some(val) = source.get(sp) {
                        let ghost sz = self.size;
                        assert forall|q: Coord| sz.holds(q) implies before[sz.index_of(q)]
                            == blit_partial(sz, start, to, source.size, source.bits(), from, region, q, y as int, x as int) by {
                            assert(self.cell(q) == blit_partial(sz, start, to, source.size, source.bits(), from, region, q, y as int, x as int));
                        }
                        self.set(tp, val);
                        proof {
                            if self.size.holds(tp) {
                                lemma_index_point(self.size, tp);
                            }
                            assert forall|q: Coord| self.size.holds(q) implies #[trigger] self.cell(q)
                                == blit_partial(
                                self.size,
                                start,
                                to,
                                source.size,
                                source.bits(),
                                from,
                                region,
                                q,
                                y as int,
                                x + 1,
                            ) by {
                                lemma_index_point(self.size, q);
                            }
                        }
                    }
                }
                x = x + 1;
            }
            y = y + 1;
        }
    }

    /// Copies a rectangle of bits from `source`, as `blit_copy` does.
    pub fn blit_clone(&mut self, to: Coord, source: &BitGrid, from: Coord, region: Size)
        requires
            old(self).wf(),
            source.wf(),
        ensures
            final(self).wf(),
            final(self).size == old(self).size,
            forall|q: Coord|
                old(self).size.holds(q) ==> #[trigger] final(self).cell(q) == old(self).blitted(
                    to,
                    source,
                    from,
                    region,
                    q,
                ),
    {
        self.blit_copy(to, source, from, region);
    }

    /// Every bit of the grid, in row-major order.
    pub fn iter(&self) -> (r: Vec<bool>)
        requires
            self.wf(),
        ensures
            r@ == self.bits(),
    {
        let n = bits_len(&self.cells);
        let mut r: Vec<bool> = Vec::with_capacity(n);
        let mut i: usize = 0;
        while i < n
            invariant
                n == self.bits().len(),
                i <= n,
                r@ == self.bits().subrange(0, i as int),
            decreases n - i,
        {
            r.push(bits_get(&self.cells, i));
            i = i + 1;
            assert(r@ =~= self.bits().subrange(0, i as int));
        }
        assert(r@ =~= self.bits());
        r
    }

    /// Every coordinate of the grid, in row-major order.
    pub fn point_iter(&self) -> (r: Vec<Coord>)
        requires
            self.wf(),
        ensures
            r@.len() == self.size.cell_count(),
            forall|i: int| 0 <= i < r@.len() ==> r@[i] == #[trigger] self.size.point_of(i),
    {
        self.size.points()
    }

    /// Every coordinate of the grid with its bit, in row-major order.
    pub fn enumerate(&self) -> (r: Vec<(Coord, bool)>)
        requires
            self.wf(),
        ensures
            r@.len() == self.bits().len(),
            forall|i: int|
                0 <= i < r@.len() ==> #[trigger] r@[i] == (self.size.point_of(i), self.bits()[i]),
    {
        let n = bits_len(&self.cells);
        let mut r: Vec<(Coord, bool)> = Vec::with_capacity(n);
        let mut i: usize = 0;
        while i < n
            invariant
                self.wf(),
                n == self.bits().len(),
                i <= n,
                r@.len() == i,
                forall|k: int|
                    0 <= k < i ==> #[trigger] r@[k] == (self.size.point_of(k), self.bits()[k]),
            decreases n - i,
        {
            r.push((self.size.index_to_point(i), bits_get(&self.cells, i)));
            i = i + 1;
        }
        r
    }
}

/// Writing `v` at an in-bounds `p` and reading `p` back gives `v`, and every
/// other cell keeps its bit; a write outside the grid changes nothing.
pub proof fn lemma_bitgrid_round_trip(before: BitGrid, after: BitGrid, p: Coord, v: bool)
    requires
        before.wf(),
        after.size == before.size,
        after.bits() == before.written(p, v),
    ensures
        after.wf(),
        before.size.holds(p) ==> after.cell(p) == v,
        forall|q: Coord|
            before.size.holds(q) && q != p ==> #[trigger] after.cell(q) == before.cell(q),
        !before.size.holds(p) ==> after.bits() == before.bits(),
{
    if before.size.holds(p) {
        lemma_index_point(before.size, p);
    }
    assert forall|q: Coord| before.size.holds(q) && q != p implies #[trigger] after.cell(q)
        == before.cell(q) by {
        lemma_index_point(before.size, q);
        if before.size.holds(p) {
            lemma_index_point(before.size, p);
        }
    }
}

} // verus!
