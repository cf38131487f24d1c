use atrl_core::bitgrid::BitGrid;
use atrl_core::geometry::{Coord, Size};
use atrl_core::grid::Grid;

fn c(x: i32, y: i32) -> Coord {
    Coord::new(x, y)
}

#[test]
fn grid_set_then_get_returns_value() {
    let mut g: Grid<u32> = Grid::new_copy(Size::new(4, 3), 7);
    assert_eq!(g.set(c(2, 1), 42), Some(7));
    assert_eq!(g.get(c(2, 1)), Some(&42));
    assert_eq!(g.get(c(1, 2)), Some(&7));
    assert_eq!(*g.get_unchecked(c(2, 1)), 42);
}

#[test]
fn grid_out_of_bounds_is_absent() {
    let mut g: Grid<u32> = Grid::new_copy(Size::new(4, 3), 0);
    assert_eq!(g.set(c(4, 0), 1), None);
    assert_eq!(g.set(c(-1, 0), 1), None);
    assert_eq!(g.set(c(0, 3), 1), None);
    assert_eq!(g.get(c(4, 0)), None);
    assert_eq!(g.get(c(0, -1)), None);
    assert!(g.cells.iter().all(|v| *v == 0));
}

#[test]
fn grid_index_mapping_is_row_major() {
    let g: Grid<u8> = Grid::new_copy(Size::new(5, 4), 0);
    assert_eq!(g.len(), 20);
    assert!(!g.is_empty());
    assert_eq!(g.get_idx(c(3, 2)), Some(13));
    assert_eq!(g.get_idx(c(5, 0)), None);
    assert_eq!(g.index_to_pt(13), Some(c(3, 2)));
    assert_eq!(g.index_to_pt(20), None);
    assert_eq!(g.index_to_pt_unchecked(19), c(4, 3));
    assert!(g.in_bounds(c(4, 3)));
    assert!(!g.in_bounds(c(4, 4)));
}

#[test]
fn grid_new_fn_fills_by_coordinate() {
    let g: Grid<i32> = Grid::new_fn(Size::new(3, 2), |p: Coord| p.x * 10 + p.y);
    assert_eq!(g.cells, vec![0, 10, 20, 1, 11, 21]);
}

#[test]
fn grid_set_unchecked_returns_previous() {
    let mut g: Grid<u32> = Grid::new_copy(Size::new(2, 2), 5);
    assert_eq!(g.set_unchecked(c(1, 1), 9), 5);
    assert_eq!(g.set_unchecked(c(1, 1), 3), 9);
}

#[test]
fn grid_blit_copies_region_and_skips_outside() {
    let src: Grid<i32> = Grid::new_fn(Size::new(3, 3), |p: Coord| p.y * 3 + p.x + 1);
    let mut dst: Grid<i32> = Grid::new_copy(Size::new(4, 4), 0);
    dst.blit_copy(c(2, 2), &src, c(1, 1), Size::new(3, 3));
    // source cells (1,1),(2,1),(1,2),(2,2) land on (2,2),(3,2),(2,3),(3,3)
    assert_eq!(dst.get(c(2, 2)), Some(&5));
    assert_eq!(dst.get(c(3, 2)), Some(&6));
    assert_eq!(dst.get(c(2, 3)), Some(&8));
    assert_eq!(dst.get(c(3, 3)), Some(&9));
    assert_eq!(dst.get(c(1, 1)), Some(&0));
    assert_eq!(dst.cells.iter().filter(|v| **v != 0).count(), 4);
}

#[test]
fn bitgrid_set_then_get_returns_value() {
    let mut g = BitGrid::new_default(Size::new(70, 3));
    assert_eq!(g.set(c(65, 2), true), Some(false));
    assert_eq!(g.get(c(65, 2)), Some(true));
    assert_eq!(g.set(c(65, 2), false), Some(true));
    assert_eq!(g.get(c(65, 2)), Some(false));
    assert_eq!(g.len(), 210);
}

#[test]
fn bitgrid_out_of_bounds_set_is_noop() {
    let mut g = BitGrid::new_copy(Size::new(3, 3), false);
    assert_eq!(g.set(c(3, 0), true), None);
    assert_eq!(g.set(c(0, -1), true), None);
    assert_eq!(g.get(c(3, 0)), None);
    assert!(g.iter().iter().all(|b| !*b));
}

#[test]
fn bitgrid_unchecked_access() {
    let mut g = BitGrid::new_clone(Size::new(2, 2), true);
    assert!(g.set_unchecked(c(0, 1), false));
    assert!(!g.get_unchecked(c(0, 1)));
    assert!(g.get_unchecked(c(1, 1)));
    assert_eq!(g.get_idx_unchecked(c(1, 1)), 3);
}

#[test]
fn bitgrid_iteration_orders() {
    let g = BitGrid::new_fn(Size::new(3, 2), |p: Coord| p.x == p.y);
    assert_eq!(g.iter(), vec![true, false, false, false, true, false]);
    assert_eq!(
        g.point_iter(),
        vec![c(0, 0), c(1, 0), c(2, 0), c(0, 1), c(1, 1), c(2, 1)]
    );
    let e = g.enumerate();
    assert_eq!(e[4], (c(1, 1), true));
    assert_eq!(e[5], (c(2, 1), false));
    assert_eq!(e.len(), 6);
}

#[test]
fn bitgrid_blit_copies_bits() {
    let src = BitGrid::new_copy(Size::new(2, 2), true);
    let mut dst = BitGrid::new_default(Size::new(3, 3));
    dst.blit_copy(c(1, 1), &src, c(0, 0), Size::new(3, 3));
    assert_eq!(
        dst.iter(),
        vec![false, false, false, false, true, true, false, true, true]
    );
}

#[test]
fn bitgrid_index_helpers() {
    let g = BitGrid::new_default(Size::new(4, 2));
    assert_eq!(g.width(), 4);
    assert_eq!(g.height(), 2);
    assert_eq!(g.size(), Size::new(4, 2));
    assert_eq!(g.get_idx(c(3, 1)), Some(7));
    assert_eq!(g.index_to_pt(7), Some(c(3, 1)));
    assert_eq!(g.index_to_pt(8), None);
    assert!(!g.is_empty());
    assert!(BitGrid::new_default(Size::new(0, 5)).is_empty());
}

#[test]
fn grid_iteration_orders() {
    let g: Grid<i32> = Grid::new_fn(Size::new(2, 2), |p: Coord| p.x - p.y);
    assert_eq!(g.iter(), vec![0, 1, -1, 0]);
    assert_eq!(g.enumerate(), vec![(c(0, 0), 0), (c(1, 0), 1), (c(0, 1), -1), (c(1, 1), 0)]);
}
