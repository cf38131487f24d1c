use atrl_core::astar::{diagonal_cost, find_path, pop_lowest, AStarNode};
use atrl_core::flags::{MovementType, VisionType};
use atrl_core::geometry::{Coord, Size, WorldPosition};
use atrl_core::grid::Grid;
use atrl_core::map::{EntityId, GameMap, MapPassThroughData, TerrainType};

fn c(x: i32, y: i32) -> Coord {
    Coord::new(x, y)
}

fn data() -> MapPassThroughData {
    MapPassThroughData {
        world_position: WorldPosition::default(),
        terrain_tileset_id: 0,
        feature_tileset_id: 0,
        item_tileset_id: 0,
        terrain_layer_entity: EntityId { id: 0 },
        feature_layer_entity: EntityId { id: 1 },
        item_layer_entity: EntityId { id: 2 },
    }
}

fn floor(cost: u32) -> TerrainType {
    TerrainType {
        allowed_movement: MovementType::Walk.as_u8(),
        vision_penetrates: VisionType::Any.as_u8(),
        movement_cost: cost,
    }
}

fn wall() -> TerrainType {
    TerrainType { allowed_movement: 0, vision_penetrates: 0, movement_cost: 0 }
}

fn open_map(w: u32, h: u32) -> GameMap {
    GameMap::new(Grid::new_copy(Size::new(w, h), floor(1)), data())
}

/// Scaled cost of a path listed from the destination back, with unit
/// multipliers.
fn scaled_cost(origin: Coord, path: &[Coord]) -> u64 {
    let mut cells: Vec<Coord> = path.iter().rev().copied().collect();
    cells.insert(0, origin);
    cells
        .windows(2)
        .map(|w| if w[0].x != w[1].x && w[0].y != w[1].y { 14 } else { 10 })
        .sum()
}

fn is_neighbor(a: Coord, b: Coord) -> bool {
    a != b && (a.x - b.x).abs() <= 1 && (a.y - b.y).abs() <= 1
}

#[test]
fn open_grid_diagonal_path() {
    let m = open_map(5, 5);
    let path = find_path(c(0, 0), c(4, 4), MovementType::Walk.as_u8(), &m).unwrap();
    assert_eq!(path.len(), 4);
    assert_eq!(path, vec![c(4, 4), c(3, 3), c(2, 2), c(1, 1)]);
    assert_eq!(scaled_cost(c(0, 0), &path), 56);
}

#[test]
fn wall_with_gap_routes_through_gap() {
    let mut m = open_map(5, 5);
    for y in 0..5 {
        if y != 2 {
            m.set_terrain_at(c(2, y), wall());
        }
    }
    let path = find_path(c(0, 0), c(4, 4), MovementType::Walk.as_u8(), &m).unwrap();
    assert!(path.contains(&c(2, 2)));
    assert_eq!(path[0], c(4, 4));
    let mut prev = c(0, 0);
    for p in path.iter().rev() {
        assert!(is_neighbor(prev, *p));
        assert!(p.x != 2 || p.y == 2);
        prev = *p;
    }
}

#[test]
fn uniform_grid_cost_matches_diagonal_distance() {
    let m = open_map(8, 6);
    for (o, d) in [((0, 0), (7, 2)), ((6, 5), (1, 0)), ((3, 3), (3, 0)), ((0, 5), (7, 5))] {
        let (o, d) = (c(o.0, o.1), c(d.0, d.1));
        let path = find_path(o, d, MovementType::Walk.as_u8(), &m).unwrap();
        let steps = (o.x - d.x).abs().max((o.y - d.y).abs()) as usize;
        assert_eq!(path.len(), steps);
        assert_eq!(scaled_cost(o, &path), diagonal_cost(o, d));
    }
}

#[test]
fn enclosed_destination_has_no_path() {
    let mut m = open_map(7, 7);
    for y in 2..5 {
        for x in 2..5 {
            if (x, y) != (3, 3) {
                m.set_terrain_at(c(x, y), wall());
            }
        }
    }
    assert_eq!(find_path(c(0, 0), c(3, 3), MovementType::Walk.as_u8(), &m), None);
    assert!(find_path(c(0, 0), c(6, 6), MovementType::Walk.as_u8(), &m).is_some());
}

#[test]
fn blocked_by_obstruction_map() {
    let mut m = open_map(3, 3);
    for y in 0..3 {
        m.pathmap.set(c(1, y), true);
    }
    assert_eq!(find_path(c(0, 1), c(2, 1), MovementType::Walk.as_u8(), &m), None);
    m.pathmap.set(c(1, 2), false);
    let path = find_path(c(0, 1), c(2, 1), MovementType::Walk.as_u8(), &m).unwrap();
    assert_eq!(path, vec![c(2, 1), c(1, 2)]);
}

#[test]
fn movement_mask_without_capability_has_no_path() {
    let m = open_map(4, 4);
    assert_eq!(find_path(c(0, 0), c(3, 3), MovementType::Swim.as_u8(), &m), None);
}

#[test]
fn origin_is_destination_gives_empty_path() {
    let m = open_map(3, 3);
    assert_eq!(find_path(c(1, 1), c(1, 1), MovementType::Walk.as_u8(), &m), Some(vec![]));
}

#[test]
fn origin_or_destination_outside_area() {
    let m = open_map(3, 3);
    let walk = MovementType::Walk.as_u8();
    assert_eq!(find_path(c(-1, 0), c(0, 0), walk, &m), Some(vec![c(0, 0)]));
    let path = find_path(c(-1, 0), c(1, 1), walk, &m).unwrap();
    assert_eq!(path.len(), 2);
    assert_eq!(path[0], c(1, 1));
    assert_eq!(find_path(c(-5, 0), c(1, 1), walk, &m), None);
    assert_eq!(find_path(c(0, 0), c(3, 3), walk, &m), None);
}

#[test]
fn found_paths_never_repeat_cells() {
    let mut m = open_map(6, 6);
    for y in 0..5 {
        m.set_terrain_at(c(3, y), wall());
    }
    let path = find_path(c(0, 0), c(5, 0), MovementType::Walk.as_u8(), &m).unwrap();
    for (i, a) in path.iter().enumerate() {
        assert!(*a != c(0, 0));
        for b in &path[i + 1..] {
            assert!(a != b);
        }
    }
}

#[test]
fn costly_terrain_is_avoided() {
    let mut terrain = Grid::new_copy(Size::new(3, 3), floor(1));
    terrain.set(c(1, 1), floor(9));
    let m = GameMap::new(terrain, data());
    let path = find_path(c(0, 1), c(2, 1), MovementType::Walk.as_u8(), &m).unwrap();
    assert_eq!(path.len(), 2);
    assert!(!path.contains(&c(1, 1)));
}

#[test]
fn diagonal_cost_values() {
    assert_eq!(diagonal_cost(c(0, 0), c(4, 4)), 56);
    assert_eq!(diagonal_cost(c(0, 0), c(3, 1)), 34);
    assert_eq!(diagonal_cost(c(2, 5), c(2, 1)), 40);
    assert_eq!(diagonal_cost(c(1, 1), c(1, 1)), 0);
}

fn node(x: i32, total: u64, from_end: u64) -> AStarNode {
    AStarNode {
        is_walkable: true,
        position: c(x, 0),
        cost_multiplier: 1,
        from_node: None,
        cost_from_start: total - from_end,
        cost_from_end: from_end,
        cost_total: total,
    }
}

#[test]
fn open_list_orders_by_total_then_distance() {
    let mut open: Vec<AStarNode> = Vec::new();
    AStarNode::insert_ordered(&mut open, node(0, 50, 10));
    AStarNode::insert_ordered(&mut open, node(1, 40, 30));
    AStarNode::insert_ordered(&mut open, node(2, 50, 5));
    AStarNode::insert_ordered(&mut open, node(3, 40, 30));
    AStarNode::insert_ordered(&mut open, node(4, 60, 0));
    let order: Vec<i32> = open.iter().map(|n| n.position.x).collect();
    assert_eq!(order, vec![3, 1, 2, 0, 4]);
    let first = pop_lowest(&mut open);
    assert_eq!(first.position, c(3, 0));
    assert!(open.iter().all(|n| first.cost_total <= n.cost_total));
    assert_eq!(AStarNode::find_node_with_position(&open, c(2, 0)), Some(1));
    assert_eq!(AStarNode::find_node_with_position(&open, c(9, 0)), None);
}

#[test]
fn origin_node_scores() {
    let n = AStarNode::new(c(0, 0), c(2, 3));
    assert_eq!(n.position(), c(0, 0));
    assert_eq!(n.from_node(), None);
    assert_eq!(n.cost_from_start, 0);
    assert_eq!(n.cost_from_end, 38);
    assert_eq!(n.cost_total, 38);
}

#[test]
fn neighbor_nodes_are_scored_through_parent() {
    let m = open_map(4, 4);
    let origin = AStarNode::new(c(0, 0), c(3, 3));
    let walk = MovementType::Walk.as_u8();
    let diag = origin.create_neighbor(c(1, 1), true, c(3, 3), &m, walk);
    assert!(diag.is_walkable);
    assert_eq!(diag.from_node(), Some(c(0, 0)));
    assert_eq!(diag.cost_from_start, 14);
    assert_eq!(diag.cost_from_end, 28);
    assert_eq!(diag.cost_total, 42);
    let side = origin.create_neighbor(c(1, 0), false, c(3, 3), &m, walk);
    assert_eq!(side.cost_from_start, 10);
    let outside = origin.create_neighbor(c(-1, 0), false, c(3, 3), &m, walk);
    assert!(!outside.is_walkable);
    assert_eq!(outside.cost_total, u64::MAX);
}

#[test]
fn relaxation_only_when_strictly_cheaper() {
    let m = open_map(4, 4);
    let walk = MovementType::Walk.as_u8();
    let dest = c(3, 3);
    let origin = AStarNode::new(c(0, 0), dest);
    let closed = vec![origin];
    let mut open: Vec<AStarNode> = Vec::new();
    origin.update_at_position(c(1, 0), false, dest, &m, walk, &mut open, &closed);
    origin.update_at_position(c(0, 0), false, dest, &m, walk, &mut open, &closed);
    assert_eq!(open.len(), 1);
    let side = open[0];
    assert_eq!(side.cost_from_start, 10);
    // reaching (2,1) through (1,0) diagonally costs 24; through a cheaper
    // parent the node is re-scored
    side.update_at_position(c(2, 1), true, dest, &m, walk, &mut open, &closed);
    assert_eq!(open.len(), 2);
    let idx = AStarNode::find_node_with_position(&open, c(2, 1)).unwrap();
    assert_eq!(open[idx].cost_from_start, 24);
    let mut cheap = AStarNode::new(c(1, 1), dest);
    cheap.cost_from_start = 5;
    cheap.update_at_position(c(2, 1), false, dest, &m, walk, &mut open, &closed);
    let idx = AStarNode::find_node_with_position(&open, c(2, 1)).unwrap();
    assert_eq!(open[idx].cost_from_start, 15);
    assert_eq!(open[idx].from_node(), Some(c(1, 1)));
    side.update_at_position(c(2, 1), true, dest, &m, walk, &mut open, &closed);
    let idx = AStarNode::find_node_with_position(&open, c(2, 1)).unwrap();
    assert_eq!(open[idx].cost_from_start, 15);
}
