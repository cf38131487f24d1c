use atrl_core::flags::{MovementType, VisionType};
use atrl_core::geometry::{Coord, Size, WorldPosition};
use atrl_core::grid::Grid;
use atrl_core::map::{EntityId, FeatureType, GameMap, MapPassThroughData, TerrainType};
use atrl_core::provider::{FovProvider, PathMap, PathProvider};

fn c(x: i32, y: i32) -> Coord {
    Coord::new(x, y)
}

fn data() -> MapPassThroughData {
    MapPassThroughData {
        world_position: WorldPosition { x: 1, y: 2, z: 0 },
        terrain_tileset_id: 1,
        feature_tileset_id: 2,
        item_tileset_id: 3,
        terrain_layer_entity: EntityId { id: 10 },
        feature_layer_entity: EntityId { id: 11 },
        item_layer_entity: EntityId { id: 12 },
    }
}

fn floor() -> TerrainType {
    TerrainType {
        allowed_movement: MovementType::Walk.as_u8() | MovementType::Fly.as_u8(),
        vision_penetrates: VisionType::Any.as_u8(),
        movement_cost: 2,
    }
}

fn map(w: u32, h: u32) -> GameMap {
    GameMap::new(Grid::new_copy(Size::new(w, h), floor()), data())
}

#[test]
fn movement_uses_terrain_and_feature_masks() {
    let mut m = map(3, 3);
    let walk = MovementType::Walk.as_u8();
    let fly = MovementType::Fly.as_u8();
    let swim = MovementType::Swim.as_u8();
    assert!(m.can_move_through(c(1, 1), walk));
    assert!(!m.can_move_through(c(1, 1), swim));
    let bush = FeatureType {
        allowed_movement: fly,
        vision_penetrates: VisionType::Infrared.as_u8(),
        allowed_vision: VisionType::Colored.as_u8(),
    };
    m.set_feature_at(c(1, 1), bush);
    assert!(!m.can_move_through(c(1, 1), walk));
    assert!(m.can_move_through(c(1, 1), fly));
    assert!(m.can_move_through(c(1, 1), walk | fly));
    assert!(m.can_move_through(c(0, 0), walk));
}

#[test]
fn movement_outside_map_is_refused() {
    let m = map(3, 3);
    assert!(!m.can_move_through(c(3, 1), MovementType::Any.as_u8()));
    assert!(!m.can_move_through(c(-1, 1), MovementType::Any.as_u8()));
    assert!(!m.can_move_through(c(1, 1), MovementType::Nothing.as_u8()));
}

#[test]
fn blind_viewer_sees_nothing() {
    let m = map(3, 3);
    let blind = VisionType::Blind.as_u8();
    let colored = VisionType::Colored.as_u8();
    assert!(!m.can_see_through(c(1, 1), blind));
    assert!(!m.can_see_through(c(1, 1), blind | colored));
    assert!(m.is_opaque(c(1, 1), blind | colored));
    assert!(m.is_opaque(c(1, 1), VisionType::Any.as_u8()));
    assert!(!m.is_opaque(c(1, 1), colored));
}

#[test]
fn sight_through_feature_and_feature_visibility() {
    let mut m = map(3, 3);
    let colored = VisionType::Colored.as_u8();
    let infrared = VisionType::Infrared.as_u8();
    assert!(!m.can_see_feature(c(2, 2), VisionType::Any.as_u8()));
    m.set_feature_at(
        c(2, 2),
        FeatureType {
            allowed_movement: 0,
            vision_penetrates: infrared,
            allowed_vision: colored,
        },
    );
    assert!(!m.can_see_through(c(2, 2), colored));
    assert!(m.can_see_through(c(2, 2), infrared));
    assert!(m.can_see_feature(c(2, 2), colored));
    assert!(!m.can_see_feature(c(2, 2), infrared));
    assert!(m.update_tiles.contains(&c(2, 2)));
}

#[test]
fn opaque_outside_map() {
    let m = map(2, 2);
    assert!(m.is_opaque(c(2, 0), VisionType::Colored.as_u8()));
    assert!(m.is_opaque(c(0, -1), VisionType::Colored.as_u8()));
    assert!(FovProvider::is_opaque(&m, c(5, 5), VisionType::Colored.as_u8()));
}

#[test]
fn terrain_changes_are_recorded() {
    let mut m = map(2, 2);
    let wall = TerrainType { allowed_movement: 0, vision_penetrates: 0, movement_cost: 0 };
    m.set_terrain_at(c(1, 0), wall);
    m.set_terrain_at(c(1, 0), wall);
    assert_eq!(m.update_tiles, vec![c(1, 0)]);
    assert!(!m.can_move_through(c(1, 0), MovementType::Walk.as_u8()));
    assert!(m.is_opaque(c(1, 0), VisionType::Colored.as_u8()));
    m.set_terrain_at(c(9, 9), wall);
    assert_eq!(m.update_tiles, vec![c(1, 0), c(9, 9)]);
    assert!(m.can_move_through(c(0, 0), MovementType::Walk.as_u8()));
    m.add_actor(c(0, 0), EntityId { id: 1 });
    m.move_actor(c(0, 0), c(1, 1));
    assert_eq!(m.update_tiles, vec![c(1, 0), c(9, 9)]);
}

#[test]
fn actors_are_placed_found_and_moved() {
    let mut m = map(4, 4);
    let a = EntityId { id: 7 };
    let b = EntityId { id: 8 };
    assert!(!m.has_actor(c(1, 1)));
    m.add_actor(c(1, 1), a);
    m.add_actor(c(3, 2), b);
    assert!(m.has_actor(c(1, 1)));
    assert_eq!(m.get_actor(c(1, 1)), Some(a));
    assert_eq!(m.get_actor_position(b), Some(c(3, 2)));
    assert_eq!(m.get_actor_position(EntityId { id: 99 }), None);
    m.move_actor(c(1, 1), c(3, 2));
    assert_eq!(m.get_actor(c(1, 1)), Some(a));
    m.move_actor(c(1, 1), c(2, 2));
    assert_eq!(m.get_actor(c(1, 1)), None);
    assert_eq!(m.get_actor(c(2, 2)), Some(a));
    assert_eq!(m.get_actor_position(a), Some(c(2, 2)));
    m.remove_actor(c(2, 2));
    assert!(!m.has_actor(c(2, 2)));
    assert_eq!(m.get_actor(c(-1, 0)), None);
}

#[test]
fn cost_and_distance() {
    let m = map(3, 3);
    assert_eq!(m.cost(c(1, 1), MovementType::Walk.as_u8()), 2);
    assert_eq!(m.cost(c(1, 1), MovementType::Swim.as_u8()), 0);
    assert_eq!(m.cost(c(5, 1), MovementType::Walk.as_u8()), 0);
    assert_eq!(m.distance(c(0, 0), c(3, -4)), 7);
    assert_eq!(PathProvider::cost(&m, c(2, 2), MovementType::Walk.as_u8()), 2);
}

#[test]
fn successors_skip_blocked_and_outside() {
    let mut m = map(3, 3);
    let walk = MovementType::Walk.as_u8();
    assert_eq!(m.successors(c(1, 1), walk).len(), 8);
    let corner = m.successors(c(0, 0), walk);
    assert_eq!(corner, vec![(c(1, 0), 2), (c(1, 1), 2), (c(0, 1), 2)]);
    m.pathmap.set(c(1, 0), true);
    let corner = m.successors(c(0, 0), walk);
    assert_eq!(corner, vec![(c(1, 1), 2), (c(0, 1), 2)]);
    assert!(!m.is_walkable(c(1, 0), walk));
    assert!(m.is_walkable(c(1, 1), walk));
}

#[test]
fn new_map_is_empty_of_features_and_actors() {
    let m = map(3, 2);
    assert_eq!(m.size, Size::new(3, 2));
    assert_eq!(m.bounds(), Size::new(3, 2));
    assert!(m.update_all);
    assert_eq!(m.world_position.xy(), c(1, 2));
    assert_eq!(m.terrain_tileset_id, 1);
    assert!(m.actors.cells.iter().all(|a| a.is_none()));
    assert!(m.feature_types.cells.iter().all(|f| f.is_none()));
    assert!(m.pathmap.iter().iter().all(|b| !*b));
}

#[test]
fn path_map_queries() {
    let m = map(3, 3);
    let walk = MovementType::Walk.as_u8();
    assert_eq!(PathMap::successors(&m, c(2, 2), walk), vec![(c(2, 1), 2), (c(1, 2), 2), (c(1, 1), 2)]);
    assert_eq!(PathMap::cost(&m, c(0, 0), walk), 2);
    assert_eq!(PathMap::cost(&m, c(3, 0), walk), 0);
    assert_eq!(PathMap::distance(&m, c(2, 2), c(0, 1)), 3);
}
