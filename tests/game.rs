use atrl_core::flags::{MovementType, VisionType};
use atrl_core::game::{
    chase_action, generate_chase_path, load_first_map, player_input, ActionState, ActionType,
    AreaStartingPosition, ChaseActor, GridDirection, InputState, KeyState, PlayerAction, XStart,
    YStart,
};
use atrl_core::geometry::{Coord, Size, WorldPosition};
use atrl_core::grid::Grid;
use atrl_core::map::{EntityId, GameMap, MapPassThroughData, TerrainType};

fn c(x: i32, y: i32) -> Coord {
    Coord::new(x, y)
}

fn idle() -> KeyState {
    KeyState { just_pressed: false, pressed: false, held_nanos: 0 }
}

fn floor() -> TerrainType {
    TerrainType {
        allowed_movement: MovementType::Walk.as_u8(),
        vision_penetrates: VisionType::Any.as_u8(),
        movement_cost: 1,
    }
}

fn wall() -> TerrainType {
    TerrainType { allowed_movement: 0, vision_penetrates: 0, movement_cost: 0 }
}

#[test]
fn player_actions_map_to_directions() {
    assert_eq!(PlayerAction::Up.direction(), Some(GridDirection::North));
    assert_eq!(PlayerAction::Down.direction(), Some(GridDirection::South));
    assert_eq!(PlayerAction::Left.direction(), Some(GridDirection::West));
    assert_eq!(PlayerAction::Right.direction(), Some(GridDirection::East));
    assert_eq!(PlayerAction::Wait.direction(), None);
    assert_eq!(GridDirection::North.coord(), c(0, 1));
    assert_eq!(GridDirection::SouthWest.coord(), c(-1, -1));
}

#[test]
fn input_queues_wait_then_moves() {
    let state = InputState {
        wait: KeyState { just_pressed: true, pressed: true, held_nanos: 0 },
        up: KeyState { just_pressed: false, pressed: true, held_nanos: 600_000_000 },
        down: KeyState { just_pressed: false, pressed: true, held_nanos: 500_000_000 },
        left: idle(),
        right: KeyState { just_pressed: true, pressed: true, held_nanos: 0 },
    };
    assert_eq!(
        player_input(&state),
        vec![
            ActionType::Wait,
            ActionType::MovementDelta(c(0, 1)),
            ActionType::MovementDelta(c(1, 0)),
        ]
    );
}

#[test]
fn input_idle_queues_nothing() {
    let state = InputState { wait: idle(), up: idle(), down: idle(), left: idle(), right: idle() };
    assert!(player_input(&state).is_empty());
}

#[test]
fn starting_position_nearest_floor() {
    let mut terrain = Grid::new_copy(Size::new(6, 5), wall());
    terrain.set(c(4, 4), floor());
    terrain.set(c(2, 1), floor());
    terrain.set(c(0, 3), floor());
    let start = AreaStartingPosition::new(XStart::Left, YStart::Top);
    assert_eq!(start.build(&terrain), c(2, 1));
    let start = AreaStartingPosition::new(XStart::Right, YStart::Bottom);
    assert_eq!(start.build(&terrain), c(4, 4));
    let start = AreaStartingPosition::new(XStart::Center, YStart::Center);
    // seed (3, 2): (2,1) at 2 and (4,4) at 5
    assert_eq!(start.build(&terrain), c(2, 1));
}

#[test]
fn starting_position_ties_take_first_in_row_order() {
    let mut terrain = Grid::new_copy(Size::new(5, 5), wall());
    terrain.set(c(2, 3), floor());
    terrain.set(c(3, 2), floor());
    let start = AreaStartingPosition::new(XStart::Center, YStart::Center);
    assert_eq!(start.build(&terrain), c(3, 2));
}

#[test]
fn chase_path_found_or_empty() {
    let data = MapPassThroughData {
        world_position: WorldPosition::default(),
        terrain_tileset_id: 0,
        feature_tileset_id: 0,
        item_tileset_id: 0,
        terrain_layer_entity: EntityId { id: 0 },
        feature_layer_entity: EntityId { id: 0 },
        item_layer_entity: EntityId { id: 0 },
    };
    let m = GameMap::new(Grid::new_copy(Size::new(4, 1), floor()), data);
    let walk = MovementType::Walk.as_u8();
    assert_eq!(generate_chase_path(c(0, 0), c(3, 0), walk, &m), vec![c(3, 0), c(2, 0), c(1, 0)]);
    assert!(generate_chase_path(c(0, 0), c(3, 1), walk, &m).is_empty());
    let mut path = generate_chase_path(c(0, 0), c(2, 0), walk, &m);
    assert_eq!(path.pop(), Some(c(1, 0)));
}

#[test]
fn first_map_tileset_pick() {
    let table = vec![4u8, 8, 15, 16];
    assert_eq!(load_first_map(&table, 0), Some(4));
    assert_eq!(load_first_map(&table, 2), Some(15));
    assert_eq!(load_first_map(&table, 3), None);
    assert_eq!(load_first_map(&vec![], 0), None);
}

fn line_map() -> GameMap {
    let data = MapPassThroughData {
        world_position: WorldPosition::default(),
        terrain_tileset_id: 0,
        feature_tileset_id: 0,
        item_tileset_id: 0,
        terrain_layer_entity: EntityId { id: 0 },
        feature_layer_entity: EntityId { id: 0 },
        item_layer_entity: EntityId { id: 0 },
    };
    GameMap::new(Grid::new_copy(Size::new(5, 1), floor()), data)
}

#[test]
fn chase_requested_plans_and_moves() {
    let m = line_map();
    let mut chase = ChaseActor { path: None, last_seen_pt: None };
    let here = WorldPosition::default();
    let out = chase_action(
        ActionState::Requested,
        &mut chase,
        None,
        c(0, 0),
        (here, c(3, 0)),
        false,
        MovementType::Walk.as_u8(),
        &m,
    );
    assert_eq!(out.state, ActionState::Executing);
    assert_eq!(out.preferred_action, Some(ActionType::Movement(here, c(3, 0))));
    assert_eq!(chase.last_seen_pt, Some((here, c(3, 0))));
    assert_eq!(chase.path, Some(vec![c(3, 0), c(2, 0), c(1, 0)]));
    assert!(!out.end_turn && !out.clear_target);
}

#[test]
fn chase_executing_uses_last_seen_or_waits() {
    let m = line_map();
    let here = WorldPosition::default();
    let walk = MovementType::Walk.as_u8();
    let mut chase = ChaseActor { path: None, last_seen_pt: Some((here, c(4, 0))) };
    let out = chase_action(ActionState::Executing, &mut chase, None, c(0, 0), (here, c(2, 0)), false, walk, &m);
    assert_eq!(out.preferred_action, Some(ActionType::Movement(here, c(4, 0))));
    let out = chase_action(ActionState::Executing, &mut chase, None, c(0, 0), (here, c(2, 0)), true, walk, &m);
    assert_eq!(out.preferred_action, Some(ActionType::Movement(here, c(2, 0))));
    assert_eq!(chase.last_seen_pt, Some((here, c(2, 0))));
    let mut blind = ChaseActor { path: None, last_seen_pt: None };
    let out = chase_action(ActionState::Executing, &mut blind, None, c(0, 0), (here, c(2, 0)), false, walk, &m);
    assert_eq!(out.preferred_action, Some(ActionType::Wait));
    assert_eq!(out.state, ActionState::Executing);
}

#[test]
fn chase_cancelled_or_busy() {
    let m = line_map();
    let here = WorldPosition::default();
    let walk = MovementType::Walk.as_u8();
    let mut chase = ChaseActor { path: None, last_seen_pt: None };
    let out = chase_action(ActionState::Cancelled, &mut chase, None, c(0, 0), (here, c(2, 0)), true, walk, &m);
    assert_eq!(out.state, ActionState::Failure);
    assert_eq!(out.preferred_action, None);
    assert!(out.clear_target);
    let busy = Some(ActionType::Wait);
    let out = chase_action(ActionState::Requested, &mut chase, busy, c(0, 0), (here, c(2, 0)), true, walk, &m);
    assert!(out.end_turn);
    assert_eq!(out.state, ActionState::Requested);
    assert_eq!(out.preferred_action, busy);
    assert_eq!(chase.path, None);
    let out = chase_action(ActionState::Success, &mut chase, None, c(0, 0), (here, c(2, 0)), true, walk, &m);
    assert_eq!(out.state, ActionState::Success);
    assert_eq!(out.preferred_action, None);
}
