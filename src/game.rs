//! Game-side decisions around the core: player input, starting positions,
//! chase paths and the first map's tileset.

use crate::astar::{
    back_cost, back_route, chebyshev, diagonal_distance, find_path, path_exists, uniform_open,
};
use crate::flags::MovementType;
use crate::geometry::{Coord, WorldPosition};
use crate::grid::Grid;
use crate::map::TerrainType;
use crate::provider::PathProvider;
use vstd::prelude::*;

verus! {

/// One of the eight compass directions; north is towards larger `y`.
#[derive(Clone, Copy, Debug, PartialEq, Eq, Structural, Hash)]
pub enum GridDirection {
    North,
    NorthEast,
    East,
    SouthEast,
    South,
    SouthWest,
    West,
    NorthWest,
}

impl GridDirection {
    pub open spec fn offset(self) -> (int, int) {
        match self {
            GridDirection::North => (0, 1),
            GridDirection::NorthEast => (1, 1),
            GridDirection::East => (1, 0),
            GridDirection::SouthEast => (1, -1),
            GridDirection::South => (0, -1),
            GridDirection::SouthWest => (-1, -1),
            GridDirection::West => (-1, 0),
            GridDirection::NorthWest => (-1, 1),
        }
    }

    /// The one-step offset of the direction.
    pub fn coord(self) -> (r: Coord)
        ensures
            r.x == self.offset().0,
            r.y == self.offset().1,
    {
        match self {
            GridDirection::North => Coord { x: 0, y: 1 },
            GridDirection::NorthEast => Coord { x: 1, y: 1 },
            GridDirection::East => Coord { x: 1, y: 0 },
            GridDirection::SouthEast => Coord { x: 1, y: -1 },
            GridDirection::South => Coord { x: 0, y: -1 },
            GridDirection::SouthWest => Coord { x: -1, y: -1 },
            GridDirection::West => Coord { x: -1, y: 0 },
            GridDirection::NorthWest => Coord { x: -1, y: 1 },
        }
    }
}

/// What the player can ask for with a key.
#[derive(Clone, Copy, Debug, PartialEq, Eq, Structural, Hash)]
pub enum PlayerAction {
    Wait,
    Up,
    Down,
    Left,
    Right,
}

impl PlayerAction {
    pub open spec fn spec_direction(self) -> Option<GridDirection> {
        match self {
            PlayerAction::Wait => None,
            PlayerAction::Up => Some(GridDirection::North),
            PlayerAction::Down => Some(GridDirection::South),
            PlayerAction::Left => Some(GridDirection::West),
            PlayerAction::Right => Some(GridDirection::East),
        }
    }

    /// The direction a movement action moves in; none for waiting.
    pub fn direction(self) -> (r: Option<GridDirection>)
        ensures
            r == self.spec_direction(),
    {
        match self {
            PlayerAction::Wait => None,
            PlayerAction::Up => Some(GridDirection::North),
            PlayerAction::Down => Some(GridDirection::South),
            PlayerAction::Left => Some(GridDirection::West),
            PlayerAction::Right => Some(GridDirection::East),
        }
    }
}

/// What an actor does on its turn.
#[derive(Clone, Copy, Debug, PartialEq, Eq, Structural)]
pub enum ActionType {
    Wait,
    /// Move to a cell of a map in the world.
    Movement(WorldPosition, Coord),
    /// Move by an offset.
    MovementDelta(Coord),
}

/// The state of one key this frame.
#[derive(Clone, Copy, Debug, PartialEq, Eq, Structural)]
pub struct KeyState {
    pub just_pressed: bool,
    pub pressed: bool,
    /// How long the key has been held, in nanoseconds.
    pub held_nanos: u64,
}

/// The keys of one player this frame.
#[derive(Clone, Copy, Debug, PartialEq, Eq, Structural)]
pub struct InputState {
    pub wait: KeyState,
    pub up: KeyState,
    pub down: KeyState,
    pub left: KeyState,
    pub right: KeyState,
}

/// How long a movement key must be held before it repeats, in nanoseconds.
pub const PRESSED_NANOS: u64 = 500_000_000;

/// A movement key acts when just pressed, or when held past the repeat delay.
pub open spec fn key_fires(k: KeyState) -> bool {
    k.just_pressed || (k.pressed && k.held_nanos > PRESSED_NANOS)
}

/// The movement queued for a direction key.
pub open spec fn move_queued(k: KeyState, a: PlayerAction) -> Seq<ActionType> {
    if key_fires(k) {
        let (x, y) = a.spec_direction()->0.offset();
        seq![ActionType::MovementDelta(Coord { x: x as i32, y: y as i32 })]
    } else {
        Seq::empty()
    }
}

/// The actions queued for one player's keys: a wait when its key was just
/// pressed, then the movements of up, down, left and right.
pub open spec fn queued(s: InputState) -> Seq<ActionType> {
    (if s.wait.just_pressed {
        seq![ActionType::Wait]
    } else {
        Seq::empty()
    }) + move_queued(s.up, PlayerAction::Up) + move_queued(s.down, PlayerAction::Down)
        + move_queued(s.left, PlayerAction::Left) + move_queued(s.right, PlayerAction::Right)
}

fn queue_move(queue: &mut Vec<ActionType>, k: KeyState, a: PlayerAction)
    requires
        a != PlayerAction::Wait,
    ensures
        final(queue)@ == old(queue)@ + move_queued(k, a),
{
    if k.just_pressed || (k.pressed && k.held_nanos > PRESSED_NANOS) {
        if let Some(direction) = a.direction() {
            queue.push(ActionType::MovementDelta(direction.coord()));
        }
    }
    proof {
        assert(final(queue)@ =~= old(queue)@ + move_queued(k, a));
    }
}

/// The actions that one player's keys queue this frame.
pub fn player_input(state: &InputState) -> (r: Vec<ActionType>)
    ensures
        r@ == queued(*state),
{
    let mut queue: Vec<ActionType> = Vec::new();
    if state.wait.just_pressed {
        queue.push(ActionType::Wait);
    }
    queue_move(&mut queue, state.up, PlayerAction::Up);
    queue_move(&mut queue, state.down, PlayerAction::Down);
    queue_move(&mut queue, state.left, PlayerAction::Left);
    queue_move(&mut queue, state.right, PlayerAction::Right);
    proof {
        assert(queue@ =~= queued(*state));
    }
    queue
}

/// Where along the x axis a map's start is sought.
#[derive(Clone, Copy, Debug, PartialEq, Eq, Structural)]
pub enum XStart {
    Left,
    Center,
    Right,
}

/// Where along the y axis a map's start is sought.
#[derive(Clone, Copy, Debug, PartialEq, Eq, Structural)]
pub enum YStart {
    Top,
    Center,
    Bottom,
}

/// Places a map's starting position on the walkable tile nearest to a seed
/// point at one of nine places of the map.
#[derive(Clone, Copy, Debug, PartialEq, Eq, Structural)]
pub struct AreaStartingPosition {
    pub x: XStart,
    pub y: YStart,
}

/// The seed coordinate along one axis of the given length.
pub open spec fn seed_along(near: bool, center: bool, len: u32) -> int {
    if near {
        1
    } else if center {
        len as int / 2
    } else {
        len as int - 2
    }
}

/// Squared Euclidean distance between a cell and a point.
pub open spec fn dist2(p: Coord, sx: int, sy: int) -> int {
    (p.x - sx) * (p.x - sx) + (p.y - sy) * (p.y - sy)
}

/// A tile that a walker may stand on.
pub open spec fn floor_tile(t: TerrainType) -> bool {
    t.allowed_movement & MovementType::Walk.spec_mask() != 0
}

impl AreaStartingPosition {
    pub fn new(x: XStart, y: YStart) -> (r: Box<AreaStartingPosition>)
        ensures
            r.x == x,
            r.y == y,
    {
        Box::new(AreaStartingPosition { x, y })
    }

    pub open spec fn seed(&self, w: u32, h: u32) -> (int, int) {
        (
            seed_along(self.x == XStart::Left, self.x == XStart::Center, w),
            seed_along(self.y == YStart::Top, self.y == YStart::Center, h),
        )
    }

    /// The walkable tile nearest to the seed point, the first in row-major
    /// order among equally near ones; the terrain must have a walkable tile.
    pub fn build(&self, terrain: &Grid<TerrainType>) -> (r: Coord)
        requires
            terrain.wf(),
            exists|i: int| 0 <= i < terrain.cells@.len() && floor_tile(#[trigger] terrain.cells@[i]),
        ensures
            ({
                let (sx, sy) = self.seed(terrain.size.width, terrain.size.height);
                let p = r;
                &&& terrain.size.holds(p)
                &&& floor_tile(terrain.cell(p))
                &&& forall|i: int|
                    0 <= i < terrain.cells@.len() && floor_tile(#[trigger] terrain.cells@[i])
                        ==> dist2(p, sx, sy) <= dist2(terrain.size.point_of(i), sx, sy)
                &&& forall|i: int|
                    0 <= i < terrain.size.index_of(p) && floor_tile(#[trigger] terrain.cells@[i])
                        ==> dist2(p, sx, sy) < dist2(terrain.size.point_of(i), sx, sy)
            }),
    {
        let w = terrain.width() as i64;
        let h = terrain.height() as i64;
        let seed_x: i64 = match self.x {
            XStart::Left => 1,
            XStart::Center => w / 2,
            XStart::Right => w - 2,
        };
        let seed_y: i64 = match self.y {
            YStart::Top => 1,
            YStart::Center => h / 2,
            YStart::Bottom => h - 2,
        };
        let ghost sx = seed_x as int;
        let ghost sy = seed_y as int;
        let n = terrain.len();
        let mut best: Option<(Coord, u128)> = None;
        let mut i: usize = 0;
        while i < n
            invariant
                terrain.wf(),
                n == terrain.cells@.len(),
                i <= n,
                (sx, sy) == self.seed(terrain.size.width, terrain.size.height),
                sx == seed_x,
                sy == seed_y,
                -2 <= seed_x <= 0x7fff_ffff,
                -2 <= seed_y <= 0x7fff_ffff,
                best is None ==> forall|k: int|
                    0 <= k < i ==> !floor_tile(#[trigger] terrain.cells@[k]),
                best is Some ==> {
                    let (p, d) = best->0;
                    &&& terrain.size.holds(p)
                    &&& terrain.size.index_of(p) < i
                    &&& floor_tile(terrain.cell(p))
                    &&& d == dist2(p, sx, sy)
                    &&& forall|k: int|
                        0 <= k < i && floor_tile(#[trigger] terrain.cells@[k]) ==> d <= dist2(
                            terrain.size.point_of(k),
                            sx,
                            sy,
                        )
                    &&& forall|k: int|
                        0 <= k < terrain.size.index_of(p) && floor_tile(
                            #[trigger] terrain.cells@[k],
                        ) ==> d < dist2(terrain.size.point_of(k), sx, sy)
                },
            decreases n - i,
        {
            let tile = terrain.cells[i];
            if tile.allowed_movement & MovementType::Walk.as_u8() != 0 {
                let pt = terrain.index_to_pt_unchecked(i);
                let d = squared_distance(pt, seed_x, seed_y);
                let better = match best {
                    None => true,
                    Some((_, bd)) => d < bd,
                };
                if better {
                    best = Some((pt, d));
                }
            }
            i = i + 1;
        }
        match best {
            Some((p, _)) => p,
            None => {
                proof {
                    let k = choose|k: int|
                        0 <= k < terrain.cells@.len() && floor_tile(#[trigger] terrain.cells@[k]);
                    assert(!floor_tile(terrain.cells@[k]));
                }
                terrain.index_to_pt_unchecked(0)
            },
        }
    }
}

/// Squared Euclidean distance between a cell and a point.
fn squared_distance(p: Coord, sx: i64, sy: i64) -> (r: u128)
    requires
        -2 <= sx <= 0x7fff_ffff,
        -2 <= sy <= 0x7fff_ffff,
    ensures
        r == dist2(p, sx as int, sy as int),
{
    let dx = p.x as i64 - sx;
    let dy = p.y as i64 - sy;
    let ax: u128 = if dx < 0 { (-dx) as u128 } else { dx as u128 };
    let ay: u128 = if dy < 0 { (-dy) as u128 } else { dy as u128 };
    proof {
        assert(ax * ax == dx * dx) by (nonlinear_arith)
            requires
                ax == dx || ax == -dx,
        ;
        assert(ay * ay == dy * dy) by (nonlinear_arith)
            requires
                ay == dy || ay == -dy,
        ;
        assert(ax * ax <= 0x1_0000_0000 * 0x1_0000_0000) by (nonlinear_arith)
            requires
                0 <= ax <= 0x1_0000_0000,
        ;
        assert(ay * ay <= 0x1_0000_0000 * 0x1_0000_0000) by (nonlinear_arith)
            requires
                0 <= ay <= 0x1_0000_0000,
        ;
    }
    ax * ax + ay * ay
}

/// What an actor chasing a target remembers.
#[derive(Clone, Debug)]
pub struct ChaseActor {
    /// The planned path, listed from the target back to the first step.
    pub path: Option<Vec<Coord>>,
    /// Where the target was last seen: its map in the world and its cell.
    pub last_seen_pt: Option<(WorldPosition, Coord)>,
}

/// The path an actor follows to chase a target, listed from the target back
/// to the first step; empty when no path exists or the actor is on the target.
pub fn generate_chase_path<P: PathProvider>(
    ai_pos: Coord,
    target_pos: Coord,
    movement_type: u8,
    map_provider: &P,
) -> (r: Vec<Coord>)
    ensures
        path_exists(map_provider, movement_type, ai_pos, target_pos) ==> back_route(
            map_provider,
            movement_type,
            ai_pos,
            target_pos,
            r@,
        ),
        !path_exists(map_provider, movement_type, ai_pos, target_pos) ==> r@.len() == 0,
        r@.no_duplicates(),
        !r@.contains(ai_pos),
        uniform_open(map_provider, movement_type) && map_provider.area().holds(ai_pos)
            && map_provider.area().holds(target_pos) ==> back_cost(ai_pos, r@) == diagonal_distance(
            ai_pos,
            target_pos,
        ) && r@.len() == chebyshev(ai_pos, target_pos),
{
    match find_path(ai_pos, target_pos, movement_type, map_provider) {
        Some(path) => path,
        None => {
            let r = Vec::new();
            proof {
                assert(r@.no_duplicates());
            }
            r
        },
    }
}

/// The tileset of the first map: the entry at `pick` of the terrain tileset
/// table, where `pick` is drawn below the table's length less one; `None`
/// when the draw is out of that range.
pub fn load_first_map(tileset_ids: &Vec<u8>, pick: u32) -> (r: Option<u8>)
    ensures
        (pick as int) + 1 < tileset_ids@.len() ==> r == Some(tileset_ids@[pick as int]),
        (pick as int) + 1 >= tileset_ids@.len() ==> r is None,
{
    let n = tileset_ids.len();
    if n > 0 && (pick as usize) < n - 1 {
        Some(tileset_ids[pick as usize])
    } else {
        None
    }
}

/// The state of an actor's action, as the action scheduler keeps it.
#[derive(Clone, Copy, Debug, PartialEq, Eq, Structural)]
pub enum ActionState {
    Init,
    Requested,
    Executing,
    Cancelled,
    Success,
    Failure,
}

/// What one run of the chase action decides.
#[derive(Clone, Copy, Debug, PartialEq, Eq, Structural)]
pub struct ChaseOutcome {
    /// The action's next state.
    pub state: ActionState,
    /// The actor's preferred action for its turn.
    pub preferred_action: Option<ActionType>,
    /// Whether the target marker is to be cleared.
    pub clear_target: bool,
    /// Whether the turn passes on.
    pub end_turn: bool,
}

/// One run of the chase action for an actor at `ai_pos` chasing the player
/// at `player`, seen this turn when `player_in_view`. An actor that already
/// has a preferred action ends its turn. A requested chase remembers where
/// the player is, plans a path there, and starts executing. A cancelled chase
/// clears its target and fails. An executing chase moves towards the player
/// when seen, remembering the place, else towards where the player was last
/// seen, and waits when it never saw the player.
pub fn chase_action<P: PathProvider>(
    state: ActionState,
    chase: &mut ChaseActor,
    preferred_action: Option<ActionType>,
    ai_pos: Coord,
    player: (WorldPosition, Coord),
    player_in_view: bool,
    movement_type: u8,
    map: &P,
) -> (r: ChaseOutcome)
    ensures
        preferred_action is Some ==> r == (ChaseOutcome {
            state,
            preferred_action,
            clear_target: false,
            end_turn: true,
        }) && final(chase).last_seen_pt == old(chase).last_seen_pt,
        preferred_action is None && state == ActionState::Requested ==> {
            &&& final(chase).path is Some
            &&& (path_exists(map, movement_type, ai_pos, player.1) ==> back_route(
                map,
                movement_type,
                ai_pos,
                player.1,
                final(chase).path->0@,
            ))
            &&& (!path_exists(map, movement_type, ai_pos, player.1)
                ==> final(chase).path->0@.len() == 0)
        },
        preferred_action is None && (state == ActionState::Requested || state
            == ActionState::Executing) ==> {
            &&& r.state == ActionState::Executing
            &&& !r.clear_target
            &&& !r.end_turn
            &&& if player_in_view || state == ActionState::Requested {
                &&& final(chase).last_seen_pt == Some(player)
                &&& r.preferred_action == Some(ActionType::Movement(player.0, player.1))
            } else {
                &&& final(chase).last_seen_pt == old(chase).last_seen_pt
                &&& r.preferred_action == match old(chase).last_seen_pt {
                    Some(seen) => Some(ActionType::Movement(seen.0, seen.1)),
                    None => Some(ActionType::Wait),
                }
            }
        },
        preferred_action is None && state == ActionState::Cancelled ==> r == (ChaseOutcome {
            state: ActionState::Failure,
            preferred_action: None,
            clear_target: true,
            end_turn: false,
        }) && final(chase).last_seen_pt == old(chase).last_seen_pt,
        preferred_action is None && state != ActionState::Requested && state
            != ActionState::Executing && state != ActionState::Cancelled ==> r == (ChaseOutcome {
            state,
            preferred_action,
            clear_target: false,
            end_turn: false,
        }) && final(chase).last_seen_pt == old(chase).last_seen_pt,
{
    if preferred_action.is_some() {
        return ChaseOutcome { state, preferred_action, clear_target: false, end_turn: true };
    }
    let mut state = state;
    if state == ActionState::Requested {
        chase.last_seen_pt = Some(player);
        chase.path = Some(generate_chase_path(ai_pos, player.1, movement_type, map));
        state = ActionState::Executing;
    }
    match state {
        ActionState::Cancelled => ChaseOutcome {
            state: ActionState::Failure,
            preferred_action: None,
            clear_target: true,
            end_turn: false,
        },
        ActionState::Executing => {
            let position = if player_in_view {
                chase.last_seen_pt = Some(player);
                player
            } else {
                match chase.last_seen_pt {
                    Some(seen) => seen,
                    None => {
                        return ChaseOutcome {
                            state,
                            preferred_action: Some(ActionType::Wait),
                            clear_target: false,
                            end_turn: false,
                        };
                    },
                }
            };
            ChaseOutcome {
                state,
                preferred_action: Some(ActionType::Movement(position.0, position.1)),
                clear_target: false,
                end_turn: false,
            }
        },
        _ => ChaseOutcome { state, preferred_action: None, clear_target: false, end_turn: false },
    }
}

} // verus!
