//! The world model of one level: terrain and feature classification, actors
//! and the obstruction map, with the movement, vision and path queries.

use crate::bitgrid::BitGrid;
use crate::flags::BLIND;
use crate::geometry::{
    abs_diff, adjacent, lemma_steps_differ, spec_step, step, Coord, Size, WorldPosition,
};
use crate::grid::Grid;
use crate::provider::{FovProvider, PathMap, PathProvider};
use vstd::prelude::*;

verus! {

/// Classification of a tile's terrain.
#[derive(Clone, Copy, Debug, PartialEq, Eq, Structural, Hash)]
pub struct TerrainType {
    /// Movement capabilities that may cross the terrain.
    pub allowed_movement: u8,
    /// Vision capabilities that see through the terrain.
    pub vision_penetrates: u8,
    /// Traversal cost multiplier.
    pub movement_cost: u32,
}

/// Classification of a feature standing on a tile.
#[derive(Clone, Copy, Debug, PartialEq, Eq, Structural, Hash)]
pub struct FeatureType {
    /// Movement capabilities that may cross the feature.
    pub allowed_movement: u8,
    /// Vision capabilities that see through the feature.
    pub vision_penetrates: u8,
    /// Vision capabilities that see the feature itself.
    pub allowed_vision: u8,
}

/// The identity of an entity of the world (an actor, a render layer).
#[derive(Clone, Copy, Debug, PartialEq, Eq, Structural, Hash)]
pub struct EntityId {
    pub id: u64,
}

/// What map generation hands over unchanged to the map it builds.
#[derive(Clone, Copy, Debug, PartialEq, Eq, Structural)]
pub struct MapPassThroughData {
    pub world_position: WorldPosition,
    pub terrain_tileset_id: u8,
    pub feature_tileset_id: u8,
    pub item_tileset_id: u8,
    pub terrain_layer_entity: EntityId,
    pub feature_layer_entity: EntityId,
    pub item_layer_entity: EntityId,
}

/// One level of the world.
pub struct GameMap {
    pub size: Size,
    pub world_position: WorldPosition,
    pub update_all: bool,
    /// Cells changed since the last redraw.
    pub update_tiles: Vec<Coord>,
    pub actors: Grid<Option<EntityId>>,
    pub terrain_tileset_id: u8,
    pub feature_tileset_id: u8,
    pub item_tileset_id: u8,
    pub terrain_layer_entity: EntityId,
    pub feature_layer_entity: EntityId,
    pub item_layer_entity: EntityId,
    pub terrain_types: Grid<TerrainType>,
    pub feature_types: Grid<Option<FeatureType>>,
    /// Cells that path search must not enter.
    pub pathmap: BitGrid,
    pub explored_tiles: Vec<Coord>,
}

/// Movement is allowed when terrain, feature and mover share a capability.
pub open spec fn movement_allowed(terrain: u8, feature: u8, movement: u8) -> bool {
    terrain & feature & movement != 0
}

/// Sight passes when the viewer is not blind and terrain, feature and viewer
/// share a capability.
pub open spec fn sight_allowed(terrain: u8, feature: u8, vision: u8) -> bool {
    vision & BLIND == 0 && terrain & feature & vision != 0
}

impl GameMap {
    /// Every layer covers the map's area.
    pub open spec fn wf(&self) -> bool {
        &&& self.terrain_types.wf()
        &&& self.terrain_types.size == self.size
        &&& self.feature_types.wf()
        &&& self.feature_types.size == self.size
        &&& self.actors.wf()
        &&& self.actors.size == self.size
        &&& self.pathmap.wf()
        &&& self.pathmap.size == self.size
    }

    /// Movement mask of the terrain at `p`: nothing outside the map.
    pub open spec fn terrain_movement(&self, p: Coord) -> u8 {
        if self.terrain_types.size.holds(p) {
            self.terrain_types.cell(p).allowed_movement
        } else {
            0
        }
    }

    /// Movement mask of the feature at `p`: no restriction without one.
    pub open spec fn feature_movement(&self, p: Coord) -> u8 {
        if self.feature_types.size.holds(p) && self.feature_types.cell(p) is Some {
            self.feature_types.cell(p)->0.allowed_movement
        } else {
            0xff
        }
    }

    /// Vision mask that sees through the terrain at `p`: nothing outside the map.
    pub open spec fn terrain_sight(&self, p: Coord) -> u8 {
        if self.terrain_types.size.holds(p) {
            self.terrain_types.cell(p).vision_penetrates
        } else {
            0
        }
    }

    /// Vision mask that sees through the feature at `p`: everything without one.
    pub open spec fn feature_sight(&self, p: Coord) -> u8 {
        if self.feature_types.size.holds(p) && self.feature_types.cell(p) is Some {
            self.feature_types.cell(p)->0.vision_penetrates
        } else {
            0xff
        }
    }

    /// Vision mask that sees the feature at `p`: nothing without one.
    pub open spec fn feature_visibility(&self, p: Coord) -> u8 {
        if self.feature_types.size.holds(p) && self.feature_types.cell(p) is Some {
            self.feature_types.cell(p)->0.allowed_vision
        } else {
            0
        }
    }

    pub open spec fn movable(&self, p: Coord, movement: u8) -> bool {
        movement_allowed(self.terrain_movement(p), self.feature_movement(p), movement)
    }

    pub open spec fn visible_through(&self, p: Coord, vision: u8) -> bool {
        sight_allowed(self.terrain_sight(p), self.feature_sight(p), vision)
    }

    /// A path may enter `p`: inside the map, not marked in the obstruction
    /// map, and crossable with the movement mask.
    pub open spec fn enterable(&self, p: Coord, movement: u8) -> bool {
        self.size.holds(p) && !self.pathmap.cell(p) && self.movable(p, movement)
    }

    /// Traversal cost of `p`: the terrain's multiplier where movement is
    /// allowed, else 0.
    pub open spec fn cost_at(&self, p: Coord, movement: u8) -> u32 {
        if self.movable(p, movement) {
            self.terrain_types.cell(p).movement_cost
        } else {
            0
        }
    }

    /// The actor standing at `p`, if any.
    pub open spec fn actor_at(&self, p: Coord) -> Option<EntityId> {
        if self.actors.size.holds(p) {
            self.actors.cell(p)
        } else {
            None
        }
    }

    /// Whether every layer covers the map's area.
    pub fn is_wf(&self) -> (r: bool)
        ensures
            r == self.wf(),
    {
        self.terrain_types.is_wf() && self.terrain_types.size == self.size
            && self.feature_types.is_wf() && self.feature_types.size == self.size
            && self.actors.is_wf() && self.actors.size == self.size && self.pathmap.is_wf()
            && self.pathmap.size == self.size
    }

    /// A map over the generated terrain, with no features, actors or
    /// obstructions.
    pub fn new(terrain_types: Grid<TerrainType>, data: MapPassThroughData) -> (r: GameMap)
        requires
            terrain_types.wf(),
            BitGrid::fits(terrain_types.size),
        ensures
            r.wf(),
            r.size == terrain_types.size,
            r.terrain_types == terrain_types,
            forall|p: Coord| r.size.holds(p) ==> r.feature_types.cell(p) is None,
            forall|p: Coord| r.size.holds(p) ==> r.actors.cell(p) is None,
            forall|p: Coord| r.size.holds(p) ==> !r.pathmap.cell(p),
            r.world_position == data.world_position,
            r.update_all,
            r.update_tiles@.len() == 0,
            r.explored_tiles@.len() == 0,
    {
        let size = terrain_types.size;
        let ghost g = terrain_types;
        let r = GameMap {
            size,
            world_position: data.world_position,
            update_all: true,
            update_tiles: Vec::new(),
            actors: Grid::new_copy(size, None),
            terrain_tileset_id: data.terrain_tileset_id,
            feature_tileset_id: data.feature_tileset_id,
            item_tileset_id: data.item_tileset_id,
            terrain_layer_entity: data.terrain_layer_entity,
            feature_layer_entity: data.feature_layer_entity,
            item_layer_entity: data.item_layer_entity,
            terrain_types,
            feature_types: Grid::new_copy(size, None),
            pathmap: BitGrid::new_default(size),
            explored_tiles: Vec::new(),
        };
        proof {
            assert forall|p: Coord| r.size.holds(p) implies r.feature_types.cell(p) is None
                && r.actors.cell(p) is None && !r.pathmap.cell(p) by {
                crate::geometry::lemma_index_point(size, p);
            }
        }
        r
    }

    /// Whether a mover with the movement mask may cross `p`: the terrain's and
    /// the feature's allowed movement and the mask share a flag.
    pub fn can_move_through(&self, p: Coord, movement: u8) -> (r: bool)
        requires
            self.wf(),
        ensures
            r == self.movable(p, movement),
    {
        let terrain: u8 = match self.terrain_types.get(p) {
            Some(t) => t.allowed_movement,
            None => 0,
        };
        let feature: u8 = match self.feature_types.get(p) {
            Some(Some(f)) => f.allowed_movement,
            _ => 0xff,
        };
        terrain & feature & movement != 0
    }

    /// Whether a viewer with the vision mask sees through `p`: never when
    /// blind, else when the terrain's and the feature's penetration and the
    /// mask share a flag.
    pub fn can_see_through(&self, p: Coord, vision: u8) -> (r: bool)
        requires
            self.wf(),
        ensures
            r == self.visible_through(p, vision),
            vision & BLIND != 0 ==> !r,
    {
        if vision & BLIND != 0 {
            return false;
        }
        let terrain: u8 = match self.terrain_types.get(p) {
            Some(t) => t.vision_penetrates,
            None => 0,
        };
        let feature: u8 = match self.feature_types.get(p) {
            Some(Some(f)) => f.vision_penetrates,
            _ => 0xff,
        };
        terrain & feature & vision != 0
    }

    /// Whether a viewer with the vision mask sees the feature at `p` itself.
    pub fn can_see_feature(&self, p: Coord, vision: u8) -> (r: bool)
        requires
            self.wf(),
        ensures
            r == (self.feature_visibility(p) & vision != 0),
    {
        let feature: u8 = match self.feature_types.get(p) {
            Some(Some(f)) => f.allowed_vision,
            _ => 0,
        };
        feature & vision != 0
    }

    /// Records that `p` needs redrawing, once.
    fn mark_updated(&mut self, p: Coord)
        ensures
            final(self).update_tiles@.contains(p),
            forall|q: Coord| #[trigger] final(self).update_tiles@.contains(q)
                <==> old(self).update_tiles@.contains(q) || q == p,
            final(self).size == old(self).size,
            final(self).terrain_types == old(self).terrain_types,
            final(self).feature_types == old(self).feature_types,
            final(self).actors == old(self).actors,
            final(self).pathmap == old(self).pathmap,
    {
        let n = self.update_tiles.len();
        let mut i: usize = 0;
        while i < n
            invariant
                n == self.update_tiles@.len(),
                i <= n,
                forall|k: int| 0 <= k < i ==> self.update_tiles@[k] != p,
            decreases n - i,
        {
            if self.update_tiles[i] == p {
                return;
            }
            i = i + 1;
        }
        self.update_tiles.push(p);
        proof {
            assert forall|q: Coord| #[trigger] self.update_tiles@.contains(q)
                <==> old(self).update_tiles@.contains(q) || q == p by {
                if old(self).update_tiles@.contains(q) {
                    let k = choose|k: int| 0 <= k < old(self).update_tiles@.len() && old(self).update_tiles@[k] == q;
                    assert(self.update_tiles@[k] == q);
                }
                if q == p {
                    assert(self.update_tiles@[n as int] == q);
                }
            }
        }
    }

    /// Sets the terrain at `p`, where `p` lies inside the map, and records `p`
    /// for redrawing.
    pub fn set_terrain_at(&mut self, p: Coord, terrain: TerrainType)
        requires
            old(self).wf(),
        ensures
            final(self).wf(),
            final(self).size == old(self).size,
            final(self).terrain_types.cells@ == old(self).terrain_types.written(p, terrain),
            final(self).feature_types == old(self).feature_types,
            final(self).actors == old(self).actors,
            final(self).pathmap == old(self).pathmap,
            forall|q: Coord| #[trigger] final(self).update_tiles@.contains(q)
                <==> old(self).update_tiles@.contains(q) || q == p,
    {
        self.terrain_types.set(p, terrain);
        self.mark_updated(p);
    }

    /// Sets the feature at `p`, where `p` lies inside the map, and records `p`
    /// for redrawing.
    pub fn set_feature_at(&mut self, p: Coord, feature: FeatureType)
        requires
            old(self).wf(),
        ensures
            final(self).wf(),
            final(self).size == old(self).size,
            final(self).feature_types.cells@ == old(self).feature_types.written(p, Some(feature)),
            final(self).terrain_types == old(self).terrain_types,
            final(self).actors == old(self).actors,
            final(self).pathmap == old(self).pathmap,
            forall|q: Coord| #[trigger] final(self).update_tiles@.contains(q)
                <==> old(self).update_tiles@.contains(q) || q == p,
    {
        self.feature_types.set(p, Some(feature));
        self.mark_updated(p);
    }

    /// Whether an actor stands at `p`.
    pub fn has_actor(&self, p: Coord) -> (r: bool)
        requires
            self.wf(),
        ensures
            r == self.actor_at(p) is Some,
    {
        match self.actors.get(p) {
            Some(Some(_)) => true,
            _ => false,
        }
    }

    /// Places `actor` at `p`; nothing happens outside the map.
    pub fn add_actor(&mut self, p: Coord, actor: EntityId)
        requires
            old(self).wf(),
        ensures
            final(self).wf(),
            final(self).size == old(self).size,
            final(self).actors.cells@ == old(self).actors.written(p, Some(actor)),
            final(self).terrain_types == old(self).terrain_types,
            final(self).feature_types == old(self).feature_types,
            final(self).pathmap == old(self).pathmap,
            final(self).update_tiles == old(self).update_tiles,
    {
        self.actors.set(p, Some(actor));
    }

    /// Clears the actor at `p`; nothing happens outside the map.
    pub fn remove_actor(&mut self, p: Coord)
        requires
            old(self).wf(),
        ensures
            final(self).wf(),
            final(self).size == old(self).size,
            final(self).actors.cells@ == old(self).actors.written(p, None),
            final(self).terrain_types == old(self).terrain_types,
            final(self).feature_types == old(self).feature_types,
            final(self).pathmap == old(self).pathmap,
            final(self).update_tiles == old(self).update_tiles,
    {
        self.actors.set(p, None);
    }

    /// The actor standing at `p`, if any.
    pub fn get_actor(&self, p: Coord) -> (r: Option<EntityId>)
        requires
            self.wf(),
        ensures
            r == self.actor_at(p),
    {
        match self.actors.get(p) {
            Some(e) => *e,
            None => None,
        }
    }

    /// The first cell, in row-major order, where `actor` stands.
    pub fn get_actor_position(&self, actor: EntityId) -> (r: Option<Coord>)
        requires
            self.wf(),
        ensures
            r is None ==> forall|i: int|
                0 <= i < self.actors.cells@.len() ==> self.actors.cells@[i] != Some(actor),
            r is Some ==> {
                &&& self.size.holds(r->0)
                &&& self.actors.cell(r->0) == Some(actor)
                &&& forall|i: int|
                    0 <= i < self.size.index_of(r->0) ==> self.actors.cells@[i] != Some(actor)
            },
    {
        let n = self.actors.len();
        let mut i: usize = 0;
        while i < n
            invariant
                self.wf(),
                n == self.actors.cells@.len(),
                i <= n,
                forall|k: int| 0 <= k < i ==> self.actors.cells@[k] != Some(actor),
            decreases n - i,
        {
            let here = match self.actors.cells[i] {
                Some(e) => e.id == actor.id,
                None => false,
            };
            if here {
                return Some(self.actors.index_to_pt_unchecked(i));
            }
            i = i + 1;
        }
        None
    }

    /// Moves the actor at `from` to `to`, unless an actor already stands at
    /// `to` or none stands at `from`.
    pub fn move_actor(&mut self, from: Coord, to: Coord)
        requires
            old(self).wf(),
        ensures
            final(self).wf(),
            final(self).size == old(self).size,
            final(self).terrain_types == old(self).terrain_types,
            final(self).feature_types == old(self).feature_types,
            final(self).pathmap == old(self).pathmap,
            final(self).actors.cells@ == (if old(self).actor_at(to) is Some || old(self).actor_at(from) is None {
                old(self).actors.cells@
            } else {
                let cleared = old(self).actors.written(from, None);
                if old(self).size.holds(to) {
                    cleared.update(old(self).size.index_of(to), old(self).actor_at(from))
                } else {
                    cleared
                }
            }),
            final(self).update_tiles == old(self).update_tiles,
    {
        if self.has_actor(to) {
            return;
        }
        if let Some(actor) = self.get_actor(from) {
            self.remove_actor(from);
            self.add_actor(to, actor);
        }
    }

    /// Whether `p` blocks sight for the vision mask: outside the map, or
    /// where the viewer cannot see through it.
    pub fn is_opaque(&self, p: Coord, vision: u8) -> (r: bool)
        requires
            self.wf(),
        ensures
            r == (!self.size.holds(p) || !self.visible_through(p, vision)),
    {
        if self.size.contains(p) {
            !self.can_see_through(p, vision)
        } else {
            true
        }
    }

    /// Traversal cost of `p`: the terrain's multiplier where movement is
    /// allowed, else 0.
    pub fn cost(&self, p: Coord, movement: u8) -> (r: u32)
        requires
            self.wf(),
        ensures
            r == self.cost_at(p, movement),
    {
        if self.can_move_through(p, movement) {
            proof {
                lemma_movable_in_bounds(self, p, movement);
            }
            match self.terrain_types.get(p) {
                Some(t) => t.movement_cost,
                None => 0,
            }
        } else {
            0
        }
    }

    /// Taxicab distance between two cells.
    pub fn distance(&self, a: Coord, b: Coord) -> (r: u64)
        ensures
            r == abs_diff(a.x as int, b.x as int) + abs_diff(a.y as int, b.y as int),
    {
        let dx: i64 = a.x as i64 - b.x as i64;
        let dy: i64 = a.y as i64 - b.y as i64;
        let ax: u64 = if dx < 0 { (-dx) as u64 } else { dx as u64 };
        let ay: u64 = if dy < 0 { (-dy) as u64 } else { dy as u64 };
        ax + ay
    }

    /// The cells around `p` that a path may enter, each with its cost, in
    /// direction order.
    pub fn successors(&self, p: Coord, movement: u8) -> (r: Vec<(Coord, u32)>)
        requires
            self.wf(),
        ensures
            r@.len() <= 8,
            forall|i: int|
                0 <= i < r@.len() ==> {
                    &&& adjacent(p, #[trigger] r@[i].0)
                    &&& self.enterable(r@[i].0, movement)
                    &&& r@[i].1 == self.cost_at(r@[i].0, movement)
                },
            forall|q: Coord|
                adjacent(p, q) && self.enterable(q, movement) ==> exists|i: int|
                    0 <= i < r@.len() && #[trigger] r@[i].0 == q,
            forall|i: int, j: int| 0 <= i < j < r@.len() ==> (#[trigger] r@[i]).0 != (#[trigger] r@[j]).0,
    {
        let mut r: Vec<(Coord, u32)> = Vec::new();
        let mut k: usize = 0;
        while k < 8
            invariant
                self.wf(),
                k <= 8,
                r@.len() <= k,
                forall|i: int|
                    0 <= i < r@.len() ==> {
                        &&& adjacent(p, #[trigger] r@[i].0)
                        &&& self.enterable(r@[i].0, movement)
                        &&& r@[i].1 == self.cost_at(r@[i].0, movement)
                    },
                forall|j: int|
                    0 <= j < k && (#[trigger] spec_step(p, j)) is Some && self.enterable(
                        spec_step(p, j)->0,
                        movement,
                    ) ==> listed(r@, spec_step(p, j)->0),
                forall|i: int|
                    0 <= i < r@.len() ==> exists|d: int|
                        0 <= d < k && spec_step(p, d) == Some((#[trigger] r@[i]).0),
                forall|i: int, j: int|
                    0 <= i < j < r@.len() ==> (#[trigger] r@[i]).0 != (#[trigger] r@[j]).0,
            decreases 8 - k,
        {
            let (next, _ordinal) = step(p, k);
            let ghost before = r@;
            if let Some(q) = next {
                if self.pathmap.in_bounds(q) && !self.pathmap.get_unchecked(q)
                    && self.can_move_through(q, movement) {
                    let c = self.cost(q, movement);
                    r.push((q, c));
                    proof {
                        assert(r@[r@.len() - 1].0 == q);
                        assert forall|i: int| 0 <= i < before.len() implies #[trigger] r@[i]
                            != r@[r@.len() - 1] by {
                            assert(r@[i] == before[i]);
                            let d = choose|d: int| 0 <= d < k && spec_step(p, d) == Some(before[i].0);
                            lemma_steps_differ(p, d, k as int);
                        }
                        assert forall|i: int| 0 <= i < r@.len() implies exists|d: int|
                            0 <= d < k + 1 && spec_step(p, d) == Some((#[trigger] r@[i]).0) by {
                            if i < before.len() {
                                assert(r@[i] == before[i]);
                                let d = choose|d: int| 0 <= d < k && spec_step(p, d) == Some(before[i].0);
                            } else {
                                assert(spec_step(p, k as int) == Some(r@[i].0));
                            }
                        }
                        assert forall|a: int, b: int| 0 <= a < b < r@.len() implies (#[trigger] r@[a]).0
                            != (#[trigger] r@[b]).0 by {
                            if b < before.len() {
                                assert(r@[a] == before[a] && r@[b] == before[b]);
                            }
                        }
                        assert forall|q2: Coord| listed(before, q2) implies listed(r@, q2) by {
                            let i = choose|i: int| 0 <= i < before.len() && before[i].0 == q2;
                            assert(r@[i] == before[i]);
                        }
                    }
                }
            }
            k = k + 1;
        }
        proof {
            assert forall|q: Coord| adjacent(p, q) && self.enterable(q, movement) implies exists|i: int|
                0 <= i < r@.len() && #[trigger] r@[i].0 == q by {
                let j = crate::geometry::lemma_adjacent_direction(p, q);
                assert(spec_step(p, j) is Some);
                assert(listed(r@, q));
            }
        }
        r
    }
}

/// Whether a cell appears in a list of cells with costs.
pub open spec fn listed(s: Seq<(Coord, u32)>, q: Coord) -> bool {
    exists|i: int| 0 <= i < s.len() && s[i].0 == q
}

/// Movement is only ever allowed inside the map.
pub proof fn lemma_movable_in_bounds(m: &GameMap, p: Coord, movement: u8)
    requires
        m.movable(p, movement),
    ensures
        m.terrain_types.size.holds(p),
{
    if !m.terrain_types.size.holds(p) {
        let f = m.feature_movement(p);
        assert(0u8 & f & movement == 0) by (bit_vector);
    }
}


impl PathProvider for GameMap {
    open spec fn area(&self) -> Size {
        self.size
    }

    open spec fn walkable(&self, p: Coord, movement: u8) -> bool {
        self.wf() && self.enterable(p, movement)
    }

    open spec fn step_cost(&self, p: Coord, movement: u8) -> u32 {
        if self.wf() {
            self.cost_at(p, movement)
        } else {
            0
        }
    }

    fn bounds(&self) -> (r: Size) {
        self.size
    }

    fn is_walkable(&self, p: Coord, movement: u8) -> (r: bool) {
        if !self.is_wf() {
            return false;
        }
        self.pathmap.in_bounds(p) && !self.pathmap.get_unchecked(p) && self.can_move_through(p, movement)
    }

    fn cost(&self, p: Coord, movement: u8) -> (r: u32) {
        if !self.is_wf() {
            return 0;
        }
        GameMap::cost(self, p, movement)
    }
}

impl FovProvider for GameMap {
    open spec fn opaque(&self, p: Coord, vision: u8) -> bool {
        !self.wf() || !self.size.holds(p) || !self.visible_through(p, vision)
    }

    fn is_opaque(&self, p: Coord, vision: u8) -> (r: bool) {
        if !self.is_wf() {
            return true;
        }
        GameMap::is_opaque(self, p, vision)
    }
}

impl PathMap for GameMap {
    fn successors(&self, p: Coord, movement: u8) -> (r: Vec<(Coord, u32)>)
        ensures
            self.wf() ==> forall|i: int|
                0 <= i < r@.len() ==> self.enterable(#[trigger] r@[i].0, movement) && r@[i].1
                    == self.cost_at(r@[i].0, movement),
            self.wf() ==> forall|q: Coord|
                adjacent(p, q) && self.enterable(q, movement) ==> listed(r@, q),
    {
        if !self.is_wf() {
            return Vec::new();
        }
        GameMap::successors(self, p, movement)
    }

    fn cost(&self, p: Coord, movement: u8) -> (r: u32)
        ensures
            r == (if self.wf() { self.cost_at(p, movement) } else { 0 }),
    {
        if !self.is_wf() {
            return 0;
        }
        GameMap::cost(self, p, movement)
    }

    fn distance(&self, a: Coord, b: Coord) -> (r: u64) {
        GameMap::distance(self, a, b)
    }
}

/// Crossing a cell is allowed exactly when the terrain's movement mask, the
/// feature's movement mask and the mover's mask share a flag; a cell off the
/// map counts as terrain with no flags, and a cell without a feature as a
/// feature with every flag.
pub proof fn lemma_movement_legality(m: &GameMap, p: Coord, movement: u8)
    requires
        m.wf(),
    ensures
        m.size.holds(p) && m.feature_types.cell(p) is Some ==> m.movable(p, movement) == (
        m.terrain_types.cell(p).allowed_movement & m.feature_types.cell(p)->0.allowed_movement
            & movement != 0),
        m.size.holds(p) && m.feature_types.cell(p) is None ==> m.movable(p, movement) == (
        m.terrain_types.cell(p).allowed_movement & 0xff & movement != 0),
        !m.size.holds(p) ==> m.movable(p, movement) == (0u8 & m.feature_movement(p) & movement
            != 0),
        !m.size.holds(p) ==> !m.movable(p, movement),
{
    if !m.size.holds(p) {
        let f = m.feature_movement(p);
        assert(0u8 & f & movement == 0) by (bit_vector);
    }
}

/// A viewer whose vision mask holds the blind flag sees through nothing: every
/// cell is opaque to it.
pub proof fn lemma_blind_sees_nothing(m: &GameMap, p: Coord, vision: u8)
    requires
        vision & BLIND != 0,
    ensures
        m.opaque(p, vision),
        !m.visible_through(p, vision),
{
}

} // verus!
