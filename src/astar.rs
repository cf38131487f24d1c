//! A* search over a bounded grid: scored search nodes, the sorted open list,
//! and the search loop with path reconstruction.

use crate::geometry::{
    abs_diff, adjacent, lemma_adjacent_direction, lemma_index_injective, spec_step, step, Coord, Size,
};
use vstd::set_lib::{lemma_int_range, lemma_len_subset, set_int_range};
use vstd::seq_lib::*;
use crate::provider::PathProvider;
use std::cmp::Ordering;
use vstd::prelude::*;

verus! {

/// Cost of a horizontal or vertical step, scaled by ten.
pub const CARDINAL_COST: u64 = 10;

/// Cost of a diagonal step, scaled by ten (the square root of two, rounded
/// to one decimal).
pub const ORDINAL_COST: u64 = 14;

/// Scaled diagonal distance: the cost of the cheapest eight-direction walk
/// between two cells when every step has a multiplier of one.
pub open spec fn diagonal_distance(a: Coord, b: Coord) -> int {
    let dx = abs_diff(a.x as int, b.x as int);
    let dy = abs_diff(a.y as int, b.y as int);
    if dx >= dy {
        10 * dx + 4 * dy
    } else {
        10 * dy + 4 * dx
    }
}

/// The scaled cost of one step into a cell with the given multiplier.
pub open spec fn step_price(is_diagonal: bool, multiplier: u32) -> int {
    (if is_diagonal { 14int } else { 10int }) * multiplier
}

/// Addition that stops at `u64::MAX`.
pub open spec fn sat_add(a: int, b: int) -> int {
    if a + b > u64::MAX {
        u64::MAX as int
    } else {
        a + b
    }
}

/// Scaled diagonal distance between two cells.
pub fn diagonal_cost(a: Coord, b: Coord) -> (r: u64)
    ensures
        r == diagonal_distance(a, b),
{
    let dx: i64 = a.x as i64 - b.x as i64;
    let dy: i64 = a.y as i64 - b.y as i64;
    let ax: u64 = if dx < 0 { (-dx) as u64 } else { dx as u64 };
    let ay: u64 = if dy < 0 { (-dy) as u64 } else { dy as u64 };
    assert(ax <= 0xffff_ffff && ay <= 0xffff_ffff);
    if ax >= ay {
        10 * ax + 4 * ay
    } else {
        10 * ay + 4 * ax
    }
}

/// The state of one cell during a search.
#[derive(Clone, Copy, Debug)]
pub struct AStarNode {
    pub is_walkable: bool,
    pub position: Coord,
    /// Traversal cost multiplier of the cell.
    pub cost_multiplier: u32,
    /// The neighbor this cell was reached from; none at the origin.
    pub from_node: Option<Coord>,
    pub cost_from_start: u64,
    /// Scaled diagonal distance to the destination.
    pub cost_from_end: u64,
    pub cost_total: u64,
}

/// Open-list order of two nodes: by total cost, then by distance to the goal.
pub open spec fn key_cmp(a: AStarNode, b: AStarNode) -> Ordering {
    if a.cost_total > b.cost_total {
        Ordering::Greater
    } else if a.cost_total < b.cost_total {
        Ordering::Less
    } else if a.cost_from_end < b.cost_from_end {
        Ordering::Less
    } else if a.cost_from_end > b.cost_from_end {
        Ordering::Greater
    } else {
        Ordering::Equal
    }
}

/// Two nodes are equal when they stand at the same cell.
impl PartialEq for AStarNode {
    fn eq(&self, other: &AStarNode) -> (r: bool) {
        self.position == other.position
    }
}

impl vstd::std_specs::cmp::PartialEqSpecImpl for AStarNode {
    open spec fn obeys_eq_spec() -> bool {
        true
    }

    open spec fn eq_spec(&self, other: &AStarNode) -> bool {
        self.position == other.position
    }
}

/// Nodes are ordered as the open list keeps them.
impl PartialOrd for AStarNode {
    fn partial_cmp(&self, other: &AStarNode) -> (r: Option<Ordering>) {
        if self.cost_total > other.cost_total {
            Some(Ordering::Greater)
        } else if self.cost_total < other.cost_total {
            Some(Ordering::Less)
        } else {
            if self.cost_from_end < other.cost_from_end {
                Some(Ordering::Less)
            } else if self.cost_from_end > other.cost_from_end {
                Some(Ordering::Greater)
            } else {
                Some(Ordering::Equal)
            }
        }
    }
}

impl vstd::std_specs::cmp::PartialOrdSpecImpl for AStarNode {
    open spec fn obeys_partial_cmp_spec() -> bool {
        true
    }

    open spec fn partial_cmp_spec(&self, other: &AStarNode) -> Option<Ordering> {
        Some(key_cmp(*self, *other))
    }
}

/// Open-list order: lower total first, then the one closer to the goal.
pub open spec fn key_le(a: AStarNode, b: AStarNode) -> bool {
    a.cost_total < b.cost_total || (a.cost_total == b.cost_total && a.cost_from_end
        <= b.cost_from_end)
}

/// The list is in open-list order.
pub open spec fn sorted(s: Seq<AStarNode>) -> bool {
    forall|i: int, j: int| 0 <= i < j < s.len() ==> key_le(#[trigger] s[i], #[trigger] s[j])
}

/// Some node of the list stands at `p`.
pub open spec fn pos_in(s: Seq<AStarNode>, p: Coord) -> bool {
    exists|i: int| 0 <= i < s.len() && #[trigger] s[i].position == p
}

/// No two nodes of the list stand at the same cell.
pub open spec fn distinct(s: Seq<AStarNode>) -> bool {
    forall|i: int, j: int|
        0 <= i < j < s.len() ==> (#[trigger] s[i]).position != (#[trigger] s[j]).position
}

impl AStarNode {
    /// The node of the origin: nothing spent yet, the whole distance ahead.
    pub fn new(origin: Coord, destination: Coord) -> (r: AStarNode)
        ensures
            r.is_walkable,
            r.position == origin,
            r.cost_multiplier == 0,
            r.from_node is None,
            r.cost_from_start == 0,
            r.cost_from_end == diagonal_distance(origin, destination),
            r.cost_total == r.cost_from_end,
    {
        let from_end = diagonal_cost(origin, destination);
        AStarNode {
            is_walkable: true,
            position: origin,
            cost_multiplier: 0,
            from_node: None,
            cost_from_start: 0,
            cost_from_end: from_end,
            cost_total: from_end,
        }
    }

    /// A node for `position`, a neighbor of this node, scored through this
    /// node when the provider says the cell is walkable.
    pub fn create_neighbor<P: PathProvider>(
        &self,
        position: Coord,
        is_diagonal: bool,
        destination: Coord,
        provider: &P,
        movement_type: u8,
    ) -> (r: AStarNode)
        ensures
            r.position == position,
            r.is_walkable == provider.walkable(position, movement_type),
            r.cost_multiplier == provider.step_cost(position, movement_type),
            r.cost_from_end == diagonal_distance(position, destination),
            r.is_walkable ==> {
                &&& r.from_node == Some(self.position)
                &&& r.cost_from_start == sat_add(
                    self.cost_from_start as int,
                    step_price(is_diagonal, r.cost_multiplier),
                )
                &&& r.cost_total == sat_add(r.cost_from_start as int, r.cost_from_end as int)
            },
            !r.is_walkable ==> r.from_node is None && r.cost_from_start == u64::MAX
                && r.cost_total == u64::MAX,
    {
        let cost_from_end = diagonal_cost(position, destination);
        let mut s = AStarNode {
            is_walkable: provider.is_walkable(position, movement_type),
            position,
            cost_multiplier: provider.cost(position, movement_type),
            from_node: None,
            cost_from_start: u64::MAX,
            cost_from_end,
            cost_total: u64::MAX,
        };
        if s.is_walkable {
            let new_cost_from_start = self.step_from(is_diagonal, s.cost_multiplier);
            s.update_node(self, new_cost_from_start);
        }
        s
    }

    /// Cost from the start of a step from this node into a cell with the
    /// given multiplier.
    fn step_from(&self, is_diagonal: bool, multiplier: u32) -> (r: u64)
        ensures
            r == sat_add(self.cost_from_start as int, step_price(is_diagonal, multiplier)),
    {
        let base: u64 = if is_diagonal { ORDINAL_COST } else { CARDINAL_COST };
        proof {
            assert(base * multiplier <= 14 * 0xffff_ffff) by (nonlinear_arith)
                requires
                    base <= 14,
                    multiplier <= 0xffff_ffff,
            ;
        }
        self.cost_from_start.saturating_add(base * multiplier as u64)
    }

    pub fn position(&self) -> (r: Coord)
        ensures
            r == self.position,
    {
        self.position
    }

    pub fn from_node(&self) -> (r: Option<Coord>)
        ensures
            r == self.from_node,
    {
        self.from_node
    }

    /// Recomputes the total of a walkable node.
    fn update_total(&mut self)
        ensures
            final(self).cost_total == (if old(self).is_walkable {
                sat_add(old(self).cost_from_start as int, old(self).cost_from_end as int) as u64
            } else {
                old(self).cost_total
            }),
            final(self).is_walkable == old(self).is_walkable,
            final(self).position == old(self).position,
            final(self).cost_multiplier == old(self).cost_multiplier,
            final(self).from_node == old(self).from_node,
            final(self).cost_from_start == old(self).cost_from_start,
            final(self).cost_from_end == old(self).cost_from_end,
    {
        if self.is_walkable {
            self.cost_total = self.cost_from_start.saturating_add(self.cost_from_end);
        }
    }

    /// Records that this node is reached through `other` at the given cost;
    /// the caller has checked that the node is walkable and the cost lower.
    fn update_node(&mut self, other: &AStarNode, new_cost_from_start: u64)
        ensures
            final(self).cost_from_start == new_cost_from_start,
            final(self).from_node == Some(other.position),
            final(self).cost_total == (if old(self).is_walkable {
                sat_add(new_cost_from_start as int, old(self).cost_from_end as int) as u64
            } else {
                old(self).cost_total
            }),
            final(self).is_walkable == old(self).is_walkable,
            final(self).position == old(self).position,
            final(self).cost_multiplier == old(self).cost_multiplier,
            final(self).cost_from_end == old(self).cost_from_end,
    {
        self.cost_from_start = new_cost_from_start;
        self.from_node = Some(other.position);
        self.update_total();
    }

    /// Inserts a node before the first node that does not rank before it.
    pub fn insert_ordered(list: &mut Vec<AStarNode>, node_to_insert: AStarNode)
        requires
            sorted(old(list)@),
        ensures
            sorted(final(list)@),
            exists|i: int|
                0 <= i <= old(list)@.len() && final(list)@ == old(list)@.insert(
                    i,
                    node_to_insert,
                ),
    {
        let n = list.len();
        let mut i: usize = 0;
        while i < n && node_to_insert > list[i]
            invariant
                n == list@.len(),
                i <= n,
                forall|k: int| 0 <= k < i ==> !key_le(node_to_insert, #[trigger] list@[k]),
            decreases n - i,
        {
            i = i + 1;
        }
        let ghost before = list@;
        list.insert(i, node_to_insert);
        proof {
            let after = list@;
            assert forall|a: int, b: int| 0 <= a < b < after.len() implies key_le(
                #[trigger] after[a],
                #[trigger] after[b],
            ) by {
                if b < i {
                    assert(after[a] == before[a] && after[b] == before[b]);
                } else if b == i {
                    assert(!key_le(node_to_insert, before[a]));
                } else if a == i {
                    assert(after[b] == before[b - 1]);
                    if b - 1 > i {
                        assert(key_le(before[i as int], before[b - 1]));
                    }
                } else if a < i {
                    assert(!key_le(node_to_insert, before[a]));
                    assert(after[b] == before[b - 1]);
                    if i < n {
                        assert(key_le(node_to_insert, before[i as int]));
                        if b - 1 > i {
                            assert(key_le(before[i as int], before[b - 1]));
                        }
                    }
                } else {
                    assert(after[a] == before[a - 1] && after[b] == before[b - 1]);
                }
            }
        }
    }

    /// Handles the neighbor at `position` of this node, which has just been
    /// closed: a closed neighbor is left alone; an open one is re-scored
    /// through this node when that is strictly cheaper, and moved to its new
    /// place; a new one is scored and, when walkable, inserted in order.
    pub fn update_at_position<P: PathProvider>(
        &self,
        position: Coord,
        is_diagonal: bool,
        destination: Coord,
        provider: &P,
        movement_type: u8,
        open_nodes: &mut Vec<AStarNode>,
        closed_nodes: &Vec<AStarNode>,
    )
        requires
            adjacent(self.position, position),
            is_diagonal == is_diag(self.position, position),
            sorted(old(open_nodes)@),
            distinct(old(open_nodes)@),
            forall|k: int|
                0 <= k < old(open_nodes)@.len() ==> reached(
                    provider,
                    movement_type,
                    #[trigger] old(open_nodes)@[k],
                ) && scored(old(open_nodes)@[k], destination),
        ensures
            pos_in(closed_nodes@, position) ==> final(open_nodes)@ == old(open_nodes)@,
            !pos_in(closed_nodes@, position) && !pos_in(old(open_nodes)@, position)
                && !provider.walkable(position, movement_type) ==> final(open_nodes)@ == old(
                open_nodes,
            )@,
            !pos_in(closed_nodes@, position) && !pos_in(old(open_nodes)@, position)
                && provider.walkable(position, movement_type) ==> exists|i: int|
                0 <= i <= old(open_nodes)@.len() && final(open_nodes)@ == old(open_nodes)@.insert(
                    i,
                    fresh_node(provider, movement_type, *self, position, is_diagonal, destination),
                ),
            forall|j: int|
                0 <= j < old(open_nodes)@.len() && (#[trigger] old(open_nodes)@[j]).position
                    == position && !pos_in(closed_nodes@, position) ==> {
                    let n = old(open_nodes)@[j];
                    let g = sat_add(
                        self.cost_from_start as int,
                        step_price(is_diagonal, n.cost_multiplier),
                    );
                    if n.is_walkable && n.cost_from_start > g {
                        exists|i: int|
                            0 <= i < old(open_nodes)@.len() && final(open_nodes)@ == old(
                                open_nodes,
                            )@.remove(j).insert(i, rescored(n, self.position, g))
                    } else {
                        final(open_nodes)@ == old(open_nodes)@
                    }
                },
            forall|k: int|
                0 <= k < final(open_nodes)@.len() ==> scored(
                    #[trigger] final(open_nodes)@[k],
                    destination,
                ),
            forall|k: int|
                0 <= k < final(open_nodes)@.len() ==> old(open_nodes)@.contains(
                    #[trigger] final(open_nodes)@[k],
                ) || parent_ok(*self, final(open_nodes)@[k]),
            no_costlier(old(open_nodes)@, final(open_nodes)@),
            provider.walkable(position, movement_type) && !pos_in(closed_nodes@, position)
                ==> exists|k: int|
                0 <= k < final(open_nodes)@.len() && (#[trigger] final(open_nodes)@[k]).position
                    == position && final(open_nodes)@[k].cost_from_start <= sat_add(
                    self.cost_from_start as int,
                    step_price(is_diagonal, provider.step_cost(position, movement_type)),
                ),
            sorted(final(open_nodes)@),
            distinct(final(open_nodes)@),
            forall|p: Coord|
                pos_in(final(open_nodes)@, p) <==> (pos_in(old(open_nodes)@, p) || (p == position
                    && !pos_in(closed_nodes@, position) && provider.walkable(
                    position,
                    movement_type,
                ))),
            forall|k: int|
                0 <= k < final(open_nodes)@.len() ==> reached(
                    provider,
                    movement_type,
                    #[trigger] final(open_nodes)@[k],
                ),
            forall|k: int|
                0 <= k < final(open_nodes)@.len() ==> old(open_nodes)@.contains(
                    #[trigger] final(open_nodes)@[k],
                ) || (final(open_nodes)@[k].position == position && final(open_nodes)@[k].from_node
                    == Some(self.position) && !pos_in(closed_nodes@, position)),
    {
        let ghost start = open_nodes@;
        if let Some(_neighbor_index) = Self::find_node_with_position(closed_nodes, position) {
            // a closed neighbor needs nothing
        } else if let Some(neighbor_index) = Self::find_node_with_position(open_nodes, position) {
            let neighbor = open_nodes[neighbor_index];
            let new_cost_from_start = self.step_from(is_diagonal, neighbor.cost_multiplier);
            if neighbor.is_walkable && neighbor.cost_from_start > new_cost_from_start {
                self.move_relaxed(
                    open_nodes,
                    neighbor_index,
                    new_cost_from_start,
                    provider,
                    movement_type,
                    destination,
                );
                proof {
                    assert(pos_in(start, position));
                }
            }
            proof {
                assert forall|j: int|
                    0 <= j < start.len() && (#[trigger] start[j]).position == position implies j
                    == neighbor_index by {
                    if j != neighbor_index as int {
                        assert(distinct(start));
                    }
                }
            }
        } else {
            let new_neighbor = self.create_neighbor(
                position,
                is_diagonal,
                destination,
                provider,
                movement_type,
            );
            if new_neighbor.is_walkable {
                Self::insert_ordered(open_nodes, new_neighbor);
                proof {
                    assert(new_neighbor == fresh_node(
                        provider,
                        movement_type,
                        *self,
                        position,
                        is_diagonal,
                        destination,
                    ));
                    let i = choose|i: int|
                        0 <= i <= start.len() && open_nodes@ == start.insert(i, new_neighbor);
                    lemma_insert_nodes(start, i, new_neighbor);
                    assert forall|j: int| 0 <= j < start.len() implies has_cheaper(
                        open_nodes@,
                        #[trigger] start[j],
                    ) by {
                        let k = if j < i { j } else { j + 1 };
                        assert(open_nodes@[k] == start[j]);
                    }
                    assert forall|k: int| 0 <= k < open_nodes@.len() implies reached(
                        provider,
                        movement_type,
                        #[trigger] open_nodes@[k],
                    ) by {
                        if open_nodes@[k] != new_neighbor {
                            let j = choose|j: int| 0 <= j < start.len() && start[j] == open_nodes@[k];
                            assert(reached(provider, movement_type, start[j]));
                        }
                    }
                }
            }
        }
    }

    /// Re-scores the open node at `neighbor_index` through this node at the
    /// given lower cost, and moves it to its new place in order.
    fn move_relaxed<P: PathProvider>(
        &self,
        open_nodes: &mut Vec<AStarNode>,
        neighbor_index: usize,
        new_cost_from_start: u64,
        provider: &P,
        movement_type: u8,
        destination: Coord,
    )
        requires
            neighbor_index < old(open_nodes)@.len(),
            sorted(old(open_nodes)@),
            distinct(old(open_nodes)@),
            forall|k: int|
                0 <= k < old(open_nodes)@.len() ==> reached(
                    provider,
                    movement_type,
                    #[trigger] old(open_nodes)@[k],
                ) && scored(old(open_nodes)@[k], destination),
            adjacent(self.position, old(open_nodes)@[neighbor_index as int].position),
            new_cost_from_start < old(open_nodes)@[neighbor_index as int].cost_from_start,
            new_cost_from_start == sat_add(
                self.cost_from_start as int,
                step_price(
                    is_diag(self.position, old(open_nodes)@[neighbor_index as int].position),
                    old(open_nodes)@[neighbor_index as int].cost_multiplier,
                ),
            ),
        ensures
            sorted(final(open_nodes)@),
            distinct(final(open_nodes)@),
            forall|p: Coord| pos_in(final(open_nodes)@, p) <==> pos_in(old(open_nodes)@, p),
            forall|k: int|
                0 <= k < final(open_nodes)@.len() ==> reached(
                    provider,
                    movement_type,
                    #[trigger] final(open_nodes)@[k],
                ) && scored(final(open_nodes)@[k], destination),
            forall|k: int|
                0 <= k < final(open_nodes)@.len() ==> old(open_nodes)@.contains(
                    #[trigger] final(open_nodes)@[k],
                ) || (parent_ok(*self, final(open_nodes)@[k]) && final(open_nodes)@[k].position
                    == old(open_nodes)@[neighbor_index as int].position),
            no_costlier(old(open_nodes)@, final(open_nodes)@),
            exists|k: int|
                0 <= k < final(open_nodes)@.len() && (#[trigger] final(open_nodes)@[k]).position
                    == old(open_nodes)@[neighbor_index as int].position
                    && final(open_nodes)@[k].cost_from_start == new_cost_from_start,
            exists|i: int|
                0 <= i < old(open_nodes)@.len() && final(open_nodes)@ == old(
                    open_nodes,
                )@.remove(neighbor_index as int).insert(
                    i,
                    rescored(
                        old(open_nodes)@[neighbor_index as int],
                        self.position,
                        new_cost_from_start as int,
                    ),
                ),
    {
        let ghost start = open_nodes@;
        let mut moved = open_nodes.remove(neighbor_index);
        proof {
            lemma_remove_node(start, neighbor_index as int);
        }
        let ghost middle = open_nodes@;
        moved.update_node(self, new_cost_from_start);
        Self::insert_ordered(open_nodes, moved);
        proof {
            let i = choose|i: int| 0 <= i <= middle.len() && open_nodes@ == middle.insert(i, moved);
            lemma_insert_nodes(middle, i, moved);
            assert(open_nodes@[i] == moved);
            assert(moved == rescored(start[neighbor_index as int], self.position, new_cost_from_start as int));
            assert(middle == start.remove(neighbor_index as int));
            assert(reached(provider, movement_type, start[neighbor_index as int]));
            assert forall|p: Coord| pos_in(open_nodes@, p) <==> pos_in(start, p) by {}
            assert forall|j: int| 0 <= j < start.len() implies has_cheaper(
                open_nodes@,
                #[trigger] start[j],
            ) by {
                if j == neighbor_index {
                    assert(open_nodes@[i].position == start[j].position);
                } else {
                    let j1 = if j < neighbor_index { j } else { j - 1 };
                    assert(middle[j1] == start[j]);
                    let k = if j1 < i { j1 } else { j1 + 1 };
                    assert(open_nodes@[k] == middle[j1]);
                }
            }
            assert forall|k: int| 0 <= k < open_nodes@.len() implies reached(
                provider,
                movement_type,
                #[trigger] open_nodes@[k],
            ) && scored(open_nodes@[k], destination) && (start.contains(open_nodes@[k]) || (
            parent_ok(*self, open_nodes@[k]) && open_nodes@[k].position
                == start[neighbor_index as int].position)) by {
                if open_nodes@[k] != moved {
                    assert(middle.contains(open_nodes@[k]));
                    let j = choose|j: int| 0 <= j < middle.len() && middle[j] == open_nodes@[k];
                    assert(start.contains(middle[j]));
                    let j2 = choose|j2: int| 0 <= j2 < start.len() && start[j2] == open_nodes@[k];
                    assert(reached(provider, movement_type, start[j2]));
                }
            }
        }
    }

    /// Index of the first node at `position`, if any.
    pub fn find_node_with_position(list: &Vec<AStarNode>, position: Coord) -> (r: Option<usize>)
        ensures
            r is None ==> !pos_in(list@, position),
            r is Some ==> {
                &&& r->0 < list@.len()
                &&& list@[r->0 as int].position == position
                &&& forall|k: int| 0 <= k < r->0 ==> list@[k].position != position
            },
    {
        let n = list.len();
        let mut i: usize = 0;
        while i < n
            invariant
                n == list@.len(),
                i <= n,
                forall|k: int| 0 <= k < i ==> list@[k].position != position,
            decreases n - i,
        {
            if list[i].position == position {
                return Some(i);
            }
            i = i + 1;
        }
        None
    }
}

/// The node stands in a list of nodes and has been reached from a neighbor
/// that a mover may leave for it.
pub open spec fn reached<P: PathProvider>(provider: &P, movement: u8, n: AStarNode) -> bool {
    &&& n.from_node is Some
    &&& n.is_walkable
    &&& provider.walkable(n.position, movement)
    &&& adjacent(n.from_node->0, n.position)
    &&& n.cost_multiplier == provider.step_cost(n.position, movement)
}

/// `n` re-scored as reached through the cell `parent` at cost `g`.
pub open spec fn rescored(n: AStarNode, parent: Coord, g: int) -> AStarNode {
    AStarNode {
        is_walkable: n.is_walkable,
        position: n.position,
        cost_multiplier: n.cost_multiplier,
        from_node: Some(parent),
        cost_from_start: g as u64,
        cost_from_end: n.cost_from_end,
        cost_total: sat_add(g, n.cost_from_end as int) as u64,
    }
}

/// The node first created for the walkable cell `position`, reached from
/// `parent` by a diagonal or a straight step.
pub open spec fn fresh_node<P: PathProvider>(
    provider: &P,
    movement: u8,
    parent: AStarNode,
    position: Coord,
    is_diagonal: bool,
    destination: Coord,
) -> AStarNode {
    let m = provider.step_cost(position, movement);
    let g = sat_add(parent.cost_from_start as int, step_price(is_diagonal, m));
    let h = diagonal_distance(position, destination);
    AStarNode {
        is_walkable: true,
        position,
        cost_multiplier: m,
        from_node: Some(parent.position),
        cost_from_start: g as u64,
        cost_from_end: h as u64,
        cost_total: sat_add(g, h) as u64,
    }
}

/// Whether a step between two cells is diagonal.
pub open spec fn is_diag(a: Coord, b: Coord) -> bool {
    a.x != b.x && a.y != b.y
}

/// `p` is the node that `n` points back to, and `n`'s cost from the start is
/// `p`'s plus the step from `p`.
pub open spec fn parent_ok(p: AStarNode, n: AStarNode) -> bool {
    &&& n.from_node == Some(p.position)
    &&& n.cost_from_start == sat_add(
        p.cost_from_start as int,
        step_price(is_diag(p.position, n.position), n.cost_multiplier),
    )
}

/// The node's distance to the goal and total are those of its cell and its
/// cost from the start.
pub open spec fn scored(n: AStarNode, destination: Coord) -> bool {
    &&& n.is_walkable
    &&& n.cost_from_end == diagonal_distance(n.position, destination)
    &&& n.cost_total == sat_add(n.cost_from_start as int, n.cost_from_end as int)
}

/// Cell `q` is closed, or has an open node whose cost from the start is at
/// most `bound`.
pub open spec fn offered(open: Seq<AStarNode>, closed: Seq<AStarNode>, q: Coord, bound: int) -> bool {
    pos_in(closed, q) || exists|i: int|
        0 <= i < open.len() && #[trigger] open[i].position == q && open[i].cost_from_start <= bound
}

/// Inserting a node adds its cell to the cells of a list, keeps every other
/// node, and keeps cells distinct when the node's cell was absent.
pub proof fn lemma_insert_nodes(s: Seq<AStarNode>, i: int, n: AStarNode)
    requires
        0 <= i <= s.len(),
    ensures
        forall|p: Coord| pos_in(s.insert(i, n), p) <==> (pos_in(s, p) || p == n.position),
        forall|k: int|
            0 <= k < s.len() + 1 ==> s.contains(#[trigger] s.insert(i, n)[k]) || s.insert(i, n)[k]
                == n,
        distinct(s) && !pos_in(s, n.position) ==> distinct(s.insert(i, n)),
{
    let t = s.insert(i, n);
    assert forall|p: Coord| pos_in(t, p) <==> (pos_in(s, p) || p == n.position) by {
        if pos_in(t, p) {
            let k = choose|k: int| 0 <= k < t.len() && #[trigger] t[k].position == p;
            if k < i {
                assert(s[k].position == p);
            } else if k > i {
                assert(s[k - 1].position == p);
            }
        }
        if pos_in(s, p) {
            let k = choose|k: int| 0 <= k < s.len() && #[trigger] s[k].position == p;
            if k < i {
                assert(t[k].position == p);
            } else {
                assert(t[k + 1].position == p);
            }
        }
        if p == n.position {
            assert(t[i].position == p);
        }
    }
    assert forall|k: int| 0 <= k < s.len() + 1 implies s.contains(#[trigger] t[k]) || t[k] == n by {
        if k < i {
            assert(t[k] == s[k]);
        } else if k > i {
            assert(t[k] == s[k - 1]);
        }
    }
    if distinct(s) && !pos_in(s, n.position) {
        assert forall|a: int, b: int| 0 <= a < b < t.len() implies (#[trigger] t[a]).position
            != (#[trigger] t[b]).position by {
            if a == i {
                assert(t[b] == s[b - 1]);
            } else if b == i {
                assert(t[a] == s[a]);
            } else {
                let a0 = if a < i { a } else { a - 1 };
                let b0 = if b < i { b } else { b - 1 };
                assert(t[a] == s[a0] && t[b] == s[b0]);
            }
        }
    }
}

/// Removing a node keeps a list sorted and its cells distinct, and keeps every
/// cell but the removed node's.
pub proof fn lemma_remove_node(s: Seq<AStarNode>, i: int)
    requires
        0 <= i < s.len(),
    ensures
        sorted(s) ==> sorted(s.remove(i)),
        distinct(s) ==> distinct(s.remove(i)),
        distinct(s) ==> !pos_in(s.remove(i), s[i].position),
        forall|p: Coord| pos_in(s, p) <==> (pos_in(s.remove(i), p) || p == s[i].position),
        forall|k: int| 0 <= k < s.len() - 1 ==> s.contains(#[trigger] s.remove(i)[k]),
{
    let t = s.remove(i);
    assert forall|k: int| 0 <= k < t.len() implies #[trigger] t[k] == (if k < i { s[k] } else { s[k + 1] }) by {}
    assert forall|k: int| 0 <= k < s.len() - 1 implies s.contains(#[trigger] t[k]) by {
        if k < i {
            assert(t[k] == s[k]);
        } else {
            assert(t[k] == s[k + 1]);
        }
    }
    if sorted(s) {
        assert forall|a: int, b: int| 0 <= a < b < t.len() implies key_le(#[trigger] t[a], #[trigger] t[b]) by {
            let a0 = if a < i { a } else { a + 1 };
            let b0 = if b < i { b } else { b + 1 };
            assert(t[a] == s[a0] && t[b] == s[b0]);
        }
    }
    if distinct(s) {
        assert forall|a: int, b: int| 0 <= a < b < t.len() implies (#[trigger] t[a]).position
            != (#[trigger] t[b]).position by {
            let a0 = if a < i { a } else { a + 1 };
            let b0 = if b < i { b } else { b + 1 };
            assert(t[a] == s[a0] && t[b] == s[b0]);
        }
        if pos_in(t, s[i].position) {
            let k = choose|k: int| 0 <= k < t.len() && #[trigger] t[k].position == s[i].position;
            let k0 = if k < i { k } else { k + 1 };
            assert(t[k] == s[k0]);
        }
    }
    assert forall|p: Coord| pos_in(s, p) <==> (pos_in(t, p) || p == s[i].position) by {
        if pos_in(s, p) && p != s[i].position {
            let k = choose|k: int| 0 <= k < s.len() && #[trigger] s[k].position == p;
            if k < i {
                assert(t[k] == s[k]);
            } else {
                assert(t[k - 1] == s[k]);
            }
        }
        if pos_in(t, p) {
            let k = choose|k: int| 0 <= k < t.len() && #[trigger] t[k].position == p;
            let k0 = if k < i { k } else { k + 1 };
            assert(t[k] == s[k0]);
        }
    }
}

/// Removes the first node of a sorted open list: no remaining node ranks
/// before it, by total cost and then by distance to the goal.
pub fn pop_lowest(open_nodes: &mut Vec<AStarNode>) -> (r: AStarNode)
    requires
        sorted(old(open_nodes)@),
        old(open_nodes)@.len() > 0,
    ensures
        r == old(open_nodes)@[0],
        final(open_nodes)@ == old(open_nodes)@.subrange(1, old(open_nodes)@.len() as int),
        sorted(final(open_nodes)@),
        forall|i: int|
            0 <= i < final(open_nodes)@.len() ==> r.cost_total
                <= (#[trigger] final(open_nodes)@[i]).cost_total,
        forall|i: int|
            0 <= i < final(open_nodes)@.len() && r.cost_total
                == (#[trigger] final(open_nodes)@[i]).cost_total ==> r.cost_from_end
                <= final(open_nodes)@[i].cost_from_end,
{
    let ghost before = open_nodes@;
    let r = open_nodes.remove(0);
    proof {
        assert(open_nodes@ =~= before.subrange(1, before.len() as int));
        assert forall|i: int| 0 <= i < open_nodes@.len() implies key_le(r, #[trigger] open_nodes@[i]) by {
            assert(open_nodes@[i] == before[i + 1]);
        }
        assert forall|a: int, b: int| 0 <= a < b < open_nodes@.len() implies key_le(
            #[trigger] open_nodes@[a],
            #[trigger] open_nodes@[b],
        ) by {
            assert(open_nodes@[a] == before[a + 1] && open_nodes@[b] == before[b + 1]);
        }
    }
    r
}

/// A walk from `s[0]` to its last cell: every cell after the first inside
/// the area and walkable, each cell next to the one before.
pub open spec fn is_route<P: PathProvider>(provider: &P, movement: u8, s: Seq<Coord>) -> bool {
    &&& s.len() >= 1
    &&& forall|i: int| 1 <= i < s.len() ==> provider.area().holds(#[trigger] s[i])
    &&& forall|i: int| 1 <= i < s.len() ==> provider.walkable(#[trigger] s[i], movement)
    &&& forall|i: int| 0 <= i < s.len() - 1 ==> adjacent(#[trigger] s[i], s[i + 1])
}

/// Some walk leads from `origin` to `destination`.
pub open spec fn path_exists<P: PathProvider>(
    provider: &P,
    movement: u8,
    origin: Coord,
    destination: Coord,
) -> bool {
    exists|s: Seq<Coord>|
        is_route(provider, movement, s) && s[0] == origin && s.last() == destination
}

/// A found path: the cells from `destination` back to the step after
/// `origin`, each walkable, inside the area and next to the one after it;
/// empty when the origin is the destination.
pub open spec fn back_route<P: PathProvider>(
    provider: &P,
    movement: u8,
    origin: Coord,
    destination: Coord,
    t: Seq<Coord>,
) -> bool {
    &&& t.len() == 0 ==> origin == destination
    &&& t.len() > 0 ==> t[0] == destination && adjacent(origin, t.last())
    &&& forall|i: int|
        0 <= i < t.len() ==> provider.area().holds(#[trigger] t[i]) && provider.walkable(
            t[i],
            movement,
        )
    &&& forall|i: int| 0 <= i < t.len() - 1 ==> adjacent(#[trigger] t[i + 1], t[i])
}

/// The walk that a found path stands for: the origin, then the path read
/// backwards.
pub open spec fn forward(origin: Coord, t: Seq<Coord>) -> Seq<Coord> {
    Seq::new((t.len() + 1) as nat, |i: int| if i == 0 { origin } else { t[t.len() - i] })
}

/// A node of the search, with its back-pointer to a node among the first
/// `bound` closed nodes through which its cost was reached, or standing at
/// the origin, at no cost, without one.
pub open spec fn linked<P: PathProvider>(
    provider: &P,
    movement: u8,
    origin: Coord,
    closed: Seq<AStarNode>,
    bound: int,
    n: AStarNode,
) -> bool {
    &&& (n.from_node is None ==> n.position == origin && n.cost_from_start == 0)
    &&& (n.from_node is Some ==> {
        &&& provider.area().holds(n.position)
        &&& provider.walkable(n.position, movement)
        &&& adjacent(n.from_node->0, n.position)
        &&& n.cost_multiplier == provider.step_cost(n.position, movement)
        &&& exists|j: int| 0 <= j < bound && #[trigger] parent_ok(closed[j], n)
    })
}

/// Every walkable cell of the area in the first `upto` directions around `c`
/// has a node, open or closed.
pub open spec fn expanded<P: PathProvider>(
    provider: &P,
    movement: u8,
    open: Seq<AStarNode>,
    closed: Seq<AStarNode>,
    c: Coord,
    upto: int,
) -> bool {
    forall|k: int|
        0 <= k < upto && (#[trigger] spec_step(c, k)) is Some && provider.area().holds(
            spec_step(c, k)->0,
        ) && provider.walkable(spec_step(c, k)->0, movement) ==> pos_in(
            open,
            spec_step(c, k)->0,
        ) || pos_in(closed, spec_step(c, k)->0)
}

/// Expansion facts survive when every cell with a node keeps one.
pub proof fn lemma_expanded_grows<P: PathProvider>(
    provider: &P,
    movement: u8,
    open1: Seq<AStarNode>,
    closed1: Seq<AStarNode>,
    open2: Seq<AStarNode>,
    closed2: Seq<AStarNode>,
    c: Coord,
    upto: int,
)
    requires
        expanded(provider, movement, open1, closed1, c, upto),
        forall|p: Coord|
            pos_in(open1, p) || pos_in(closed1, p) ==> pos_in(open2, p) || pos_in(closed2, p),
    ensures
        expanded(provider, movement, open2, closed2, c, upto),
{
}

/// A list of nodes at distinct cells, each inside an area or at one extra
/// cell, is at most one longer than the area has cells.
pub proof fn lemma_nodes_fit_area(s: Seq<AStarNode>, area: Size, extra: Coord)
    requires
        distinct(s),
        forall|i: int|
            0 <= i < s.len() ==> area.holds(#[trigger] s[i].position) || s[i].position == extra,
    ensures
        s.len() <= area.cell_count() + 1,
{
    let top = area.cell_count() as int;
    let idx = Seq::new(
        s.len(),
        |i: int| if area.holds(s[i].position) { area.index_of(s[i].position) } else { top },
    );
    assert forall|a: int, b: int| 0 <= a < b < idx.len() implies idx[a] != idx[b] by {
        assert(s[a].position != s[b].position);
        if area.holds(s[a].position) && area.holds(s[b].position) {
            lemma_index_injective(area, s[a].position, s[b].position);
        } else if area.holds(s[a].position) {
            lemma_index_injective(area, s[a].position, s[a].position);
        } else if area.holds(s[b].position) {
            lemma_index_injective(area, s[b].position, s[b].position);
        }
    }
    assert(idx.no_duplicates());
    idx.unique_seq_to_set();
    let range = set_int_range(0, top + 1);
    lemma_int_range(0, top + 1);
    assert forall|v: int| idx.to_set().contains(v) implies range.contains(v) by {
        let i = choose|i: int| 0 <= i < idx.len() && idx[i] == v;
        if area.holds(s[i].position) {
            lemma_index_injective(area, s[i].position, s[i].position);
        }
    }
    lemma_len_subset(idx.to_set(), range);
}

/// A found path stands for a walk from the origin to the destination.
pub proof fn lemma_back_route_walk<P: PathProvider>(
    provider: &P,
    movement: u8,
    origin: Coord,
    destination: Coord,
    t: Seq<Coord>,
)
    requires
        back_route(provider, movement, origin, destination, t),
    ensures
        is_route(provider, movement, forward(origin, t)),
        forward(origin, t)[0] == origin,
        forward(origin, t).last() == destination,
        path_exists(provider, movement, origin, destination),
{
    let s = forward(origin, t);
    let n = t.len() as int;
    assert forall|i: int| 0 <= i < s.len() - 1 implies adjacent(#[trigger] s[i], s[i + 1]) by {
        if i > 0 {
            assert(s[i] == t[n - i] && s[i + 1] == t[n - i - 1]);
            assert(adjacent(t[(n - i - 1) + 1], t[n - i - 1]));
        }
    }
    assert forall|i: int| 1 <= i < s.len() implies provider.area().holds(#[trigger] s[i]) by {
        assert(s[i] == t[n - i]);
    }
    assert forall|i: int| 1 <= i < s.len() implies provider.walkable(#[trigger] s[i], movement) by {
        assert(s[i] == t[n - i]);
    }
    assert(s.last() == s[n]);
}

/// Along a walk that starts at a closed cell, while no node is open and every
/// closed node is expanded, every cell is closed.
pub proof fn lemma_route_in_closed<P: PathProvider>(
    provider: &P,
    movement: u8,
    closed: Seq<AStarNode>,
    s: Seq<Coord>,
    i: int,
)
    requires
        0 <= i < s.len(),
        is_route(provider, movement, s),
        pos_in(closed, s[0]),
        forall|c: int|
            0 <= c < closed.len() ==> expanded(
                provider,
                movement,
                Seq::<AStarNode>::empty(),
                closed,
                #[trigger] closed[c].position,
                8,
            ),
    ensures
        pos_in(closed, s[i]),
    decreases i,
{
    if i > 0 {
        lemma_route_in_closed(provider, movement, closed, s, i - 1);
        let c = choose|c: int| 0 <= c < closed.len() && #[trigger] closed[c].position == s[i - 1];
        assert(adjacent(s[i - 1], s[i]));
        let k = lemma_adjacent_direction(s[i - 1], s[i]);
        assert(provider.area().holds(s[i]));
        assert(provider.walkable(s[i], movement));
        assert(expanded(provider, movement, Seq::<AStarNode>::empty(), closed, closed[c].position, 8));
        assert(spec_step(closed[c].position, k) == Some(s[i]));
        assert(!pos_in(Seq::<AStarNode>::empty(), s[i]));
    }
}

/// When the open list is empty, every closed node is expanded and the
/// destination is not closed, no walk leads from the origin to the
/// destination.
pub proof fn lemma_exhausted_no_route<P: PathProvider>(
    provider: &P,
    movement: u8,
    origin: Coord,
    destination: Coord,
    closed: Seq<AStarNode>,
)
    requires
        pos_in(closed, origin),
        forall|i: int|
            0 <= i < closed.len() ==> expanded(
                provider,
                movement,
                Seq::<AStarNode>::empty(),
                closed,
                #[trigger] closed[i].position,
                8,
            ),
        !pos_in(closed, destination),
    ensures
        !path_exists(provider, movement, origin, destination),
{
    if path_exists(provider, movement, origin, destination) {
        let s = choose|s: Seq<Coord>|
            is_route(provider, movement, s) && s[0] == origin && s.last() == destination;
        lemma_route_in_closed(provider, movement, closed, s, s.len() - 1);
        assert(s[s.len() - 1] == destination);
    }
}

/// After the neighbor `q` in direction `k` of the node just closed has been
/// handled, the open nodes stay linked and unclosed, and expansion covers one
/// more direction.
proof fn lemma_neighbor_handled<P: PathProvider>(
    provider: &P,
    movement: u8,
    origin: Coord,
    open_prev: Seq<AStarNode>,
    open_next: Seq<AStarNode>,
    closed: Seq<AStarNode>,
    current: AStarNode,
    q: Coord,
    k: int,
)
    requires
        closed.len() > 0,
        closed.last() == current,
        spec_step(current.position, k) == Some(q),
        forall|i: int|
            0 <= i < open_prev.len() ==> linked(
                provider,
                movement,
                origin,
                closed,
                closed.len() as int,
                #[trigger] open_prev[i],
            ) && !pos_in(closed, open_prev[i].position),
        forall|i: int|
            0 <= i < closed.len() - 1 ==> expanded(
                provider,
                movement,
                open_prev,
                closed,
                #[trigger] closed[i].position,
                8,
            ),
        expanded(provider, movement, open_prev, closed, current.position, k),
        forall|p: Coord|
            pos_in(open_next, p) <==> (pos_in(open_prev, p) || (p == q && !pos_in(closed, q)
                && provider.walkable(q, movement))),
        forall|i: int| 0 <= i < open_next.len() ==> reached(provider, movement, #[trigger] open_next[i]),
        forall|i: int|
            0 <= i < open_next.len() ==> open_prev.contains(#[trigger] open_next[i]) || (
            open_next[i].position == q && open_next[i].from_node == Some(current.position)
                && !pos_in(closed, q)),
        forall|i: int|
            0 <= i < open_next.len() ==> open_prev.contains(#[trigger] open_next[i])
                || parent_ok(current, open_next[i]),
        provider.area().holds(q),
    ensures
        forall|i: int|
            0 <= i < open_next.len() ==> linked(
                provider,
                movement,
                origin,
                closed,
                closed.len() as int,
                #[trigger] open_next[i],
            ) && !pos_in(closed, open_next[i].position),
        forall|i: int|
            0 <= i < closed.len() - 1 ==> expanded(
                provider,
                movement,
                open_next,
                closed,
                #[trigger] closed[i].position,
                8,
            ),
        expanded(provider, movement, open_next, closed, current.position, k + 1),
{
    let last = closed.len() - 1;
    assert(closed[last] == current);
    assert forall|i: int| 0 <= i < open_next.len() implies linked(
        provider,
        movement,
        origin,
        closed,
        closed.len() as int,
        #[trigger] open_next[i],
    ) && !pos_in(closed, open_next[i].position) by {
        let n = open_next[i];
        if open_prev.contains(n) {
            let j = choose|j: int| 0 <= j < open_prev.len() && open_prev[j] == n;
            assert(linked(provider, movement, origin, closed, closed.len() as int, open_prev[j]));
        } else {
            assert(reached(provider, movement, n));
            assert(parent_ok(closed[last], n));
        }
    }
    assert forall|i: int| 0 <= i < closed.len() - 1 implies expanded(
        provider,
        movement,
        open_next,
        closed,
        #[trigger] closed[i].position,
        8,
    ) by {
        lemma_expanded_grows(provider, movement, open_prev, closed, open_next, closed, closed[i].position, 8);
    }
    lemma_expanded_grows(provider, movement, open_prev, closed, open_next, closed, current.position, k);
    assert forall|j: int|
        0 <= j < k + 1 && (#[trigger] spec_step(current.position, j)) is Some
            && provider.area().holds(spec_step(current.position, j)->0)
            && provider.walkable(spec_step(current.position, j)->0, movement)
        implies pos_in(open_next, spec_step(current.position, j)->0) || pos_in(
        closed,
        spec_step(current.position, j)->0,
    ) by {
        if j < k {
            assert(expanded(provider, movement, open_next, closed, current.position, k));
        }
    }
}

/// Every cell of the area is walkable, at a multiplier of one.
pub open spec fn uniform_open<P: PathProvider>(provider: &P, movement: u8) -> bool {
    forall|p: Coord|
        #[trigger] provider.area().holds(p) ==> provider.walkable(p, movement)
            && provider.step_cost(p, movement) == 1
}

/// `p` lies on some cheapest unit-cost walk from `origin` to `destination`.
pub open spec fn on_best_line(origin: Coord, destination: Coord, p: Coord) -> bool {
    diagonal_distance(origin, p) + diagonal_distance(p, destination) == diagonal_distance(
        origin,
        destination,
    )
}

pub open spec fn sign(v: int) -> int {
    if v > 0 {
        1
    } else if v < 0 {
        -1
    } else {
        0
    }
}

/// The neighbor of `x` one king move closer to `d`.
pub open spec fn toward(x: Coord, d: Coord) -> Coord {
    Coord { x: (x.x + sign(d.x - x.x)) as i32, y: (x.y + sign(d.y - x.y)) as i32 }
}

/// Every open node costs at least the scaled diagonal distance from the
/// origin.
pub open spec fn lower_bounded(s: Seq<AStarNode>, origin: Coord) -> bool {
    forall|i: int|
        0 <= i < s.len() ==> (#[trigger] s[i]).cost_from_start >= diagonal_distance(
            origin,
            s[i].position,
        )
}

pub open spec fn all_scored(s: Seq<AStarNode>, destination: Coord) -> bool {
    forall|i: int| 0 <= i < s.len() ==> scored(#[trigger] s[i], destination)
}

/// Some node of `b` stands at `n`'s cell and costs no more than `n`.
pub open spec fn has_cheaper(b: Seq<AStarNode>, n: AStarNode) -> bool {
    exists|k: int|
        0 <= k < b.len() && (#[trigger] b[k]).position == n.position && b[k].cost_from_start
            <= n.cost_from_start
}

/// Every cell with a node in `a` has one in `b` that costs no more.
pub open spec fn no_costlier(a: Seq<AStarNode>, b: Seq<AStarNode>) -> bool {
    forall|j: int| 0 <= j < a.len() ==> has_cheaper(b, #[trigger] a[j])
}

/// The neighbor of `cur` in direction `k`, when inside the area and
/// walkable, is closed or open at no more than the cost through `cur`.
pub open spec fn step_offered<P: PathProvider>(
    provider: &P,
    movement: u8,
    open: Seq<AStarNode>,
    closed: Seq<AStarNode>,
    cur: AStarNode,
    k: int,
) -> bool {
    let q = spec_step(cur.position, k)->0;
    spec_step(cur.position, k) is Some && provider.area().holds(q) && provider.walkable(q, movement)
        ==> offered(
        open,
        closed,
        q,
        sat_add(
            cur.cost_from_start as int,
            step_price(is_diag(cur.position, q), provider.step_cost(q, movement)),
        ),
    )
}

/// A closed cell on a cheapest line has its next cell towards the
/// destination closed, or open at its cheapest cost.
pub open spec fn pending_ok(
    open: Seq<AStarNode>,
    closed: Seq<AStarNode>,
    origin: Coord,
    destination: Coord,
    x: Coord,
) -> bool {
    on_best_line(origin, destination, x) && x != destination ==> offered(
        open,
        closed,
        toward(x, destination),
        diagonal_distance(origin, toward(x, destination)),
    )
}

/// What the search knows at the top of each round.
#[verifier::opaque]
pub open spec fn search_inv<P: PathProvider>(
    provider: &P,
    movement: u8,
    origin: Coord,
    destination: Coord,
    open: Seq<AStarNode>,
    closed: Seq<AStarNode>,
) -> bool {
    &&& sorted(open)
    &&& distinct(open)
    &&& distinct(closed)
    &&& pos_in(closed, origin) || (closed.len() == 0 && open.len() == 1 && open[0].position
        == origin && open[0].from_node is None)
    &&& forall|i: int|
        0 <= i < open.len() ==> linked(
            provider,
            movement,
            origin,
            closed,
            closed.len() as int,
            #[trigger] open[i],
        ) && !pos_in(closed, open[i].position)
    &&& forall|i: int|
        0 <= i < closed.len() ==> linked(provider, movement, origin, closed, i, #[trigger] closed[i])
            && closed[i].position != destination
    &&& forall|i: int|
        0 <= i < closed.len() ==> expanded(
            provider,
            movement,
            open,
            closed,
            #[trigger] closed[i].position,
            8,
        )
    &&& all_scored(open, destination)
    &&& all_scored(closed, destination)
    &&& uniform_open(provider, movement) && provider.area().holds(origin) && provider.area().holds(destination) ==> {
        &&& lower_bounded(open, origin)
        &&& lower_bounded(closed, origin)
        &&& forall|c: int|
            0 <= c < closed.len() ==> pending_ok(
                open,
                closed,
                origin,
                destination,
                (#[trigger] closed[c]).position,
            )
    }
}

/// The scaled diagonal distance obeys the triangle inequality.
pub proof fn lemma_triangle(a: Coord, b: Coord, c: Coord)
    ensures
        diagonal_distance(a, c) <= diagonal_distance(a, b) + diagonal_distance(b, c),
        diagonal_distance(a, b) == diagonal_distance(b, a),
        diagonal_distance(a, a) == 0,
{
}

/// The step towards `d` is a neighbor one unit-cost step closer, inside any
/// area holding both ends, and on a cheapest line when `x` is.
pub proof fn lemma_toward(o: Coord, x: Coord, d: Coord, area: Size)
    requires
        x != d,
    ensures
        adjacent(x, toward(x, d)),
        unit_step(x, toward(x, d)) + diagonal_distance(toward(x, d), d) == diagonal_distance(
            x,
            d,
        ),
        diagonal_distance(toward(x, d), d) < diagonal_distance(x, d),
        area.holds(x) && area.holds(d) ==> area.holds(toward(x, d)),
        on_best_line(o, d, x) ==> on_best_line(o, d, toward(x, d)) && diagonal_distance(
            o,
            toward(x, d),
        ) == diagonal_distance(o, x) + unit_step(x, toward(x, d)),
{
    let t = toward(x, d);
    lemma_triangle(o, t, d);
    lemma_step_slack(o, x, t);
}

/// Some open node lies on a cheapest line at its cheapest cost, when the
/// destination is not closed and the closed cell `x` is on a cheapest line.
pub proof fn lemma_open_witness<P: PathProvider>(
    provider: &P,
    movement: u8,
    origin: Coord,
    destination: Coord,
    open: Seq<AStarNode>,
    closed: Seq<AStarNode>,
    x: Coord,
)
    requires
        provider.area().holds(destination),
        provider.area().holds(x),
        pos_in(closed, x),
        on_best_line(origin, destination, x),
        !pos_in(closed, destination),
        forall|c: int|
            0 <= c < closed.len() ==> pending_ok(
                open,
                closed,
                origin,
                destination,
                (#[trigger] closed[c]).position,
            ),
    ensures
        exists|i: int|
            0 <= i < open.len() && on_best_line(origin, destination, (#[trigger] open[i]).position)
                && open[i].cost_from_start <= diagonal_distance(origin, open[i].position),
    decreases diagonal_distance(x, destination),
{
    let c = choose|c: int| 0 <= c < closed.len() && #[trigger] closed[c].position == x;
    assert(x != destination);
    lemma_toward(origin, x, destination, provider.area());
    let t = toward(x, destination);
    assert(pending_ok(open, closed, origin, destination, closed[c].position));
    if pos_in(closed, t) {
        lemma_open_witness(provider, movement, origin, destination, open, closed, t);
    } else {
        let i = choose|i: int|
            0 <= i < open.len() && #[trigger] open[i].position == t && open[i].cost_from_start
                <= diagonal_distance(origin, t);
        assert(on_best_line(origin, destination, open[i].position));
    }
}

/// The node taken first from an open list holding a node on a cheapest line
/// at its cheapest cost is itself on a cheapest line at its cheapest cost.
pub proof fn lemma_pop_exact(
    origin: Coord,
    destination: Coord,
    open: Seq<AStarNode>,
)
    requires
        open.len() > 0,
        sorted(open),
        all_scored(open, destination),
        lower_bounded(open, origin),
        exists|i: int|
            0 <= i < open.len() && on_best_line(origin, destination, (#[trigger] open[i]).position)
                && open[i].cost_from_start <= diagonal_distance(origin, open[i].position),
    ensures
        open[0].cost_from_start == diagonal_distance(origin, open[0].position),
        on_best_line(origin, destination, open[0].position),
{
    let w = choose|i: int|
        0 <= i < open.len() && on_best_line(origin, destination, (#[trigger] open[i]).position)
            && open[i].cost_from_start <= diagonal_distance(origin, open[i].position);
    if w > 0 {
        assert(key_le(open[0], open[w]));
    }
    assert(scored(open[w], destination));
    assert(scored(open[0], destination));
    assert(open[w].cost_from_start >= diagonal_distance(origin, open[w].position));
    assert(open[0].cost_from_start >= diagonal_distance(origin, open[0].position));
    lemma_triangle(origin, open[0].position, destination);
}

/// A cell offered before the first open node is closed stays offered after.
pub proof fn lemma_offered_pop(
    open: Seq<AStarNode>,
    closed: Seq<AStarNode>,
    q: Coord,
    b: int,
)
    requires
        open.len() > 0,
        offered(open, closed, q, b),
    ensures
        offered(open.subrange(1, open.len() as int), closed.push(open[0]), q, b),
{
    let o2 = open.subrange(1, open.len() as int);
    let c2 = closed.push(open[0]);
    if pos_in(closed, q) {
        let j = choose|j: int| 0 <= j < closed.len() && #[trigger] closed[j].position == q;
        assert(c2[j] == closed[j]);
    } else {
        let i = choose|i: int|
            0 <= i < open.len() && #[trigger] open[i].position == q && open[i].cost_from_start <= b;
        if i == 0 {
            assert(c2[closed.len() as int] == open[0]);
        } else {
            assert(o2[i - 1] == open[i]);
        }
    }
}

/// A cell offered stays offered when no open cell gets costlier.
pub proof fn lemma_offered_grows(
    a: Seq<AStarNode>,
    b: Seq<AStarNode>,
    closed: Seq<AStarNode>,
    q: Coord,
    bound: int,
)
    requires
        offered(a, closed, q, bound),
        no_costlier(a, b),
    ensures
        offered(b, closed, q, bound),
{
    if !pos_in(closed, q) {
        let i = choose|i: int|
            0 <= i < a.len() && #[trigger] a[i].position == q && a[i].cost_from_start <= bound;
        assert(has_cheaper(b, a[i]));
        let k = choose|k: int|
            0 <= k < b.len() && (#[trigger] b[k]).position == a[i].position
                && b[k].cost_from_start <= a[i].cost_from_start;
        assert(b[k].position == q);
    }
}

/// A chain's cost grows by the last step when a cell is added at its end.
pub proof fn lemma_chain_push(s: Seq<Coord>, x: Coord)
    requires
        s.len() >= 1,
    ensures
        chain_cost(s.push(x)) == chain_cost(s) + unit_step(s.last(), x),
    decreases s.len(),
{
    let t = s.push(x);
    assert(t[0] == s[0]);
    if s.len() > 1 {
        lemma_chain_push(s.drop_first(), x);
        assert(t.drop_first() =~= s.drop_first().push(x));
        assert(t[1] == s[1]);
        assert(s.drop_first().last() == s.last());
        assert(chain_cost(s) == unit_step(s[0], s[1]) + chain_cost(s.drop_first()));
    } else {
        assert(t.drop_first() =~= seq![x]);
        assert(t[1] == x);
        assert(chain_cost(seq![x]) == 0);
    }
    assert(chain_cost(t) == unit_step(t[0], t[1]) + chain_cost(t.drop_first()));
}

/// One more cell on a path being rebuilt keeps its cells distinct and apart
/// from the closed cells still to be visited.
proof fn lemma_rebuilt_distinct(
    closed: Seq<AStarNode>,
    current: AStarNode,
    prev: Seq<Coord>,
    child: AStarNode,
    old_bound: int,
    bound: int,
)
    requires
        distinct(closed),
        !pos_in(closed, current.position),
        0 <= bound < old_bound <= closed.len(),
        old_bound < closed.len() ==> child == closed[old_bound],
        old_bound == closed.len() ==> child == current,
        forall|i: int, j: int|
            #![trigger prev[i], closed[j]]
            0 <= i < prev.len() && 0 <= j < old_bound ==> closed[j].position != prev[i],
        !prev.contains(child.position),
        prev.no_duplicates(),
    ensures
        forall|i: int, j: int|
            #![trigger prev.push(child.position)[i], closed[j]]
            0 <= i < prev.len() + 1 && 0 <= j < bound ==> closed[j].position != prev.push(
                child.position,
            )[i],
        !prev.push(child.position).contains(closed[bound].position),
        prev.push(child.position).no_duplicates(),
{
    let path = prev.push(child.position);
    assert forall|i: int, j: int|
        #![trigger path[i], closed[j]]
        0 <= i < path.len() && 0 <= j < bound implies closed[j].position != path[i] by {
        if i < prev.len() {
            assert(path[i] == prev[i]);
        } else {
            assert(path[i] == child.position);
        }
    }
    if path.contains(closed[bound].position) {
        let i = choose|i: int| 0 <= i < path.len() && path[i] == closed[bound].position;
        if i < prev.len() {
            assert(path[i] == prev[i]);
        }
    }
    assert forall|a: int, b: int| 0 <= a < b < path.len() implies path[a] != path[b] by {
        assert(path[a] == prev[a]);
        if b < prev.len() {
            assert(path[b] == prev[b]);
        }
    }
}

/// Follows back-pointers from `current` through the closed nodes to the
/// origin, listing the cells from `current` to the step after the origin.
#[verifier::rlimit(50)]
fn reconstruct_path<P: PathProvider>(
    current: AStarNode,
    closed_nodes: &Vec<AStarNode>,
    provider: &P,
    movement_type: u8,
    origin: Coord,
    destination: Coord,
) -> (r: Vec<Coord>)
    requires
        current.position == destination,
        distinct(closed_nodes@),
        !pos_in(closed_nodes@, current.position),
        linked(provider, movement_type, origin, closed_nodes@, closed_nodes@.len() as int, current),
        forall|i: int|
            0 <= i < closed_nodes@.len() ==> linked(
                provider,
                movement_type,
                origin,
                closed_nodes@,
                i,
                #[trigger] closed_nodes@[i],
            ),
    ensures
        back_route(provider, movement_type, origin, destination, r@),
        current.from_node is None ==> r@.len() == 0,
        r@.no_duplicates(),
        !r@.contains(origin),
        uniform_open(provider, movement_type) && current.cost_from_start < u64::MAX ==> back_cost(
            origin,
            r@,
        ) == current.cost_from_start,
{
    let mut path: Vec<Coord> = Vec::new();
    let mut node = current;
    let mut bound: usize = closed_nodes.len();
    let mut done = node.from_node.is_none();
    while !done
        invariant
            bound <= closed_nodes@.len(),
            distinct(closed_nodes@),
            !pos_in(closed_nodes@, current.position),
            done == node.from_node is None,
            bound < closed_nodes@.len() ==> node == closed_nodes@[bound as int],
            bound == closed_nodes@.len() ==> node == current,
            forall|i: int, j: int|
                #![trigger path@[i], closed_nodes@[j]]
                0 <= i < path@.len() && 0 <= j < bound ==> closed_nodes@[j].position != path@[i],
            !path@.contains(node.position),
            path@.no_duplicates(),
            linked(provider, movement_type, origin, closed_nodes@, bound as int, node),
            forall|i: int|
                0 <= i < closed_nodes@.len() ==> linked(
                    provider,
                    movement_type,
                    origin,
                    closed_nodes@,
                    i,
                    #[trigger] closed_nodes@[i],
                ),
            path@.len() == 0 ==> node.position == destination && node == current,
            path@.len() > 0 ==> current.from_node is Some,
            path@.len() > 0 ==> path@[0] == destination && adjacent(node.position, path@.last()),
            forall|i: int|
                0 <= i < path@.len() ==> provider.area().holds(#[trigger] path@[i])
                    && provider.walkable(path@[i], movement_type),
            forall|i: int| 0 <= i < path@.len() - 1 ==> adjacent(#[trigger] path@[i + 1], path@[i]),
            uniform_open(provider, movement_type) && current.cost_from_start < u64::MAX ==> {
                &&& node.cost_from_start <= current.cost_from_start
                &&& chain_cost(path@.push(node.position)) + node.cost_from_start
                    == current.cost_from_start
            },
        decreases bound,
    {
        let parent = node.from_node.unwrap();
        let ghost prev = path@;
        let ghost old_bound = bound;
        path.push(node.position);
        proof {
            assert forall|i: int| 0 <= i < path@.len() - 1 implies adjacent(
                #[trigger] path@[i + 1],
                path@[i],
            ) by {
                if i < prev.len() - 1 {
                    assert(path@[i + 1] == prev[i + 1] && path@[i] == prev[i]);
                } else {
                    assert(path@[i] == prev.last());
                }
            }
        }
        let found = AStarNode::find_node_with_position(closed_nodes, parent);
        let idx = found.unwrap();
        let ghost child = node;
        proof {
            let j = choose|j: int| 0 <= j < bound && #[trigger] parent_ok(closed_nodes@[j], child);
            if idx != j {
                assert(closed_nodes@[idx as int].position == closed_nodes@[j].position);
            }
            assert(idx < old_bound);
            if uniform_open(provider, movement_type) && current.cost_from_start < u64::MAX {
                assert(provider.area().holds(child.position));
                assert(provider.step_cost(child.position, movement_type) == 1);
                let s = prev.push(child.position);
                assert(path@ == s);
                assert(s.last() == child.position);
                lemma_chain_push(s, parent);
                assert(unit_step(child.position, parent) == unit_step(parent, child.position));
            }
        }
        node = closed_nodes[idx];
        bound = idx;
        done = node.from_node.is_none();
        proof {
            lemma_rebuilt_distinct(
                closed_nodes@,
                current,
                prev,
                child,
                old_bound as int,
                bound as int,
            );
        }
    }
    proof {
        if uniform_open(provider, movement_type) && current.cost_from_start < u64::MAX {
            assert(node.position == origin);
        }
    }
    path
}

/// Being no costlier passes along a chain of lists.
pub proof fn lemma_no_costlier_trans(a: Seq<AStarNode>, b: Seq<AStarNode>, c: Seq<AStarNode>)
    requires
        no_costlier(a, b),
        no_costlier(b, c),
    ensures
        no_costlier(a, c),
{
    assert forall|j: int| 0 <= j < a.len() implies has_cheaper(c, #[trigger] a[j]) by {
        assert(has_cheaper(b, a[j]));
        let k1 = choose|k1: int|
            0 <= k1 < b.len() && (#[trigger] b[k1]).position == a[j].position
                && b[k1].cost_from_start <= a[j].cost_from_start;
        assert(has_cheaper(c, b[k1]));
        let k2 = choose|k2: int|
            0 <= k2 < c.len() && (#[trigger] c[k2]).position == b[k1].position
                && c[k2].cost_from_start <= b[k1].cost_from_start;
        assert(c[k2].position == a[j].position);
    }
}

/// After the neighbor `q` in direction `k` of the node just closed has been
/// handled, no open cell got costlier, one more direction is offered, and
/// open nodes still cost at least the distance from the origin.
proof fn lemma_neighbor_costs<P: PathProvider>(
    provider: &P,
    movement: u8,
    origin: Coord,
    destination: Coord,
    start: Seq<AStarNode>,
    open_prev: Seq<AStarNode>,
    open_next: Seq<AStarNode>,
    closed: Seq<AStarNode>,
    current: AStarNode,
    q: Coord,
    k: int,
)
    requires
        spec_step(current.position, k) == Some(q),
        provider.area().holds(q),
        forall|i: int|
            0 <= i < open_next.len() ==> open_prev.contains(#[trigger] open_next[i])
                || parent_ok(current, open_next[i]),
        forall|i: int|
            0 <= i < open_next.len() ==> reached(provider, movement, #[trigger] open_next[i])
                && provider.area().holds(open_next[i].position),
        no_costlier(start, open_prev),
        no_costlier(open_prev, open_next),
        forall|j: int| 0 <= j < k ==> step_offered(provider, movement, open_prev, closed, current, j),
        provider.walkable(q, movement) && !pos_in(closed, q) ==> exists|i: int|
            0 <= i < open_next.len() && (#[trigger] open_next[i]).position == q
                && open_next[i].cost_from_start <= sat_add(
                current.cost_from_start as int,
                step_price(is_diag(current.position, q), provider.step_cost(q, movement)),
            ),
        uniform_open(provider, movement) && provider.area().holds(origin) && provider.area().holds(destination) ==> lower_bounded(
            open_prev,
            origin,
        ) && current.cost_from_start >= diagonal_distance(origin, current.position),
    ensures
        no_costlier(start, open_next),
        forall|j: int| 0 <= j < k + 1 ==> step_offered(provider, movement, open_next, closed, current, j),
        uniform_open(provider, movement) && provider.area().holds(origin) && provider.area().holds(destination) ==> lower_bounded(
            open_next,
            origin,
        ),
{
    lemma_no_costlier_trans(start, open_prev, open_next);
    assert forall|j: int| 0 <= j < k + 1 implies step_offered(provider, movement, open_next, closed, current, j) by {
        if j < k {
            assert(step_offered(provider, movement, open_prev, closed, current, j));
            let qj = spec_step(current.position, j)->0;
            if spec_step(current.position, j) is Some && provider.area().holds(qj) && provider.walkable(qj, movement) {
                lemma_offered_grows(
                    open_prev,
                    open_next,
                    closed,
                    qj,
                    sat_add(
                        current.cost_from_start as int,
                        step_price(is_diag(current.position, qj), provider.step_cost(qj, movement)),
                    ),
                );
            }
        }
    }
    if uniform_open(provider, movement) && provider.area().holds(origin) && provider.area().holds(destination) {
        assert forall|i: int| 0 <= i < open_next.len() implies (#[trigger] open_next[i]).cost_from_start
            >= diagonal_distance(origin, open_next[i].position) by {
            let n = open_next[i];
            if open_prev.contains(n) {
                let j = choose|j: int| 0 <= j < open_prev.len() && open_prev[j] == n;
                assert(open_prev[j].cost_from_start >= diagonal_distance(origin, open_prev[j].position));
            } else {
                assert(parent_ok(current, n));
                assert(provider.area().holds(n.position));
                assert(provider.step_cost(n.position, movement) == 1);
                lemma_step_slack(origin, current.position, n.position);
            }
        }
    }
}

/// Handles the eight neighbors of `current`, the node just closed.
fn expand_node<P: PathProvider>(
    current: AStarNode,
    destination: Coord,
    provider: &P,
    movement_type: u8,
    origin: Coord,
    open_nodes: &mut Vec<AStarNode>,
    closed_nodes: &Vec<AStarNode>,
)
    requires
        round_ready(
            provider,
            movement_type,
            origin,
            destination,
            old(open_nodes)@,
            closed_nodes@,
            current,
        ),
    ensures
        round_done(
            provider,
            movement_type,
            origin,
            destination,
            old(open_nodes)@,
            final(open_nodes)@,
            closed_nodes@,
            current,
        ),
{
    let area = provider.bounds();
    let ghost start = open_nodes@;
    proof {
        reveal(round_ready);
        assert forall|j: int| 0 <= j < start.len() implies has_cheaper(
            open_nodes@,
            #[trigger] start[j],
        ) by {
            assert(open_nodes@[j] == start[j]);
        }
    }
    let mut k: usize = 0;
    while k < 8
        invariant
            area == provider.area(),
            0 <= k <= 8,
            closed_nodes@.len() > 0,
            closed_nodes@.last() == current,
            sorted(open_nodes@),
            distinct(open_nodes@),
            forall|i: int|
                0 <= i < open_nodes@.len() ==> linked(
                    provider,
                    movement_type,
                    origin,
                    closed_nodes@,
                    closed_nodes@.len() as int,
                    #[trigger] open_nodes@[i],
                ) && !pos_in(closed_nodes@, open_nodes@[i].position) && reached(
                    provider,
                    movement_type,
                    open_nodes@[i],
                ),
            forall|i: int|
                0 <= i < closed_nodes@.len() - 1 ==> expanded(
                    provider,
                    movement_type,
                    open_nodes@,
                    closed_nodes@,
                    #[trigger] closed_nodes@[i].position,
                    8,
                ),
            expanded(provider, movement_type, open_nodes@, closed_nodes@, current.position, k as int),
            all_scored(open_nodes@, destination),
            uniform_open(provider, movement_type) && provider.area().holds(origin) && provider.area().holds(destination) ==> lower_bounded(
                open_nodes@,
                origin,
            ) && current.cost_from_start >= diagonal_distance(origin, current.position),
            no_costlier(start, open_nodes@),
            forall|j: int|
                0 <= j < k ==> step_offered(
                    provider,
                    movement_type,
                    open_nodes@,
                    closed_nodes@,
                    current,
                    j,
                ),
        decreases 8 - k,
    {
        let (next, is_diagonal) = step(current.position, k);
        if let Some(q) = next {
            if area.contains(q) {
                let ghost open_prev = open_nodes@;
                current.update_at_position(
                    q,
                    is_diagonal,
                    destination,
                    provider,
                    movement_type,
                    open_nodes,
                    closed_nodes,
                );
                proof {
                    lemma_neighbor_handled(
                        provider,
                        movement_type,
                        origin,
                        open_prev,
                        open_nodes@,
                        closed_nodes@,
                        current,
                        q,
                        k as int,
                    );
                    lemma_neighbor_costs(
                        provider,
                        movement_type,
                        origin,
                        destination,
                        start,
                        open_prev,
                        open_nodes@,
                        closed_nodes@,
                        current,
                        q,
                        k as int,
                    );
                }
            }
        }
        proof {
            assert(spec_step(current.position, k as int) == next);
            assert forall|j: int|
                0 <= j < k + 1 && (#[trigger] spec_step(current.position, j)) is Some
                    && provider.area().holds(spec_step(current.position, j)->0)
                    && provider.walkable(spec_step(current.position, j)->0, movement_type)
                implies pos_in(open_nodes@, spec_step(current.position, j)->0) || pos_in(
                closed_nodes@,
                spec_step(current.position, j)->0,
            ) by {
                if j < k {
                    assert(expanded(provider, movement_type, open_nodes@, closed_nodes@, current.position, k as int));
                }
            }
        }
        k = k + 1;
    }
    proof {
        let cl = closed_nodes@;
        assert forall|i: int| 0 <= i < cl.len() implies expanded(
            provider,
            movement_type,
            open_nodes@,
            cl,
            #[trigger] cl[i].position,
            8,
        ) by {
            if i == cl.len() - 1 {
                assert(cl[i] == current);
            }
        }
        reveal(round_done);
    }
}

/// What the node taken first from the open list brings: its links, and on a
/// uniform area its cheapest cost on a cheapest line.
proof fn lemma_popped<P: PathProvider>(
    provider: &P,
    movement: u8,
    origin: Coord,
    destination: Coord,
    open: Seq<AStarNode>,
    closed: Seq<AStarNode>,
)
    requires
        open.len() > 0,
        search_inv(provider, movement, origin, destination, open, closed),
    ensures
        distinct(closed),
        linked(provider, movement, origin, closed, closed.len() as int, open[0]),
        !pos_in(closed, open[0].position),
        forall|i: int|
            0 <= i < closed.len() ==> linked(provider, movement, origin, closed, i, #[trigger] closed[i]),
        open[0].position == origin ==> open[0].from_node is None,
        uniform_open(provider, movement) && provider.area().holds(origin) && provider.area().holds(destination) ==> {
            &&& open[0].cost_from_start == diagonal_distance(origin, open[0].position)
            &&& on_best_line(origin, destination, open[0].position)
        },
{
    reveal(search_inv);
    assert(linked(provider, movement, origin, closed, closed.len() as int, open[0]));
    if pos_in(closed, origin) {
        assert(!pos_in(closed, open[0].position));
    }
    if uniform_open(provider, movement) && provider.area().holds(origin) && provider.area().holds(destination) {
        lemma_triangle(origin, origin, destination);
        if pos_in(closed, origin) {
            if pos_in(closed, destination) {
                let j = choose|j: int| 0 <= j < closed.len() && #[trigger] closed[j].position == destination;
                assert(closed[j].position != destination);
            }
            lemma_open_witness(provider, movement, origin, destination, open, closed, origin);
        } else {
            assert(open[0].cost_from_start == 0);
            assert(on_best_line(origin, destination, open[0].position));
        }
        lemma_pop_exact(origin, destination, open);
    }
}

/// What holds once the first open node has been closed, before its
/// neighbors are handled.
#[verifier::opaque]
pub open spec fn round_ready<P: PathProvider>(
    provider: &P,
    movement: u8,
    origin: Coord,
    destination: Coord,
    om: Seq<AStarNode>,
    cl: Seq<AStarNode>,
    current: AStarNode,
) -> bool {
    &&& cl.len() > 0
    &&& cl.last() == current
    &&& sorted(om)
    &&& distinct(om)
    &&& distinct(cl)
    &&& pos_in(cl, origin)
    &&& forall|i: int|
        0 <= i < om.len() ==> linked(
            provider,
            movement,
            origin,
            cl,
            cl.len() as int,
            #[trigger] om[i],
        ) && !pos_in(cl, om[i].position) && reached(provider, movement, om[i])
    &&& forall|i: int|
        0 <= i < cl.len() ==> linked(provider, movement, origin, cl, i, #[trigger] cl[i])
            && cl[i].position != destination
    &&& forall|i: int|
        0 <= i < cl.len() - 1 ==> expanded(
            provider,
            movement,
            om,
            cl,
            #[trigger] cl[i].position,
            8,
        )
    &&& all_scored(om, destination)
    &&& all_scored(cl, destination)
    &&& uniform_open(provider, movement) && provider.area().holds(origin) && provider.area().holds(destination) ==> {
        &&& lower_bounded(om, origin)
        &&& lower_bounded(cl, origin)
        &&& current.cost_from_start == diagonal_distance(origin, current.position)
        &&& on_best_line(origin, destination, current.position)
        &&& forall|c: int|
            0 <= c < cl.len() - 1 ==> pending_ok(
                om,
                cl,
                origin,
                destination,
                (#[trigger] cl[c]).position,
            )
    }
}

/// What handling the neighbors of the node just closed brings about.
#[verifier::opaque]
pub open spec fn round_done<P: PathProvider>(
    provider: &P,
    movement: u8,
    origin: Coord,
    destination: Coord,
    om: Seq<AStarNode>,
    of: Seq<AStarNode>,
    cl: Seq<AStarNode>,
    current: AStarNode,
) -> bool {
    &&& sorted(of)
    &&& distinct(of)
    &&& forall|i: int|
        0 <= i < of.len() ==> linked(provider, movement, origin, cl, cl.len() as int, #[trigger] of[i])
            && !pos_in(cl, of[i].position)
    &&& forall|i: int|
        0 <= i < cl.len() ==> expanded(provider, movement, of, cl, #[trigger] cl[i].position, 8)
    &&& all_scored(of, destination)
    &&& uniform_open(provider, movement) && provider.area().holds(origin) && provider.area().holds(destination) ==> lower_bounded(
        of,
        origin,
    )
    &&& no_costlier(om, of)
    &&& forall|j: int| 0 <= j < 8 ==> step_offered(provider, movement, of, cl, current, j)
}

/// Closing the first open node prepares its expansion: every fact the
/// search holds carries over to the shorter open list and longer closed list.
proof fn lemma_pushed<P: PathProvider>(
    provider: &P,
    movement: u8,
    origin: Coord,
    destination: Coord,
    open: Seq<AStarNode>,
    closed: Seq<AStarNode>,
)
    requires
        open.len() > 0,
        open[0].position != destination,
        search_inv(provider, movement, origin, destination, open, closed),
    ensures
        closed.push(open[0]).len() <= provider.area().cell_count() + 1,
        round_ready(
            provider,
            movement,
            origin,
            destination,
            open.subrange(1, open.len() as int),
            closed.push(open[0]),
            open[0],
        ),
{
    lemma_popped(provider, movement, origin, destination, open, closed);
    reveal(search_inv);
    let current = open[0];
    let om = open.subrange(1, open.len() as int);
    let cl = closed.push(current);
    let n0 = closed.len() as int;
    lemma_remove_node(open, 0);
    assert(om =~= open.remove(0));
    assert(cl =~= closed.insert(n0, current));
    assert(!pos_in(closed, current.position));
    lemma_insert_nodes(closed, n0, current);
    assert forall|i: int| 0 <= i < cl.len() implies provider.area().holds(
        #[trigger] cl[i].position,
    ) || cl[i].position == origin by {
        if i < n0 {
            assert(cl[i] == closed[i]);
            assert(linked(provider, movement, origin, closed, i, closed[i]));
        }
    }
    lemma_nodes_fit_area(cl, provider.area(), origin);
    assert forall|i: int| 0 <= i < cl.len() implies linked(
        provider,
        movement,
        origin,
        cl,
        i,
        #[trigger] cl[i],
    ) && cl[i].position != destination by {
        if i < n0 {
            assert(cl[i] == closed[i]);
            assert(linked(provider, movement, origin, closed, i, closed[i]));
            if cl[i].from_node is Some {
                let j = choose|j: int| 0 <= j < i && #[trigger] parent_ok(closed[j], cl[i]);
                assert(cl[j] == closed[j]);
            }
        } else {
            assert(cl[i] == current);
            if current.from_node is Some {
                let j = choose|j: int| 0 <= j < n0 && #[trigger] parent_ok(closed[j], current);
                assert(cl[j] == closed[j]);
            }
        }
    }
    assert forall|i: int| 0 <= i < om.len() implies linked(
        provider,
        movement,
        origin,
        cl,
        cl.len() as int,
        #[trigger] om[i],
    ) && !pos_in(cl, om[i].position) && reached(provider, movement, om[i]) by {
        let n = om[i];
        assert(n == open[i + 1]);
        assert(linked(provider, movement, origin, closed, n0, open[i + 1]));
        assert(scored(open[i + 1], destination));
        assert(n.position != current.position);
        if n.from_node is Some {
            let j = choose|j: int| 0 <= j < n0 && #[trigger] parent_ok(closed[j], n);
            assert(cl[j] == closed[j]);
        }
    }
    assert forall|i: int| 0 <= i < cl.len() - 1 implies expanded(
        provider,
        movement,
        om,
        cl,
        #[trigger] cl[i].position,
        8,
    ) by {
        assert(cl[i] == closed[i]);
        lemma_expanded_grows(provider, movement, open, closed, om, cl, cl[i].position, 8);
    }
    assert forall|i: int| 0 <= i < om.len() implies scored(#[trigger] om[i], destination) by {
        assert(om[i] == open[i + 1]);
    }
    assert forall|i: int| 0 <= i < cl.len() implies scored(#[trigger] cl[i], destination) by {
        if i < n0 {
            assert(cl[i] == closed[i]);
        }
    }
    if uniform_open(provider, movement) && provider.area().holds(origin) && provider.area().holds(destination) {
        assert forall|i: int| 0 <= i < om.len() implies (#[trigger] om[i]).cost_from_start
            >= diagonal_distance(origin, om[i].position) by {
            assert(om[i] == open[i + 1]);
        }
        assert forall|i: int| 0 <= i < cl.len() implies (#[trigger] cl[i]).cost_from_start
            >= diagonal_distance(origin, cl[i].position) by {
            if i < n0 {
                assert(cl[i] == closed[i]);
            }
        }
        assert forall|c: int| 0 <= c < cl.len() - 1 implies pending_ok(
            om,
            cl,
            origin,
            destination,
            (#[trigger] cl[c]).position,
        ) by {
            assert(cl[c] == closed[c]);
            assert(pending_ok(open, closed, origin, destination, closed[c].position));
            let x = closed[c].position;
            if on_best_line(origin, destination, x) && x != destination {
                lemma_offered_pop(
                    open,
                    closed,
                    toward(x, destination),
                    diagonal_distance(origin, toward(x, destination)),
                );
            }
        }
    }
    reveal(round_ready);
}

/// On a uniform area, the node just closed, on a cheapest line at its
/// cheapest cost, offers its next cell towards the destination.
proof fn lemma_current_pending<P: PathProvider>(
    provider: &P,
    movement: u8,
    origin: Coord,
    destination: Coord,
    of: Seq<AStarNode>,
    cl: Seq<AStarNode>,
    current: AStarNode,
)
    requires
        uniform_open(provider, movement),
        provider.area().holds(origin),
        provider.area().holds(destination),
        provider.area().holds(current.position),
        current.cost_from_start == diagonal_distance(origin, current.position),
        forall|j: int| 0 <= j < 8 ==> step_offered(provider, movement, of, cl, current, j),
    ensures
        pending_ok(of, cl, origin, destination, current.position),
{
    let x = current.position;
    if on_best_line(origin, destination, x) && x != destination {
        let t = toward(x, destination);
        lemma_toward(origin, x, destination, provider.area());
        let j = lemma_adjacent_direction(x, t);
        assert(step_offered(provider, movement, of, cl, current, j));
        assert(provider.step_cost(t, movement) == 1);
        assert(unit_step(x, t) == step_price(is_diag(x, t), 1));
    }
}

/// The facts of a round's start that the pending cells need.
proof fn lemma_ready_facts<P: PathProvider>(
    provider: &P,
    movement: u8,
    origin: Coord,
    destination: Coord,
    om: Seq<AStarNode>,
    cl: Seq<AStarNode>,
    current: AStarNode,
)
    requires
        round_ready(provider, movement, origin, destination, om, cl, current),
        uniform_open(provider, movement),
        provider.area().holds(origin),
        provider.area().holds(destination),
    ensures
        cl.len() > 0,
        cl.last() == current,
        provider.area().holds(current.position),
        current.cost_from_start == diagonal_distance(origin, current.position),
        forall|c: int|
            0 <= c < cl.len() - 1 ==> pending_ok(
                om,
                cl,
                origin,
                destination,
                (#[trigger] cl[c]).position,
            ),
{
    reveal(round_ready);
    assert(linked(provider, movement, origin, cl, cl.len() - 1, cl[cl.len() - 1]));
}

/// The facts of a round's end that the pending cells need.
proof fn lemma_done_facts<P: PathProvider>(
    provider: &P,
    movement: u8,
    origin: Coord,
    destination: Coord,
    om: Seq<AStarNode>,
    of: Seq<AStarNode>,
    cl: Seq<AStarNode>,
    current: AStarNode,
)
    requires
        round_done(provider, movement, origin, destination, om, of, cl, current),
    ensures
        no_costlier(om, of),
        forall|j: int| 0 <= j < 8 ==> step_offered(provider, movement, of, cl, current, j),
{
    reveal(round_done);
}

/// After the neighbors of the node just closed are handled, on a uniform
/// area every closed cell on a cheapest line has its next cell offered.
proof fn lemma_expanded_pending<P: PathProvider>(
    provider: &P,
    movement: u8,
    origin: Coord,
    destination: Coord,
    om: Seq<AStarNode>,
    of: Seq<AStarNode>,
    cl: Seq<AStarNode>,
    current: AStarNode,
)
    requires
        round_ready(provider, movement, origin, destination, om, cl, current),
        round_done(provider, movement, origin, destination, om, of, cl, current),
        uniform_open(provider, movement),
        provider.area().holds(origin),
        provider.area().holds(destination),
    ensures
        forall|c: int|
            0 <= c < cl.len() ==> pending_ok(
                of,
                cl,
                origin,
                destination,
                (#[trigger] cl[c]).position,
            ),
{
    lemma_ready_facts(provider, movement, origin, destination, om, cl, current);
    lemma_done_facts(provider, movement, origin, destination, om, of, cl, current);
    lemma_current_pending(provider, movement, origin, destination, of, cl, current);
    assert forall|c: int| 0 <= c < cl.len() implies pending_ok(
        of,
        cl,
        origin,
        destination,
        (#[trigger] cl[c]).position,
    ) by {
        let x = cl[c].position;
        if c < cl.len() - 1 {
            if on_best_line(origin, destination, x) && x != destination {
                let t = toward(x, destination);
                assert(pending_ok(om, cl, origin, destination, cl[c].position));
                lemma_offered_grows(om, of, cl, t, diagonal_distance(origin, t));
            }
        } else {
            assert(cl[c] == current);
        }
    }
}

/// After the closed node's neighbors are handled, the search's round
/// invariant holds again.
proof fn lemma_expanded<P: PathProvider>(
    provider: &P,
    movement: u8,
    origin: Coord,
    destination: Coord,
    om: Seq<AStarNode>,
    of: Seq<AStarNode>,
    cl: Seq<AStarNode>,
    current: AStarNode,
)
    requires
        round_ready(provider, movement, origin, destination, om, cl, current),
        round_done(provider, movement, origin, destination, om, of, cl, current),
    ensures
        search_inv(provider, movement, origin, destination, of, cl),
{
    if uniform_open(provider, movement) && provider.area().holds(origin) && provider.area().holds(destination) {
        lemma_expanded_pending(provider, movement, origin, destination, om, of, cl, current);
    }
    reveal(search_inv);
    reveal(round_ready);
    reveal(round_done);
}

/// The open list is kept in order between rounds.
proof fn lemma_inv_sorted<P: PathProvider>(
    provider: &P,
    movement: u8,
    origin: Coord,
    destination: Coord,
    open: Seq<AStarNode>,
    closed: Seq<AStarNode>,
)
    requires
        search_inv(provider, movement, origin, destination, open, closed),
    ensures
        sorted(open),
{
    reveal(search_inv);
}

/// The search starts with the origin's node alone open and nothing closed.
proof fn lemma_search_start<P: PathProvider>(
    provider: &P,
    movement: u8,
    origin: Coord,
    destination: Coord,
    start: AStarNode,
)
    requires
        start.is_walkable,
        start.position == origin,
        start.from_node is None,
        start.cost_from_start == 0,
        start.cost_from_end == diagonal_distance(origin, destination),
        start.cost_total == start.cost_from_end,
    ensures
        search_inv(provider, movement, origin, destination, seq![start], Seq::<AStarNode>::empty()),
{
    reveal(search_inv);
    lemma_triangle(origin, origin, destination);
    let open = seq![start];
    assert(scored(open[0], destination));
    assert(pos_in(open, origin) || open[0].position == origin);
}

/// When the open list runs empty, no walk reaches the destination, and the
/// area cannot be uniform with the destination inside it.
proof fn lemma_search_exhausted<P: PathProvider>(
    provider: &P,
    movement: u8,
    origin: Coord,
    destination: Coord,
    closed: Seq<AStarNode>,
)
    requires
        search_inv(provider, movement, origin, destination, Seq::<AStarNode>::empty(), closed),
    ensures
        !path_exists(provider, movement, origin, destination),
        !(uniform_open(provider, movement) && provider.area().holds(origin) && provider.area().holds(destination)),
        origin != destination,
{
    reveal(search_inv);
    if pos_in(closed, destination) {
        let j = choose|j: int| 0 <= j < closed.len() && #[trigger] closed[j].position == destination;
        assert(closed[j].position != destination);
    }
    lemma_exhausted_no_route(provider, movement, origin, destination, closed);
    if uniform_open(provider, movement) && provider.area().holds(origin) && provider.area().holds(destination) {
        lemma_triangle(origin, origin, destination);
        lemma_open_witness(
            provider,
            movement,
            origin,
            destination,
            Seq::<AStarNode>::empty(),
            closed,
            origin,
        );
    }
    if origin == destination {
        let s = seq![origin];
        assert(is_route(provider, movement, s));
        assert(s.last() == destination);
    }
}

/// A path rebuilt from the destination's node meets the search's promises.
proof fn lemma_found<P: PathProvider>(
    provider: &P,
    movement: u8,
    origin: Coord,
    destination: Coord,
    current: AStarNode,
    t: Seq<Coord>,
)
    requires
        back_route(provider, movement, origin, destination, t),
        current.position == destination,
        current.from_node is None ==> t.len() == 0,
        uniform_open(provider, movement) && current.cost_from_start < u64::MAX ==> back_cost(
            origin,
            t,
        ) == current.cost_from_start,
        current.position == origin ==> current.from_node is None,
        uniform_open(provider, movement) && provider.area().holds(origin) && provider.area().holds(destination)
            ==> current.cost_from_start == diagonal_distance(origin, current.position),
    ensures
        path_exists(provider, movement, origin, destination),
        origin == destination ==> t.len() == 0,
        uniform_open(provider, movement) && provider.area().holds(origin) && provider.area().holds(destination) ==> back_cost(
            origin,
            t,
        ) == diagonal_distance(origin, destination) && t.len() == chebyshev(origin, destination),
{
    lemma_back_route_walk(provider, movement, origin, destination, t);
    lemma_triangle(origin, destination, destination);
    lemma_back_route_cost(provider, movement, origin, destination, t);
}

/// Searches for the cheapest walk from `origin` to `destination` under the
/// movement mask. The result lists the cells from the destination back to the
/// step after the origin; `None` means that no walk exists. On an area where
/// every cell is walkable at unit cost, the path found costs exactly the
/// scaled diagonal distance and takes one step per king move.
pub fn find_path<P: PathProvider>(
    origin: Coord,
    destination: Coord,
    movement_type: u8,
    provider: &P,
) -> (r: Option<Vec<Coord>>)
    ensures
        r is Some ==> back_route(provider, movement_type, origin, destination, r->0@),
        r is Some ==> r->0@.no_duplicates() && !r->0@.contains(origin),
        r is Some <==> path_exists(provider, movement_type, origin, destination),
        origin == destination ==> r is Some && r->0@.len() == 0,
        uniform_open(provider, movement_type) && provider.area().holds(origin)
            && provider.area().holds(destination) ==> r is Some && back_cost(origin, r->0@)
            == diagonal_distance(origin, destination) && r->0@.len() == chebyshev(
            origin,
            destination,
        ),
{
    let area = provider.bounds();
    let mut open_nodes: Vec<AStarNode> = Vec::new();
    open_nodes.push(AStarNode::new(origin, destination));
    let mut closed_nodes: Vec<AStarNode> = Vec::new();
    proof {
        lemma_search_start(provider, movement_type, origin, destination, open_nodes@[0]);
        assert(open_nodes@ =~= seq![open_nodes@[0]]);
        assert(closed_nodes@ =~= Seq::<AStarNode>::empty());
    }
    while open_nodes.len() > 0
        invariant
            area == provider.area(),
            search_inv(provider, movement_type, origin, destination, open_nodes@, closed_nodes@),
        decreases area.cell_count() + 1 - closed_nodes@.len(),
    {
        let ghost open_before = open_nodes@;
        let ghost closed_before = closed_nodes@;
        proof {
            lemma_inv_sorted(provider, movement_type, origin, destination, open_before, closed_before);
        }
        let current = pop_lowest(&mut open_nodes);
        if current.position == destination {
            proof {
                lemma_popped(provider, movement_type, origin, destination, open_before, closed_before);
            }
            let path = reconstruct_path(
                current,
                &closed_nodes,
                provider,
                movement_type,
                origin,
                destination,
            );
            proof {
                lemma_found(provider, movement_type, origin, destination, current, path@);
            }
            return Some(path);
        }
        closed_nodes.push(current);
        proof {
            lemma_pushed(provider, movement_type, origin, destination, open_before, closed_before);
            assert(open_nodes@ =~= open_before.subrange(1, open_before.len() as int));
        }
        let ghost open_mid = open_nodes@;
        expand_node(
            current,
            destination,
            provider,
            movement_type,
            origin,
            &mut open_nodes,
            &closed_nodes,
        );
        proof {
            lemma_expanded(
                provider,
                movement_type,
                origin,
                destination,
                open_mid,
                open_nodes@,
                closed_nodes@,
                current,
            );
        }
    }
    proof {
        assert(open_nodes@ =~= Seq::<AStarNode>::empty());
        lemma_search_exhausted(provider, movement_type, origin, destination, closed_nodes@);
    }
    None
}

/// The scaled cost of a step between neighbors with a multiplier of one.
pub open spec fn unit_step(a: Coord, b: Coord) -> int {
    if a.x != b.x && a.y != b.y {
        14
    } else {
        10
    }
}

/// The scaled cost of walking a chain of neighboring cells with multipliers
/// of one.
pub open spec fn chain_cost(s: Seq<Coord>) -> int
    decreases s.len(),
{
    if s.len() <= 1 {
        0
    } else {
        unit_step(s[0], s[1]) + chain_cost(s.drop_first())
    }
}

/// The scaled cost of a found path with multipliers of one: its cells from
/// the destination back, then the origin.
pub open spec fn back_cost(origin: Coord, t: Seq<Coord>) -> int {
    chain_cost(t.push(origin))
}

/// The number of king moves between two cells.
pub open spec fn chebyshev(a: Coord, b: Coord) -> int {
    let dx = abs_diff(a.x as int, b.x as int);
    let dy = abs_diff(a.y as int, b.y as int);
    if dx >= dy {
        dx
    } else {
        dy
    }
}

/// One step changes the distance to `o` by at most its cost, and a step that
/// does not bring a cell one king move further from `o` wastes at least 6.
pub proof fn lemma_step_slack(o: Coord, a: Coord, b: Coord)
    requires
        adjacent(b, a),
    ensures
        diagonal_distance(o, b) <= diagonal_distance(o, a) + unit_step(b, a),
        chebyshev(o, b) <= chebyshev(o, a) + 1,
        unit_step(b, a) - (diagonal_distance(o, b) - diagonal_distance(o, a)) >= 6 * (1 - (
        chebyshev(o, b) - chebyshev(o, a))),
{
}

/// A chain ending at `o` costs at least the scaled diagonal distance from its
/// first cell to `o`, has at least as many steps as king moves between them,
/// and every step beyond that number costs at least 6 more.
pub proof fn lemma_chain_slack(o: Coord, s: Seq<Coord>)
    requires
        s.len() >= 1,
        s.last() == o,
        forall|i: int| 0 <= i < s.len() - 1 ==> adjacent(#[trigger] s[i + 1], s[i]),
    ensures
        s.len() - 1 >= chebyshev(o, s[0]),
        chain_cost(s) - diagonal_distance(o, s[0]) >= 6 * (s.len() - 1 - chebyshev(o, s[0])),
        chain_cost(s) >= diagonal_distance(o, s[0]),
    decreases s.len(),
{
    if s.len() > 1 {
        let r = s.drop_first();
        assert forall|i: int| 0 <= i < r.len() - 1 implies adjacent(#[trigger] r[i + 1], r[i]) by {
            assert(r[i + 1] == s[i + 2] && r[i] == s[i + 1]);
            assert(adjacent(s[(i + 1) + 1], s[i + 1]));
        }
        assert(r.last() == o);
        lemma_chain_slack(o, r);
        assert(adjacent(s[0int + 1], s[0]));
        lemma_step_slack(o, s[1], s[0]);
        assert(unit_step(s[0], s[1]) == unit_step(s[1], s[0]));
        assert(adjacent(s[1], s[0]));
    } else {
        assert(s[0] == o);
    }
}

/// A found path costs at least the scaled diagonal distance between origin
/// and destination; one that costs exactly that takes as many steps as king
/// moves between them.
pub proof fn lemma_back_route_cost<P: PathProvider>(
    provider: &P,
    movement: u8,
    origin: Coord,
    destination: Coord,
    t: Seq<Coord>,
)
    requires
        back_route(provider, movement, origin, destination, t),
    ensures
        back_cost(origin, t) >= diagonal_distance(origin, destination),
        back_cost(origin, t) == diagonal_distance(origin, destination) ==> t.len() == chebyshev(
            origin,
            destination,
        ),
{
    let s = t.push(origin);
    assert forall|i: int| 0 <= i < s.len() - 1 implies adjacent(#[trigger] s[i + 1], s[i]) by {
        if i + 1 < t.len() {
            assert(s[i + 1] == t[i + 1] && s[i] == t[i]);
        } else {
            assert(s[i + 1] == origin && s[i] == t.last());
        }
    }
    lemma_chain_slack(origin, s);
    if t.len() == 0 {
        assert(s[0] == origin);
    } else {
        assert(s[0] == destination);
    }
    assert(diagonal_distance(origin, destination) == diagonal_distance(destination, origin));
    assert(chebyshev(origin, destination) == chebyshev(destination, origin));
}

/// A destination walled in on all eight sides, by cells that are outside the
/// area or not walkable, cannot be reached from an origin outside that ring:
/// no walk exists, so the search reports no path.
pub proof fn lemma_enclosed_destination<P: PathProvider>(
    provider: &P,
    movement: u8,
    origin: Coord,
    destination: Coord,
)
    requires
        origin != destination,
        !adjacent(origin, destination),
        forall|q: Coord|
            adjacent(q, destination) ==> !provider.area().holds(q) || !provider.walkable(
                q,
                movement,
            ),
    ensures
        !path_exists(provider, movement, origin, destination),
{
    if path_exists(provider, movement, origin, destination) {
        let s = choose|s: Seq<Coord>|
            is_route(provider, movement, s) && s[0] == origin && s.last() == destination;
        let n = s.len() as int;
        assert(n >= 2) by {
            if n == 1 {
                assert(s[0] == s.last());
            }
        }
        assert(adjacent(s[n - 2], s[n - 1]));
        if n - 2 == 0 {
            assert(s[n - 2] == origin);
        } else {
            assert(provider.area().holds(s[n - 2]));
            assert(provider.walkable(s[n - 2], movement));
        }
    }
}

} // verus!
