//! A* path search on the isometric grid with height-based bridge routing.
//!
//! Each cell has a ground and a bridge search state (cost so far, parent and
//! closed flag). The layer a neighbor is searched on is chosen from the
//! current node's height against the neighbor's ground level.

use crate::grid_index::{
    cell_index, chebyshev, lemma_index_coords, lemma_index_decompose, lemma_index_in_bounds, opt_set_contains,
    opt_set_has,
};
use crate::map::{ResolvedTerrainCell, ResolvedTerrainGrid};
use crate::movement::MovementLayer;
use crate::pathfinding::open_set::{heap_pop, heap_push, AStarNode};
use crate::pathfinding::passability::{is_passable_for_zone, spec_passable_for_zone, LandType};
use crate::pathfinding::path_grid::{default_blocked_cell, LayeredPathStep, PathCell, PathGrid};
use crate::pathfinding::terrain_cost::TerrainCostGrid;
use crate::pathfinding::zone_map::{ZoneId, ZoneMap, ZONE_INVALID};
use crate::pathfinding::zone_build::lemma_dir_of;
use crate::rules::MovementZone;
use std::collections::{BTreeMap, BTreeSet};
use vstd::prelude::*;

verus! {

/// Cost of a cardinal step, scaled by 10.
pub const CARDINAL_COST: i64 = 10;

/// Cost of a diagonal step (about 10 times the square root of 2).
pub const DIAGONAL_COST: i64 = 14;

/// Nodes evaluated before the search gives up.
pub const MAX_SEARCH_NODES: u32 = 65527;

/// Movement steps per path segment before a unit replans.
pub const MAX_PATH_SEGMENT_STEPS: usize = 24;

/// Multiplier for a step that changes height.
pub const CLIFF_COST_MULTIPLIER: i64 = 4;

/// Friendly-blocker multiplier when the blocker chain clears.
pub const CODE2_MULT_CLEARING: i64 = 1;

/// Friendly-blocker multiplier for a traffic jam.
pub const CODE2_MULT_JAM: i64 = 4;

/// Friendly-blocker multiplier that makes the search route around.
pub const CODE2_MULT_ROUTE_AROUND: i64 = 1000;

/// Hops followed along a friendly-blocker chain.
pub const CODE2_CHAIN_MAX_HOPS: usize = 10;

/// Height difference from a cell's ground at which a node is on its bridge.
pub const BRIDGE_HEIGHT_THRESHOLD: u8 = 2;

/// Bridge flag bit of an encoded parent value.
pub const CAME_FROM_BRIDGE: usize = 0x100000;

/// Largest cost of one step: a diagonal on the slowest terrain, changing
/// height, behind a blocker to route around, plus the direction tie-break.
pub open spec fn max_step() -> int {
    6_000_000
}

/// Absolute difference of two heights.
pub open spec fn abs_diff(a: u8, b: u8) -> int {
    if a >= b {
        a - b
    } else {
        b - a
    }
}

/// Whether a node at `path_height` uses the bridge state of `cell`.
pub open spec fn spec_is_at_bridge_level(path_height: u8, cell: PathCell) -> bool {
    cell.bridge_walkable && abs_diff(path_height, cell.ground_level) >= 2
}

/// Whether a node at `path_height` uses the bridge state of `cell`: the cell
/// has a walkable bridge and the height is at least 2 away from its ground.
pub fn is_at_bridge_level(path_height: u8, cell: &PathCell) -> (r: bool)
    ensures
        r == spec_is_at_bridge_level(path_height, *cell),
{
    let d = if path_height >= cell.ground_level {
        path_height - cell.ground_level
    } else {
        cell.ground_level - path_height
    };
    cell.bridge_walkable && d >= BRIDGE_HEIGHT_THRESHOLD
}

/// Height a node carries into `neighbor` from `parent` at `parent_height`.
pub open spec fn spec_neighbor_height(parent_height: u8, parent: PathCell, neighbor: PathCell) -> u8 {
    if !neighbor.bridge_walkable {
        neighbor.ground_level
    } else if parent.bridge_walkable {
        if parent_height == parent.bridge_deck_level {
            neighbor.bridge_deck_level
        } else {
            neighbor.ground_level
        }
    } else {
        let diff = parent_height - neighbor.ground_level;
        if 2 <= diff <= 4 {
            neighbor.bridge_deck_level
        } else {
            neighbor.ground_level
        }
    }
}

/// Height a node carries into `neighbor_cell`: ground level off bridges;
/// between bridge cells the deck is kept or left; from plain ground a bridge
/// deck is entered only from 2 to 4 levels above its ground.
pub fn compute_neighbor_height(parent_height: u8, parent_cell: &PathCell, neighbor_cell: &PathCell) -> (r: u8)
    ensures
        r == spec_neighbor_height(parent_height, *parent_cell, *neighbor_cell),
{
    if !neighbor_cell.bridge_walkable {
        return neighbor_cell.ground_level;
    }
    if parent_cell.bridge_walkable {
        if parent_height == parent_cell.bridge_deck_level {
            return neighbor_cell.bridge_deck_level;
        } else {
            return neighbor_cell.ground_level;
        }
    }
    let diff: i16 = parent_height as i16 - neighbor_cell.ground_level as i16;
    if 2 <= diff && diff <= 4 {
        neighbor_cell.bridge_deck_level
    } else {
        neighbor_cell.ground_level
    }
}

/// Encode a parent index and bridge flag into one value.
pub fn encode_from(cell_idx: usize, on_bridge: bool) -> (r: usize)
    ensures
        r == cell_idx | (if on_bridge {
            CAME_FROM_BRIDGE
        } else {
            0usize
        }),
{
    cell_idx | if on_bridge {
        CAME_FROM_BRIDGE
    } else {
        0
    }
}

/// Split an encoded parent value into index and bridge flag.
pub fn decode_from(value: usize) -> (r: (usize, bool))
    ensures
        r.0 == value & !CAME_FROM_BRIDGE,
        r.1 == (value & CAME_FROM_BRIDGE != 0),
{
    (value & !CAME_FROM_BRIDGE, value & CAME_FROM_BRIDGE != 0)
}

/// Decoding undoes encoding for every index below the bridge bit.
pub proof fn lemma_decode_encode(cell_idx: usize, on_bridge: bool)
    requires
        cell_idx < CAME_FROM_BRIDGE,
    ensures
        (cell_idx | (if on_bridge {
            CAME_FROM_BRIDGE
        } else {
            0usize
        })) & !CAME_FROM_BRIDGE == cell_idx,
        ((cell_idx | (if on_bridge {
            CAME_FROM_BRIDGE
        } else {
            0usize
        })) & CAME_FROM_BRIDGE != 0) == on_bridge,
{
    if on_bridge {
        assert((cell_idx | 0x100000usize) & !0x100000usize == cell_idx) by (bit_vector)
            requires
                cell_idx < 0x100000usize,
        ;
        assert((cell_idx | 0x100000usize) & 0x100000usize != 0) by (bit_vector);
    } else {
        assert((cell_idx | 0usize) & !0x100000usize == cell_idx) by (bit_vector)
            requires
                cell_idx < 0x100000usize,
        ;
        assert((cell_idx | 0usize) & 0x100000usize == 0) by (bit_vector)
            requires
                cell_idx < 0x100000usize,
        ;
    }
}

/// Octile distance: cardinal cost per step of the longer axis plus the
/// diagonal surcharge per step of the shorter one.
pub open spec fn spec_octile(ax: u16, ay: u16, bx: u16, by: u16) -> int {
    let dx = if ax >= bx {
        ax - bx
    } else {
        bx - ax
    };
    let dy = if ay >= by {
        ay - by
    } else {
        by - ay
    };
    let mn = if dx <= dy {
        dx
    } else {
        dy
    };
    let mx = if dx <= dy {
        dy
    } else {
        dx
    };
    mx * 10 + mn * 4
}

/// Octile distance heuristic for 8-directional movement.
pub fn octile_heuristic(ax: u16, ay: u16, bx: u16, by: u16) -> (r: i64)
    ensures
        r == spec_octile(ax, ay, bx, by),
        0 <= r <= 65535 * 14,
{
    let dx: i64 = if ax >= bx {
        (ax - bx) as i64
    } else {
        (bx - ax) as i64
    };
    let dy: i64 = if ay >= by {
        (ay - by) as i64
    } else {
        (by - ay) as i64
    };
    let min_d: i64 = if dx <= dy {
        dx
    } else {
        dy
    };
    let max_d: i64 = if dx <= dy {
        dy
    } else {
        dx
    };
    assert(0 <= min_d <= max_d <= 65535);
    max_d * 10 + min_d * 4
}

/// Multiplier for a friendly moving blocker, following its chain of next
/// cells for at most `hops` hops.
pub open spec fn spec_chain_mult(cur: (u16, u16), map: Map<(u16, u16), (u16, u16)>, hops: nat) -> int
    decreases hops,
{
    if hops == 0 {
        4
    } else if !map.contains_key(cur) {
        1
    } else if map[cur] == cur {
        4
    } else {
        spec_chain_mult(map[cur], map, (hops - 1) as nat)
    }
}

/// Friendly-blocker multiplier for an urgency level.
pub open spec fn spec_code2_multiplier(urgency: u8, start_cell: (u16, u16), map: Map<(u16, u16), (u16, u16)>) -> int {
    if urgency >= 2 {
        1000
    } else if urgency == 1 {
        4
    } else {
        spec_chain_mult(start_cell, map, 10)
    }
}

/// Cost multiplier for entering a cell held by a friendly moving unit:
/// route around at urgency 2 or more, jam penalty at urgency 1, otherwise
/// follow the blocker chain for up to 10 hops (1 when it clears, 4 when it
/// loops back on itself or never clears).
pub fn compute_code2_multiplier(urgency: u8, start_cell: (u16, u16), map: &BTreeMap<(u16, u16), (u16, u16)>) -> (r: i64)
    ensures
        r == spec_code2_multiplier(urgency, start_cell, map@),
        r == 1 || r == 4 || r == 1000,
{
    if urgency >= 2 {
        return CODE2_MULT_ROUTE_AROUND;
    }
    if urgency == 1 {
        return CODE2_MULT_JAM;
    }
    let mut cur = start_cell;
    let mut i: usize = 0;
    while i < CODE2_CHAIN_MAX_HOPS
        invariant
            i <= 10,
            urgency == 0,
            spec_chain_mult(cur, map@, (10 - i) as nat) == spec_chain_mult(start_cell, map@, 10),
        decreases 10 - i,
    {
        proof {
            crate::keys::lemma_pair_keys_ordered();
        }
        match map.get(&cur) {
            None => {
                proof {
                    assert(!map@.contains_key(cur));
                    let h = (10 - i) as nat;
                    assert(h > 0);
                    assert(spec_chain_mult(cur, map@, h) == 1);
                }
                return CODE2_MULT_CLEARING;
            },
            Some(next) => {
                proof {
                    assert(map@.contains_key(cur) && map@[cur] == *next);
                }
                if next.0 == cur.0 && next.1 == cur.1 {
                    proof {
                        let h = (10 - i) as nat;
                        assert(*next == cur);
                        assert(spec_chain_mult(cur, map@, h) == 4);
                    }
                    return CODE2_MULT_JAM;
                }
                cur = *next;
            },
        }
        i = i + 1;
    }
    CODE2_MULT_JAM
}

/// Configuration of one search; `none()` gives a bare ground-only search.
pub struct AStarOptions<'a> {
    /// Terrain speed modifiers (cost 0 = blocked for the speed type).
    pub terrain_costs: Option<&'a TerrainCostGrid>,
    /// Cells blocked on the ground layer; the goal is exempt.
    pub entity_blocks: Option<&'a BTreeSet<(u16, u16)>>,
    /// Cells blocked on the bridge layer; the goal is exempt.
    pub bridge_blocks: Option<&'a BTreeSet<(u16, u16)>>,
    /// Friendly moving blockers: a blocker's cell to its next cell.
    pub entity_block_map: Option<&'a BTreeMap<(u16, u16), (u16, u16)>>,
    /// Friendly-blocker urgency (0 = follow chain, 1 = jam, 2 = route around).
    pub urgency: u8,
    /// Zone corridor: only cells of these zones (or of no zone) are expanded.
    pub corridor: Option<(&'a ZoneMap, &'a BTreeSet<ZoneId>)>,
    /// Movement zone, for ships and the passability matrix.
    pub movement_zone: Option<MovementZone>,
    /// Resolved terrain, for ships.
    pub resolved_terrain: Option<&'a ResolvedTerrainGrid>,
    /// Infantry always aim for the ground level of a bridge goal.
    pub is_infantry: bool,
}

impl<'a> AStarOptions<'a> {
    /// Options for a bare ground search.
    pub fn none() -> (r: Self)
        ensures
            r.terrain_costs is None,
            r.entity_blocks is None,
            r.bridge_blocks is None,
            r.entity_block_map is None,
            r.urgency == 0,
            r.corridor is None,
            r.movement_zone is None,
            r.resolved_terrain is None,
            !r.is_infantry,
    {
        AStarOptions {
            terrain_costs: None,
            entity_blocks: None,
            bridge_blocks: None,
            entity_block_map: None,
            urgency: 0,
            corridor: None,
            movement_zone: None,
            resolved_terrain: None,
            is_infantry: false,
        }
    }
}

/// Whether a ship can sail on a resolved cell.
pub open spec fn spec_water_surface_passable(cell: ResolvedTerrainCell, mz: MovementZone) -> bool {
    spec_passable_for_zone(cell.land_type, mz) || cell.is_water || (mz == MovementZone::WaterBeach
        && cell.land_type == 3)
}

/// Whether a ship can sail on a cell: the passability matrix allows it, the
/// cell is a water surface, or a beach for water-beach movers.
pub fn is_water_surface_cell_passable(cell: &ResolvedTerrainCell, movement_zone: MovementZone) -> (r: bool)
    ensures
        r == spec_water_surface_passable(*cell, movement_zone),
{
    let matrix_ok = is_passable_for_zone(cell.land_type, movement_zone);
    if matrix_ok {
        return true;
    }
    if cell.is_water {
        return true;
    }
    movement_zone == MovementZone::WaterBeach && cell.land_type == LandType::Beach.as_index()
}

/// Ground passability for a mover: ships read the resolved terrain (and are
/// blocked without it); everyone else reads the grid's ground walkability.
pub open spec fn spec_passable_for_mover(
    grid: PathGrid,
    x: u16,
    y: u16,
    mz: Option<MovementZone>,
    terrain: Option<&ResolvedTerrainGrid>,
) -> bool {
    match mz {
        Some(m) => if m.spec_is_water_mover() {
            match terrain {
                Some(t) => match t.spec_cell(x, y) {
                    Some(c) => spec_water_surface_passable(c, m),
                    None => false,
                },
                None => false,
            }
        } else {
            grid.spec_walkable(x, y)
        },
        None => grid.spec_walkable(x, y),
    }
}

/// Check a cell's ground passability for a mover.
pub fn is_cell_passable_for_mover(
    grid: &PathGrid,
    x: u16,
    y: u16,
    movement_zone: Option<MovementZone>,
    resolved_terrain: Option<&ResolvedTerrainGrid>,
) -> (r: bool)
    ensures
        r == spec_passable_for_mover(*grid, x, y, movement_zone, resolved_terrain),
{
    if let Some(mz) = movement_zone {
        if mz.is_water_mover() {
            if let Some(terrain) = resolved_terrain {
                if let Some(cell) = terrain.cell(x, y) {
                    return is_water_surface_cell_passable(cell, mz);
                }
            }
            return false;
        }
    }
    grid.is_walkable(x, y)
}

/// Whether the options make this a ship search.
pub open spec fn is_water_search(o: AStarOptions) -> bool {
    o.movement_zone is Some && o.movement_zone->0.spec_is_water_mover()
}

/// Whether the corridor (if any) allows `(x, y)`: cells of no zone are allowed.
pub open spec fn corridor_allows(o: AStarOptions, x: u16, y: u16) -> bool {
    match o.corridor {
        Some(c) => {
            let z = c.0.spec_zone_at(x, y, MovementLayer::Ground);
            z == ZONE_INVALID || c.1@.contains(z)
        },
        None => true,
    }
}

/// Whether a search may enter `(x, y)` on the bridge (`b`) or ground layer:
/// walkable there, not entity-blocked on that layer unless it is the goal,
/// allowed by the corridor, and (on the ground, for non-ships) of nonzero
/// terrain cost.
pub open spec fn step_ok(grid: PathGrid, o: AStarOptions, goal: (u16, u16), x: u16, y: u16, b: bool) -> bool {
    &&& grid.in_bounds(x as int, y as int)
    &&& if b {
        grid.spec_walkable_on_layer(x, y, MovementLayer::Bridge)
    } else {
        spec_passable_for_mover(grid, x, y, o.movement_zone, o.resolved_terrain)
    }
    &&& ((x, y) != goal ==> !opt_set_has(
        if b {
            o.bridge_blocks
        } else {
            o.entity_blocks
        },
        (x, y),
    ))
    &&& corridor_allows(o, x, y)
    &&& (!b && !is_water_search(o) && o.terrain_costs is Some ==> o.terrain_costs->0.spec_cost_at(x, y) > 0)
}

/// The corner rule of a step from `(px, py)` to `(x, y)` on the bridge deck
/// (`b`) or the ground: a diagonal step needs both cells beside it, the
/// cells one cardinal step from each end toward the other, walkable on that
/// layer (on the ground: passable for the mover and, unless costs are
/// ignored, of nonzero cost).
pub open spec fn corners_ok(grid: PathGrid, o: AStarOptions, px: u16, py: u16, x: u16, y: u16, b: bool) -> bool {
    (px != x && py != y) ==> if b {
        grid.spec_walkable_on_layer(x, py, MovementLayer::Bridge) && grid.spec_walkable_on_layer(px, y, MovementLayer::Bridge)
    } else {
        corner_ground_ok(grid, o, is_water_search(o), x, py) && corner_ground_ok(grid, o, is_water_search(o), px, y)
    }
}

/// Layer of a step.
pub open spec fn layer_of(b: bool) -> MovementLayer {
    if b {
        MovementLayer::Bridge
    } else {
        MovementLayer::Ground
    }
}

/// Whether a path is a connected walk from `start` ending at or next to
/// `goal`, every step after the first enterable for the search.
pub open spec fn valid_path(grid: PathGrid, o: AStarOptions, start: (u16, u16), goal: (u16, u16), p: Seq<LayeredPathStep>) -> bool {
    &&& p.len() >= 1
    &&& p[0].rx == start.0 && p[0].ry == start.1
    &&& (p[0].layer == MovementLayer::Ground || p[0].layer == MovementLayer::Bridge)
    &&& forall|i: int|
        0 <= i < p.len() - 1 ==> chebyshev(
            p[i].rx as int,
            p[i].ry as int,
            (#[trigger] p[i + 1]).rx as int,
            p[i + 1].ry as int,
        ) == 1
    &&& forall|i: int|
        1 <= i < p.len() ==> step_ok(grid, o, goal, (#[trigger] p[i]).rx, p[i].ry, p[i].layer == MovementLayer::Bridge)
    &&& forall|i: int|
        0 <= i < p.len() - 1 ==> corners_ok(
            grid,
            o,
            p[i].rx,
            p[i].ry,
            (#[trigger] p[i + 1]).rx,
            p[i + 1].ry,
            p[i + 1].layer == MovementLayer::Bridge,
        )
    &&& forall|i: int| 0 <= i < p.len() ==> (#[trigger] p[i]).layer == MovementLayer::Ground || p[i].layer == MovementLayer::Bridge
    &&& chebyshev(p[p.len() - 1].rx as int, p[p.len() - 1].ry as int, goal.0 as int, goal.1 as int) <= 1
}

/// Search state: per-cell cost, parent and closed flag on both layers, and
/// the open set.
struct SearchState {
    ground_g: Vec<i64>,
    bridge_g: Vec<i64>,
    ground_from: Vec<usize>,
    bridge_from: Vec<usize>,
    ground_from_bridge: Vec<bool>,
    bridge_from_bridge: Vec<bool>,
    ground_closed: Vec<bool>,
    bridge_closed: Vec<bool>,
    open: Vec<AStarNode>,
}

/// Unset cost marker.
pub open spec fn g_unset() -> i64 {
    0x7fff_ffff_ffff_ffff
}

impl SearchState {
    spec fn g(self, i: int, b: bool) -> i64 {
        if b {
            self.bridge_g@[i]
        } else {
            self.ground_g@[i]
        }
    }

    spec fn from(self, i: int, b: bool) -> usize {
        if b {
            self.bridge_from@[i]
        } else {
            self.ground_from@[i]
        }
    }

    spec fn from_b(self, i: int, b: bool) -> bool {
        if b {
            self.bridge_from_bridge@[i]
        } else {
            self.ground_from_bridge@[i]
        }
    }

    spec fn closed(self, i: int, b: bool) -> bool {
        if b {
            self.bridge_closed@[i]
        } else {
            self.ground_closed@[i]
        }
    }

    spec fn sizes(self, n: int) -> bool {
        &&& self.ground_g@.len() == n
        &&& self.bridge_g@.len() == n
        &&& self.ground_from@.len() == n
        &&& self.bridge_from@.len() == n
        &&& self.ground_from_bridge@.len() == n
        &&& self.bridge_from_bridge@.len() == n
        &&& self.ground_closed@.len() == n
        &&& self.bridge_closed@.len() == n
    }

    /// A node's parent record: closed, strictly cheaper, adjacent, and the
    /// node itself enterable.
    spec fn parent_ok(self, grid: PathGrid, o: AStarOptions, goal: (u16, u16), w: int, n: int, i: int, b: bool) -> bool {
        let p = self.from(i, b) as int;
        let pb = self.from_b(i, b);
        &&& 0 <= p < n
        &&& self.closed(p, pb)
        &&& 0 <= self.g(p, pb) < self.g(i, b)
        &&& chebyshev(p % w, p / w, i % w, i / w) == 1
        &&& step_ok(grid, o, goal, (i % w) as u16, (i / w) as u16, b)
        &&& corners_ok(grid, o, (p % w) as u16, (p / w) as u16, (i % w) as u16, (i / w) as u16, b)
    }

    spec fn node_ok(self, nd: AStarNode, w: int, n: int, s_idx: int, s_b: bool, ne: int) -> bool {
        let i = cell_index(nd.x as int, nd.y as int, w);
        &&& nd.x < w
        &&& 0 <= i < n
        &&& nd.g_cost >= self.g(i, nd.on_bridge)
        &&& 0 <= nd.g_cost <= ne * max_step()
        &&& ((i == s_idx && nd.on_bridge == s_b) || self.from(i, nd.on_bridge) != usize::MAX)
    }

    spec fn inv(self, grid: PathGrid, o: AStarOptions, goal: (u16, u16), w: int, n: int, s_idx: int, s_b: bool, ne: int) -> bool {
        &&& self.sizes(n)
        &&& 0 <= s_idx < n
        &&& self.g(s_idx, s_b) == 0
        &&& forall|i: int, b: bool|
            0 <= i < n && #[trigger] self.from(i, b) != usize::MAX ==> self.parent_ok(grid, o, goal, w, n, i, b)
        &&& forall|i: int, b: bool|
            0 <= i < n && #[trigger] self.closed(i, b) ==> ((i == s_idx && b == s_b) || self.from(i, b) != usize::MAX)
        &&& forall|i: int, b: bool| 0 <= i < n ==> #[trigger] self.g(i, b) >= 0
        &&& forall|k: int| 0 <= k < self.open@.len() ==> self.node_ok(#[trigger] self.open@[k], w, n, s_idx, s_b, ne)
    }
}

/// Offsets of the 8 neighbor directions: N, NE, E, SE, S, SW, W, NW.
pub open spec fn spec_neighbor(dir: int) -> (int, int, bool) {
    if dir == 0 {
        (0, -1, false)
    } else if dir == 1 {
        (1, -1, true)
    } else if dir == 2 {
        (1, 0, false)
    } else if dir == 3 {
        (1, 1, true)
    } else if dir == 4 {
        (0, 1, false)
    } else if dir == 5 {
        (-1, 1, true)
    } else if dir == 6 {
        (-1, 0, false)
    } else {
        (-1, -1, true)
    }
}

pub(crate) fn neighbor_delta(dir: usize) -> (r: (i32, i32, bool))
    requires
        dir < 8,
    ensures
        r.0 as int == spec_neighbor(dir as int).0,
        r.1 as int == spec_neighbor(dir as int).1,
        r.2 == spec_neighbor(dir as int).2,
        -1 <= r.0 <= 1,
        -1 <= r.1 <= 1,
        r.0 != 0 || r.1 != 0,
        r.2 == (r.0 != 0 && r.1 != 0),
{
    if dir == 0 {
        (0, -1, false)
    } else if dir == 1 {
        (1, -1, true)
    } else if dir == 2 {
        (1, 0, false)
    } else if dir == 3 {
        (1, 1, true)
    } else if dir == 4 {
        (0, 1, false)
    } else if dir == 5 {
        (-1, 1, true)
    } else if dir == 6 {
        (-1, 0, false)
    } else {
        (-1, -1, true)
    }
}

/// Tie-breaker of direction `dir` (N, NE, E, SE, S, SW, W, NW): 1 to 4 for
/// the cardinals in the order N, E, S, W, and 5 to 8 for the diagonals in
/// the order NE, SE, SW, NW.
pub open spec fn spec_dir_tiebreak(dir: int) -> i64 {
    if dir == 0 {
        1
    } else if dir == 1 {
        5
    } else if dir == 2 {
        2
    } else if dir == 3 {
        6
    } else if dir == 4 {
        3
    } else if dir == 5 {
        7
    } else if dir == 6 {
        4
    } else {
        8
    }
}

/// Per-direction tie-breaker added to the cost so far: cardinals get
/// smaller values than diagonals.
fn dir_tiebreak(dir: usize) -> (r: i64)
    requires
        dir < 8,
    ensures
        r == spec_dir_tiebreak(dir as int),
        1 <= r <= 8,
{
    if dir == 0 {
        1
    } else if dir == 1 {
        5
    } else if dir == 2 {
        2
    } else if dir == 3 {
        6
    } else if dir == 4 {
        3
    } else if dir == 5 {
        7
    } else if dir == 6 {
        4
    } else {
        8
    }
}

impl SearchState {
    fn new(n: usize, s_idx: usize, s_b: bool) -> (r: Self)
        requires
            s_idx < n,
        ensures
            r.sizes(n as int),
            r.g(s_idx as int, s_b) == 0,
            forall|i: int, b: bool| 0 <= i < n && (i != s_idx || b != s_b) ==> #[trigger] r.g(i, b) == g_unset(),
            forall|i: int, b: bool| 0 <= i < n ==> #[trigger] r.from(i, b) == usize::MAX,
            forall|i: int, b: bool| 0 <= i < n ==> !#[trigger] r.closed(i, b),
            r.open@.len() == 0,
    {
        let mut ground_g: Vec<i64> = vec![0x7fff_ffff_ffff_ffff; n];
        let mut bridge_g: Vec<i64> = vec![0x7fff_ffff_ffff_ffff; n];
        if s_b {
            bridge_g.set(s_idx, 0);
        } else {
            ground_g.set(s_idx, 0);
        }
        SearchState {
            ground_g,
            bridge_g,
            ground_from: vec![usize::MAX; n],
            bridge_from: vec![usize::MAX; n],
            ground_from_bridge: vec![false; n],
            bridge_from_bridge: vec![false; n],
            ground_closed: vec![false; n],
            bridge_closed: vec![false; n],
            open: Vec::new(),
        }
    }

    fn get_g(&self, i: usize, b: bool) -> (r: i64)
        requires
            self.sizes(self.ground_g@.len() as int),
            i < self.ground_g@.len(),
        ensures
            r == self.g(i as int, b),
    {
        if b {
            self.bridge_g[i]
        } else {
            self.ground_g[i]
        }
    }

    fn get_from(&self, i: usize, b: bool) -> (r: (usize, bool))
        requires
            self.sizes(self.ground_g@.len() as int),
            i < self.ground_g@.len(),
        ensures
            r.0 == self.from(i as int, b),
            r.1 == self.from_b(i as int, b),
    {
        if b {
            (self.bridge_from[i], self.bridge_from_bridge[i])
        } else {
            (self.ground_from[i], self.ground_from_bridge[i])
        }
    }

    fn is_closed(&self, i: usize, b: bool) -> (r: bool)
        requires
            self.sizes(self.ground_g@.len() as int),
            i < self.ground_g@.len(),
        ensures
            r == self.closed(i as int, b),
    {
        if b {
            self.bridge_closed[i]
        } else {
            self.ground_closed[i]
        }
    }
}

proof fn lemma_chebyshev_symmetric(a: int, b: int, c: int, d: int)
    ensures
        chebyshev(a, b, c, d) == chebyshev(c, d, a, b),
{
}

/// Rebuild the path ending at node `(goal_idx, goal_b)` by following the
/// parent records back to the start node.
#[verifier::spinoff_prover]
#[verifier::rlimit(40)]
fn reconstruct_path_dual(
    st: &SearchState,
    grid: &PathGrid,
    options: &AStarOptions,
    goal: (u16, u16),
    s_idx: usize,
    s_b: bool,
    goal_idx: usize,
    goal_b: bool,
    w: usize,
    h: usize,
    n: usize,
    Ghost(ne): Ghost<int>,
) -> (p: Vec<LayeredPathStep>)
    requires
        st.inv(*grid, *options, goal, w as int, n as int, s_idx as int, s_b, ne),
        w == grid.spec_width(),
        h == grid.spec_height(),
        n == w as int * h as int,
        n == grid.spec_cells().len(),
        goal_idx < n,
        st.closed(goal_idx as int, goal_b),
    ensures
        p@.len() >= 1,
        p@[0].rx as int == s_idx as int % w as int,
        p@[0].ry as int == s_idx as int / w as int,
        p@[0].layer == layer_of(s_b),
        p@[p@.len() - 1].rx as int == goal_idx as int % w as int,
        p@[p@.len() - 1].ry as int == goal_idx as int / w as int,
        forall|i: int|
            0 <= i < p@.len() - 1 ==> chebyshev(
                p@[i].rx as int,
                p@[i].ry as int,
                (#[trigger] p@[i + 1]).rx as int,
                p@[i + 1].ry as int,
            ) == 1,
        forall|i: int|
            1 <= i < p@.len() ==> step_ok(*grid, *options, goal, (#[trigger] p@[i]).rx, p@[i].ry, p@[i].layer == MovementLayer::Bridge),
        forall|i: int|
            0 <= i < p@.len() - 1 ==> corners_ok(
                *grid,
                *options,
                p@[i].rx,
                p@[i].ry,
                (#[trigger] p@[i + 1]).rx,
                p@[i + 1].ry,
                p@[i + 1].layer == MovementLayer::Bridge,
            ),
        forall|i: int| 0 <= i < p@.len() ==> (#[trigger] p@[i]).layer == MovementLayer::Ground || p@[i].layer == MovementLayer::Bridge,
{
    let ghost wi = w as int;
    let ghost hi = h as int;
    let mut rev: Vec<LayeredPathStep> = Vec::new();
    let mut ci = goal_idx;
    let mut cb = goal_b;
    proof {
        lemma_index_decompose(ci as int, wi, hi);
    }
    while !(ci == s_idx && cb == s_b)
        invariant
            st.inv(*grid, *options, goal, wi, n as int, s_idx as int, s_b, ne),
            n == w as int * h as int,
            wi == w as int,
            hi == h as int,
            w == grid.spec_width(),
            h == grid.spec_height(),
            n == grid.spec_cells().len(),
            0 < w,
            ci < n,
            st.closed(ci as int, cb),
            rev@.len() == 0 ==> ci == goal_idx,
            rev@.len() > 0 ==> rev@[0].rx as int == goal_idx as int % wi && rev@[0].ry as int == goal_idx as int / wi,
            rev@.len() > 0 ==> chebyshev(
                rev@[rev@.len() - 1].rx as int,
                rev@[rev@.len() - 1].ry as int,
                ci as int % wi,
                ci as int / wi,
            ) == 1,
            forall|i: int|
                0 <= i < rev@.len() - 1 ==> chebyshev(
                    rev@[i].rx as int,
                    rev@[i].ry as int,
                    (#[trigger] rev@[i + 1]).rx as int,
                    rev@[i + 1].ry as int,
                ) == 1,
            forall|i: int|
                0 <= i < rev@.len() ==> step_ok(*grid, *options, goal, (#[trigger] rev@[i]).rx, rev@[i].ry, rev@[i].layer == MovementLayer::Bridge),
            rev@.len() > 0 ==> corners_ok(
                *grid,
                *options,
                (ci as int % wi) as u16,
                (ci as int / wi) as u16,
                rev@[rev@.len() - 1].rx,
                rev@[rev@.len() - 1].ry,
                rev@[rev@.len() - 1].layer == MovementLayer::Bridge,
            ),
            forall|i: int|
                0 <= i < rev@.len() - 1 ==> corners_ok(
                    *grid,
                    *options,
                    (#[trigger] rev@[i + 1]).rx,
                    rev@[i + 1].ry,
                    rev@[i].rx,
                    rev@[i].ry,
                    rev@[i].layer == MovementLayer::Bridge,
                ),
            forall|i: int| 0 <= i < rev@.len() ==> (#[trigger] rev@[i]).layer == MovementLayer::Ground || rev@[i].layer == MovementLayer::Bridge,
        decreases st.g(ci as int, cb),
    {
        proof {
            lemma_index_decompose(ci as int, wi, hi);
            assert(st.from(ci as int, cb) != usize::MAX);
            assert(st.parent_ok(*grid, *options, goal, wi, n as int, ci as int, cb));
        }
        let step = LayeredPathStep {
            rx: (ci % w) as u16,
            ry: (ci / w) as u16,
            layer: if cb {
                MovementLayer::Bridge
            } else {
                MovementLayer::Ground
            },
        };
        rev.push(step);
        let (p, pb) = st.get_from(ci, cb);
        proof {
            lemma_index_decompose(p as int, wi, hi);
        }
        ci = p;
        cb = pb;
    }
    let mut path: Vec<LayeredPathStep> = Vec::new();
    proof {
        lemma_index_decompose(s_idx as int, wi, hi);
    }
    path.push(
        LayeredPathStep {
            rx: (s_idx % w) as u16,
            ry: (s_idx / w) as u16,
            layer: if s_b {
                MovementLayer::Bridge
            } else {
                MovementLayer::Ground
            },
        },
    );
    let m = rev.len();
    let mut k = m;
    while k > 0
        invariant
            k <= m,
            m == rev@.len(),
            path@.len() == m - k + 1,
            path@[0].rx as int == s_idx as int % wi,
            path@[0].ry as int == s_idx as int / wi,
            path@[0].layer == layer_of(s_b),
            forall|j: int| 1 <= j < path@.len() ==> #[trigger] path@[j] == rev@[m - j],
            m > 0 ==> chebyshev(
                rev@[m - 1].rx as int,
                rev@[m - 1].ry as int,
                s_idx as int % wi,
                s_idx as int / wi,
            ) == 1,
            m == 0 ==> s_idx == goal_idx,
            m > 0 ==> rev@[0].rx as int == goal_idx as int % wi && rev@[0].ry as int == goal_idx as int / wi,
            forall|i: int|
                0 <= i < rev@.len() - 1 ==> chebyshev(
                    rev@[i].rx as int,
                    rev@[i].ry as int,
                    (#[trigger] rev@[i + 1]).rx as int,
                    rev@[i + 1].ry as int,
                ) == 1,
            forall|i: int|
                0 <= i < rev@.len() ==> step_ok(*grid, *options, goal, (#[trigger] rev@[i]).rx, rev@[i].ry, rev@[i].layer == MovementLayer::Bridge),
            m > 0 ==> corners_ok(
                *grid,
                *options,
                (s_idx as int % wi) as u16,
                (s_idx as int / wi) as u16,
                rev@[m - 1].rx,
                rev@[m - 1].ry,
                rev@[m - 1].layer == MovementLayer::Bridge,
            ),
            forall|i: int|
                0 <= i < rev@.len() - 1 ==> corners_ok(
                    *grid,
                    *options,
                    (#[trigger] rev@[i + 1]).rx,
                    rev@[i + 1].ry,
                    rev@[i].rx,
                    rev@[i].ry,
                    rev@[i].layer == MovementLayer::Bridge,
                ),
            forall|i: int| 0 <= i < rev@.len() ==> (#[trigger] rev@[i]).layer == MovementLayer::Ground || rev@[i].layer == MovementLayer::Bridge,
        decreases k,
    {
        path.push(rev[k - 1]);
        k = k - 1;
    }
    proof {
        assert forall|i: int|
            0 <= i < path@.len() - 1 implies chebyshev(
                path@[i].rx as int,
                path@[i].ry as int,
                (#[trigger] path@[i + 1]).rx as int,
                path@[i + 1].ry as int,
            ) == 1 by {
            if i == 0 {
                assert(path@[1] == rev@[m - 1]);
                lemma_chebyshev_symmetric(
                    rev@[m - 1].rx as int,
                    rev@[m - 1].ry as int,
                    s_idx as int % wi,
                    s_idx as int / wi,
                );
                assert(chebyshev(
                    rev@[m - 1].rx as int,
                    rev@[m - 1].ry as int,
                    s_idx as int % wi,
                    s_idx as int / wi,
                ) == 1);
            } else {
                assert(path@[i] == rev@[m - i]);
                assert(path@[i + 1] == rev@[m - i - 1]);
                let j = m - i - 1;
                assert(0 <= j < rev@.len() - 1);
                assert(chebyshev(
                    rev@[j].rx as int,
                    rev@[j].ry as int,
                    (rev@[j + 1]).rx as int,
                    rev@[j + 1].ry as int,
                ) == 1);
                assert(j + 1 == m - i);
                lemma_chebyshev_symmetric(
                    rev@[m - i - 1].rx as int,
                    rev@[m - i - 1].ry as int,
                    (rev@[m - i]).rx as int,
                    rev@[m - i].ry as int,
                );
                assert(chebyshev(
                    rev@[m - i - 1].rx as int,
                    rev@[m - i - 1].ry as int,
                    (rev@[m - i]).rx as int,
                    rev@[m - i].ry as int,
                ) == 1);
            }
        }
        assert forall|i: int|
            0 <= i < path@.len() - 1 implies corners_ok(
            *grid,
            *options,
            path@[i].rx,
            path@[i].ry,
            (#[trigger] path@[i + 1]).rx,
            path@[i + 1].ry,
            path@[i + 1].layer == MovementLayer::Bridge,
        ) by {
            if i == 0 {
                assert(path@[1] == rev@[m - 1]);
            } else {
                assert(path@[i] == rev@[m - i]);
                assert(path@[i + 1] == rev@[m - i - 1]);
                let j = m - i - 1;
                assert(0 <= j < rev@.len() - 1);
                assert(j + 1 == m - i);
                assert(corners_ok(
                    *grid,
                    *options,
                    rev@[j + 1].rx,
                    rev@[j + 1].ry,
                    rev@[j].rx,
                    rev@[j].ry,
                    rev@[j].layer == MovementLayer::Bridge,
                ));
            }
        }
        assert forall|i: int|
            1 <= i < path@.len() implies step_ok(*grid, *options, goal, (#[trigger] path@[i]).rx, path@[i].ry, path@[i].layer == MovementLayer::Bridge) by {
            assert(path@[i] == rev@[m - i]);
        }
        assert forall|i: int| 0 <= i < path@.len() implies (#[trigger] path@[i]).layer == MovementLayer::Ground || path@[i].layer == MovementLayer::Bridge by {
            if i > 0 {
                assert(path@[i] == rev@[m - i]);
            }
        }
        if m > 0 {
            assert(path@[path@.len() - 1] == rev@[0]);
        }
    }
    path
}

/// Whether the options' corridor allows `(x, y)`.
fn corridor_allows_exec(options: &AStarOptions, x: u16, y: u16) -> (r: bool)
    ensures
        r == corridor_allows(*options, x, y),
{
    match options.corridor {
        Some((zone_map, allowed)) => {
            let z = zone_map.zone_at(x, y, MovementLayer::Ground);
            z == ZONE_INVALID || allowed.contains(&z)
        },
        None => true,
    }
}

/// Whether a ground cell has nonzero cost for the search (ships and searches
/// without a cost grid ignore costs).
fn ground_cost_ok(options: &AStarOptions, is_water_mover: bool, x: u16, y: u16) -> (r: bool)
    requires
        is_water_mover == is_water_search(*options),
    ensures
        r == (is_water_mover || options.terrain_costs is None || options.terrain_costs->0.spec_cost_at(x, y) > 0),
{
    if is_water_mover {
        return true;
    }
    match options.terrain_costs {
        Some(tc) => tc.cost_at(x, y) > 0,
        None => true,
    }
}

/// A ground cell a diagonal step may cut past: passable for the mover
/// and, unless costs are ignored, of nonzero cost.
pub open spec fn corner_ground_ok(grid: PathGrid, o: AStarOptions, is_water: bool, x: u16, y: u16) -> bool {
    spec_passable_for_mover(grid, x, y, o.movement_zone, o.resolved_terrain) && (is_water
        || o.terrain_costs is None || o.terrain_costs->0.spec_cost_at(x, y) > 0)
}

/// The neighbor of `cur` in direction `dir`, when it lies inside the `w`
/// by `h` grid.
pub open spec fn relax_target(cur: AStarNode, dir: int, w: int, h: int) -> Option<(u16, u16)> {
    let d = spec_neighbor(dir);
    let nx = cur.x + d.0;
    let ny = cur.y + d.1;
    if 0 <= nx < w && 0 <= ny < h {
        Some((nx as u16, ny as u16))
    } else {
        None
    }
}

/// Layer of the neighbor `(nx, ny)` entered from `cur`: the bridge deck
/// when `cur`'s height is at the deck.
pub open spec fn relax_layer(grid: PathGrid, cur: AStarNode, nx: u16, ny: u16) -> bool {
    spec_is_at_bridge_level(cur.height, grid.cell_or_blocked(nx, ny))
}

/// Whether the neighbor `(nx, ny)` is walkable on the layer it is entered on.
pub open spec fn relax_passable(grid: PathGrid, o: AStarOptions, cur: AStarNode, nx: u16, ny: u16) -> bool {
    if relax_layer(grid, cur, nx, ny) {
        grid.spec_walkable_on_layer(nx, ny, MovementLayer::Bridge)
    } else {
        spec_passable_for_mover(grid, nx, ny, o.movement_zone, o.resolved_terrain)
    }
}

/// Cost of the step from `cur` to its walkable neighbor `(nx, ny)` in
/// direction `dir`, or `None` when the step is refused: an entity blocks
/// the cell (unless it is the goal), the corridor excludes it, its terrain
/// cost is 0, or a diagonal step would cut a corner that cannot be passed.
/// The cost is 10 (14 diagonally) scaled by 100 over the terrain cost
/// (100 on bridges and for ships), times 4 across a height change, times
/// the blocker multiplier when an entity stands there (not at the goal).
pub open spec fn relax_step_cost(
    grid: PathGrid,
    o: AStarOptions,
    goal: (u16, u16),
    is_water: bool,
    cur: AStarNode,
    cur_cell: PathCell,
    dir: int,
    nx: u16,
    ny: u16,
) -> Option<int> {
    let cell = grid.cell_or_blocked(nx, ny);
    let nub = spec_is_at_bridge_level(cur.height, cell);
    let nh = spec_neighbor_height(cur.height, cur_cell, cell);
    let is_goal = nx == goal.0 && ny == goal.1;
    let diag = spec_neighbor(dir).2;
    let tc: int = if nub || is_water {
        100
    } else {
        match o.terrain_costs {
            Some(t) => t.spec_cost_at(nx, ny) as int,
            None => 100,
        }
    };
    let corners_ok = !diag || if nub {
        grid.spec_walkable_on_layer(nx, cur.y, MovementLayer::Bridge) && grid.spec_walkable_on_layer(
            cur.x,
            ny,
            MovementLayer::Bridge,
        )
    } else {
        corner_ground_ok(grid, o, is_water, nx, cur.y) && corner_ground_ok(grid, o, is_water, cur.x, ny)
    };
    let blocked = !is_goal && opt_set_has(
        if nub {
            o.bridge_blocks
        } else {
            o.entity_blocks
        },
        (nx, ny),
    );
    if blocked || !corridor_allows(o, nx, ny) || tc == 0 || !corners_ok {
        None
    } else {
        let base: int = if diag {
            14
        } else {
            10
        };
        let s1: int = if tc == 100 {
            base
        } else {
            base * 100 / tc
        };
        let s2: int = if cur.height != nh {
            s1 * 4
        } else {
            s1
        };
        let s3: int = if !is_goal && o.entity_block_map is Some && o.entity_block_map->0@.contains_key(
            (nx, ny),
        ) {
            s2 * spec_code2_multiplier(o.urgency, (nx, ny), o.entity_block_map->0@)
        } else {
            s2
        };
        Some(s3)
    }
}

impl SearchState {
    /// `new` is `old` with a cheaper route of cost `tg` recorded for node
    /// `(ni, nub)` from node `(c_idx, cur_b)` and `node` pushed on the open
    /// set.
    spec fn improved(
        old: SearchState,
        new: SearchState,
        n: int,
        ni: int,
        nub: bool,
        c_idx: usize,
        cur_b: bool,
        tg: i64,
        node: AStarNode,
    ) -> bool {
        &&& new.g(ni, nub) == tg
        &&& new.from(ni, nub) == c_idx
        &&& new.from_b(ni, nub) == cur_b
        &&& forall|i: int, b: bool|
            0 <= i < n && !(i == ni && b == nub) ==> #[trigger] new.g(i, b) == old.g(i, b)
                && new.from(i, b) == old.from(i, b) && new.from_b(i, b) == old.from_b(i, b)
        &&& new.ground_closed == old.ground_closed
        &&& new.bridge_closed == old.bridge_closed
        &&& new.open@ == crate::pathfinding::open_set::pushed(old.open@, node)
    }
}

/// Record a cheaper route to neighbor node `(n_idx, nub)` through the
/// current node and push it onto the open set.
#[verifier::spinoff_prover]
#[verifier::rlimit(60)]
fn improve(
    st: &mut SearchState,
    grid: &PathGrid,
    options: &AStarOptions,
    goal: (u16, u16),
    cur: AStarNode,
    c_idx: usize,
    nx: u16,
    ny: u16,
    n_idx: usize,
    nub: bool,
    neighbor_height: u8,
    tentative_g: i64,
    w: usize,
    h: usize,
    n: usize,
    Ghost(s_idx): Ghost<int>,
    Ghost(s_b): Ghost<bool>,
    Ghost(ne): Ghost<int>,
)
    requires
        old(st).inv(*grid, *options, goal, w as int, n as int, s_idx, s_b, ne),
        n == w as int * h as int,
        0 < w,
        c_idx < n,
        n_idx < n,
        c_idx as int % w as int == cur.x,
        c_idx as int / w as int == cur.y,
        n_idx as int % w as int == nx,
        n_idx as int / w as int == ny,
        n_idx == cell_index(nx as int, ny as int, w as int),
        nx < w,
        chebyshev(cur.x as int, cur.y as int, nx as int, ny as int) == 1,
        old(st).closed(c_idx as int, cur.on_bridge),
        !old(st).closed(n_idx as int, nub),
        old(st).g(c_idx as int, cur.on_bridge) <= cur.g_cost < tentative_g,
        tentative_g < old(st).g(n_idx as int, nub),
        tentative_g <= ne * max_step(),
        1 <= ne <= 65527,
        0 <= cur.g_cost,
        step_ok(*grid, *options, goal, nx, ny, nub),
        corners_ok(*grid, *options, cur.x, cur.y, nx, ny, nub),
    ensures
        final(st).inv(*grid, *options, goal, w as int, n as int, s_idx, s_b, ne),
        final(st).ground_closed == old(st).ground_closed,
        final(st).bridge_closed == old(st).bridge_closed,
        final(st).g(c_idx as int, cur.on_bridge) == old(st).g(c_idx as int, cur.on_bridge),
        SearchState::improved(
            *old(st),
            *final(st),
            n as int,
            n_idx as int,
            nub,
            c_idx,
            cur.on_bridge,
            tentative_g,
            AStarNode {
                f_cost: (tentative_g + spec_octile(nx, ny, goal.0, goal.1)) as i64,
                g_cost: tentative_g,
                x: nx,
                y: ny,
                height: neighbor_height,
                on_bridge: nub,
            },
        ),
{
    let ghost wi = w as int;
    let ghost before = *st;
    if nub {
        st.bridge_g.set(n_idx, tentative_g);
        st.bridge_from.set(n_idx, c_idx);
        st.bridge_from_bridge.set(n_idx, cur.on_bridge);
    } else {
        st.ground_g.set(n_idx, tentative_g);
        st.ground_from.set(n_idx, c_idx);
        st.ground_from_bridge.set(n_idx, cur.on_bridge);
    }
    let hcost = octile_heuristic(nx, ny, goal.0, goal.1);
    proof {
        assert(ne * max_step() <= 65527 * 6_000_000) by (nonlinear_arith)
            requires
                1 <= ne <= 65527,
                max_step() == 6_000_000,
        ;
    }
    let node = AStarNode {
        f_cost: tentative_g + hcost,
        g_cost: tentative_g,
        x: nx,
        y: ny,
        height: neighbor_height,
        on_bridge: nub,
    };
    let ghost mid = *st;
    proof {
        assert(mid.parent_ok(*grid, *options, goal, wi, n as int, n_idx as int, nub));
        assert(mid.node_ok(node, wi, n as int, s_idx, s_b, ne));
        assert forall|i: int, b: bool|
            0 <= i < n && #[trigger] mid.from(i, b) != usize::MAX implies mid.parent_ok(
            *grid,
            *options,
            goal,
            wi,
            n as int,
            i,
            b,
        ) by {
            if i == n_idx && b == nub {
            } else {
                assert(before.from(i, b) != usize::MAX);
                assert(before.parent_ok(*grid, *options, goal, wi, n as int, i, b));
            }
        }
        assert forall|i: int, b: bool| 0 <= i < n implies #[trigger] mid.g(i, b) >= 0 by {
            if i == n_idx && b == nub {
            } else {
                assert(before.g(i, b) >= 0);
            }
        }
        assert forall|i: int, b: bool|
            0 <= i < n && #[trigger] mid.closed(i, b) implies ((i == s_idx && b == s_b) || mid.from(i, b) != usize::MAX) by {
            assert(before.closed(i, b));
        }
        assert forall|k: int| 0 <= k < mid.open@.len() implies mid.node_ok(
            #[trigger] mid.open@[k],
            wi,
            n as int,
            s_idx,
            s_b,
            ne,
        ) by {
            assert(before.node_ok(before.open@[k], wi, n as int, s_idx, s_b, ne));
        }
    }
    push_open(st, node, grid, options, goal, w, n, Ghost(s_idx), Ghost(s_b), Ghost(ne));
}

/// Push a node onto the open set; every other part of the state is kept.
fn push_open(
    st: &mut SearchState,
    node: AStarNode,
    grid: &PathGrid,
    options: &AStarOptions,
    goal: (u16, u16),
    w: usize,
    n: usize,
    Ghost(s_idx): Ghost<int>,
    Ghost(s_b): Ghost<bool>,
    Ghost(ne): Ghost<int>,
)
    requires
        old(st).inv(*grid, *options, goal, w as int, n as int, s_idx, s_b, ne),
        old(st).node_ok(node, w as int, n as int, s_idx, s_b, ne),
    ensures
        final(st).inv(*grid, *options, goal, w as int, n as int, s_idx, s_b, ne),
        final(st).ground_g == old(st).ground_g,
        final(st).bridge_g == old(st).bridge_g,
        final(st).ground_from == old(st).ground_from,
        final(st).bridge_from == old(st).bridge_from,
        final(st).ground_from_bridge == old(st).ground_from_bridge,
        final(st).bridge_from_bridge == old(st).bridge_from_bridge,
        final(st).ground_closed == old(st).ground_closed,
        final(st).bridge_closed == old(st).bridge_closed,
        final(st).open@ == crate::pathfinding::open_set::pushed(old(st).open@, node),
{
    let ghost wi = w as int;
    let ghost mid = *st;
    heap_push(&mut st.open, node);
    proof {
        assert forall|i: int, b: bool|
            0 <= i < n && #[trigger] st.from(i, b) != usize::MAX implies st.parent_ok(
            *grid,
            *options,
            goal,
            wi,
            n as int,
            i,
            b,
        ) by {
            assert(mid.from(i, b) != usize::MAX);
        }
        assert forall|i: int, b: bool| 0 <= i < n implies #[trigger] st.g(i, b) >= 0 by {
            assert(mid.g(i, b) >= 0);
        }
        assert forall|i: int, b: bool|
            0 <= i < n && #[trigger] st.closed(i, b) implies ((i == s_idx && b == s_b) || st.from(i, b) != usize::MAX) by {
            assert(mid.closed(i, b));
        }
        assert forall|k: int| 0 <= k < st.open@.len() implies st.node_ok(
            #[trigger] st.open@[k],
            wi,
            n as int,
            s_idx,
            s_b,
            ne,
        ) by {
            if st.open@[k] != node {
                let j = choose|j: int| 0 <= j < mid.open@.len() && mid.open@[j] == st.open@[k];
                assert(mid.node_ok(mid.open@[j], wi, n as int, s_idx, s_b, ne));
            }
        }
    }
}

/// Expand one neighbor of the current node. Returns `true` when the
/// neighbor is the goal, cannot be entered, and start and goal heights are
/// within one level: the search then ends at the current node.
#[verifier::spinoff_prover]
fn relax(
    st: &mut SearchState,
    grid: &PathGrid,
    options: &AStarOptions,
    goal: (u16, u16),
    goal_height: u8,
    start_height: u8,
    is_water_mover: bool,
    cur: AStarNode,
    c_idx: usize,
    cur_cell: PathCell,
    dir: usize,
    w: usize,
    h: usize,
    n: usize,
    Ghost(s_idx): Ghost<int>,
    Ghost(s_b): Ghost<bool>,
    Ghost(ne): Ghost<int>,
) -> (near_miss: bool)
    requires
        old(st).inv(*grid, *options, goal, w as int, n as int, s_idx, s_b, ne),
        w == grid.spec_width(),
        h == grid.spec_height(),
        n == w as int * h as int,
        n == grid.spec_cells().len(),
        is_water_mover == is_water_search(*options),
        cur.x < w,
        cur.y < h,
        c_idx == cell_index(cur.x as int, cur.y as int, w as int),
        c_idx < n,
        old(st).closed(c_idx as int, cur.on_bridge),
        old(st).g(c_idx as int, cur.on_bridge) <= cur.g_cost,
        0 <= cur.g_cost <= (ne - 1) * max_step(),
        1 <= ne <= 65527,
        dir < 8,
        cur_cell == grid.cell_or_blocked(cur.x, cur.y),
    ensures
        final(st).inv(*grid, *options, goal, w as int, n as int, s_idx, s_b, ne),
        final(st).closed(c_idx as int, cur.on_bridge),
        final(st).g(c_idx as int, cur.on_bridge) == old(st).g(c_idx as int, cur.on_bridge),
        near_miss ==> chebyshev(cur.x as int, cur.y as int, goal.0 as int, goal.1 as int) == 1,
        near_miss ==> abs_diff(start_height, goal_height) <= 1,
        near_miss ==> !relax_passable(*grid, *options, cur, goal.0, goal.1),
        match relax_target(cur, dir as int, w as int, h as int) {
            None => !near_miss && *final(st) == *old(st),
            Some((nx, ny)) => {
                let ni = cell_index(nx as int, ny as int, w as int);
                let nub = relax_layer(*grid, cur, nx, ny);
                let open_cell = !old(st).closed(ni, nub);
                let passable = relax_passable(*grid, *options, cur, nx, ny);
                let cost = relax_step_cost(*grid, *options, goal, is_water_mover, cur, cur_cell, dir as int, nx, ny);
                &&& (open_cell && passable && cost is Some ==> 1 <= cost->0 <= 5_600_000)
                &&& near_miss == (open_cell && !passable && nx == goal.0 && ny == goal.1 && abs_diff(
                    start_height,
                    goal_height,
                ) <= 1)
                &&& if open_cell && passable && cost is Some && cur.g_cost + cost->0 + spec_dir_tiebreak(
                    dir as int,
                ) < old(st).g(ni, nub) {
                    let tg = (cur.g_cost + cost->0 + spec_dir_tiebreak(dir as int)) as i64;
                    SearchState::improved(
                        *old(st),
                        *final(st),
                        n as int,
                        ni,
                        nub,
                        c_idx,
                        cur.on_bridge,
                        tg,
                        AStarNode {
                            f_cost: (tg + spec_octile(nx, ny, goal.0, goal.1)) as i64,
                            g_cost: tg,
                            x: nx,
                            y: ny,
                            height: spec_neighbor_height(cur.height, cur_cell, grid.cell_or_blocked(nx, ny)),
                            on_bridge: nub,
                        },
                    )
                } else {
                    *final(st) == *old(st)
                }
            },
        },
{
    let ghost wi = w as int;
    let ghost hi = h as int;
    let (dx, dy, is_diagonal) = neighbor_delta(dir);
    let nx_i = cur.x as i32 + dx;
    let ny_i = cur.y as i32 + dy;
    if nx_i < 0 || ny_i < 0 || nx_i >= w as i32 || ny_i >= h as i32 {
        return false;
    }
    let nx = nx_i as u16;
    let ny = ny_i as u16;
    proof {
        lemma_index_in_bounds(nx as int, ny as int, wi, hi);
        lemma_index_in_bounds(cur.x as int, cur.y as int, wi, hi);
    }
    let n_idx = ny as usize * w + nx as usize;
    let neighbor_cell = grid.cell_or_blocked_exec(nx, ny);
    let nub = is_at_bridge_level(cur.height, &neighbor_cell);
    let neighbor_height = compute_neighbor_height(cur.height, &cur_cell, &neighbor_cell);
    if st.is_closed(n_idx, nub) {
        return false;
    }
    let passable = if nub {
        grid.is_walkable_on_layer(nx, ny, MovementLayer::Bridge)
    } else {
        is_cell_passable_for_mover(grid, nx, ny, options.movement_zone, options.resolved_terrain)
    };
    if !passable {
        let d = if start_height >= goal_height {
            start_height - goal_height
        } else {
            goal_height - start_height
        };
        if nx == goal.0 && ny == goal.1 && d <= 1 {
            return true;
        }
        return false;
    }
    let is_goal = nx == goal.0 && ny == goal.1;
    if !is_goal {
        let blocks = if nub {
            options.bridge_blocks
        } else {
            options.entity_blocks
        };
        if opt_set_contains(blocks, (nx, ny)) {
            return false;
        }
    }
    if !corridor_allows_exec(options, nx, ny) {
        return false;
    }
    let terrain_cost: u8 = if nub {
        100
    } else if is_water_mover {
        100
    } else {
        match options.terrain_costs {
            Some(tc) => tc.cost_at(nx, ny),
            None => 100,
        }
    };
    if terrain_cost == 0 {
        return false;
    }
    if is_diagonal {
        if nub {
            if !grid.is_walkable_on_layer(nx, cur.y, MovementLayer::Bridge) || !grid.is_walkable_on_layer(
                cur.x,
                ny,
                MovementLayer::Bridge,
            ) {
                return false;
            }
        } else {
            let adj1_ok = is_cell_passable_for_mover(grid, nx, cur.y, options.movement_zone, options.resolved_terrain)
                && ground_cost_ok(options, is_water_mover, nx, cur.y);
            let adj2_ok = is_cell_passable_for_mover(grid, cur.x, ny, options.movement_zone, options.resolved_terrain)
                && ground_cost_ok(options, is_water_mover, cur.x, ny);
            if !adj1_ok || !adj2_ok {
                return false;
            }
        }
    }
    let base_cost: i64 = if is_diagonal {
        DIAGONAL_COST
    } else {
        CARDINAL_COST
    };
    let mut step_cost: i64 = if terrain_cost == 100 {
        base_cost
    } else {
        base_cost * 100 / terrain_cost as i64
    };
    proof {
        let tc: int = terrain_cost as int;
        let b: int = base_cost as int;
        assert(1 <= (b * 100) / tc <= 1400) by (nonlinear_arith)
            requires
                1 <= tc <= 255,
                10 <= b <= 14,
        ;
    }
    assert(1 <= step_cost <= 1400);
    if cur.height != neighbor_height {
        step_cost = step_cost * CLIFF_COST_MULTIPLIER;
    }
    assert(1 <= step_cost <= 5600);
    if !is_goal {
        if let Some(map) = options.entity_block_map {
            proof {
                crate::keys::lemma_pair_keys_ordered();
            }
            if map.contains_key(&(nx, ny)) {
                let mult = compute_code2_multiplier(options.urgency, (nx, ny), map);
                proof {
                    let sc: int = step_cost as int;
                    let m: int = mult as int;
                    assert(1 <= sc * m <= 5_600_000) by (nonlinear_arith)
                        requires
                            1 <= sc <= 5600,
                            1 <= m <= 1000,
                    ;
                }
                step_cost = step_cost * mult;
            }
        }
    }
    assert(1 <= step_cost <= 5_600_000);
    assert(relax_step_cost(*grid, *options, goal, is_water_mover, cur, cur_cell, dir as int, nx, ny) == Some(
        step_cost as int,
    ));
    let tentative_g = cur.g_cost + step_cost + dir_tiebreak(dir);
    proof {
        assert((ne - 1) * max_step() + max_step() == ne * max_step()) by (nonlinear_arith);
    }
    let old_g = st.get_g(n_idx, nub);
    if tentative_g < old_g {
        proof {
            lemma_index_coords(cur.x as int, cur.y as int, wi);
            lemma_index_coords(nx as int, ny as int, wi);
        }
        improve(
            st,
            grid,
            options,
            goal,
            cur,
            c_idx,
            nx,
            ny,
            n_idx,
            nub,
            neighbor_height,
            tentative_g,
            w,
            h,
            n,
            Ghost(s_idx),
            Ghost(s_b),
            Ghost(ne),
        );
    }
    false
}

impl SearchState {
    /// The invariant only loosens as more nodes are evaluated.
    proof fn lemma_inv_grows(self, grid: PathGrid, o: AStarOptions, goal: (u16, u16), w: int, n: int, s_idx: int, s_b: bool, ne: int, ne2: int)
        requires
            self.inv(grid, o, goal, w, n, s_idx, s_b, ne),
            ne <= ne2,
        ensures
            self.inv(grid, o, goal, w, n, s_idx, s_b, ne2),
    {
        assert forall|k: int| 0 <= k < self.open@.len() implies self.node_ok(#[trigger] self.open@[k], w, n, s_idx, s_b, ne2) by {
            assert(self.node_ok(self.open@[k], w, n, s_idx, s_b, ne));
        }
    }
}

/// Height of the start node on a layer: the bridge deck on the bridge layer,
/// the ground level otherwise.
pub open spec fn start_height_for(c: PathCell, layer: MovementLayer) -> u8 {
    if layer == MovementLayer::Bridge {
        c.bridge_deck_level
    } else {
        c.ground_level
    }
}

/// The other of the two walkable layers (ground for bridge, bridge otherwise).
pub open spec fn flip_layer(layer: MovementLayer) -> MovementLayer {
    if layer == MovementLayer::Bridge {
        MovementLayer::Ground
    } else {
        MovementLayer::Bridge
    }
}

/// Whether the search can start from `start` on `layer`: on the bridge layer
/// when the start height is at bridge level, else by the mover's ground
/// passability.
pub open spec fn spec_start_passable(grid: PathGrid, start: (u16, u16), layer: MovementLayer, o: AStarOptions) -> bool {
    let c = grid.cell_or_blocked(start.0, start.1);
    if spec_is_at_bridge_level(start_height_for(c, layer), c) {
        grid.spec_walkable_on_layer(start.0, start.1, MovementLayer::Bridge)
    } else {
        spec_passable_for_mover(grid, start.0, start.1, o.movement_zone, o.resolved_terrain)
    }
}

/// Layer the search starts on: the requested one if the start passes there,
/// else the other layer if the start is walkable and passes on it.
pub open spec fn spec_resolved_start_layer(grid: PathGrid, start: (u16, u16), layer: MovementLayer, o: AStarOptions) -> Option<MovementLayer> {
    if spec_start_passable(grid, start, layer, o) {
        Some(layer)
    } else if !grid.spec_walkable_on_layer(start.0, start.1, flip_layer(layer)) {
        None
    } else if spec_start_passable(grid, start, flip_layer(layer), o) {
        Some(flip_layer(layer))
    } else {
        None
    }
}

/// A start cell on which the layer fallback would flip between the two
/// layers without end: walkable on both, a bridge deck below bridge level,
/// and not passable for the mover on the ground.
pub open spec fn start_flip_loops(grid: PathGrid, start: (u16, u16), o: AStarOptions) -> bool {
    let c = grid.cell_or_blocked(start.0, start.1);
    &&& !spec_passable_for_mover(grid, start.0, start.1, o.movement_zone, o.resolved_terrain)
    &&& grid.spec_walkable_on_layer(start.0, start.1, MovementLayer::Ground)
    &&& grid.spec_walkable_on_layer(start.0, start.1, MovementLayer::Bridge)
    &&& !spec_is_at_bridge_level(c.bridge_deck_level, c)
}

/// Inputs the search accepts: the layer fallback ends, and a start that the
/// mover could pass lies inside the grid.
pub open spec fn search_input_ok(grid: PathGrid, start: (u16, u16), o: AStarOptions) -> bool {
    &&& !start_flip_loops(grid, start, o)
    &&& (grid.in_bounds(start.0 as int, start.1 as int) || !spec_passable_for_mover(
        grid,
        start.0,
        start.1,
        o.movement_zone,
        o.resolved_terrain,
    ))
}

/// Height the search must reach at the goal: its bridge deck when the goal
/// has a walkable bridge (except for infantry), else its ground level.
pub open spec fn search_goal_height(grid: PathGrid, goal: (u16, u16), o: AStarOptions) -> u8 {
    let c = grid.cell_or_blocked(goal.0, goal.1);
    if !o.is_infantry && grid.spec_walkable_on_layer(goal.0, goal.1, MovementLayer::Bridge) {
        c.bridge_deck_level
    } else {
        c.ground_level
    }
}

/// Whether the goal can be reached on at least one layer.
pub open spec fn goal_enterable(grid: PathGrid, goal: (u16, u16), o: AStarOptions) -> bool {
    spec_passable_for_mover(grid, goal.0, goal.1, o.movement_zone, o.resolved_terrain)
        || grid.spec_walkable_on_layer(goal.0, goal.1, MovementLayer::Bridge)
}

/// What a search started on `layer` returns: nothing when the goal cannot be
/// entered; the start alone when it is the goal at the goal height; any
/// path found is valid, starts on the start's layer and ends at the goal or,
/// when start and goal heights are within one level and the goal could not
/// be entered on the layer the search reached it on, next to it (so a goal
/// without a bridge that the mover passes on the ground is always reached).
pub open spec fn search_result_ok(
    grid: PathGrid,
    o: AStarOptions,
    start: (u16, u16),
    layer: MovementLayer,
    goal: (u16, u16),
    r: Option<Seq<LayeredPathStep>>,
) -> bool {
    let sc = grid.cell_or_blocked(start.0, start.1);
    let sh = start_height_for(sc, layer);
    let gh = search_goal_height(grid, goal, o);
    let s_layer = layer_of(spec_is_at_bridge_level(sh, sc));
    &&& (!goal_enterable(grid, goal, o) ==> r is None)
    &&& (goal_enterable(grid, goal, o) && start == goal && sh == gh ==> r == Some(
        seq![LayeredPathStep { rx: start.0, ry: start.1, layer: s_layer }],
    ))
    &&& (r matches Some(p) ==> {
        &&& valid_path(grid, o, start, goal, p)
        &&& p[0].layer == s_layer
        &&& ((p.last().rx == goal.0 && p.last().ry == goal.1) || (chebyshev(
            p.last().rx as int,
            p.last().ry as int,
            goal.0 as int,
            goal.1 as int,
        ) == 1 && abs_diff(sh, gh) <= 1 && (grid.cell_or_blocked(goal.0, goal.1).bridge_walkable
            || !spec_passable_for_mover(grid, goal.0, goal.1, o.movement_zone, o.resolved_terrain))))
    })
}

/// A grid without walkable bridges.
pub open spec fn bridge_free(grid: PathGrid) -> bool {
    forall|x: u16, y: u16| !(#[trigger] grid.cell_or_blocked(x, y)).bridge_walkable
}

/// A ground step the search may take from `a` to `b`: to an 8-neighbour
/// that the mover may enter (see `step_ok`), keeping the corner rule.
pub open spec fn ground_step(grid: PathGrid, o: AStarOptions, goal: (u16, u16), a: (u16, u16), b: (u16, u16)) -> bool {
    &&& chebyshev(a.0 as int, a.1 as int, b.0 as int, b.1 as int) == 1
    &&& step_ok(grid, o, goal, b.0, b.1, false)
    &&& corners_ok(grid, o, a.0, a.1, b.0, b.1, false)
}

/// Step `k` of `p` is a ground step.
pub open spec fn route_step(grid: PathGrid, o: AStarOptions, goal: (u16, u16), p: Seq<(u16, u16)>, k: int) -> bool {
    ground_step(grid, o, goal, p[k], p[k + 1])
}

/// `p` is a route of ground steps from `start` to `goal`.
pub open spec fn ground_route(grid: PathGrid, o: AStarOptions, start: (u16, u16), goal: (u16, u16), p: Seq<(u16, u16)>) -> bool {
    &&& p.len() >= 1
    &&& p[0] == start
    &&& p[p.len() - 1] == goal
    &&& forall|k: int| 0 <= k < p.len() - 1 ==> #[trigger] route_step(grid, o, goal, p, k)
}

/// The case in which the search must find a path: a grid without bridges,
/// small enough that the node limit cannot be reached, a search on the
/// ground from a start the mover passes, and a route of ground steps from
/// start to goal.
pub open spec fn search_complete_case(
    grid: PathGrid,
    o: AStarOptions,
    start: (u16, u16),
    layer: MovementLayer,
    goal: (u16, u16),
) -> bool {
    &&& bridge_free(grid)
    &&& layer == MovementLayer::Ground
    &&& spec_passable_for_mover(grid, start.0, start.1, o.movement_zone, o.resolved_terrain)
    &&& grid.spec_width() * grid.spec_height() < MAX_SEARCH_NODES
    &&& exists|p: Seq<(u16, u16)>| #[trigger] ground_route(grid, o, start, goal, p)
}

/// In the case in which the search must find a path, the start passes on
/// the ground, and the goal lies inside the grid, has no bridge and is
/// passed by the mover on the ground.
pub(crate) proof fn lemma_complete_case_ends(grid: PathGrid, o: AStarOptions, start: (u16, u16), layer: MovementLayer, goal: (u16, u16))
    requires
        search_complete_case(grid, o, start, layer, goal),
        grid.in_bounds(start.0 as int, start.1 as int),
    ensures
        spec_start_passable(grid, start, layer, o),
        grid.in_bounds(goal.0 as int, goal.1 as int),
        spec_passable_for_mover(grid, goal.0, goal.1, o.movement_zone, o.resolved_terrain),
        !grid.cell_or_blocked(goal.0, goal.1).bridge_walkable,
{
    let p = choose|p: Seq<(u16, u16)>| #[trigger] ground_route(grid, o, start, goal, p);
    if p.len() >= 2 {
        assert(route_step(grid, o, goal, p, p.len() - 2));
    }
    let c = grid.cell_or_blocked(start.0, start.1);
    lemma_bridge_free_cell(grid, start.0, start.1, start_height_for(c, layer), c);
    lemma_bridge_free_cell(grid, goal.0, goal.1, 0, c);
}

/// Number of `true` entries among the first `k`.
pub open spec fn count_true(s: Seq<bool>, k: int) -> int
    decreases k,
{
    if k <= 0 {
        0
    } else {
        count_true(s, k - 1) + if s[k - 1] {
            1int
        } else {
            0int
        }
    }
}

proof fn lemma_count_true(s: Seq<bool>, k: int, i: int)
    requires
        0 <= k <= s.len(),
        0 <= i < s.len(),
        !s[i],
    ensures
        0 <= count_true(s, k) <= k,
        count_true(s.update(i, true), k) == count_true(s, k) + if i < k {
            1int
        } else {
            0int
        },
    decreases k,
{
    if k > 0 {
        lemma_count_true(s, k - 1, i);
    }
}

/// On a grid without bridges a ground step is a step `relax` takes: the
/// neighbor is entered on the ground, is passable, and has a cost.
proof fn lemma_ground_step_relaxes(
    grid: PathGrid,
    o: AStarOptions,
    goal: (u16, u16),
    cur: AStarNode,
    cur_cell: PathCell,
    dir: int,
    nx: u16,
    ny: u16,
)
    requires
        bridge_free(grid),
        grid.spec_cells().len() == grid.spec_width() * grid.spec_height(),
        ground_step(grid, o, goal, (cur.x, cur.y), (nx, ny)),
        0 <= dir < 8,
        nx == cur.x + spec_neighbor(dir).0,
        ny == cur.y + spec_neighbor(dir).1,
    ensures
        !relax_layer(grid, cur, nx, ny),
        relax_passable(grid, o, cur, nx, ny),
        relax_step_cost(grid, o, goal, is_water_search(o), cur, cur_cell, dir, nx, ny) is Some,
        spec_neighbor_height(cur.height, cur_cell, grid.cell_or_blocked(nx, ny)) == grid.cell_or_blocked(nx, ny).ground_level,
{
    assert(!grid.cell_or_blocked(nx, ny).bridge_walkable);
    assert(spec_neighbor(dir).2 == (nx != cur.x && ny != cur.y));
}

impl SearchState {
    /// What the search keeps on a grid without bridges, for completeness:
    /// open nodes are ground nodes at the ground level of their cell; every
    /// ground node with a cost is closed or has an open node; closed nodes
    /// have a cost; every ground step out of a closed node other than
    /// `skip` leads to a node with a cost; the goal is not closed; and `ne`
    /// nodes are closed.
    spec fn complete_inv(self, grid: PathGrid, o: AStarOptions, goal: (u16, u16), w: int, n: int, ne: int, skip: int) -> bool {
        &&& forall|k: int|
            0 <= k < self.open@.len() ==> !(#[trigger] self.open@[k]).on_bridge && self.open@[k].height
                == grid.cell_or_blocked(self.open@[k].x, self.open@[k].y).ground_level
        &&& forall|i: int|
            0 <= i < n && #[trigger] self.g(i, false) != g_unset() && !self.closed(i, false) ==> exists|k: int|
                0 <= k < self.open@.len() && cell_index((#[trigger] self.open@[k]).x as int, self.open@[k].y as int, w) == i
        &&& forall|i: int| 0 <= i < n && #[trigger] self.closed(i, false) ==> self.g(i, false) != g_unset()
        &&& forall|i: int, x: u16, y: u16|
            0 <= i < n && i != skip && self.closed(i, false) && #[trigger] ground_step(
                grid,
                o,
                goal,
                ((i % w) as u16, (i / w) as u16),
                (x, y),
            ) ==> self.g(cell_index(x as int, y as int, w), false) != g_unset()
        &&& !self.closed(cell_index(goal.0 as int, goal.1 as int, w), false)
        &&& count_true(self.ground_closed@, n) == ne
    }
}

/// When no node is open, every cell of a route from the start is closed.
proof fn lemma_route_closed(
    st: SearchState,
    grid: PathGrid,
    o: AStarOptions,
    start: (u16, u16),
    goal: (u16, u16),
    p: Seq<(u16, u16)>,
    w: int,
    h: int,
    n: int,
    k: int,
)
    requires
        ground_route(grid, o, start, goal, p),
        0 <= k < p.len(),
        0 < w,
        n == w * h,
        start.0 < w,
        start.1 < h,
        w == grid.spec_width(),
        h == grid.spec_height(),
        st.closed(cell_index(start.0 as int, start.1 as int, w), false),
        forall|i: int| 0 <= i < n && #[trigger] st.g(i, false) != g_unset() ==> st.closed(i, false),
        forall|i: int, x: u16, y: u16|
            0 <= i < n && st.closed(i, false) && #[trigger] ground_step(grid, o, goal, ((i % w) as u16, (i / w) as u16), (x, y))
                ==> st.g(cell_index(x as int, y as int, w), false) != g_unset(),
    ensures
        p[k].0 < w,
        p[k].1 < h,
        st.closed(cell_index(p[k].0 as int, p[k].1 as int, w), false),
    decreases k,
{
    if k > 0 {
        lemma_route_closed(st, grid, o, start, goal, p, w, h, n, k - 1);
        assert(route_step(grid, o, goal, p, k - 1));
        let i = cell_index(p[k - 1].0 as int, p[k - 1].1 as int, w);
        lemma_index_in_bounds(p[k - 1].0 as int, p[k - 1].1 as int, w, h);
        lemma_index_coords(p[k - 1].0 as int, p[k - 1].1 as int, w);
        assert(((i % w) as u16, (i / w) as u16) == p[k - 1]);
        assert(ground_step(grid, o, goal, ((i % w) as u16, (i / w) as u16), p[k]));
        lemma_index_in_bounds(p[k].0 as int, p[k].1 as int, w, h);
    }
}

/// Every entry among the first `k` is `false`: none counted.
proof fn lemma_count_zero(s: Seq<bool>, k: int)
    requires
        0 <= k <= s.len(),
        forall|i: int| 0 <= i < k ==> !#[trigger] s[i],
    ensures
        count_true(s, k) == 0,
    decreases k,
{
    if k > 0 {
        lemma_count_zero(s, k - 1);
    }
}

/// At most `k` of the first `k` entries are counted.
proof fn lemma_count_le(s: Seq<bool>, k: int)
    requires
        0 <= k <= s.len(),
    ensures
        0 <= count_true(s, k) <= k,
    decreases k,
{
    if k > 0 {
        lemma_count_le(s, k - 1);
    }
}

/// On a grid without bridges every cell is searched on the ground, at its
/// ground level.
proof fn lemma_bridge_free_cell(grid: PathGrid, x: u16, y: u16, ph: u8, pc: PathCell)
    requires
        bridge_free(grid),
    ensures
        !grid.cell_or_blocked(x, y).bridge_walkable,
        !spec_is_at_bridge_level(ph, grid.cell_or_blocked(x, y)),
        spec_neighbor_height(ph, pc, grid.cell_or_blocked(x, y)) == grid.cell_or_blocked(x, y).ground_level,
        !grid.spec_walkable_on_layer(x, y, MovementLayer::Bridge),
{
    assert(!grid.cell_or_blocked(x, y).bridge_walkable);
}

impl SearchState {
    /// Every ground node with a cost in `self` still has one in `other`.
    spec fn g_kept(self, other: SearchState, n: int) -> bool {
        forall|i: int| 0 <= i < n && #[trigger] self.g(i, false) != g_unset() ==> other.g(i, false) != g_unset()
    }

    /// The ground step from `cur` in direction `d`, if any, leads to a node
    /// with a cost.
    spec fn dir_reached(self, grid: PathGrid, o: AStarOptions, goal: (u16, u16), cur: AStarNode, d: int, w: int, h: int) -> bool {
        match relax_target(cur, d, w, h) {
            Some(t) => ground_step(grid, o, goal, (cur.x, cur.y), t) ==> self.g(cell_index(t.0 as int, t.1 as int, w), false)
                != g_unset(),
            None => true,
        }
    }
}

/// Popping the least open node and closing its cell keeps the completeness
/// invariant; a newly closed cell counts one more and is skipped until its
/// neighbors are relaxed.
proof fn lemma_complete_pop_close(
    st0: SearchState,
    st1: SearchState,
    grid: PathGrid,
    o: AStarOptions,
    goal: (u16, u16),
    w: int,
    n: int,
    ne: int,
    ci: int,
    skip: int,
)
    requires
        st0.complete_inv(grid, o, goal, w, n, ne, -1),
        st0.sizes(n),
        st1.sizes(n),
        st0.open@.len() > 0,
        st1.open@ == crate::pathfinding::open_set::popped(st0.open@),
        forall|j: int| 0 <= j < n ==> #[trigger] st1.g(j, false) == st0.g(j, false),
        0 <= ci < n,
        ci == cell_index(st0.open@[0].x as int, st0.open@[0].y as int, w),
        ci != cell_index(goal.0 as int, goal.1 as int, w),
        0 <= cell_index(goal.0 as int, goal.1 as int, w) < n,
        w == grid.spec_width(),
        n == w * grid.spec_height(),
        st0.g(ci, false) != g_unset(),
        st1.closed(ci, false),
        forall|j: int| 0 <= j < n && j != ci ==> #[trigger] st1.closed(j, false) == st0.closed(j, false),
        (skip == -1 && st0.closed(ci, false)) || (skip == ci && !st0.closed(ci, false)),
    ensures
        st1.complete_inv(grid, o, goal, w, n, if skip == -1 { ne } else { ne + 1 }, skip),
{
    broadcast use vstd::seq_lib::to_multiset_contains, vstd::multiset::group_multiset_axioms;

    let s0 = st0.open@;
    let s1 = st1.open@;
    crate::pathfinding::open_set::lemma_popped_multiset(s0);
    assert forall|j: int| 0 <= j < n implies st1.ground_closed@[j] == st0.ground_closed@.update(ci, true)[j] by {
        if j != ci {
            assert(st1.closed(j, false) == st0.closed(j, false));
        }
    }
    assert(st1.ground_closed@ =~= st0.ground_closed@.update(ci, true));
    assert forall|k: int| 0 <= k < s1.len() implies !(#[trigger] s1[k]).on_bridge && s1[k].height
        == grid.cell_or_blocked(s1[k].x, s1[k].y).ground_level by {
        let x = s1[k];
        assert(s1.contains(x));
        assert(s1.to_multiset().count(x) > 0);
        assert(s0.to_multiset().count(x) > 0);
        assert(s0.contains(x));
        let j = choose|j: int| 0 <= j < s0.len() && s0[j] == s1[k];
        assert(!s0[j].on_bridge);
    }
    assert forall|i: int|
        0 <= i < n && #[trigger] st1.g(i, false) != g_unset() && !st1.closed(i, false) implies exists|k: int|
            0 <= k < s1.len() && cell_index((#[trigger] s1[k]).x as int, s1[k].y as int, w) == i by {
        assert(st0.g(i, false) != g_unset());
        assert(!st0.closed(i, false));
        let k0 = choose|k: int| 0 <= k < s0.len() && cell_index((#[trigger] s0[k]).x as int, s0[k].y as int, w) == i;
        assert(s0[k0] != s0[0]);
        assert(s0.contains(s0[k0]));
        assert(s0.to_multiset().count(s0[k0]) > 0);
        assert(s1.to_multiset().count(s0[k0]) > 0);
        assert(s1.contains(s0[k0]));
        let k1 = choose|k: int| 0 <= k < s1.len() && s1[k] == s0[k0];
        assert(cell_index(s1[k1].x as int, s1[k1].y as int, w) == i);
    }
    assert forall|i: int| 0 <= i < n && #[trigger] st1.closed(i, false) implies st1.g(i, false) != g_unset() by {
        if i != ci {
            assert(st0.closed(i, false));
        }
    }
    assert forall|i: int, x: u16, y: u16|
        0 <= i < n && i != skip && st1.closed(i, false) && #[trigger] ground_step(
            grid,
            o,
            goal,
            ((i % w) as u16, (i / w) as u16),
            (x, y),
        ) implies st1.g(cell_index(x as int, y as int, w), false) != g_unset() by {
        assert(st0.closed(i, false));
        lemma_index_in_bounds(x as int, y as int, w, grid.spec_height() as int);
    }
    assert(!st1.closed(cell_index(goal.0 as int, goal.1 as int, w), false));
    if skip != -1 {
        lemma_count_true(st0.ground_closed@, n, ci);
    } else {
        assert(st0.ground_closed@.update(ci, true) =~= st0.ground_closed@);
    }
}

/// Recording a cheaper ground route to a node and pushing it keeps the
/// completeness invariant, and no node loses its cost.
proof fn lemma_complete_improved(
    st0: SearchState,
    st1: SearchState,
    grid: PathGrid,
    o: AStarOptions,
    goal: (u16, u16),
    w: int,
    n: int,
    ne: int,
    skip: int,
    ni: int,
    c_idx: usize,
    cur_b: bool,
    tg: i64,
    node: AStarNode,
)
    requires
        st0.complete_inv(grid, o, goal, w, n, ne, skip),
        SearchState::improved(st0, st1, n, ni, false, c_idx, cur_b, tg, node),
        tg != g_unset(),
        !node.on_bridge,
        node.height == grid.cell_or_blocked(node.x, node.y).ground_level,
        ni == cell_index(node.x as int, node.y as int, w),
        0 <= ni < n,
        w == grid.spec_width(),
        n == w * grid.spec_height(),
    ensures
        st1.complete_inv(grid, o, goal, w, n, ne, skip),
        st0.g_kept(st1, n),
{
    broadcast use vstd::seq_lib::to_multiset_contains, vstd::multiset::group_multiset_axioms;

    let s0 = st0.open@;
    let s1 = st1.open@;
    crate::pathfinding::open_set::lemma_pushed_multiset(s0, node);
    assert forall|k: int| 0 <= k < s1.len() implies !(#[trigger] s1[k]).on_bridge && s1[k].height
        == grid.cell_or_blocked(s1[k].x, s1[k].y).ground_level by {
        let x = s1[k];
        assert(s1.contains(x));
        assert(s1.to_multiset().count(x) > 0);
        if x != node {
            assert(s0.to_multiset().count(x) > 0);
            assert(s0.contains(x));
            let j = choose|j: int| 0 <= j < s0.len() && s0[j] == s1[k];
            assert(!s0[j].on_bridge);
        }
    }
    assert forall|i: int|
        0 <= i < n && #[trigger] st1.g(i, false) != g_unset() && !st1.closed(i, false) implies exists|k: int|
            0 <= k < s1.len() && cell_index((#[trigger] s1[k]).x as int, s1[k].y as int, w) == i by {
        if i == ni {
            assert(s1.to_multiset().count(node) > 0);
            assert(s1.contains(node));
            let k1 = choose|k: int| 0 <= k < s1.len() && s1[k] == node;
            assert(cell_index(s1[k1].x as int, s1[k1].y as int, w) == i);
        } else {
            assert(st0.g(i, false) != g_unset());
            assert(!st0.closed(i, false));
            let k0 = choose|k: int| 0 <= k < s0.len() && cell_index((#[trigger] s0[k]).x as int, s0[k].y as int, w) == i;
            assert(s0.contains(s0[k0]));
            assert(s0.to_multiset().count(s0[k0]) > 0);
            assert(s1.to_multiset().count(s0[k0]) > 0);
            assert(s1.contains(s0[k0]));
            let k1 = choose|k: int| 0 <= k < s1.len() && s1[k] == s0[k0];
            assert(cell_index(s1[k1].x as int, s1[k1].y as int, w) == i);
        }
    }
    assert forall|i: int| 0 <= i < n && #[trigger] st0.g(i, false) != g_unset() implies st1.g(i, false) != g_unset() by {
        if i != ni {
            assert(st1.g(i, false) == st0.g(i, false));
        }
    }
    assert forall|i: int| 0 <= i < n && #[trigger] st1.closed(i, false) implies st1.g(i, false) != g_unset() by {
        assert(st0.closed(i, false));
        assert(st0.g(i, false) != g_unset());
    }
    assert forall|i: int, x: u16, y: u16|
        0 <= i < n && i != skip && st1.closed(i, false) && #[trigger] ground_step(
            grid,
            o,
            goal,
            ((i % w) as u16, (i / w) as u16),
            (x, y),
        ) implies st1.g(cell_index(x as int, y as int, w), false) != g_unset() by {
        assert(st0.closed(i, false));
        let t = cell_index(x as int, y as int, w);
        lemma_index_in_bounds(x as int, y as int, w, grid.spec_height() as int);
        assert(st0.g(t, false) != g_unset());
        if t != ni {
            assert(st1.g(t, false) == st0.g(t, false));
        }
    }
}


/// Relaxing one direction of the current cell keeps the completeness
/// invariant, and afterwards that direction's ground step, if any, leads to
/// a node with a cost, as do those of the directions before it.
#[verifier::spinoff_prover]
proof fn lemma_complete_relax(
    st0: SearchState,
    st1: SearchState,
    grid: PathGrid,
    o: AStarOptions,
    goal: (u16, u16),
    is_water: bool,
    cur: AStarNode,
    c_idx: usize,
    cur_cell: PathCell,
    dir: int,
    w: int,
    h: int,
    n: int,
    ne: int,
)
    requires
        st0.complete_inv(grid, o, goal, w, n, ne, c_idx as int),
        bridge_free(grid),
        w == grid.spec_width(),
        h == grid.spec_height(),
        n == w * h,
        n == grid.spec_cells().len(),
        is_water == is_water_search(o),
        cur.x < w,
        cur.y < h,
        0 <= cur.g_cost <= (ne - 1) * max_step(),
        1 <= ne <= 65527,
        0 <= dir < 8,
        cur_cell == grid.cell_or_blocked(cur.x, cur.y),
        forall|d: int| 0 <= d < dir ==> #[trigger] st0.dir_reached(grid, o, goal, cur, d, w, h),
        match relax_target(cur, dir, w, h) {
            None => st1 == st0,
            Some((nx, ny)) => {
                let ni = cell_index(nx as int, ny as int, w);
                let nub = relax_layer(grid, cur, nx, ny);
                let open_cell = !st0.closed(ni, nub);
                let passable = relax_passable(grid, o, cur, nx, ny);
                let cost = relax_step_cost(grid, o, goal, is_water, cur, cur_cell, dir, nx, ny);
                &&& (open_cell && passable && cost is Some ==> 1 <= cost->0 <= 5_600_000)
                &&& if open_cell && passable && cost is Some && cur.g_cost + cost->0 + spec_dir_tiebreak(dir) < st0.g(
                    ni,
                    nub,
                ) {
                    let tg = (cur.g_cost + cost->0 + spec_dir_tiebreak(dir)) as i64;
                    SearchState::improved(
                        st0,
                        st1,
                        n,
                        ni,
                        nub,
                        c_idx,
                        cur.on_bridge,
                        tg,
                        AStarNode {
                            f_cost: (tg + spec_octile(nx, ny, goal.0, goal.1)) as i64,
                            g_cost: tg,
                            x: nx,
                            y: ny,
                            height: spec_neighbor_height(cur.height, cur_cell, grid.cell_or_blocked(nx, ny)),
                            on_bridge: nub,
                        },
                    )
                } else {
                    st1 == st0
                }
            },
        },
    ensures
        st1.complete_inv(grid, o, goal, w, n, ne, c_idx as int),
        forall|d: int| 0 <= d <= dir ==> #[trigger] st1.dir_reached(grid, o, goal, cur, d, w, h),
{
    assert((ne - 1) * max_step() <= 65526 * 6_000_000) by (nonlinear_arith)
        requires
            1 <= ne <= 65527,
            max_step() == 6_000_000,
    ;
    match relax_target(cur, dir, w, h) {
        None => {},
        Some((nx, ny)) => {
            let ni = cell_index(nx as int, ny as int, w);
            lemma_index_in_bounds(nx as int, ny as int, w, h);
            lemma_bridge_free_cell(grid, nx, ny, cur.height, cur_cell);
            let nub = relax_layer(grid, cur, nx, ny);
            assert(!nub);
            let open_cell = !st0.closed(ni, nub);
            let passable = relax_passable(grid, o, cur, nx, ny);
            let cost = relax_step_cost(grid, o, goal, is_water, cur, cur_cell, dir, nx, ny);
            assert(1 <= spec_dir_tiebreak(dir) <= 8);
            if open_cell && passable && cost is Some {
                assert(cur.g_cost + cost->0 + spec_dir_tiebreak(dir) < 1_000_000_000_000);
            }
            if open_cell && passable && cost is Some && cur.g_cost + cost->0 + spec_dir_tiebreak(dir) < st0.g(ni, nub) {
                let tg = (cur.g_cost + cost->0 + spec_dir_tiebreak(dir)) as i64;
                assert(tg == cur.g_cost + cost->0 + spec_dir_tiebreak(dir));
                let node = AStarNode {
                    f_cost: (tg + spec_octile(nx, ny, goal.0, goal.1)) as i64,
                    g_cost: tg,
                    x: nx,
                    y: ny,
                    height: spec_neighbor_height(cur.height, cur_cell, grid.cell_or_blocked(nx, ny)),
                    on_bridge: nub,
                };
                lemma_complete_improved(st0, st1, grid, o, goal, w, n, ne, c_idx as int, ni, c_idx, cur.on_bridge, tg, node);
            }
            if ground_step(grid, o, goal, (cur.x, cur.y), (nx, ny)) {
                lemma_ground_step_relaxes(grid, o, goal, cur, cur_cell, dir, nx, ny);
                if st0.closed(ni, false) {
                    assert(st0.g(ni, false) != g_unset());
                }
                assert(st1.g(ni, false) != g_unset());
            }
            assert(st1.dir_reached(grid, o, goal, cur, dir, w, h));
        },
    }
    assert forall|d: int| 0 <= d <= dir implies #[trigger] st1.dir_reached(grid, o, goal, cur, d, w, h) by {
        if d < dir {
            assert(st0.dir_reached(grid, o, goal, cur, d, w, h));
            if let Some(t) = relax_target(cur, d, w, h) {
                lemma_index_in_bounds(t.0 as int, t.1 as int, w, h);
                let ti = cell_index(t.0 as int, t.1 as int, w);
                if st0.g(ti, false) != g_unset() {
                    assert(st1.g(ti, false) != g_unset());
                }
            }
        }
    }
}

/// Once every direction of the current cell is relaxed, its ground steps
/// need not be skipped any more.
proof fn lemma_complete_unskip(
    st: SearchState,
    grid: PathGrid,
    o: AStarOptions,
    goal: (u16, u16),
    cur: AStarNode,
    c_idx: int,
    w: int,
    h: int,
    n: int,
    ne: int,
)
    requires
        st.complete_inv(grid, o, goal, w, n, ne, c_idx),
        c_idx == cell_index(cur.x as int, cur.y as int, w),
        cur.x < w,
        cur.y < h,
        w == grid.spec_width(),
        h == grid.spec_height(),
        forall|d: int| 0 <= d < 8 ==> #[trigger] st.dir_reached(grid, o, goal, cur, d, w, h),
    ensures
        st.complete_inv(grid, o, goal, w, n, ne, -1),
{
    assert forall|i: int, x: u16, y: u16|
        0 <= i < n && i != -1 && st.closed(i, false) && #[trigger] ground_step(
            grid,
            o,
            goal,
            ((i % w) as u16, (i / w) as u16),
            (x, y),
        ) implies st.g(cell_index(x as int, y as int, w), false) != g_unset() by {
        if i == c_idx {
            lemma_index_coords(cur.x as int, cur.y as int, w);
            assert(((i % w) as u16, (i / w) as u16) == (cur.x, cur.y));
            let d = lemma_dir_of(cur.x as int, cur.y as int, x as int, y as int);
            assert(st.dir_reached(grid, o, goal, cur, d, w, h));
            assert(relax_target(cur, d, w, h) == Some((x, y)));
        }
    }
}

/// While a route from the start exists, some node is open: with none open
/// the route would be closed up to the goal, which the invariant keeps open.
proof fn lemma_complete_open_nonempty(
    st: SearchState,
    grid: PathGrid,
    o: AStarOptions,
    start: (u16, u16),
    goal: (u16, u16),
    p: Seq<(u16, u16)>,
    w: int,
    h: int,
    n: int,
    ne: int,
)
    requires
        st.complete_inv(grid, o, goal, w, n, ne, -1),
        st.g(cell_index(start.0 as int, start.1 as int, w), false) != g_unset(),
        ground_route(grid, o, start, goal, p),
        start.0 < w,
        start.1 < h,
        0 < w,
        n == w * h,
        w == grid.spec_width(),
        h == grid.spec_height(),
    ensures
        st.open@.len() > 0,
{
    if st.open@.len() > 0 {
        return;
    }
    assert forall|i: int| 0 <= i < n && #[trigger] st.g(i, false) != g_unset() implies st.closed(i, false) by {
        if !st.closed(i, false) {
            let k = choose|k: int| 0 <= k < st.open@.len() && cell_index((#[trigger] st.open@[k]).x as int, st.open@[k].y as int, w) == i;
        }
    }
    lemma_index_in_bounds(start.0 as int, start.1 as int, w, h);
    lemma_route_closed(st, grid, o, start, goal, p, w, h, n, p.len() - 1);
}

/// The search state right after the start node is pushed meets the
/// completeness invariant.
proof fn lemma_complete_init(
    st0: SearchState,
    st1: SearchState,
    grid: PathGrid,
    o: AStarOptions,
    goal: (u16, u16),
    w: int,
    n: int,
    s_idx: int,
    node: AStarNode,
)
    requires
        st0.sizes(n),
        st0.open@.len() == 0,
        forall|i: int, b: bool| 0 <= i < n ==> !#[trigger] st0.closed(i, b),
        forall|i: int, b: bool| 0 <= i < n && (i != s_idx || b) ==> #[trigger] st0.g(i, b) == g_unset(),
        st1.ground_g == st0.ground_g,
        st1.ground_closed == st0.ground_closed,
        st1.open@ == crate::pathfinding::open_set::pushed(st0.open@, node),
        !node.on_bridge,
        node.height == grid.cell_or_blocked(node.x, node.y).ground_level,
        s_idx == cell_index(node.x as int, node.y as int, w),
        0 <= s_idx < n,
        0 <= cell_index(goal.0 as int, goal.1 as int, w) < n,
    ensures
        st1.complete_inv(grid, o, goal, w, n, 0, -1),
{
    broadcast use vstd::seq_lib::to_multiset_contains, vstd::multiset::group_multiset_axioms;

    let s1 = st1.open@;
    crate::pathfinding::open_set::lemma_pushed_multiset(st0.open@, node);
    assert(st0.open@.to_multiset() =~= vstd::multiset::Multiset::empty());
    assert forall|k: int| 0 <= k < s1.len() implies !(#[trigger] s1[k]).on_bridge && s1[k].height
        == grid.cell_or_blocked(s1[k].x, s1[k].y).ground_level by {
        let x = s1[k];
        assert(s1.contains(x));
        assert(s1.to_multiset().count(x) > 0);
        assert(x == node);
    }
    assert forall|i: int|
        0 <= i < n && #[trigger] st1.g(i, false) != g_unset() && !st1.closed(i, false) implies exists|k: int|
            0 <= k < s1.len() && cell_index((#[trigger] s1[k]).x as int, s1[k].y as int, w) == i by {
        assert(st0.g(i, false) != g_unset());
        assert(s1.to_multiset().count(node) > 0);
        assert(s1.contains(node));
        let k1 = choose|k: int| 0 <= k < s1.len() && s1[k] == node;
        assert(cell_index(s1[k1].x as int, s1[k1].y as int, w) == i);
    }
    assert forall|i: int| 0 <= i < n implies !#[trigger] st1.closed(i, false) by {
        assert(!st0.closed(i, false));
    }
    assert(!st0.closed(cell_index(goal.0 as int, goal.1 as int, w), false));
    assert forall|i: int| 0 <= i < n implies !#[trigger] st1.ground_closed@[i] by {
        assert(!st0.closed(i, false));
    }
    lemma_count_zero(st1.ground_closed@, n);
}


/// Optional vector as an optional sequence.
pub open spec fn opt_view(r: Option<Vec<LayeredPathStep>>) -> Option<Seq<LayeredPathStep>> {
    match r {
        Some(v) => Some(v@),
        None => None,
    }
}

/// Whether the search can start from `start` on `layer`.
fn start_passable(grid: &PathGrid, start: (u16, u16), layer: MovementLayer, options: &AStarOptions) -> (r: bool)
    ensures
        r == spec_start_passable(*grid, start, layer, *options),
{
    let c = grid.cell_or_blocked_exec(start.0, start.1);
    let height = if layer == MovementLayer::Bridge {
        c.bridge_deck_level
    } else {
        c.ground_level
    };
    if is_at_bridge_level(height, &c) {
        grid.is_walkable_on_layer(start.0, start.1, MovementLayer::Bridge)
    } else {
        is_cell_passable_for_mover(grid, start.0, start.1, options.movement_zone, options.resolved_terrain)
    }
}

/// Pop the least node of the open set; every other part of the state is kept.
fn pop_open(
    st: &mut SearchState,
    grid: &PathGrid,
    options: &AStarOptions,
    goal: (u16, u16),
    w: usize,
    n: usize,
    Ghost(s_idx): Ghost<int>,
    Ghost(s_b): Ghost<bool>,
    Ghost(ne): Ghost<int>,
) -> (r: Option<AStarNode>)
    requires
        old(st).inv(*grid, *options, goal, w as int, n as int, s_idx, s_b, ne),
    ensures
        final(st).inv(*grid, *options, goal, w as int, n as int, s_idx, s_b, ne),
        r is None <==> old(st).open@.len() == 0,
        r is Some ==> final(st).open@.len() == old(st).open@.len() - 1,
        r matches Some(nd) ==> nd == old(st).open@[0],
        final(st).open@ == crate::pathfinding::open_set::popped(old(st).open@),
        r matches Some(nd) ==> old(st).node_ok(nd, w as int, n as int, s_idx, s_b, ne),
        final(st).ground_g == old(st).ground_g,
        final(st).bridge_g == old(st).bridge_g,
        final(st).ground_from == old(st).ground_from,
        final(st).bridge_from == old(st).bridge_from,
        final(st).ground_from_bridge == old(st).ground_from_bridge,
        final(st).bridge_from_bridge == old(st).bridge_from_bridge,
        final(st).ground_closed == old(st).ground_closed,
        final(st).bridge_closed == old(st).bridge_closed,
{
    let ghost wi = w as int;
    let ghost mid = *st;
    let r = heap_pop(&mut st.open);
    proof {
        if let Some(nd) = r {
            let j = choose|j: int| 0 <= j < mid.open@.len() && mid.open@[j] == nd;
            assert(mid.node_ok(mid.open@[j], wi, n as int, s_idx, s_b, ne));
        }
        assert forall|i: int, b: bool|
            0 <= i < n && #[trigger] st.from(i, b) != usize::MAX implies st.parent_ok(
            *grid,
            *options,
            goal,
            wi,
            n as int,
            i,
            b,
        ) by {
            assert(mid.from(i, b) != usize::MAX);
        }
        assert forall|i: int, b: bool| 0 <= i < n implies #[trigger] st.g(i, b) >= 0 by {
            assert(mid.g(i, b) >= 0);
        }
        assert forall|i: int, b: bool|
            0 <= i < n && #[trigger] st.closed(i, b) implies ((i == s_idx && b == s_b) || st.from(i, b) != usize::MAX) by {
            assert(mid.closed(i, b));
        }
        assert forall|k: int| 0 <= k < st.open@.len() implies st.node_ok(
            #[trigger] st.open@[k],
            wi,
            n as int,
            s_idx,
            s_b,
            ne,
        ) by {
            let j = choose|j: int| 0 <= j < mid.open@.len() && mid.open@[j] == st.open@[k];
            assert(mid.node_ok(mid.open@[j], wi, n as int, s_idx, s_b, ne));
        }
    }
    r
}

/// Close node `(i, b)`: it is the start node or has a parent record.
fn close_node(
    st: &mut SearchState,
    i: usize,
    b: bool,
    grid: &PathGrid,
    options: &AStarOptions,
    goal: (u16, u16),
    w: usize,
    n: usize,
    Ghost(s_idx): Ghost<int>,
    Ghost(s_b): Ghost<bool>,
    Ghost(ne): Ghost<int>,
)
    requires
        old(st).inv(*grid, *options, goal, w as int, n as int, s_idx, s_b, ne),
        i < n,
        (i == s_idx && b == s_b) || old(st).from(i as int, b) != usize::MAX,
    ensures
        final(st).inv(*grid, *options, goal, w as int, n as int, s_idx, s_b, ne),
        final(st).closed(i as int, b),
        forall|j: int, c: bool| 0 <= j < n ==> #[trigger] final(st).g(j, c) == old(st).g(j, c),
        forall|j: int, c: bool|
            0 <= j < n && !(j == i && c == b) ==> #[trigger] final(st).closed(j, c) == old(st).closed(j, c),
        final(st).open == old(st).open,
{
    let ghost wi = w as int;
    let ghost before = *st;
    if b {
        st.bridge_closed.set(i, true);
    } else {
        st.ground_closed.set(i, true);
    }
    proof {
        assert forall|j: int, c: bool|
            0 <= j < n && #[trigger] st.from(j, c) != usize::MAX implies st.parent_ok(
            *grid,
            *options,
            goal,
            wi,
            n as int,
            j,
            c,
        ) by {
            assert(before.from(j, c) != usize::MAX);
            assert(before.parent_ok(*grid, *options, goal, wi, n as int, j, c));
        }
        assert forall|j: int, c: bool| 0 <= j < n implies #[trigger] st.g(j, c) >= 0 by {
            assert(before.g(j, c) >= 0);
        }
        assert forall|j: int, c: bool|
            0 <= j < n && #[trigger] st.closed(j, c) implies ((j == s_idx && c == s_b) || st.from(j, c) != usize::MAX) by {
            if !(j == i && c == b) {
                assert(before.closed(j, c));
            }
        }
        assert forall|k: int| 0 <= k < st.open@.len() implies st.node_ok(
            #[trigger] st.open@[k],
            wi,
            n as int,
            s_idx,
            s_b,
            ne,
        ) by {
            assert(before.node_ok(before.open@[k], wi, n as int, s_idx, s_b, ne));
        }
    }
}

/// Run the search from `start` on a layer on which the start passes.
#[verifier::spinoff_prover]
#[verifier::rlimit(100)]
fn search_from(
    grid: &PathGrid,
    start: (u16, u16),
    layer: MovementLayer,
    goal: (u16, u16),
    options: &AStarOptions,
) -> (r: Option<Vec<LayeredPathStep>>)
    requires
        grid.in_bounds(start.0 as int, start.1 as int),
    ensures
        search_result_ok(*grid, *options, start, layer, goal, opt_view(r)),
        search_complete_case(*grid, *options, start, layer, goal) ==> r is Some,
{
    let ghost hyp = search_complete_case(*grid, *options, start, layer, goal);
    proof {
        if hyp {
            let p = choose|p: Seq<(u16, u16)>| #[trigger] ground_route(*grid, *options, start, goal, p);
            if p.len() >= 2 {
                assert(route_step(*grid, *options, goal, p, p.len() - 2));
            }
            assert(grid.in_bounds(goal.0 as int, goal.1 as int));
            assert(spec_passable_for_mover(*grid, goal.0, goal.1, options.movement_zone, options.resolved_terrain));
        }
    }
    let is_water_mover = match options.movement_zone {
        Some(mz) => mz.is_water_mover(),
        None => false,
    };
    let goal_ground_ok = is_cell_passable_for_mover(grid, goal.0, goal.1, options.movement_zone, options.resolved_terrain);
    let goal_bridge_ok = grid.is_walkable_on_layer(goal.0, goal.1, MovementLayer::Bridge);
    if !goal_ground_ok && !goal_bridge_ok {
        return None;
    }
    let start_cell = grid.cell_or_blocked_exec(start.0, start.1);
    let start_height = if layer == MovementLayer::Bridge {
        start_cell.bridge_deck_level
    } else {
        start_cell.ground_level
    };
    let goal_cell = grid.cell_or_blocked_exec(goal.0, goal.1);
    let goal_height = if !options.is_infantry && goal_bridge_ok {
        goal_cell.bridge_deck_level
    } else {
        goal_cell.ground_level
    };
    let s_b = is_at_bridge_level(start_height, &start_cell);
    if start.0 == goal.0 && start.1 == goal.1 && start_height == goal_height {
        let mut v: Vec<LayeredPathStep> = Vec::new();
        v.push(
            LayeredPathStep {
                rx: start.0,
                ry: start.1,
                layer: if s_b {
                    MovementLayer::Bridge
                } else {
                    MovementLayer::Ground
                },
            },
        );
        proof {
            assert(v@ =~= seq![LayeredPathStep { rx: start.0, ry: start.1, layer: layer_of(s_b) }]);
        }
        return Some(v);
    }
    let w = grid.width() as usize;
    let h = grid.height() as usize;
    let n = grid.len();
    proof {
        lemma_index_in_bounds(start.0 as int, start.1 as int, w as int, h as int);
        lemma_index_coords(start.0 as int, start.1 as int, w as int);
    }
    let s_idx = start.1 as usize * w + start.0 as usize;
    proof {
        if hyp {
            lemma_bridge_free_cell(*grid, start.0, start.1, start_height, start_cell);
            lemma_bridge_free_cell(*grid, goal.0, goal.1, start_height, start_cell);
        }
    }
    let mut st = SearchState::new(n, s_idx, s_b);
    let ghost st_new = st;
    let start_node = AStarNode {
        f_cost: octile_heuristic(start.0, start.1, goal.0, goal.1),
        g_cost: 0,
        x: start.0,
        y: start.1,
        height: start_height,
        on_bridge: s_b,
    };
    proof {
        assert(st.inv(*grid, *options, goal, w as int, n as int, s_idx as int, s_b, 0));
        assert(st.node_ok(start_node, w as int, n as int, s_idx as int, s_b, 0));
    }
    push_open(&mut st, start_node, grid, options, goal, w, n, Ghost(s_idx as int), Ghost(s_b), Ghost(0));
    proof {
        if hyp {
            lemma_index_in_bounds(goal.0 as int, goal.1 as int, w as int, h as int);
            lemma_complete_init(st_new, st, *grid, *options, goal, w as int, n as int, s_idx as int, start_node);
        }
    }
    let mut ne: u32 = 0;
    loop
        invariant
            st.inv(*grid, *options, goal, w as int, n as int, s_idx as int, s_b, ne as int),
            w == grid.spec_width(),
            h == grid.spec_height(),
            n == w as int * h as int,
            n == grid.spec_cells().len(),
            0 < w,
            0 < h,
            s_idx < n,
            s_idx as int % w as int == start.0,
            s_idx as int / w as int == start.1,
            s_idx == cell_index(start.0 as int, start.1 as int, w as int),
            is_water_mover == is_water_search(*options),
            ne < 65527,
            goal_height == search_goal_height(*grid, goal, *options),
            start_height == start_height_for(grid.cell_or_blocked(start.0, start.1), layer),
            s_b == spec_is_at_bridge_level(start_height, grid.cell_or_blocked(start.0, start.1)),
            goal_enterable(*grid, goal, *options),
            !(start == goal && start_height == goal_height),
            hyp == search_complete_case(*grid, *options, start, layer, goal),
            hyp ==> st.complete_inv(*grid, *options, goal, w as int, n as int, ne as int, -1),
            hyp ==> bridge_free(*grid) && !s_b && goal.0 < w && goal.1 < h && goal_height == grid.cell_or_blocked(
                goal.0,
                goal.1,
            ).ground_level,
        decreases 65527 - ne, st.open@.len(),
    {
        let ghost st0 = st;
        let popped = pop_open(&mut st, grid, options, goal, w, n, Ghost(s_idx as int), Ghost(s_b), Ghost(ne as int));
        let cur = match popped {
            None => {
                proof {
                    if hyp {
                        let p = choose|p: Seq<(u16, u16)>| #[trigger] ground_route(*grid, *options, start, goal, p);
                        lemma_index_decompose(s_idx as int, w as int, h as int);
                        lemma_complete_open_nonempty(st0, *grid, *options, start, goal, p, w as int, h as int, n as int, ne as int);
                    }
                }
                return None;
            },
            Some(c) => c,
        };
        proof {
            lemma_index_decompose(cell_index(cur.x as int, cur.y as int, w as int), w as int, h as int);
            lemma_index_coords(cur.x as int, cur.y as int, w as int);
            lemma_index_in_bounds(cur.x as int, cur.y as int, w as int, h as int);
        }
        let c_idx = cur.y as usize * w + cur.x as usize;
        proof {
            if hyp {
                assert(!st0.open@[0].on_bridge);
                lemma_index_in_bounds(goal.0 as int, goal.1 as int, w as int, h as int);
                lemma_index_coords(goal.0 as int, goal.1 as int, w as int);
            }
        }
        if st.is_closed(c_idx, cur.on_bridge) {
            proof {
                if hyp {
                    lemma_complete_pop_close(st0, st, *grid, *options, goal, w as int, n as int, ne as int, c_idx as int, -1);
                }
            }
            continue;
        }
        let ghost st_popped = st;
        close_node(&mut st, c_idx, cur.on_bridge, grid, options, goal, w, n, Ghost(s_idx as int), Ghost(s_b), Ghost(ne as int));
        if cur.x == goal.0 && cur.y == goal.1 && cur.height == goal_height {
            let p = reconstruct_path_dual(
                &st,
                grid,
                options,
                goal,
                s_idx,
                s_b,
                c_idx,
                cur.on_bridge,
                w,
                h,
                n,
                Ghost(ne as int),
            );
            return Some(p);
        }
        proof {
            if hyp {
                assert(st0.node_ok(cur, w as int, n as int, s_idx as int, s_b, ne as int));
                assert((ne as int) * max_step() <= 65527 * 6_000_000) by (nonlinear_arith)
                    requires
                        ne < 65527,
                        max_step() == 6_000_000,
                ;
                assert(forall|j: int| 0 <= j < n ==> #[trigger] st.g(j, false) == st_popped.g(j, false));
                lemma_complete_pop_close(st0, st, *grid, *options, goal, w as int, n as int, ne as int, c_idx as int, c_idx as int);
            }
        }
        ne = ne + 1;
        proof {
            if hyp {
                lemma_count_le(st.ground_closed@, n as int);
            }
        }
        if ne >= MAX_SEARCH_NODES {
            return None;
        }
        proof {
            st.lemma_inv_grows(*grid, *options, goal, w as int, n as int, s_idx as int, s_b, ne - 1, ne as int);
        }
        let cur_cell = grid.cell_or_blocked_exec(cur.x, cur.y);
        let mut dir: usize = 0;
        while dir < 8
            invariant
                st.inv(*grid, *options, goal, w as int, n as int, s_idx as int, s_b, ne as int),
                w == grid.spec_width(),
                h == grid.spec_height(),
                n == w as int * h as int,
                n == grid.spec_cells().len(),
                0 < w,
                0 < h,
                s_idx < n,
                s_idx as int % w as int == start.0,
                s_idx as int / w as int == start.1,
                s_idx == cell_index(start.0 as int, start.1 as int, w as int),
                is_water_mover == is_water_search(*options),
                1 <= ne < 65527,
                goal_height == search_goal_height(*grid, goal, *options),
                start_height == start_height_for(grid.cell_or_blocked(start.0, start.1), layer),
                s_b == spec_is_at_bridge_level(start_height, grid.cell_or_blocked(start.0, start.1)),
                goal_enterable(*grid, goal, *options),
                !(start == goal && start_height == goal_height),
                cur.x < w,
                cur.y < h,
                c_idx == cell_index(cur.x as int, cur.y as int, w as int),
                c_idx < n,
                c_idx as int % w as int == cur.x,
                c_idx as int / w as int == cur.y,
                st.closed(c_idx as int, cur.on_bridge),
                st.g(c_idx as int, cur.on_bridge) <= cur.g_cost,
                0 <= cur.g_cost <= (ne - 1) * max_step(),
                cur_cell == grid.cell_or_blocked(cur.x, cur.y),
                hyp == search_complete_case(*grid, *options, start, layer, goal),
                hyp ==> st.complete_inv(*grid, *options, goal, w as int, n as int, ne as int, c_idx as int),
                hyp ==> bridge_free(*grid) && !s_b && goal.0 < w && goal.1 < h && goal_height == grid.cell_or_blocked(
                    goal.0,
                    goal.1,
                ).ground_level,
                hyp ==> forall|d: int| 0 <= d < dir ==> #[trigger] st.dir_reached(*grid, *options, goal, cur, d, w as int, h as int),
            decreases 8 - dir,
        {
            let ghost st_before = st;
            let near_miss = relax(
                &mut st,
                grid,
                options,
                goal,
                goal_height,
                start_height,
                is_water_mover,
                cur,
                c_idx,
                cur_cell,
                dir,
                w,
                h,
                n,
                Ghost(s_idx as int),
                Ghost(s_b),
                Ghost(ne as int),
            );
            proof {
                if hyp {
                    lemma_complete_relax(
                        st_before,
                        st,
                        *grid,
                        *options,
                        goal,
                        is_water_mover,
                        cur,
                        c_idx,
                        cur_cell,
                        dir as int,
                        w as int,
                        h as int,
                        n as int,
                        ne as int,
                    );
                }
            }
            if near_miss {
                let p = reconstruct_path_dual(
                    &st,
                    grid,
                    options,
                    goal,
                    s_idx,
                    s_b,
                    c_idx,
                    cur.on_bridge,
                    w,
                    h,
                    n,
                    Ghost(ne as int),
                );
                return Some(p);
            }
            dir = dir + 1;
        }
        proof {
            if hyp {
                lemma_complete_unskip(st, *grid, *options, goal, cur, c_idx as int, w as int, h as int, n as int, ne as int);
            }
        }
    }
}

/// A* search from `start` on `start_layer` to `goal`, with per-cell ground
/// and bridge search states and heights carried through bridge decks.
///
/// When the start cannot be passed on `start_layer` the search falls back
/// to the other layer if the start is walkable there. A goal that cannot be
/// entered ends the search at the current node instead, provided the start
/// and goal heights are within one level.
///
/// On a grid without bridges and with fewer cells than the node limit, a
/// search on the ground from a start the mover passes finds a path to the
/// goal whenever a route of ground steps leads there.
pub fn astar_search(
    grid: &PathGrid,
    start: (u16, u16),
    start_layer: MovementLayer,
    goal: (u16, u16),
    options: &AStarOptions,
) -> (r: Option<Vec<LayeredPathStep>>)
    requires
        search_input_ok(*grid, start, *options),
    ensures
        match spec_resolved_start_layer(*grid, start, start_layer, *options) {
            None => r is None,
            Some(layer) => search_result_ok(*grid, *options, start, layer, goal, opt_view(r)),
        },
        search_complete_case(*grid, *options, start, start_layer, goal) ==> (r matches Some(p) && p@.last().rx == goal.0
            && p@.last().ry == goal.1),
{
    proof {
        if search_complete_case(*grid, *options, start, start_layer, goal) {
            lemma_complete_case_ends(*grid, *options, start, start_layer, goal);
        }
    }
    let layer = if start_passable(grid, start, start_layer, options) {
        start_layer
    } else {
        let alt = if start_layer == MovementLayer::Bridge {
            MovementLayer::Ground
        } else {
            MovementLayer::Bridge
        };
        if !grid.is_walkable_on_layer(start.0, start.1, alt) {
            return None;
        }
        if !start_passable(grid, start, alt, options) {
            return None;
        }
        alt
    };
    proof {
        let c = grid.cell_or_blocked(start.0, start.1);
        if !grid.in_bounds(start.0 as int, start.1 as int) {
            assert(!grid.spec_walkable_on_layer(start.0, start.1, MovementLayer::Bridge));
            assert(!spec_is_at_bridge_level(start_height_for(c, layer), c));
        }
    }
    search_from(grid, start, layer, goal, options)
}

/// Whether cell coordinates form a connected walk from `start`, each cell
/// after the first enterable for the search on one of the two layers.
pub open spec fn valid_coord_path(grid: PathGrid, o: AStarOptions, start: (u16, u16), goal: (u16, u16), v: Seq<(u16, u16)>) -> bool {
    &&& v.len() >= 1
    &&& v[0] == start
    &&& forall|i: int|
        0 <= i < v.len() - 1 ==> chebyshev(v[i].0 as int, v[i].1 as int, (#[trigger] v[i + 1]).0 as int, v[i + 1].1 as int)
            == 1
    &&& forall|i: int|
        1 <= i < v.len() ==> step_ok(grid, o, goal, (#[trigger] v[i]).0, v[i].1, false) || step_ok(
            grid,
            o,
            goal,
            v[i].0,
            v[i].1,
            true,
        )
}

/// What a search started on `layer` returns, by cell coordinates: nothing
/// when the goal cannot be entered; the start alone when it is the goal at
/// the goal height; any path found is a connected walk of enterable cells
/// from the start to the goal or, when start and goal heights are within one
/// level and the goal could not be entered on the layer the search reached
/// it on, next to it.
pub open spec fn coord_result_ok(
    grid: PathGrid,
    o: AStarOptions,
    start: (u16, u16),
    layer: MovementLayer,
    goal: (u16, u16),
    r: Option<Seq<(u16, u16)>>,
) -> bool {
    let sc = grid.cell_or_blocked(start.0, start.1);
    let sh = start_height_for(sc, layer);
    let gh = search_goal_height(grid, goal, o);
    &&& (!goal_enterable(grid, goal, o) ==> r is None)
    &&& (goal_enterable(grid, goal, o) && start == goal && sh == gh ==> r == Some(seq![start]))
    &&& (r matches Some(v) ==> {
        &&& valid_coord_path(grid, o, start, goal, v)
        &&& (v.last() == goal || (chebyshev(v.last().0 as int, v.last().1 as int, goal.0 as int, goal.1 as int) == 1
            && abs_diff(sh, gh) <= 1 && (grid.cell_or_blocked(goal.0, goal.1).bridge_walkable || !spec_passable_for_mover(
            grid,
            goal.0,
            goal.1,
            o.movement_zone,
            o.resolved_terrain,
        ))))
    })
}

/// Cell coordinates of the steps of a layered path.
pub open spec fn step_coords(p: Seq<LayeredPathStep>) -> Seq<(u16, u16)> {
    p.map_values(|s: LayeredPathStep| (s.rx, s.ry))
}

/// Optional vector of cells as an optional sequence.
pub open spec fn opt_cells(r: Option<Vec<(u16, u16)>>) -> Option<Seq<(u16, u16)>> {
    match r {
        Some(v) => Some(v@),
        None => None,
    }
}

/// The cell coordinates of an optional layered path.
pub open spec fn opt_step_coords(r: Option<Seq<LayeredPathStep>>) -> Option<Seq<(u16, u16)>> {
    match r {
        Some(p) => Some(step_coords(p)),
        None => None,
    }
}

/// A search result read by coordinates keeps every property stated of it.
pub proof fn lemma_coords_of_result(
    grid: PathGrid,
    o: AStarOptions,
    start: (u16, u16),
    layer: MovementLayer,
    goal: (u16, u16),
    r: Option<Seq<LayeredPathStep>>,
)
    requires
        search_result_ok(grid, o, start, layer, goal, r),
    ensures
        coord_result_ok(grid, o, start, layer, goal, opt_step_coords(r)),
        r matches Some(p) ==> p.len() > 0 && step_coords(p).last() == (p.last().rx, p.last().ry),
{
    let sc = grid.cell_or_blocked(start.0, start.1);
    let sh = start_height_for(sc, layer);
    let gh = search_goal_height(grid, goal, o);
    if goal_enterable(grid, goal, o) && start == goal && sh == gh {
        let s_layer = layer_of(spec_is_at_bridge_level(sh, sc));
        let p = seq![LayeredPathStep { rx: start.0, ry: start.1, layer: s_layer }];
        assert(step_coords(p) =~= seq![start]);
    }
    if let Some(p) = r {
        let v = step_coords(p);
        assert(v.len() == p.len());
        assert forall|i: int| 0 <= i < v.len() - 1 implies chebyshev(
            v[i].0 as int,
            v[i].1 as int,
            (#[trigger] v[i + 1]).0 as int,
            v[i + 1].1 as int,
        ) == 1 by {
            assert(chebyshev(p[i].rx as int, p[i].ry as int, (p[i + 1]).rx as int, p[i + 1].ry as int) == 1);
        }
        assert forall|i: int| 1 <= i < v.len() implies step_ok(grid, o, goal, (#[trigger] v[i]).0, v[i].1, false)
            || step_ok(grid, o, goal, v[i].0, v[i].1, true) by {
            assert(step_ok(grid, o, goal, p[i].rx, p[i].ry, p[i].layer == MovementLayer::Bridge));
        }
        assert(v.last() == (p.last().rx, p.last().ry));
    }
}

/// Cell coordinates of a layered path.
fn path_coords(p: &Vec<LayeredPathStep>) -> (r: Vec<(u16, u16)>)
    ensures
        r@ == step_coords(p@),
{
    let mut r: Vec<(u16, u16)> = Vec::new();
    let mut i: usize = 0;
    while i < p.len()
        invariant
            i <= p@.len(),
            r@ == step_coords(p@.take(i as int)),
        decreases p@.len() - i,
    {
        proof {
            assert(p@.take(i as int + 1) =~= p@.take(i as int).push(p@[i as int]));
            assert(step_coords(p@.take(i as int + 1)) =~= step_coords(p@.take(i as int)).push((p@[i as int].rx, p@[i as int].ry)));
        }
        r.push((p[i].rx, p[i].ry));
        i = i + 1;
    }
    proof {
        assert(p@.take(p@.len() as int) =~= p@);
    }
    r
}

/// Coordinates of an optional layered path.
pub(crate) fn opt_path_coords(r: Option<Vec<LayeredPathStep>>) -> (c: Option<Vec<(u16, u16)>>)
    ensures
        opt_cells(c) == opt_step_coords(opt_view(r)),
{
    match r {
        Some(p) => Some(path_coords(&p)),
        None => None,
    }
}

/// Options of a bare ground search.
pub open spec fn bare_options<'a>() -> AStarOptions<'a> {
    AStarOptions {
        terrain_costs: None,
        entity_blocks: None,
        bridge_blocks: None,
        entity_block_map: None,
        urgency: 0,
        corridor: None,
        movement_zone: None,
        resolved_terrain: None,
        is_infantry: false,
    }
}

/// A search without a water movement zone accepts every start.
pub proof fn lemma_land_search_input_ok(grid: PathGrid, start: (u16, u16), o: AStarOptions)
    requires
        !is_water_search(o),
    ensures
        search_input_ok(grid, start, o),
{
}

/// Find a path of cells from `start` to `goal` on the ground, without
/// terrain costs or blockers: the start is the first cell and the goal the
/// last (or, when the goal cannot be entered, a cell next to it).
pub fn find_path(grid: &PathGrid, start: (u16, u16), goal: (u16, u16)) -> (r: Option<Vec<(u16, u16)>>)
    ensures
        match spec_resolved_start_layer(*grid, start, MovementLayer::Ground, bare_options()) {
            None => r is None,
            Some(layer) => coord_result_ok(*grid, bare_options(), start, layer, goal, opt_cells(r)),
        },
        search_complete_case(*grid, bare_options(), start, MovementLayer::Ground, goal) ==> (r matches Some(v)
            && v@.last() == goal),
{
    let options = AStarOptions::none();
    proof {
        assert(options == bare_options());
        lemma_land_search_input_ok(*grid, start, options);
    }
    let steps = astar_search(grid, start, MovementLayer::Ground, goal, &options);
    proof {
        if let Some(layer) = spec_resolved_start_layer(*grid, start, MovementLayer::Ground, options) {
            lemma_coords_of_result(*grid, options, start, layer, goal, opt_view(steps));
        }
    }
    opt_path_coords(steps)
}

/// Options of a ground search with terrain costs, blockers and a mover.
pub open spec fn cost_options<'a>(
    costs: Option<&'a TerrainCostGrid>,
    entity_blocks: Option<&'a BTreeSet<(u16, u16)>>,
    movement_zone: Option<MovementZone>,
    resolved_terrain: Option<&'a ResolvedTerrainGrid>,
    entity_block_map: Option<&'a BTreeMap<(u16, u16), (u16, u16)>>,
    corridor: Option<(&'a ZoneMap, &'a BTreeSet<ZoneId>)>,
) -> AStarOptions<'a> {
    AStarOptions {
        terrain_costs: costs,
        entity_blocks,
        bridge_blocks: None,
        entity_block_map,
        urgency: 0,
        corridor,
        movement_zone,
        resolved_terrain,
        is_infantry: false,
    }
}

/// Find a path of cells on the ground with terrain costs (a cost of 0
/// blocks a cell), cells blocked by units (the goal exempt), a mover's
/// passability and friendly moving blockers.
pub fn find_path_with_costs(
    grid: &PathGrid,
    start: (u16, u16),
    goal: (u16, u16),
    costs: Option<&TerrainCostGrid>,
    entity_blocks: Option<&BTreeSet<(u16, u16)>>,
    movement_zone: Option<MovementZone>,
    resolved_terrain: Option<&ResolvedTerrainGrid>,
    entity_block_map: Option<&BTreeMap<(u16, u16), (u16, u16)>>,
) -> (r: Option<Vec<(u16, u16)>>)
    requires
        search_input_ok(*grid, start, cost_options(costs, entity_blocks, movement_zone, resolved_terrain, entity_block_map, None)),
    ensures
        ({
            let o = cost_options(costs, entity_blocks, movement_zone, resolved_terrain, entity_block_map, None);
            match spec_resolved_start_layer(*grid, start, MovementLayer::Ground, o) {
                None => r is None,
                Some(layer) => coord_result_ok(*grid, o, start, layer, goal, opt_cells(r)),
            }
        }),
        search_complete_case(
            *grid,
            cost_options(costs, entity_blocks, movement_zone, resolved_terrain, entity_block_map, None),
            start,
            MovementLayer::Ground,
            goal,
        ) ==> (r matches Some(v) && v@.last() == goal),
{
    let options = AStarOptions {
        terrain_costs: costs,
        entity_blocks,
        bridge_blocks: None,
        entity_block_map,
        urgency: 0,
        corridor: None,
        movement_zone,
        resolved_terrain,
        is_infantry: false,
    };
    let steps = astar_search(grid, start, MovementLayer::Ground, goal, &options);
    proof {
        if let Some(layer) = spec_resolved_start_layer(*grid, start, MovementLayer::Ground, options) {
            lemma_coords_of_result(*grid, options, start, layer, goal, opt_view(steps));
        }
    }
    opt_path_coords(steps)
}

/// Like `find_path_with_costs`, but only cells of the allowed zones (or of
/// no zone) of `zone_map` are expanded.
pub fn find_path_with_costs_corridor(
    grid: &PathGrid,
    start: (u16, u16),
    goal: (u16, u16),
    costs: Option<&TerrainCostGrid>,
    entity_blocks: Option<&BTreeSet<(u16, u16)>>,
    zone_map: &ZoneMap,
    allowed_zones: &BTreeSet<ZoneId>,
    movement_zone: Option<MovementZone>,
    resolved_terrain: Option<&ResolvedTerrainGrid>,
    entity_block_map: Option<&BTreeMap<(u16, u16), (u16, u16)>>,
) -> (r: Option<Vec<(u16, u16)>>)
    requires
        search_input_ok(*grid, start, cost_options(costs, entity_blocks, movement_zone, resolved_terrain, entity_block_map, None)),
    ensures
        ({
            let o = cost_options(
                costs,
                entity_blocks,
                movement_zone,
                resolved_terrain,
                entity_block_map,
                Some((zone_map, allowed_zones)),
            );
            match spec_resolved_start_layer(*grid, start, MovementLayer::Ground, o) {
                None => r is None,
                Some(layer) => coord_result_ok(*grid, o, start, layer, goal, opt_cells(r)),
            }
        }),
        search_complete_case(
            *grid,
            cost_options(
                costs,
                entity_blocks,
                movement_zone,
                resolved_terrain,
                entity_block_map,
                Some((zone_map, allowed_zones)),
            ),
            start,
            MovementLayer::Ground,
            goal,
        ) ==> (r matches Some(v) && v@.last() == goal),
{
    let options = AStarOptions {
        terrain_costs: costs,
        entity_blocks,
        bridge_blocks: None,
        entity_block_map,
        urgency: 0,
        corridor: Some((zone_map, allowed_zones)),
        movement_zone,
        resolved_terrain,
        is_infantry: false,
    };
    let steps = astar_search(grid, start, MovementLayer::Ground, goal, &options);
    proof {
        if let Some(layer) = spec_resolved_start_layer(*grid, start, MovementLayer::Ground, options) {
            lemma_coords_of_result(*grid, options, start, layer, goal, opt_view(steps));
        }
    }
    opt_path_coords(steps)
}

/// A path cut to at most `max_steps` moves: its first `max_steps + 1` cells
/// (the start counts as no move).
pub open spec fn truncated<T>(path: Seq<T>, max_steps: int) -> Seq<T> {
    if path.len() <= max_steps + 1 {
        path
    } else {
        path.take(max_steps + 1)
    }
}

/// Copy of the first `len` items of a vector.
fn prefix_copy<T: Copy>(v: &Vec<T>, len: usize) -> (r: Vec<T>)
    requires
        len <= v@.len(),
    ensures
        r@ == v@.take(len as int),
{
    let mut r: Vec<T> = Vec::new();
    let mut i: usize = 0;
    while i < len
        invariant
            i <= len,
            len <= v@.len(),
            r@ == v@.take(i as int),
        decreases len - i,
    {
        proof {
            assert(v@.take(i as int + 1) =~= v@.take(i as int).push(v@[i as int]));
        }
        r.push(v[i]);
        i = i + 1;
    }
    r
}

/// Cut a path to at most `max_steps` movement steps; a shorter path is
/// returned unchanged.
pub fn truncate_path(path: Vec<(u16, u16)>, max_steps: usize) -> (r: Vec<(u16, u16)>)
    requires
        max_steps < usize::MAX,
    ensures
        r@ == truncated(path@, max_steps as int),
{
    let max_len: usize = max_steps + 1;
    if path.len() <= max_len {
        path
    } else {
        prefix_copy(&path, max_len)
    }
}

/// Cut a path and its per-cell layers to at most `max_steps` movement steps.
pub fn truncate_layered_path(
    path: Vec<(u16, u16)>,
    layers: Vec<MovementLayer>,
    max_steps: usize,
) -> (r: (Vec<(u16, u16)>, Vec<MovementLayer>))
    requires
        max_steps < usize::MAX,
        path@.len() == layers@.len(),
    ensures
        r.0@ == truncated(path@, max_steps as int),
        r.1@ == truncated(layers@, max_steps as int),
{
    let max_len: usize = max_steps + 1;
    if path.len() <= max_len {
        (path, layers)
    } else {
        let p = prefix_copy(&path, max_len);
        let l = prefix_copy(&layers, max_len);
        (p, l)
    }
}

/// Options of a layered search with ground and bridge blockers.
pub open spec fn layered_options<'a>(
    ground_blocks: Option<&'a BTreeSet<(u16, u16)>>,
    bridge_blocks: Option<&'a BTreeSet<(u16, u16)>>,
    terrain_costs: Option<&'a TerrainCostGrid>,
    entity_block_map: Option<&'a BTreeMap<(u16, u16), (u16, u16)>>,
) -> AStarOptions<'a> {
    AStarOptions {
        terrain_costs,
        entity_blocks: ground_blocks,
        bridge_blocks,
        entity_block_map,
        urgency: 0,
        corridor: None,
        movement_zone: None,
        resolved_terrain: None,
        is_infantry: false,
    }
}

/// Bridge-aware search returning each cell with its layer; only the ground
/// and bridge layers can start a search.
pub fn find_layered_path(
    grid: &PathGrid,
    ground_blocks: Option<&BTreeSet<(u16, u16)>>,
    bridge_blocks: Option<&BTreeSet<(u16, u16)>>,
    start: (u16, u16),
    start_layer: MovementLayer,
    goal: (u16, u16),
    terrain_costs: Option<&TerrainCostGrid>,
    entity_block_map: Option<&BTreeMap<(u16, u16), (u16, u16)>>,
) -> (r: Option<Vec<LayeredPathStep>>)
    ensures
        !(start_layer == MovementLayer::Ground || start_layer == MovementLayer::Bridge) ==> r is None,
        (start_layer == MovementLayer::Ground || start_layer == MovementLayer::Bridge) ==> match spec_resolved_start_layer(
            *grid,
            start,
            start_layer,
            layered_options(ground_blocks, bridge_blocks, terrain_costs, entity_block_map),
        ) {
            None => r is None,
            Some(layer) => search_result_ok(
                *grid,
                layered_options(ground_blocks, bridge_blocks, terrain_costs, entity_block_map),
                start,
                layer,
                goal,
                opt_view(r),
            ),
        },
        search_complete_case(
            *grid,
            layered_options(ground_blocks, bridge_blocks, terrain_costs, entity_block_map),
            start,
            start_layer,
            goal,
        ) ==> (r matches Some(p) && p@.last().rx == goal.0 && p@.last().ry == goal.1),
{
    if !(start_layer == MovementLayer::Ground || start_layer == MovementLayer::Bridge) {
        return None;
    }
    let options = AStarOptions {
        terrain_costs,
        entity_blocks: ground_blocks,
        bridge_blocks,
        entity_block_map,
        urgency: 0,
        corridor: None,
        movement_zone: None,
        resolved_terrain: None,
        is_infantry: false,
    };
    proof {
        lemma_land_search_input_ok(*grid, start, options);
    }
    astar_search(grid, start, start_layer, goal, &options)
}

/// A ground step is charged by how slow the entered cell is: entering a
/// cell of terrain cost `tc` (100 is normal ground, lower is slower) costs
/// the base cost (10, or 14 diagonally) times 100 over `tc`, rounded down,
/// and four times that across a change of height. So the cost `c` of a step
/// whose height multiplier is `m` satisfies `c * tc <= m * base * 100 <
/// (c + m) * tc`: a slower cell is never cheaper to enter than a faster one.
pub proof fn law_ground_step_cost_scales_with_terrain(
    grid: PathGrid,
    o: AStarOptions,
    goal: (u16, u16),
    cur: AStarNode,
    cur_cell: PathCell,
    dir: int,
    nx: u16,
    ny: u16,
)
    requires
        0 <= dir < 8,
        !spec_is_at_bridge_level(cur.height, grid.cell_or_blocked(nx, ny)),
        !is_water_search(o),
        o.terrain_costs is Some,
        !(o.entity_block_map is Some && o.entity_block_map->0@.contains_key((nx, ny))),
        relax_step_cost(grid, o, goal, false, cur, cur_cell, dir, nx, ny) is Some,
    ensures
        ({
            let tc = o.terrain_costs->0.spec_cost_at(nx, ny) as int;
            let base: int = if spec_neighbor(dir).2 {
                14
            } else {
                10
            };
            let m: int = if cur.height == spec_neighbor_height(cur.height, cur_cell, grid.cell_or_blocked(nx, ny)) {
                1
            } else {
                4
            };
            let c = relax_step_cost(grid, o, goal, false, cur, cur_cell, dir, nx, ny)->0;
            &&& tc > 0
            &&& c * tc <= m * base * 100
            &&& m * base * 100 < (c + m) * tc
        }),
{
    let tc = o.terrain_costs->0.spec_cost_at(nx, ny) as int;
    let base: int = if spec_neighbor(dir).2 {
        14
    } else {
        10
    };
    assert(tc > 0);
    let s1: int = if tc == 100 {
        base
    } else {
        (base * 100) / tc
    };
    assert(s1 * tc <= base * 100 < (s1 + 1) * tc) by {
        if tc != 100 {
            vstd::arithmetic::div_mod::lemma_fundamental_div_mod(base * 100, tc);
            assert(s1 * tc + (base * 100) % tc == base * 100) by (nonlinear_arith)
                requires
                    base * 100 == tc * s1 + (base * 100) % tc,
            ;
            assert((s1 + 1) * tc == s1 * tc + tc) by (nonlinear_arith);
        }
    }
    assert((4 * s1) * tc == 4 * (s1 * tc)) by (nonlinear_arith);
    assert((4 * s1 + 4) * tc == 4 * ((s1 + 1) * tc)) by (nonlinear_arith);
}

/// The octile heuristic is a consistent estimate of the remaining cost: it
/// is 0 exactly at the goal, symmetric, between 10 and 14 per step of the
/// Chebyshev distance, and it never drops by more than the base cost of a
/// step (10, or 14 diagonally) when moving to a neighbor.
pub proof fn law_octile_heuristic_is_consistent(ax: u16, ay: u16, bx: u16, by: u16, gx: u16, gy: u16)
    ensures
        (spec_octile(ax, ay, gx, gy) == 0) <==> (ax == gx && ay == gy),
        spec_octile(ax, ay, gx, gy) == spec_octile(gx, gy, ax, ay),
        10 * chebyshev(ax as int, ay as int, gx as int, gy as int) <= spec_octile(ax, ay, gx, gy) <= 14 * chebyshev(
            ax as int,
            ay as int,
            gx as int,
            gy as int,
        ),
        chebyshev(ax as int, ay as int, bx as int, by as int) == 1 ==> spec_octile(ax, ay, gx, gy) <= (if ax != bx && ay
            != by {
            14int
        } else {
            10int
        }) + spec_octile(bx, by, gx, gy),
{
}

/// What refuses a step: an entity on the entered cell's layer (unless the
/// cell is the goal), a corridor that leaves the cell out, a ground terrain
/// cost of 0 for a land mover, or, diagonally, a cell beside the step that
/// cannot be passed. An accepted step costs at least 1.
pub proof fn law_step_refusals(
    grid: PathGrid,
    o: AStarOptions,
    goal: (u16, u16),
    cur: AStarNode,
    cur_cell: PathCell,
    dir: int,
    nx: u16,
    ny: u16,
)
    requires
        0 <= dir < 8,
        nx == cur.x + spec_neighbor(dir).0,
        ny == cur.y + spec_neighbor(dir).1,
    ensures
        ({
            let is_water = is_water_search(o);
            let deck = spec_is_at_bridge_level(cur.height, grid.cell_or_blocked(nx, ny));
            let c = relax_step_cost(grid, o, goal, is_water, cur, cur_cell, dir, nx, ny);
            &&& ((nx, ny) != goal && !deck && opt_set_has(o.entity_blocks, (nx, ny)) ==> c is None)
            &&& ((nx, ny) != goal && deck && opt_set_has(o.bridge_blocks, (nx, ny)) ==> c is None)
            &&& (!corridor_allows(o, nx, ny) ==> c is None)
            &&& (!deck && !is_water && o.terrain_costs is Some && o.terrain_costs->0.spec_cost_at(nx, ny) == 0 ==> c
                is None)
            &&& (nx != cur.x && ny != cur.y && !deck && !(corner_ground_ok(grid, o, is_water, nx, cur.y)
                && corner_ground_ok(grid, o, is_water, cur.x, ny)) ==> c is None)
            &&& (nx != cur.x && ny != cur.y && deck && !(grid.spec_walkable_on_layer(nx, cur.y, MovementLayer::Bridge)
                && grid.spec_walkable_on_layer(cur.x, ny, MovementLayer::Bridge)) ==> c is None)
            &&& (c matches Some(v) ==> v >= 1)
        }),
{
    let cell = grid.cell_or_blocked(nx, ny);
    let nub = spec_is_at_bridge_level(cur.height, cell);
    let is_water = is_water_search(o);
    let tc: int = if nub || is_water {
        100
    } else {
        match o.terrain_costs {
            Some(t) => t.spec_cost_at(nx, ny) as int,
            None => 100,
        }
    };
    assert(spec_neighbor(dir).2 == (nx != cur.x && ny != cur.y));
    if relax_step_cost(grid, o, goal, is_water, cur, cur_cell, dir, nx, ny) is Some {
        assert(1 <= tc <= 255);
        let base: int = if spec_neighbor(dir).2 {
            14
        } else {
            10
        };
        assert(1 <= (base * 100) / tc) by (nonlinear_arith)
            requires
                1 <= tc <= 255,
                10 <= base <= 14,
        ;
        let s1: int = if tc == 100 {
            base
        } else {
            (base * 100) / tc
        };
        let nh = spec_neighbor_height(cur.height, cur_cell, cell);
        let s2: int = if cur.height != nh {
            s1 * 4
        } else {
            s1
        };
        if !((nx, ny) == goal) && o.entity_block_map is Some && o.entity_block_map->0@.contains_key((nx, ny)) {
            let m = spec_code2_multiplier(o.urgency, (nx, ny), o.entity_block_map->0@);
            lemma_code2_multiplier_positive(o.urgency, (nx, ny), o.entity_block_map->0@);
            assert(s2 * m >= 1) by (nonlinear_arith)
                requires
                    s2 >= 1,
                    m >= 1,
            ;
        }
    }
}

/// A blocker multiplier is 1, 4 or 1000.
proof fn lemma_code2_multiplier_positive(urgency: u8, c: (u16, u16), map: Map<(u16, u16), (u16, u16)>)
    ensures
        spec_code2_multiplier(urgency, c, map) == 1 || spec_code2_multiplier(urgency, c, map) == 4
            || spec_code2_multiplier(urgency, c, map) == 1000,
{
    lemma_chain_mult_values(c, map, 10);
}

/// Following a blocker chain gives 1 or 4.
proof fn lemma_chain_mult_values(c: (u16, u16), map: Map<(u16, u16), (u16, u16)>, hops: nat)
    ensures
        spec_chain_mult(c, map, hops) == 1 || spec_chain_mult(c, map, hops) == 4,
    decreases hops,
{
    if hops > 0 && map.contains_key(c) && map[c] != c {
        lemma_chain_mult_values(map[c], map, (hops - 1) as nat);
    }
}

/// The goal is exempt from blockers: entering it costs the same whatever
/// cells entities block and wherever friendly units move. On the bridge
/// deck, and for ships, the terrain costs play no part.
pub proof fn law_goal_and_deck_exemptions(
    grid: PathGrid,
    o: AStarOptions,
    goal: (u16, u16),
    cur: AStarNode,
    cur_cell: PathCell,
    dir: int,
    nx: u16,
    ny: u16,
)
    requires
        0 <= dir < 8,
    ensures
        (nx, ny) == goal ==> relax_step_cost(grid, o, goal, is_water_search(o), cur, cur_cell, dir, nx, ny)
            == relax_step_cost(
            grid,
            (AStarOptions { entity_blocks: None, bridge_blocks: None, entity_block_map: None, ..o }),
            goal,
            is_water_search(o),
            cur,
            cur_cell,
            dir,
            nx,
            ny,
        ),
        (spec_is_at_bridge_level(cur.height, grid.cell_or_blocked(nx, ny)) || is_water_search(o)) ==> relax_step_cost(
            grid,
            o,
            goal,
            is_water_search(o),
            cur,
            cur_cell,
            dir,
            nx,
            ny,
        ) == relax_step_cost(
            grid,
            (AStarOptions { terrain_costs: None, ..o }),
            goal,
            is_water_search(o),
            cur,
            cur_cell,
            dir,
            nx,
            ny,
        ),
{
}

/// How hard a cell held by a friendly moving unit is avoided: at urgency 2
/// or more it costs 1000 times, at urgency 1 four times; at urgency 0 the
/// chain of next cells decides: once it leads off the held cells the step
/// costs nothing extra, a unit that stays put costs four times, and it is
/// never more than four times.
pub proof fn law_blocker_multiplier_by_urgency(urgency: u8, c: (u16, u16), map: Map<(u16, u16), (u16, u16)>)
    ensures
        urgency >= 2 ==> spec_code2_multiplier(urgency, c, map) == 1000,
        urgency == 1 ==> spec_code2_multiplier(urgency, c, map) == 4,
        urgency == 0 ==> (spec_code2_multiplier(urgency, c, map) == 1 || spec_code2_multiplier(urgency, c, map) == 4),
        urgency == 0 && !map.contains_key(c) ==> spec_code2_multiplier(urgency, c, map) == 1,
        urgency == 0 && map.contains_key(c) && map[c] == c ==> spec_code2_multiplier(urgency, c, map) == 4,
        urgency == 0 && map.contains_key(c) && map[c] != c && !map.contains_key(map[c]) ==> spec_code2_multiplier(
            urgency,
            c,
            map,
        ) == 1,
{
    lemma_chain_mult_values(c, map, 10);
    if urgency == 0 && map.contains_key(c) && map[c] != c && !map.contains_key(map[c]) {
        assert(spec_chain_mult(map[c], map, 9) == 1);
    }
}

/// Heights on the way: a cell without a walkable bridge is always entered
/// at its ground level; a walkable bridge is entered on its deck from a
/// deck, or from plain ground 2 to 4 levels above the bridge's ground; and
/// a node uses a cell's bridge state only on a walkable bridge at a height
/// at least 2 away from its ground.
pub proof fn law_heights_follow_bridges(h: u8, parent: PathCell, cell: PathCell)
    ensures
        !cell.bridge_walkable ==> spec_neighbor_height(h, parent, cell) == cell.ground_level,
        cell.bridge_walkable && parent.bridge_walkable && h == parent.bridge_deck_level ==> spec_neighbor_height(
            h,
            parent,
            cell,
        ) == cell.bridge_deck_level,
        cell.bridge_walkable && !parent.bridge_walkable ==> (spec_neighbor_height(h, parent, cell) == if 2 <= h
            - cell.ground_level <= 4 {
            cell.bridge_deck_level
        } else {
            cell.ground_level
        }),
        spec_is_at_bridge_level(h, cell) ==> cell.bridge_walkable && (h - cell.ground_level >= 2 || cell.ground_level
            - h >= 2),
        cell.bridge_walkable && (h - cell.ground_level >= 2 || cell.ground_level - h >= 2) ==> spec_is_at_bridge_level(
            h,
            cell,
        ),
{
}

/// Who passes a cell on the ground: a land mover (or a search without a
/// movement zone) exactly where the grid is ground-walkable, so never off
/// the grid; a ship only where resolved terrain exists for the cell, on any
/// water surface, and a water-beach ship also on a beach.
pub proof fn law_mover_passability(grid: PathGrid, x: u16, y: u16, mz: Option<MovementZone>, terrain: Option<&ResolvedTerrainGrid>)
    ensures
        (mz is None || !mz->0.spec_is_water_mover()) ==> (spec_passable_for_mover(grid, x, y, mz, terrain)
            == grid.spec_walkable(x, y)),
        (mz is None || !mz->0.spec_is_water_mover()) && !grid.in_bounds(x as int, y as int) ==> !spec_passable_for_mover(
            grid,
            x,
            y,
            mz,
            terrain,
        ),
        (mz matches Some(m) && m.spec_is_water_mover()) ==> (spec_passable_for_mover(grid, x, y, mz, terrain) ==> (
        terrain matches Some(t) && t.spec_cell(x, y) is Some)),
        (mz matches Some(m) && (m.spec_is_water_mover() && (terrain matches Some(t) && (t.spec_cell(x, y) matches Some(c)
            && c.is_water)))) ==> spec_passable_for_mover(grid, x, y, mz, terrain),
        (mz == Some(MovementZone::WaterBeach) && (terrain matches Some(t) && (t.spec_cell(x, y) matches Some(c)
            && c.land_type == 3))) ==> spec_passable_for_mover(grid, x, y, mz, terrain),
{
}

/// Truncation keeps a prefix of the path of at most `max_steps + 1`
/// entries, and truncating again to the same limit changes nothing.
pub proof fn law_truncation_is_idempotent_prefix<T>(path: Seq<T>, max_steps: int)
    requires
        max_steps >= 0,
    ensures
        truncated(path, max_steps).len() <= max_steps + 1,
        truncated(path, max_steps).len() <= path.len(),
        truncated(path, max_steps) =~= path.take(truncated(path, max_steps).len() as int),
        truncated(truncated(path, max_steps), max_steps) == truncated(path, max_steps),
        path.len() <= max_steps + 1 ==> truncated(path, max_steps) == path,
{
    if path.len() <= max_steps + 1 {
        assert(path.take(path.len() as int) =~= path);
    }
}

} // verus!
