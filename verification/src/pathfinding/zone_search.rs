//! Zone-aware path search: the zone graph rejects unreachable goals without
//! a cell search, a coarse route through the zone graph restricts the cell
//! search to a corridor of zones, and the unrestricted search is the last
//! resort.

use crate::grid_index::chebyshev;
use crate::keys::{lemma_u16_keys_ordered, u16_keys_ordered};
use crate::map::ResolvedTerrainGrid;
use crate::movement::MovementLayer;
use crate::pathfinding::astar::{
    abs_diff, astar_search, cost_options, coord_result_ok, find_layered_path, layered_options, lemma_coords_of_result,
    lemma_complete_case_ends, opt_cells, opt_path_coords, search_complete_case, spec_passable_for_mover, opt_view, search_goal_height, search_input_ok, search_result_ok,
    spec_resolved_start_layer, start_height_for, step_ok, valid_coord_path, AStarOptions,
};
use crate::pathfinding::path_grid::{LayeredPathStep, PathGrid};
use crate::pathfinding::terrain_cost::TerrainCostGrid;
use crate::pathfinding::zone_hierarchy::is_zone_chain;
use crate::pathfinding::zone_map::{spec_category_of, ZoneAdjacency, ZoneCategory, ZoneGrid, ZoneId, ZoneMap, ZONE_INVALID};
use crate::rules::MovementZone;
use std::collections::{BTreeMap, BTreeSet};
use vstd::prelude::*;

verus! {

/// Corridor searches tried before the unrestricted search.
pub const MAX_CORRIDOR_RETRIES: u8 = 3;

/// Manhattan distance of two cells.
pub open spec fn spec_manhattan(a: (u16, u16), b: (u16, u16)) -> int {
    (if a.0 >= b.0 {
        a.0 - b.0
    } else {
        b.0 - a.0
    }) + (if a.1 >= b.1 {
        a.1 - b.1
    } else {
        b.1 - a.1
    })
}

/// Manhattan distance between two cells.
pub fn manhattan(a: (u16, u16), b: (u16, u16)) -> (r: i32)
    ensures
        r == spec_manhattan(a, b),
        0 <= r <= 131070,
{
    let dx: i32 = if a.0 >= b.0 {
        (a.0 - b.0) as i32
    } else {
        (b.0 - a.0) as i32
    };
    let dy: i32 = if a.1 >= b.1 {
        (a.1 - b.1) as i32
    } else {
        (b.1 - a.1) as i32
    };
    dx + dy
}

/// The zones of a corridor and every zone next to one of them.
pub open spec fn spec_expanded(corridor: Seq<ZoneId>, adj: ZoneAdjacency) -> Set<ZoneId> {
    Set::new(
        |z: ZoneId|
            corridor.contains(z) || exists|k: int| 0 <= k < corridor.len() && #[trigger] adj.spec_neighbors(corridor[k]).contains(z),
    )
}

/// Widen a corridor by one ring of neighboring zones.
pub fn expand_corridor(corridor: &[ZoneId], adjacency: &ZoneAdjacency) -> (r: BTreeSet<ZoneId>)
    ensures
        r@ == spec_expanded(corridor@, *adjacency),
{
    proof {
        lemma_u16_keys_ordered();
    }
    let mut allowed: BTreeSet<ZoneId> = BTreeSet::new();
    let mut i: usize = 0;
    while i < corridor.len()
        invariant
            i <= corridor@.len(),
            u16_keys_ordered(),
            allowed@ == Set::new(|z: ZoneId| exists|k: int| 0 <= k < i && corridor@[k] == z),
        decreases corridor@.len() - i,
    {
        allowed.insert(corridor[i]);
        proof {
            assert(allowed@ =~= Set::new(|z: ZoneId| exists|k: int| 0 <= k < i + 1 && corridor@[k] == z)) by {
                assert forall|z: ZoneId| allowed@.contains(z) implies exists|k: int| 0 <= k < i + 1 && corridor@[k] == z by {
                    if z == corridor@[i as int] {
                        assert(corridor@[i as int] == z);
                    }
                }
            }
        }
        i = i + 1;
    }
    let mut j: usize = 0;
    while j < corridor.len()
        invariant
            j <= corridor@.len(),
            u16_keys_ordered(),
            allowed@ == Set::new(
                |z: ZoneId|
                    corridor@.contains(z) || exists|k: int|
                        0 <= k < j && #[trigger] adjacency.spec_neighbors(corridor@[k]).contains(z),
            ),
        decreases corridor@.len() - j,
    {
        let list = adjacency.neighbors_of(corridor[j]);
        let ghost base = allowed@;
        let mut t: usize = 0;
        while t < list.len()
            invariant
                t <= list@.len(),
                j < corridor@.len(),
                list@ == adjacency.spec_neighbors(corridor@[j as int]),
                u16_keys_ordered(),
                allowed@ == base.union(Set::new(|z: ZoneId| exists|q: int| 0 <= q < t && list@[q] == z)),
            decreases list@.len() - t,
        {
            allowed.insert(list[t]);
            proof {
                assert(allowed@ =~= base.union(Set::new(|z: ZoneId| exists|q: int| 0 <= q < t + 1 && list@[q] == z))) by {
                    assert forall|z: ZoneId| allowed@.contains(z) implies base.union(
                        Set::new(|z: ZoneId| exists|q: int| 0 <= q < t + 1 && list@[q] == z),
                    ).contains(z) by {
                        if z == list@[t as int] {
                            assert(list@[t as int] == z);
                        }
                    }
                }
            }
            t = t + 1;
        }
        proof {
            assert(allowed@ =~= Set::new(
                |z: ZoneId|
                    corridor@.contains(z) || exists|k: int|
                        0 <= k < j + 1 && #[trigger] adjacency.spec_neighbors(corridor@[k]).contains(z),
            )) by {
                assert forall|z: ZoneId| #[trigger] allowed@.contains(z) <==> (corridor@.contains(z) || exists|k: int|
                    0 <= k < j + 1 && #[trigger] adjacency.spec_neighbors(corridor@[k]).contains(z)) by {
                    if allowed@.contains(z) && !base.contains(z) {
                        let q = choose|q: int| 0 <= q < list@.len() && list@[q] == z;
                        assert(adjacency.spec_neighbors(corridor@[j as int]).contains(z));
                    }
                    if exists|k: int| 0 <= k < j + 1 && #[trigger] adjacency.spec_neighbors(corridor@[k]).contains(z) {
                        let k = choose|k: int| 0 <= k < j + 1 && #[trigger] adjacency.spec_neighbors(corridor@[k]).contains(z);
                        if k == j {
                            let q = choose|q: int| 0 <= q < list@.len() && list@[q] == z;
                            assert(exists|q: int| 0 <= q < t && list@[q] == z);
                        }
                    }
                }
            }
        }
        j = j + 1;
    }
    proof {
        assert(allowed@ =~= spec_expanded(corridor@, *adjacency)) by {
            assert forall|z: ZoneId| #[trigger] allowed@.contains(z) <==> spec_expanded(corridor@, *adjacency).contains(z) by {
                if exists|k: int| 0 <= k < corridor@.len() && #[trigger] adjacency.spec_neighbors(corridor@[k]).contains(z) {
                    let k = choose|k: int| 0 <= k < corridor@.len() && #[trigger] adjacency.spec_neighbors(corridor@[k]).contains(z);
                    assert(0 <= k < j);
                }
            }
        }
    }
    allowed
}

/// Order of open entries: by cost, then by zone.
pub open spec fn entry_le(a: (i32, ZoneId), b: (i32, ZoneId)) -> bool {
    a.0 < b.0 || (a.0 == b.0 && a.1 <= b.1)
}

/// Take the least entry (by cost, then zone) out of the open list.
fn pop_min(open: &mut Vec<(i32, ZoneId)>) -> (r: Option<(i32, ZoneId)>)
    ensures
        old(open)@.len() == 0 <==> r is None,
        r matches Some(e) ==> old(open)@.contains(e) && forall|k: int| 0 <= k < old(open)@.len() ==> entry_le(e, #[trigger] old(open)@[k]),
        r is Some ==> final(open)@.len() == old(open)@.len() - 1,
        r is None ==> final(open)@ == old(open)@,
        forall|k: int| 0 <= k < final(open)@.len() ==> old(open)@.contains(#[trigger] final(open)@[k]),
{
    if open.len() == 0 {
        return None;
    }
    let mut best: usize = 0;
    let mut i: usize = 1;
    while i < open.len()
        invariant
            1 <= i <= open@.len(),
            best < open@.len(),
            forall|k: int| 0 <= k < i ==> entry_le(open@[best as int], #[trigger] open@[k]),
        decreases open@.len() - i,
    {
        let (c, z) = open[i];
        let (bc, bz) = open[best];
        if c < bc || (c == bc && z < bz) {
            best = i;
        }
        i = i + 1;
    }
    let ghost orig = open@;
    let e = open.remove(best);
    proof {
        assert(orig[best as int] == e);
        assert forall|k: int| 0 <= k < open@.len() implies orig.contains(#[trigger] open@[k]) by {
            if k < best {
                assert(open@[k] == orig[k]);
            } else {
                assert(open@[k] == orig[k + 1]);
            }
        }
    }
    Some(e)
}

/// Sum of the costs of a distance table.
pub open spec fn dist_sum(d: Seq<i32>, k: int) -> int
    decreases k,
{
    if k <= 0 {
        0
    } else {
        dist_sum(d, k - 1) + d[k - 1]
    }
}

proof fn lemma_dist_sum_update(d: Seq<i32>, i: int, v: i32, k: int)
    requires
        0 <= i < d.len(),
        0 <= k <= d.len(),
    ensures
        dist_sum(d.update(i, v), k) == dist_sum(d, k) + (if i < k {
            v - d[i]
        } else {
            0
        }),
    decreases k,
{
    if k > 0 {
        lemma_dist_sum_update(d, i, v, k - 1);
    }
}

proof fn lemma_dist_sum_nonneg(d: Seq<i32>, k: int)
    requires
        0 <= k <= d.len(),
        forall|j: int| 0 <= j < d.len() ==> #[trigger] d[j] >= 0,
    ensures
        dist_sum(d, k) >= 0,
    decreases k,
{
    if k > 0 {
        lemma_dist_sum_nonneg(d, k - 1);
    }
}

/// A corridor for a search: a walk through the zone graph from the start
/// zone to the goal zone that enters no excluded zone.
pub open spec fn is_corridor(adj: ZoneAdjacency, p: Seq<ZoneId>, start: ZoneId, goal: ZoneId, excluded: Set<ZoneId>) -> bool {
    &&& is_zone_chain(adj, p)
    &&& p[0] == start
    &&& p[p.len() - 1] == goal
    &&& forall|i: int| 1 <= i < p.len() ==> !excluded.contains(#[trigger] p[i])
}

/// Search the zone graph from `start_zone` towards `goal_zone`, ordered by
/// cost so far (Manhattan distances between zone centers) plus the
/// Manhattan distance to the goal's center, avoiding excluded zones.
/// Returns the zones of the route found, start first.
#[verifier::rlimit(60)]
fn find_zone_corridor(
    zone_map: &ZoneMap,
    adjacency: &ZoneAdjacency,
    start_zone: ZoneId,
    goal_zone: ZoneId,
    excluded: &BTreeSet<ZoneId>,
) -> (r: Option<Vec<ZoneId>>)
    requires
        start_zone <= zone_map.spec_zone_count(),
        crate::pathfinding::zone_hierarchy::neighbors_within(*adjacency, zone_map.spec_zone_count() as int),
    ensures
        start_zone == ZONE_INVALID || goal_zone == ZONE_INVALID ==> r is None,
        start_zone != ZONE_INVALID && start_zone == goal_zone ==> (r matches Some(p) && p@ == seq![start_zone]),
        r matches Some(p) ==> is_corridor(*adjacency, p@, start_zone, goal_zone, excluded@),
{
    proof {
        lemma_u16_keys_ordered();
    }
    if start_zone == ZONE_INVALID || goal_zone == ZONE_INVALID {
        return None;
    }
    if start_zone == goal_zone {
        let mut v: Vec<ZoneId> = Vec::new();
        v.push(start_zone);
        proof {
            assert(v@ =~= seq![start_zone]);
            assert(is_zone_chain(*adjacency, v@));
        }
        return Some(v);
    }
    let goal_center = match zone_map.info_for(goal_zone) {
        Some(i) => i.center,
        None => {
            return None;
        },
    };
    let count = zone_map.count();
    let n = count as usize + 1;
    let mut dist: Vec<i32> = Vec::new();
    let mut prev: Vec<ZoneId> = Vec::new();
    let mut k: usize = 0;
    while k < n
        invariant
            k <= n,
            n == count as int + 1,
            dist@.len() == k,
            prev@.len() == k,
            forall|j: int| 0 <= j < k ==> #[trigger] dist@[j] == i32::MAX && prev@[j] == ZONE_INVALID,
        decreases n - k,
    {
        dist.push(i32::MAX);
        prev.push(ZONE_INVALID);
        k = k + 1;
    }
    proof {
        assert(dist@[start_zone as int] == i32::MAX && prev@[start_zone as int] == ZONE_INVALID);
    }
    dist.set(start_zone as usize, 0);
    let mut open: Vec<(i32, ZoneId)> = Vec::new();
    open.push((0, start_zone));
    loop
        invariant
            n == count as int + 1,
            count == zone_map.spec_zone_count(),
            dist@.len() == n,
            prev@.len() == n,
            1 <= start_zone <= count,
            start_zone != goal_zone,
            goal_zone != ZONE_INVALID,
            u16_keys_ordered(),
            crate::pathfinding::zone_hierarchy::neighbors_within(*adjacency, count as int),
            dist@[start_zone as int] == 0,
            prev@[start_zone as int] == ZONE_INVALID,
            forall|j: int| 0 <= j < n ==> #[trigger] dist@[j] >= 0,
            forall|k: int| 0 <= k < open@.len() ==> (#[trigger] open@[k]).1 <= count && open@[k].0 >= 0 && dist@[open@[k].1 as int] != i32::MAX,
            forall|j: int|
                0 <= j < n && j != start_zone && #[trigger] dist@[j] != i32::MAX ==> 1 <= prev@[j] <= count && dist@[prev@[j] as int]
                    != i32::MAX && adjacency.spec_neighbors(prev@[j]).contains(j as ZoneId) && !excluded@.contains(j as ZoneId),
        decreases 2 * dist_sum(dist@, n as int) + open@.len(),
    {
        let ghost open_before = open@;
        let ghost dist_before = dist@;
        let popped = pop_min(&mut open);
        let (cost, zone) = match popped {
            None => {
                return None;
            },
            Some(e) => e,
        };
        proof {
            let j = choose|j: int| 0 <= j < open_before.len() && open_before[j] == (cost, zone);
            assert(open_before[j].1 <= count);
            lemma_dist_sum_nonneg(dist@, n as int);
        }
        if zone == goal_zone {
            let mut rev: Vec<ZoneId> = Vec::new();
            let mut cur = goal_zone;
            let mut steps: usize = 0;
            while cur != ZONE_INVALID
                invariant
                    n == count as int + 1,
                    dist@.len() == n,
                    prev@.len() == n,
                    1 <= start_zone <= count,
                    start_zone != goal_zone,
                    prev@[start_zone as int] == ZONE_INVALID,
                    cur <= count,
                    cur != ZONE_INVALID ==> dist@[cur as int] != i32::MAX,
                    steps <= n,
                    rev@.len() == steps,
                    steps == 0 ==> cur == goal_zone,
                    steps > 0 ==> rev@[0] == goal_zone,
                    steps > 0 && cur != ZONE_INVALID ==> adjacency.spec_neighbors(cur).contains(rev@[steps - 1]),
                    steps > 0 && cur == ZONE_INVALID ==> rev@[steps - 1] == start_zone,
                    steps > 0 && cur != ZONE_INVALID ==> rev@[steps - 1] != start_zone,
                    forall|i: int| 0 <= i < steps - 1 ==> adjacency.spec_neighbors(#[trigger] rev@[i + 1]).contains(rev@[i]),
                    forall|i: int| 0 <= i < steps && rev@[i] != start_zone ==> !excluded@.contains(#[trigger] rev@[i]),
                    forall|i: int| 0 <= i < steps ==> #[trigger] rev@[i] != start_zone || i == steps - 1,
                    forall|j: int|
                        0 <= j < n && j != start_zone && #[trigger] dist@[j] != i32::MAX ==> 1 <= prev@[j] <= count
                            && dist@[prev@[j] as int] != i32::MAX && adjacency.spec_neighbors(prev@[j]).contains(j as ZoneId)
                            && !excluded@.contains(j as ZoneId),
                decreases n - steps,
            {
                if steps >= n {
                    return None;
                }
                rev.push(cur);
                let next = prev[cur as usize];
                proof {
                    if cur != start_zone {
                        assert(dist@[cur as int] != i32::MAX);
                    }
                }
                cur = next;
                steps = steps + 1;
            }
            let mut path: Vec<ZoneId> = Vec::new();
            let m = rev.len();
            let mut t = m;
            while t > 0
                invariant
                    t <= m,
                    m == rev@.len(),
                    m >= 1,
                    path@.len() == m - t,
                    forall|q: int| 0 <= q < path@.len() ==> #[trigger] path@[q] == rev@[m - 1 - q],
                decreases t,
            {
                path.push(rev[t - 1]);
                t = t - 1;
            }
            proof {
                assert(path@[0] == start_zone);
                assert(path@[m - 1] == goal_zone);
                assert forall|i: int| 0 <= i < path@.len() - 1 implies adjacency.spec_neighbors(path@[i]).contains(
                    #[trigger] path@[i + 1],
                ) by {
                    let a = m - 1 - i;
                    let b = m - 2 - i;
                    assert(path@[i] == rev@[b + 1]);
                    assert(path@[i + 1] == rev@[b]);
                }
                assert forall|i: int| 1 <= i < path@.len() implies !excluded@.contains(#[trigger] path@[i]) by {
                    assert(path@[i] == rev@[m - 1 - i]);
                }
            }
            return Some(path);
        }
        if cost > dist[zone as usize] {
            proof {
                assert(2 * dist_sum(dist@, n as int) + open@.len() < 2 * dist_sum(dist_before, n as int) + open_before.len());
            }
            continue;
        }
        let own_center = match zone_map.info_for(zone) {
            Some(i) => i.center,
            None => (0, 0),
        };
        let list = adjacency.neighbors_of(zone);
        let ghost open_mid = open@;
        let mut t: usize = 0;
        while t < list.len()
            invariant
                n == count as int + 1,
                count == zone_map.spec_zone_count(),
                dist@.len() == n,
                prev@.len() == n,
                1 <= start_zone <= count,
                zone <= count,
                cost >= 0,
                dist@[zone as int] != i32::MAX,
                u16_keys_ordered(),
                list@ == adjacency.spec_neighbors(zone),
                crate::pathfinding::zone_hierarchy::neighbors_within(*adjacency, count as int),
                dist@[start_zone as int] == 0,
                prev@[start_zone as int] == ZONE_INVALID,
                forall|j: int| 0 <= j < n ==> #[trigger] dist@[j] >= 0,
                forall|k: int| 0 <= k < open@.len() ==> (#[trigger] open@[k]).1 <= count && open@[k].0 >= 0 && dist@[open@[k].1 as int] != i32::MAX,
                forall|j: int|
                    0 <= j < n && j != start_zone && #[trigger] dist@[j] != i32::MAX ==> 1 <= prev@[j] <= count && dist@[prev@[j] as int]
                        != i32::MAX && adjacency.spec_neighbors(prev@[j]).contains(j as ZoneId) && !excluded@.contains(j as ZoneId),
                t <= list@.len(),
                2 * dist_sum(dist@, n as int) + open@.len() <= 2 * dist_sum(dist_before, n as int) + open_mid.len(),
            decreases list@.len() - t,
        {
            let neighbor = list[t];
            proof {
                assert(adjacency.spec_neighbors(zone)[t as int] == neighbor);
                if zone != ZONE_INVALID {
                    assert(neighbor <= count);
                }
            }
            if neighbor != ZONE_INVALID && neighbor <= count && !excluded.contains(&neighbor) {
                if let Some(n_info) = zone_map.info_for(neighbor) {
                    let edge_cost = manhattan(own_center, n_info.center);
                    let h = manhattan(n_info.center, goal_center);
                    if cost <= i32::MAX - edge_cost - h {
                        let new_cost = cost + edge_cost;
                        if new_cost < dist[neighbor as usize] {
                            let ghost dm = dist@;
                            proof {
                                lemma_dist_sum_update(dist@, neighbor as int, new_cost, n as int);
                                assert(adjacency.spec_neighbors(zone).contains(neighbor));
                            }
                            dist.set(neighbor as usize, new_cost);
                            prev.set(neighbor as usize, zone);
                            open.push((new_cost + h, neighbor));
                            proof {
                                assert(neighbor != start_zone);
                                assert forall|j: int|
                                    0 <= j < n && j != start_zone && #[trigger] dist@[j] != i32::MAX implies 1 <= prev@[j] <= count
                                        && dist@[prev@[j] as int] != i32::MAX && adjacency.spec_neighbors(prev@[j]).contains(j as ZoneId)
                                        && !excluded@.contains(j as ZoneId) by {
                                    if j != neighbor as int {
                                        assert(dm[j] != i32::MAX);
                                    }
                                }
                            }
                        }
                    }
                }
            }
            t = t + 1;
        }
        proof {
            lemma_dist_sum_nonneg(dist@, n as int);
        }
    }
}

/// Options of a zoned ground search.
pub open spec fn zoned_options<'a>(
    costs: Option<&'a TerrainCostGrid>,
    entity_blocks: Option<&'a BTreeSet<(u16, u16)>>,
    movement_zone: MovementZone,
    resolved_terrain: Option<&'a ResolvedTerrainGrid>,
    entity_block_map: Option<&'a BTreeMap<(u16, u16), (u16, u16)>>,
    urgency: u8,
    corridor: Option<(&'a ZoneMap, &'a BTreeSet<ZoneId>)>,
) -> AStarOptions<'a> {
    AStarOptions {
        terrain_costs: costs,
        entity_blocks,
        bridge_blocks: None,
        entity_block_map,
        urgency,
        corridor,
        movement_zone: Some(movement_zone),
        resolved_terrain,
        is_infantry: false,
    }
}

/// Every cell search ends its path at the goal or next to it.
pub open spec fn path_reaches(v: Seq<(u16, u16)>, goal: (u16, u16)) -> bool {
    v.last() == goal || chebyshev(v.last().0 as int, v.last().1 as int, goal.0 as int, goal.1 as int) == 1
}

/// A cell search's result: a connected walk of cells enterable for the
/// search without a corridor, ending at the goal or next to it.
pub open spec fn zoned_path_ok(grid: PathGrid, o: AStarOptions, start: (u16, u16), goal: (u16, u16), r: Option<Seq<(u16, u16)>>) -> bool {
    r matches Some(v) ==> valid_coord_path(grid, o, start, goal, v) && path_reaches(v, goal)
}

/// Run the cell search and read its path by coordinates.
fn cell_search(grid: &PathGrid, start: (u16, u16), goal: (u16, u16), options: &AStarOptions) -> (r: Option<Vec<(u16, u16)>>)
    requires
        search_input_ok(*grid, start, *options),
    ensures
        match spec_resolved_start_layer(*grid, start, MovementLayer::Ground, *options) {
            None => r is None,
            Some(layer) => coord_result_ok(*grid, *options, start, layer, goal, opt_cells(r)),
        },
        r matches Some(v) ==> path_reaches(v@, goal),
        search_complete_case(*grid, *options, start, MovementLayer::Ground, goal) ==> (r matches Some(v) && v@.last()
            == goal),
{
    let steps = astar_search(grid, start, MovementLayer::Ground, goal, options);
    proof {
        if let Some(layer) = spec_resolved_start_layer(*grid, start, MovementLayer::Ground, *options) {
            lemma_coords_of_result(*grid, *options, start, layer, goal, opt_view(steps));
        }
    }
    opt_path_coords(steps)
}

/// Dropping the corridor keeps every step enterable.
proof fn lemma_corridor_path_is_plain_path(
    grid: PathGrid,
    o: AStarOptions,
    p: AStarOptions,
    start: (u16, u16),
    goal: (u16, u16),
    v: Seq<(u16, u16)>,
)
    requires
        valid_coord_path(grid, o, start, goal, v),
        p.terrain_costs == o.terrain_costs,
        p.entity_blocks == o.entity_blocks,
        p.bridge_blocks == o.bridge_blocks,
        p.entity_block_map == o.entity_block_map,
        p.urgency == o.urgency,
        p.corridor is None,
        p.movement_zone == o.movement_zone,
        p.resolved_terrain == o.resolved_terrain,
        p.is_infantry == o.is_infantry,
    ensures
        valid_coord_path(grid, p, start, goal, v),
{
    assert forall|i: int| 1 <= i < v.len() implies step_ok(grid, p, goal, (#[trigger] v[i]).0, v[i].1, false) || step_ok(
        grid,
        p,
        goal,
        v[i].0,
        v[i].1,
        true,
    ) by {
        assert(step_ok(grid, o, goal, v[i].0, v[i].1, false) || step_ok(grid, o, goal, v[i].0, v[i].1, true));
    }
}

/// Zone-aware ground path search. Without zone data this is the plain cell
/// search; a goal whose zone the start cannot reach gives `None` at once;
/// otherwise up to three corridor searches (each widened by one ring of
/// zones, each excluding the corridors tried before) precede the plain
/// cell search.
pub fn find_path_zoned(
    grid: &PathGrid,
    start: (u16, u16),
    goal: (u16, u16),
    costs: Option<&TerrainCostGrid>,
    entity_blocks: Option<&BTreeSet<(u16, u16)>>,
    zone_grid: Option<&ZoneGrid>,
    movement_zone: MovementZone,
    resolved_terrain: Option<&ResolvedTerrainGrid>,
    entity_block_map: Option<&BTreeMap<(u16, u16), (u16, u16)>>,
    urgency: u8,
) -> (r: Option<Vec<(u16, u16)>>)
    requires
        search_input_ok(
            *grid,
            start,
            zoned_options(costs, entity_blocks, movement_zone, resolved_terrain, entity_block_map, urgency, None),
        ),
        zone_grid matches Some(zg) ==> zg.wf(),
    ensures
        ({
            let o = zoned_options(costs, entity_blocks, movement_zone, resolved_terrain, entity_block_map, urgency, None);
            &&& zone_grid is None ==> match spec_resolved_start_layer(*grid, start, MovementLayer::Ground, o) {
                None => r is None,
                Some(layer) => coord_result_ok(*grid, o, start, layer, goal, opt_cells(r)),
            }
            &&& (zone_grid matches Some(zg) && !zg.spec_can_reach(
                spec_category_of(movement_zone),
                start,
                MovementLayer::Ground,
                goal,
                MovementLayer::Ground,
            )) ==> r is None
            &&& zoned_path_ok(*grid, o, start, goal, opt_cells(r))
            &&& (search_complete_case(*grid, o, start, MovementLayer::Ground, goal) && (zone_grid matches Some(zg)
                ==> zg.spec_can_reach(
                spec_category_of(movement_zone),
                start,
                MovementLayer::Ground,
                goal,
                MovementLayer::Ground,
            ))) ==> (r matches Some(v) && v@.last() == goal)
        }),
{
    let ghost o = zoned_options(costs, entity_blocks, movement_zone, resolved_terrain, entity_block_map, urgency, None);
    let plain = AStarOptions {
        terrain_costs: costs,
        entity_blocks,
        bridge_blocks: None,
        entity_block_map,
        urgency,
        corridor: None,
        movement_zone: Some(movement_zone),
        resolved_terrain,
        is_infantry: false,
    };
    proof {
        assert(plain == o);
        if search_complete_case(*grid, o, start, MovementLayer::Ground, goal) {
            lemma_complete_case_ends(*grid, o, start, MovementLayer::Ground, goal);
        }
    }
    let zg = match zone_grid {
        None => {
            return cell_search(grid, start, goal, &plain);
        },
        Some(z) => z,
    };
    let zone_cat = ZoneCategory::from_movement_zone(movement_zone);
    if !zg.can_reach(zone_cat, start, MovementLayer::Ground, goal, MovementLayer::Ground) {
        return None;
    }
    let zone_map = match zg.map_for(zone_cat) {
        None => {
            return cell_search(grid, start, goal, &plain);
        },
        Some(m) => m,
    };
    let adjacency = match zg.adjacency_for(zone_cat) {
        None => {
            return cell_search(grid, start, goal, &plain);
        },
        Some(a) => a,
    };
    let start_zone = zone_map.zone_at(start.0, start.1, MovementLayer::Ground);
    let goal_zone = zone_map.zone_at(goal.0, goal.1, MovementLayer::Ground);
    if start_zone == goal_zone && start_zone != ZONE_INVALID {
        return cell_search(grid, start, goal, &plain);
    }
    proof {
        lemma_u16_keys_ordered();
        assert(zone_cat != ZoneCategory::Fly);
        assert(crate::pathfinding::zone_map::category_consistent(
            *zone_map,
            zg.spec_adjacency(zone_cat),
            zg.spec_super(zone_cat),
            zg.spec_width() as int,
            zg.spec_height() as int,
        ));
        let idx = crate::grid_index::cell_index(start.0 as int, start.1 as int, zone_map.spec_width() as int);
        if start.0 < zone_map.spec_width() && start.1 < zone_map.spec_height() && idx < zone_map.spec_zone_ids().len() {
            assert(zone_map.spec_zone_ids()[idx] <= zone_map.spec_zone_count());
        }
    }
    let mut excluded: BTreeSet<ZoneId> = BTreeSet::new();
    let mut attempt: u8 = 0;
    while attempt < MAX_CORRIDOR_RETRIES
        invariant
            attempt <= MAX_CORRIDOR_RETRIES,
            u16_keys_ordered(),
            start_zone <= zone_map.spec_zone_count(),
            crate::pathfinding::zone_hierarchy::neighbors_within(*adjacency, zone_map.spec_zone_count() as int),
            search_input_ok(*grid, start, plain),
            plain == o,
            o == zoned_options(costs, entity_blocks, movement_zone, resolved_terrain, entity_block_map, urgency, None),
            zone_grid == Some(zg),
            zg.spec_can_reach(spec_category_of(movement_zone), start, MovementLayer::Ground, goal, MovementLayer::Ground),
            search_complete_case(*grid, o, start, MovementLayer::Ground, goal) ==> (!grid.cell_or_blocked(
                goal.0,
                goal.1,
            ).bridge_walkable && spec_passable_for_mover(*grid, goal.0, goal.1, o.movement_zone, o.resolved_terrain)),
        decreases MAX_CORRIDOR_RETRIES - attempt,
    {
        match find_zone_corridor(zone_map, adjacency, start_zone, goal_zone, &excluded) {
            Some(corridor) => {
                let allowed = expand_corridor(corridor.as_slice(), adjacency);
                let restricted = AStarOptions {
                    terrain_costs: costs,
                    entity_blocks,
                    bridge_blocks: None,
                    entity_block_map,
                    urgency,
                    corridor: Some((zone_map, &allowed)),
                    movement_zone: Some(movement_zone),
                    resolved_terrain,
                    is_infantry: false,
                };
                proof {
                    assert(search_input_ok(*grid, start, restricted));
                }
                let found = cell_search(grid, start, goal, &restricted);
                if let Some(path) = found {
                    proof {
                        if let Some(layer) = spec_resolved_start_layer(*grid, start, MovementLayer::Ground, restricted) {
                            lemma_corridor_path_is_plain_path(*grid, restricted, plain, start, goal, path@);
                        }
                    }
                    return Some(path);
                }
                let mut k: usize = 0;
                while k < corridor.len()
                    invariant
                        k <= corridor@.len(),
                        u16_keys_ordered(),
                    decreases corridor@.len() - k,
                {
                    excluded.insert(corridor[k]);
                    k = k + 1;
                }
            },
            None => {
                break;
            },
        }
        attempt = attempt + 1;
    }
    cell_search(grid, start, goal, &plain)
}

/// Zone-aware bridge-capable search: with zone data, a goal that the start
/// reaches on neither the ground nor the bridge layer gives `None` at once;
/// otherwise the layered search runs.
pub fn find_layered_path_zoned(
    grid: &PathGrid,
    ground_blocks: Option<&BTreeSet<(u16, u16)>>,
    bridge_blocks: Option<&BTreeSet<(u16, u16)>>,
    start: (u16, u16),
    start_layer: MovementLayer,
    goal: (u16, u16),
    zone_grid: Option<&ZoneGrid>,
    zone_cat: ZoneCategory,
    terrain_costs: Option<&TerrainCostGrid>,
) -> (r: Option<Vec<LayeredPathStep>>)
    requires
        zone_grid matches Some(zg) ==> zg.wf(),
    ensures
        (zone_grid matches Some(zg) && !zg.spec_can_reach(zone_cat, start, start_layer, goal, MovementLayer::Ground)
            && !zg.spec_can_reach(zone_cat, start, start_layer, goal, MovementLayer::Bridge)) ==> r is None,
        !(zone_grid matches Some(zg) && !zg.spec_can_reach(zone_cat, start, start_layer, goal, MovementLayer::Ground)
            && !zg.spec_can_reach(zone_cat, start, start_layer, goal, MovementLayer::Bridge)) ==> ({
            let o = layered_options(ground_blocks, bridge_blocks, terrain_costs, None);
            &&& !(start_layer == MovementLayer::Ground || start_layer == MovementLayer::Bridge) ==> r is None
            &&& (start_layer == MovementLayer::Ground || start_layer == MovementLayer::Bridge) ==> match spec_resolved_start_layer(
                *grid,
                start,
                start_layer,
                o,
            ) {
                None => r is None,
                Some(layer) => search_result_ok(*grid, o, start, layer, goal, opt_view(r)),
            }
        }),
        (search_complete_case(*grid, layered_options(ground_blocks, bridge_blocks, terrain_costs, None), start, start_layer, goal)
            && (zone_grid matches Some(zg) ==> zg.spec_can_reach(zone_cat, start, start_layer, goal, MovementLayer::Ground)))
            ==> (r matches Some(p) && p@.last().rx == goal.0 && p@.last().ry == goal.1),
{
    if let Some(zg) = zone_grid {
        let ground_reachable = zg.can_reach(zone_cat, start, start_layer, goal, MovementLayer::Ground);
        let bridge_reachable = zg.can_reach(zone_cat, start, start_layer, goal, MovementLayer::Bridge);
        if !ground_reachable && !bridge_reachable {
            return None;
        }
    }
    find_layered_path(grid, ground_blocks, bridge_blocks, start, start_layer, goal, terrain_costs, None)
}

} // verus!
