//! Zone map construction: cell passability per zone category, flood fills
//! that label connected regions, adjacency extraction and zone records.
//!
//! A flood fill labels the region of cells linked to a seed; once it ends,
//! the labels are closed under the link relation: linked cells always carry
//! the same zone.

use crate::grid_index::{cell_index, chebyshev, lemma_index_coords, lemma_index_decompose, lemma_index_in_bounds};
use crate::map::ResolvedTerrainGrid;
use crate::movement::MovementLayer;
use crate::pathfinding::astar::{abs_diff, is_water_surface_cell_passable, neighbor_delta, spec_neighbor, spec_water_surface_passable};
use crate::pathfinding::passability::{is_passable_for_zone, spec_passable_for_zone};
use crate::pathfinding::path_grid::PathGrid;
use crate::pathfinding::terrain_cost::TerrainCostGrid;
use crate::pathfinding::zone_map::{spec_representative, ZoneAdjacency, ZoneCategory, ZoneId, ZoneInfo, ZoneMap, ZONE_INVALID};
use crate::pathfinding::passability::LandType;
use crate::rules::{movement_zone_row, MovementZone};
use crate::keys::{lemma_u16_keys_ordered, u16_keys_ordered};
use std::collections::BTreeMap;
use vstd::prelude::*;

verus! {

/// Whether a cell is passable for a zone category. Ground categories need a
/// ground-walkable cell; with resolved terrain the category's movement zone
/// reads the cell's land type (water movers the water surface); otherwise a
/// cost grid decides (a cost of 0 blocks), and without one land categories
/// pass and water categories do not.
pub open spec fn spec_zone_passable(
    x: u16,
    y: u16,
    cat: ZoneCategory,
    grid: PathGrid,
    cost: Option<&TerrainCostGrid>,
    terrain: Option<&ResolvedTerrainGrid>,
) -> bool {
    let water_zone = cat == ZoneCategory::Water || cat == ZoneCategory::WaterBeach;
    if !water_zone && !grid.spec_walkable(x, y) {
        false
    } else {
        let tc = match terrain {
            Some(t) => t.spec_cell(x, y),
            None => None,
        };
        match tc {
            Some(c) => {
                let mz = spec_representative(cat);
                if mz.spec_is_water_mover() {
                    spec_water_surface_passable(c, mz)
                } else {
                    spec_passable_for_zone(c.land_type, mz)
                }
            },
            None => match cost {
                Some(cg) => cg.spec_cost_at(x, y) > 0,
                None => !water_zone,
            },
        }
    }
}

/// Whether a cell is passable for a zone category (see `spec_zone_passable`).
pub fn is_passable(
    x: u16,
    y: u16,
    cat: ZoneCategory,
    path_grid: &PathGrid,
    cost_grid: Option<&TerrainCostGrid>,
    resolved_terrain: Option<&ResolvedTerrainGrid>,
    _layer: MovementLayer,
) -> (r: bool)
    ensures
        r == spec_zone_passable(x, y, cat, *path_grid, cost_grid, resolved_terrain),
{
    let is_water_zone = cat == ZoneCategory::Water || cat == ZoneCategory::WaterBeach;
    if !is_water_zone && !path_grid.is_walkable(x, y) {
        return false;
    }
    if let Some(terrain) = resolved_terrain {
        if let Some(cell) = terrain.cell(x, y) {
            let mz = cat.representative_movement_zone();
            if mz.is_water_mover() {
                return is_water_surface_cell_passable(cell, mz);
            }
            return is_passable_for_zone(cell.land_type, mz);
        }
    }
    match cost_grid {
        Some(cg) => cg.cost_at(x, y) > 0,
        None => !is_water_zone,
    }
}

/// Movement class of a cell off the map.
pub const MOVEMENT_CLASS_OUTSIDE: u8 = 7;

/// Movement class of a blocked cell.
pub const MOVEMENT_CLASS_BLOCKED: u8 = 6;

/// What links two neighboring cells in a flood fill.
pub enum FloodRule<'a> {
    /// Ground cells passable for a category, at most one level apart.
    Ground {
        cat: ZoneCategory,
        grid: &'a PathGrid,
        cost: Option<&'a TerrainCostGrid>,
        terrain: Option<&'a ResolvedTerrainGrid>,
    },
    /// Cells with a walkable bridge deck.
    Bridge { grid: &'a PathGrid },
    /// Cells of one movement class, at most one level apart unless blocked.
    Node { classes: &'a Vec<u8>, grid: &'a PathGrid },
    /// Cells with a bridge deck.
    Deck { terrain: &'a ResolvedTerrainGrid },
}

/// Movement class at `(x, y)` of a row-major class array.
pub open spec fn class_at(classes: Seq<u8>, w: int, x: u16, y: u16) -> u8 {
    let i = cell_index(x as int, y as int, w);
    if 0 <= i < classes.len() {
        classes[i]
    } else {
        MOVEMENT_CLASS_OUTSIDE
    }
}

/// Whether a cell can carry a label under the rule.
pub open spec fn rule_member(rule: FloodRule, w: int, x: u16, y: u16) -> bool {
    match rule {
        FloodRule::Ground { cat, grid, cost, terrain } => spec_zone_passable(x, y, cat, *grid, cost, terrain),
        FloodRule::Bridge { grid } => grid.spec_walkable_on_layer(x, y, MovementLayer::Bridge),
        FloodRule::Node { classes, grid } => class_at(classes@, w, x, y) != MOVEMENT_CLASS_OUTSIDE,
        FloodRule::Deck { terrain } => match terrain.spec_cell(x, y) {
            Some(c) => c.has_bridge_deck,
            None => false,
        },
    }
}

/// Whether the ground levels of two cells are at most one apart (cells off
/// the grid compare as `missing`).
pub open spec fn levels_close(grid: PathGrid, cx: u16, cy: u16, nx: u16, ny: u16, missing: bool) -> bool {
    match grid.spec_cell(cx, cy) {
        Some(a) => match grid.spec_cell(nx, ny) {
            Some(b) => abs_diff(a.ground_level, b.ground_level) <= 1,
            None => missing,
        },
        None => missing,
    }
}

/// Whether neighboring cells `c` and `n` are linked under the rule: both
/// members, a diagonal only with both cardinal cells between them members,
/// and heights at most one apart (node links: equal classes, heights checked
/// unless the class is blocked).
pub open spec fn rule_link(rule: FloodRule, w: int, cx: u16, cy: u16, nx: u16, ny: u16) -> bool {
    let diag = cx != nx && cy != ny;
    match rule {
        FloodRule::Ground { grid, .. } => {
            &&& rule_member(rule, w, cx, cy)
            &&& rule_member(rule, w, nx, ny)
            &&& (diag ==> rule_member(rule, w, nx, cy) && rule_member(rule, w, cx, ny))
            &&& levels_close(*grid, cx, cy, nx, ny, true)
        },
        FloodRule::Bridge { .. } => {
            &&& rule_member(rule, w, cx, cy)
            &&& rule_member(rule, w, nx, ny)
            &&& (diag ==> rule_member(rule, w, nx, cy) && rule_member(rule, w, cx, ny))
        },
        FloodRule::Node { classes, grid } => {
            &&& rule_member(rule, w, cx, cy)
            &&& class_at(classes@, w, cx, cy) == class_at(classes@, w, nx, ny)
            &&& (class_at(classes@, w, cx, cy) != MOVEMENT_CLASS_BLOCKED ==> levels_close(*grid, cx, cy, nx, ny, false))
        },
        FloodRule::Deck { .. } => rule_member(rule, w, cx, cy) && rule_member(rule, w, nx, ny),
    }
}

/// Whether a flood may step from `c` to its neighbor `n` inside a `w` by `h` grid.
pub open spec fn flood_allowed(rule: FloodRule, w: int, h: int, cx: u16, cy: u16, nx: u16, ny: u16) -> bool {
    &&& cx < w
    &&& cy < h
    &&& nx < w
    &&& ny < h
    &&& chebyshev(cx as int, cy as int, nx as int, ny as int) == 1
    &&& rule_link(rule, w, cx, cy, nx, ny)
}

/// The step relation of a flood is symmetric and joins members only.
pub proof fn lemma_flood_allowed_symmetric(rule: FloodRule, w: int, h: int, cx: u16, cy: u16, nx: u16, ny: u16)
    requires
        flood_allowed(rule, w, h, cx, cy, nx, ny),
    ensures
        flood_allowed(rule, w, h, nx, ny, cx, cy),
        rule_member(rule, w, cx, cy),
        rule_member(rule, w, nx, ny),
{
}

/// Label of `(x, y)` in a row-major label array.
pub open spec fn label_at(z: Seq<ZoneId>, w: int, x: u16, y: u16) -> ZoneId {
    z[cell_index(x as int, y as int, w)]
}

/// Every label is below `bound`.
pub open spec fn labels_below(z: Seq<ZoneId>, bound: int) -> bool {
    forall|i: int| 0 <= i < z.len() ==> (#[trigger] z[i]) < bound
}

/// Only members carry a label.
pub open spec fn labels_members(z: Seq<ZoneId>, rule: FloodRule, w: int) -> bool {
    forall|i: int|
        0 <= i < z.len() && (#[trigger] z[i]) != ZONE_INVALID ==> rule_member(rule, w, (i % w) as u16, (i / w) as u16)
}

/// Every label is below `bound` and only members carry one.
pub open spec fn labels_ok(z: Seq<ZoneId>, rule: FloodRule, w: int, bound: int) -> bool {
    labels_below(z, bound) && labels_members(z, rule, w)
}

/// Linked cells carry the same label once one of them carries any.
pub open spec fn labels_closed(z: Seq<ZoneId>, rule: FloodRule, w: int, h: int) -> bool {
    forall|cx: u16, cy: u16, nx: u16, ny: u16|
        #[trigger] flood_allowed(rule, w, h, cx, cy, nx, ny) && label_at(z, w, cx, cy) != ZONE_INVALID ==> label_at(
            z,
            w,
            nx,
            ny,
        ) == label_at(z, w, cx, cy)
}

/// What a flood keeps equal between linked cells: the movement class for
/// node floods, nothing for the other rules.
pub open spec fn rule_key(rule: FloodRule, w: int, x: u16, y: u16) -> int {
    match rule {
        FloodRule::Node { classes, .. } => class_at(classes@, w, x, y) as int,
        _ => 0,
    }
}

/// Cells that carry the same label agree on the rule's key.
pub open spec fn labels_keyed(z: Seq<ZoneId>, rule: FloodRule, w: int, h: int) -> bool {
    forall|x1: u16, y1: u16, x2: u16, y2: u16|
        x1 < w && y1 < h && x2 < w && y2 < h && #[trigger] label_at(z, w, x1, y1) != ZONE_INVALID && label_at(z, w, x1, y1)
            == #[trigger] label_at(z, w, x2, y2) ==> rule_key(rule, w, x1, y1) == rule_key(rule, w, x2, y2)
}

/// Linked cells agree on the rule's key.
proof fn lemma_link_keeps_key(rule: FloodRule, w: int, h: int, cx: u16, cy: u16, nx: u16, ny: u16)
    requires
        flood_allowed(rule, w, h, cx, cy, nx, ny),
    ensures
        rule_key(rule, w, cx, cy) == rule_key(rule, w, nx, ny),
{
}

/// Distinct in-grid cells have distinct indices.
proof fn lemma_index_injective(x1: int, y1: int, x2: int, y2: int, w: int)
    requires
        0 <= x1 < w,
        0 <= x2 < w,
        0 <= y1,
        0 <= y2,
        cell_index(x1, y1, w) == cell_index(x2, y2, w),
    ensures
        x1 == x2,
        y1 == y2,
{
    lemma_index_coords(x1, y1, w);
    lemma_index_coords(x2, y2, w);
}

/// Number of unlabeled entries among the first `k`.
pub open spec fn zeros_before(s: Seq<ZoneId>, k: int) -> int
    decreases k,
{
    if k <= 0 {
        0
    } else {
        zeros_before(s, k - 1) + if s[k - 1] == ZONE_INVALID {
            1int
        } else {
            0int
        }
    }
}

/// Number of member cells among the first `k` entries that carry no label.
pub open spec fn unlabeled_members(z: Seq<ZoneId>, rule: FloodRule, w: int, k: int) -> int
    decreases k,
{
    if k <= 0 {
        0
    } else {
        unlabeled_members(z, rule, w, k - 1) + if z[k - 1] == ZONE_INVALID && rule_member(
            rule,
            w,
            ((k - 1) % w) as u16,
            ((k - 1) / w) as u16,
        ) {
            1int
        } else {
            0int
        }
    }
}

/// At most `k` of the first `k` entries are unlabeled members, and an
/// unlabeled member among them counts.
pub(crate) proof fn lemma_unlabeled_members_bounds(z: Seq<ZoneId>, rule: FloodRule, w: int, k: int, j: int)
    requires
        0 <= k,
    ensures
        0 <= unlabeled_members(z, rule, w, k) <= k,
        0 <= j < k && z[j] == ZONE_INVALID && rule_member(rule, w, (j % w) as u16, (j / w) as u16)
            ==> unlabeled_members(z, rule, w, k) >= 1,
    decreases k,
{
    if k > 0 {
        lemma_unlabeled_members_bounds(z, rule, w, k - 1, j);
    }
}

/// Labeling more cells never adds unlabeled members, and labeling the
/// unlabeled member `j` removes one.
proof fn lemma_unlabeled_members_shrink(z1: Seq<ZoneId>, z2: Seq<ZoneId>, rule: FloodRule, w: int, k: int, j: int)
    requires
        0 <= k <= z1.len(),
        z1.len() == z2.len(),
        forall|i: int| 0 <= i < z1.len() ==> #[trigger] z2[i] == z1[i] || (z1[i] == ZONE_INVALID && z2[i] != ZONE_INVALID),
    ensures
        unlabeled_members(z2, rule, w, k) <= unlabeled_members(z1, rule, w, k),
        0 <= j < k && z1[j] == ZONE_INVALID && z2[j] != ZONE_INVALID && rule_member(rule, w, (j % w) as u16, (j / w) as u16)
            ==> unlabeled_members(z2, rule, w, k) <= unlabeled_members(z1, rule, w, k) - 1,
    decreases k,
{
    if k > 0 {
        lemma_unlabeled_members_shrink(z1, z2, rule, w, k - 1, j);
        assert(z2[k - 1] == z1[k - 1] || (z1[k - 1] == ZONE_INVALID && z2[k - 1] != ZONE_INVALID));
    }
}

proof fn lemma_zeros_bounds(s: Seq<ZoneId>, k: int)
    requires
        0 <= k <= s.len(),
    ensures
        0 <= zeros_before(s, k) <= k,
    decreases k,
{
    if k > 0 {
        lemma_zeros_bounds(s, k - 1);
    }
}

proof fn lemma_zeros_update(s: Seq<ZoneId>, i: int, v: ZoneId, k: int)
    requires
        0 <= i < s.len(),
        s[i] == ZONE_INVALID,
        v != ZONE_INVALID,
        0 <= k <= s.len(),
    ensures
        zeros_before(s.update(i, v), k) == zeros_before(s, k) - (if i < k {
            1int
        } else {
            0int
        }),
    decreases k,
{
    if k > 0 {
        lemma_zeros_update(s, i, v, k - 1);
    }
}

/// A neighbor at Chebyshev distance 1 lies in one of the 8 directions.
pub(crate) proof fn lemma_dir_of(cx: int, cy: int, nx: int, ny: int) -> (d: int)
    requires
        chebyshev(cx, cy, nx, ny) == 1,
    ensures
        0 <= d < 8,
        nx == cx + spec_neighbor(d).0,
        ny == cy + spec_neighbor(d).1,
{
    if nx == cx && ny == cy - 1 {
        0
    } else if nx == cx + 1 && ny == cy - 1 {
        1
    } else if nx == cx + 1 && ny == cy {
        2
    } else if nx == cx + 1 && ny == cy + 1 {
        3
    } else if nx == cx && ny == cy + 1 {
        4
    } else if nx == cx - 1 && ny == cy + 1 {
        5
    } else if nx == cx - 1 && ny == cy {
        6
    } else {
        7
    }
}

/// Movement class at `(x, y)`.
fn class_at_exec(classes: &Vec<u8>, w: u16, x: u16, y: u16) -> (r: u8)
    ensures
        r == class_at(classes@, w as int, x, y),
{
    proof {
        assert(y as int * w as int <= 65535 * 65535) by (nonlinear_arith)
            requires
                y <= 65535,
                w <= 65535,
        ;
    }
    let i: u64 = y as u64 * w as u64 + x as u64;
    if i < classes.len() as u64 {
        classes[i as usize]
    } else {
        MOVEMENT_CLASS_OUTSIDE
    }
}

/// Whether `(x, y)` can carry a label under the rule.
fn rule_member_exec(rule: &FloodRule, w: u16, x: u16, y: u16) -> (r: bool)
    ensures
        r == rule_member(*rule, w as int, x, y),
{
    match rule {
        FloodRule::Ground { cat, grid, cost, terrain } => is_passable(x, y, *cat, grid, *cost, *terrain, MovementLayer::Ground),
        FloodRule::Bridge { grid } => grid.is_walkable_on_layer(x, y, MovementLayer::Bridge),
        FloodRule::Node { classes, grid } => class_at_exec(classes, w, x, y) != MOVEMENT_CLASS_OUTSIDE,
        FloodRule::Deck { terrain } => match terrain.cell(x, y) {
            Some(c) => c.has_bridge_deck,
            None => false,
        },
    }
}

/// Whether the ground levels of two cells are at most one apart.
fn levels_close_exec(grid: &PathGrid, cx: u16, cy: u16, nx: u16, ny: u16, missing: bool) -> (r: bool)
    ensures
        r == levels_close(*grid, cx, cy, nx, ny, missing),
{
    match grid.cell(cx, cy) {
        Some(a) => match grid.cell(nx, ny) {
            Some(b) => {
                let d = if a.ground_level >= b.ground_level {
                    a.ground_level - b.ground_level
                } else {
                    b.ground_level - a.ground_level
                };
                d <= 1
            },
            None => missing,
        },
        None => missing,
    }
}

/// Whether neighboring cells are linked under the rule.
fn rule_link_exec(rule: &FloodRule, w: u16, cx: u16, cy: u16, nx: u16, ny: u16) -> (r: bool)
    ensures
        r == rule_link(*rule, w as int, cx, cy, nx, ny),
{
    let diag = cx != nx && cy != ny;
    match rule {
        FloodRule::Ground { grid, .. } => {
            rule_member_exec(rule, w, cx, cy) && rule_member_exec(rule, w, nx, ny) && (!diag || (rule_member_exec(
                rule,
                w,
                nx,
                cy,
            ) && rule_member_exec(rule, w, cx, ny))) && levels_close_exec(grid, cx, cy, nx, ny, true)
        },
        FloodRule::Bridge { .. } => {
            rule_member_exec(rule, w, cx, cy) && rule_member_exec(rule, w, nx, ny) && (!diag || (rule_member_exec(
                rule,
                w,
                nx,
                cy,
            ) && rule_member_exec(rule, w, cx, ny)))
        },
        FloodRule::Node { classes, grid } => {
            let cc = class_at_exec(classes, w, cx, cy);
            cc != MOVEMENT_CLASS_OUTSIDE && cc == class_at_exec(classes, w, nx, ny) && (cc == MOVEMENT_CLASS_BLOCKED
                || levels_close_exec(grid, cx, cy, nx, ny, false))
        },
        FloodRule::Deck { .. } => rule_member_exec(rule, w, cx, cy) && rule_member_exec(rule, w, nx, ny),
    }
}

/// Whether the neighbor of `(cx, cy)` in direction `d`, if inside the grid
/// and linked, is labeled.
pub open spec fn dir_done(rule: FloodRule, w: int, h: int, z: Seq<ZoneId>, cx: u16, cy: u16, d: int) -> bool {
    let bx = cx as int + spec_neighbor(d).0;
    let by = cy as int + spec_neighbor(d).1;
    0 <= bx < w && 0 <= by < h && flood_allowed(rule, w, h, cx, cy, bx as u16, by as u16) ==> label_at(
        z,
        w,
        bx as u16,
        by as u16,
    ) != ZONE_INVALID
}

/// Label every cell linked to the seed, directly or through other cells,
/// with `id`. Cells already labeled keep their label; the labels stay
/// closed under the links.
pub fn flood_fill(rule: &FloodRule, start_x: u16, start_y: u16, id: ZoneId, zone_ids: &mut Vec<ZoneId>, width: u16, height: u16)
    requires
        old(zone_ids)@.len() == width as int * height as int,
        start_x < width,
        start_y < height,
        label_at(old(zone_ids)@, width as int, start_x, start_y) == ZONE_INVALID,
        rule_member(*rule, width as int, start_x, start_y),
        id != ZONE_INVALID,
        labels_below(old(zone_ids)@, id as int),
    ensures
        final(zone_ids)@.len() == old(zone_ids)@.len(),
        label_at(final(zone_ids)@, width as int, start_x, start_y) == id,
        forall|i: int|
            0 <= i < old(zone_ids)@.len() ==> (#[trigger] final(zone_ids)@[i] == old(zone_ids)@[i]) || (old(
                zone_ids,
            )@[i] == ZONE_INVALID && final(zone_ids)@[i] == id),
        labels_below(final(zone_ids)@, id as int + 1),
        labels_members(old(zone_ids)@, *rule, width as int) ==> labels_members(final(zone_ids)@, *rule, width as int),
        labels_closed(old(zone_ids)@, *rule, width as int, height as int) ==> labels_closed(
            final(zone_ids)@,
            *rule,
            width as int,
            height as int,
        ),
        labels_keyed(old(zone_ids)@, *rule, width as int, height as int) ==> labels_keyed(
            final(zone_ids)@,
            *rule,
            width as int,
            height as int,
        ),
{
    let ghost w = width as int;
    let ghost h = height as int;
    let ghost orig = zone_ids@;
    let ghost mem0 = labels_members(zone_ids@, *rule, w);
    let ghost closed0 = labels_closed(zone_ids@, *rule, w, h);
    let ghost keyed0 = labels_keyed(zone_ids@, *rule, w, h);
    let ghost skey = rule_key(*rule, w, start_x, start_y);
    let ghost n = w * h;
    let total = zone_ids.len();
    proof {
        lemma_index_in_bounds(start_x as int, start_y as int, w, h);
        lemma_index_coords(start_x as int, start_y as int, w);
    }
    let start_idx = start_y as usize * width as usize + start_x as usize;
    proof {
        lemma_zeros_update(zone_ids@, start_idx as int, id, n);
    }
    zone_ids.set(start_idx, id);
    let mut stack: Vec<(u16, u16)> = Vec::new();
    stack.push((start_x, start_y));
    proof {
        assert forall|x: u16, y: u16| x < w && y < h && #[trigger] label_at(zone_ids@, w, x, y) == id implies rule_key(
            *rule,
            w,
            x,
            y,
        ) == skey by {
            lemma_index_in_bounds(x as int, y as int, w, h);
            if cell_index(x as int, y as int, w) == start_idx {
                lemma_index_injective(x as int, y as int, start_x as int, start_y as int, w);
            } else {
                assert(orig[cell_index(x as int, y as int, w)] < id);
            }
        }
        assert forall|i: int| 0 <= i < zone_ids@.len() implies (#[trigger] zone_ids@[i]) < id as int + 1 by {
            if i != start_idx {
                assert(orig[i] == zone_ids@[i]);
            }
        }
        if mem0 {
            assert forall|i: int| 0 <= i < zone_ids@.len() && (#[trigger] zone_ids@[i]) != ZONE_INVALID implies rule_member(
                *rule,
                w,
                (i % w) as u16,
                (i / w) as u16,
            ) by {
                if i != start_idx {
                    assert(orig[i] == zone_ids@[i]);
                }
            }
        }
        if closed0 {
        assert forall|cx: u16, cy: u16, nx: u16, ny: u16|
            #[trigger] flood_allowed(*rule, w, h, cx, cy, nx, ny) && label_at(zone_ids@, w, cx, cy) != ZONE_INVALID
                && label_at(zone_ids@, w, cx, cy) != id implies label_at(zone_ids@, w, nx, ny) == label_at(
            zone_ids@,
            w,
            cx,
            cy,
        ) by {
            lemma_index_in_bounds(cx as int, cy as int, w, h);
            lemma_index_in_bounds(nx as int, ny as int, w, h);
            lemma_flood_allowed_symmetric(*rule, w, h, cx, cy, nx, ny);
            if cell_index(cx as int, cy as int, w) == start_idx {
                lemma_index_coords(cx as int, cy as int, w);
            }
            assert(label_at(orig, w, cx, cy) != ZONE_INVALID);
            if cell_index(nx as int, ny as int, w) == start_idx {
                lemma_index_coords(nx as int, ny as int, w);
                assert(label_at(orig, w, nx, ny) == label_at(orig, w, cx, cy));
            }
        }
        }
        assert forall|cx: u16, cy: u16, nx: u16, ny: u16|
            #[trigger] flood_allowed(*rule, w, h, cx, cy, nx, ny) && label_at(zone_ids@, w, cx, cy) == id
                && !stack@.contains((cx, cy)) implies label_at(zone_ids@, w, nx, ny) != ZONE_INVALID by {
            lemma_index_in_bounds(cx as int, cy as int, w, h);
            if cell_index(cx as int, cy as int, w) == start_idx {
                lemma_index_coords(cx as int, cy as int, w);
                assert(stack@[0] == (cx, cy));
            } else {
                assert(orig[cell_index(cx as int, cy as int, w)] < id);
            }
        }
    }
    while stack.len() > 0
        invariant
            w == width as int,
            h == height as int,
            n == w * h,
            total == n,
            zone_ids@.len() == n,
            orig.len() == n,
            id != ZONE_INVALID,
            start_x < w,
            start_y < h,
            label_at(zone_ids@, w, start_x, start_y) == id,
            forall|i: int|
                0 <= i < n ==> (#[trigger] zone_ids@[i] == orig[i]) || (orig[i] == ZONE_INVALID && zone_ids@[i] == id),
            labels_below(zone_ids@, id as int + 1),
            mem0 == labels_members(orig, *rule, w),
            closed0 == labels_closed(orig, *rule, w, h),
            keyed0 == labels_keyed(orig, *rule, w, h),
            skey == rule_key(*rule, w, start_x, start_y),
            forall|x: u16, y: u16|
                x < w && y < h && #[trigger] label_at(zone_ids@, w, x, y) == id ==> rule_key(*rule, w, x, y) == skey,
            mem0 ==> labels_members(zone_ids@, *rule, w),
            forall|k: int|
                0 <= k < stack@.len() ==> (#[trigger] stack@[k]).0 < w && stack@[k].1 < h && label_at(
                    zone_ids@,
                    w,
                    stack@[k].0,
                    stack@[k].1,
                ) == id,
            closed0 ==> forall|cx: u16, cy: u16, nx: u16, ny: u16|
                #[trigger] flood_allowed(*rule, w, h, cx, cy, nx, ny) && label_at(zone_ids@, w, cx, cy) != ZONE_INVALID
                    && label_at(zone_ids@, w, cx, cy) != id ==> label_at(zone_ids@, w, nx, ny) == label_at(
                    zone_ids@,
                    w,
                    cx,
                    cy,
                ),
            forall|cx: u16, cy: u16, nx: u16, ny: u16|
                #[trigger] flood_allowed(*rule, w, h, cx, cy, nx, ny) && label_at(zone_ids@, w, cx, cy) == id
                    && !stack@.contains((cx, cy)) ==> label_at(zone_ids@, w, nx, ny) != ZONE_INVALID,
        decreases 2 * zeros_before(zone_ids@, n) + stack@.len(),
    {
        let ghost before = zone_ids@;
        let ghost stack_before = stack@;
        let (cx, cy) = stack.pop().unwrap();
        proof {
            assert(stack_before[stack_before.len() - 1] == (cx, cy));
            assert(stack_before =~= stack@.push((cx, cy)));
            lemma_zeros_bounds(zone_ids@, n);
            assert forall|ax: u16, ay: u16, bx: u16, by: u16|
                #[trigger] flood_allowed(*rule, w, h, ax, ay, bx, by) && label_at(zone_ids@, w, ax, ay) == id
                    && !stack@.contains((ax, ay)) && (ax, ay) != (cx, cy) implies label_at(zone_ids@, w, bx, by)
                != ZONE_INVALID by {
                if stack_before.contains((ax, ay)) {
                    let k = choose|k: int| 0 <= k < stack_before.len() && stack_before[k] == (ax, ay);
                    if k < stack@.len() {
                        assert(stack@[k] == (ax, ay));
                    }
                }
            }
        }
        let ghost popped_stack = stack@;
        let mut dir: usize = 0;
        while dir < 8
            invariant
                w == width as int,
                h == height as int,
                n == w * h,
                total == n,
                zone_ids@.len() == n,
                orig.len() == n,
                id != ZONE_INVALID,
                cx < w,
                cy < h,
                label_at(zone_ids@, w, cx, cy) == id,
                start_x < w,
                start_y < h,
                label_at(zone_ids@, w, start_x, start_y) == id,
                dir <= 8,
                forall|i: int|
                    0 <= i < n ==> (#[trigger] zone_ids@[i] == orig[i]) || (orig[i] == ZONE_INVALID && zone_ids@[i]
                        == id),
                forall|i: int| 0 <= i < n ==> (#[trigger] zone_ids@[i] == before[i]) || (before[i] == ZONE_INVALID),
                labels_below(zone_ids@, id as int + 1),
                mem0 == labels_members(orig, *rule, w),
                closed0 == labels_closed(orig, *rule, w, h),
                keyed0 == labels_keyed(orig, *rule, w, h),
                skey == rule_key(*rule, w, start_x, start_y),
                forall|x: u16, y: u16|
                    x < w && y < h && #[trigger] label_at(zone_ids@, w, x, y) == id ==> rule_key(*rule, w, x, y) == skey,
                mem0 ==> labels_members(zone_ids@, *rule, w),
                stack@.len() >= popped_stack.len(),
                forall|k: int| 0 <= k < popped_stack.len() ==> #[trigger] stack@[k] == popped_stack[k],
                forall|k: int|
                    0 <= k < stack@.len() ==> (#[trigger] stack@[k]).0 < w && stack@[k].1 < h && label_at(
                        zone_ids@,
                        w,
                        stack@[k].0,
                        stack@[k].1,
                    ) == id,
                2 * zeros_before(zone_ids@, n) + stack@.len() <= 2 * zeros_before(before, n) + popped_stack.len(),
                closed0 ==> forall|ax: u16, ay: u16, bx: u16, by: u16|
                    #[trigger] flood_allowed(*rule, w, h, ax, ay, bx, by) && label_at(zone_ids@, w, ax, ay)
                        != ZONE_INVALID && label_at(zone_ids@, w, ax, ay) != id ==> label_at(zone_ids@, w, bx, by)
                        == label_at(zone_ids@, w, ax, ay),
                forall|ax: u16, ay: u16, bx: u16, by: u16|
                    #[trigger] flood_allowed(*rule, w, h, ax, ay, bx, by) && label_at(zone_ids@, w, ax, ay) == id
                        && !stack@.contains((ax, ay)) && (ax, ay) != (cx, cy) ==> label_at(zone_ids@, w, bx, by)
                        != ZONE_INVALID,
                forall|d: int| 0 <= d < dir ==> #[trigger] dir_done(*rule, w, h, zone_ids@, cx, cy, d),
            decreases 8 - dir,
        {
            let ghost z0 = zone_ids@;
            let (dx, dy, _) = neighbor_delta(dir);
            let nx_i = cx as i32 + dx;
            let ny_i = cy as i32 + dy;
            if nx_i >= 0 && ny_i >= 0 && nx_i < width as i32 && ny_i < height as i32 {
                let nx = nx_i as u16;
                let ny = ny_i as u16;
                proof {
                    lemma_index_in_bounds(nx as int, ny as int, w, h);
                    lemma_index_coords(nx as int, ny as int, w);
                }
                let n_idx = ny as usize * width as usize + nx as usize;
                if zone_ids[n_idx] == ZONE_INVALID && rule_link_exec(rule, width, cx, cy, nx, ny) {
                    let ghost mid = zone_ids@;
                    let ghost mid_stack = stack@;
                    proof {
                        lemma_zeros_update(zone_ids@, n_idx as int, id, n);
                        lemma_flood_allowed_symmetric(*rule, w, h, cx, cy, nx, ny);
                    }
                    zone_ids.set(n_idx, id);
                    stack.push((nx, ny));
                    proof {
                        assert(label_at(mid, w, cx, cy) == id);
                        lemma_link_keeps_key(*rule, w, h, cx, cy, nx, ny);
                        assert forall|x: u16, y: u16|
                            x < w && y < h && #[trigger] label_at(zone_ids@, w, x, y) == id implies rule_key(*rule, w, x, y)
                            == skey by {
                            lemma_index_in_bounds(x as int, y as int, w, h);
                            if cell_index(x as int, y as int, w) == n_idx {
                                lemma_index_injective(x as int, y as int, nx as int, ny as int, w);
                            } else {
                                assert(label_at(mid, w, x, y) == id);
                            }
                        }
                        assert forall|i: int| 0 <= i < zone_ids@.len() implies (#[trigger] zone_ids@[i]) < id as int
                            + 1 by {
                            if i != n_idx {
                                assert(mid[i] == zone_ids@[i]);
                            }
                        }
                        if mem0 {
                            assert forall|i: int| 0 <= i < zone_ids@.len() && (#[trigger] zone_ids@[i]) != ZONE_INVALID
                                implies rule_member(*rule, w, (i % w) as u16, (i / w) as u16) by {
                                if i != n_idx {
                                    assert(mid[i] == zone_ids@[i]);
                                }
                            }
                        }
                        if closed0 {
                        assert forall|ax: u16, ay: u16, bx: u16, by: u16|
                            #[trigger] flood_allowed(*rule, w, h, ax, ay, bx, by) && label_at(zone_ids@, w, ax, ay)
                                != ZONE_INVALID && label_at(zone_ids@, w, ax, ay) != id implies label_at(
                            zone_ids@,
                            w,
                            bx,
                            by,
                        ) == label_at(zone_ids@, w, ax, ay) by {
                            lemma_index_in_bounds(ax as int, ay as int, w, h);
                            lemma_index_in_bounds(bx as int, by as int, w, h);
                            if cell_index(ax as int, ay as int, w) == n_idx {
                                lemma_index_coords(ax as int, ay as int, w);
                            }
                            assert(label_at(mid, w, ax, ay) == label_at(zone_ids@, w, ax, ay));
                            if cell_index(bx as int, by as int, w) == n_idx {
                                lemma_index_coords(bx as int, by as int, w);
                            }
                        }
                        }
                        assert forall|ax: u16, ay: u16, bx: u16, by: u16|
                            #[trigger] flood_allowed(*rule, w, h, ax, ay, bx, by) && label_at(zone_ids@, w, ax, ay)
                                == id && !stack@.contains((ax, ay)) && (ax, ay) != (cx, cy) implies label_at(
                            zone_ids@,
                            w,
                            bx,
                            by,
                        ) != ZONE_INVALID by {
                            lemma_index_in_bounds(ax as int, ay as int, w, h);
                            lemma_index_in_bounds(bx as int, by as int, w, h);
                            if cell_index(ax as int, ay as int, w) == n_idx {
                                lemma_index_coords(ax as int, ay as int, w);
                                assert(stack@[stack@.len() - 1] == (nx, ny));
                                assert(false);
                            }
                            assert(label_at(mid, w, ax, ay) == id);
                            if mid_stack.contains((ax, ay)) {
                                let k = choose|k: int| 0 <= k < mid_stack.len() && mid_stack[k] == (ax, ay);
                                assert(stack@[k] == mid_stack[k]);
                            }
                            if cell_index(bx as int, by as int, w) != n_idx {
                                assert(label_at(mid, w, bx, by) == label_at(zone_ids@, w, bx, by));
                            }
                        }
                        assert forall|k: int| 0 <= k < stack@.len() implies (#[trigger] stack@[k]).0 < w && stack@[k].1
                            < h && label_at(zone_ids@, w, stack@[k].0, stack@[k].1) == id by {
                            if k < mid_stack.len() {
                                assert(stack@[k] == mid_stack[k]);
                                lemma_index_in_bounds(stack@[k].0 as int, stack@[k].1 as int, w, h);
                            }
                        }
                        assert forall|i: int|
                            0 <= i < n implies (#[trigger] zone_ids@[i] == before[i]) || (before[i] == ZONE_INVALID) by {
                            if i != n_idx {
                                assert(mid[i] == zone_ids@[i]);
                            }
                        }
                        assert forall|i: int|
                            0 <= i < n implies (#[trigger] zone_ids@[i] == orig[i]) || (orig[i] == ZONE_INVALID
                                && zone_ids@[i] == id) by {
                            if i != n_idx {
                                assert(mid[i] == zone_ids@[i]);
                            }
                        }
                        assert(label_at(zone_ids@, w, cx, cy) == id) by {
                            lemma_index_in_bounds(cx as int, cy as int, w, h);
                            if cell_index(cx as int, cy as int, w) == n_idx {
                                lemma_index_coords(cx as int, cy as int, w);
                            }
                        }
                        assert(label_at(zone_ids@, w, start_x, start_y) == id) by {
                            lemma_index_in_bounds(start_x as int, start_y as int, w, h);
                        }
                    }
                }
            }
            proof {
                assert forall|i: int| 0 <= i < n && z0[i] != ZONE_INVALID implies #[trigger] zone_ids@[i] == z0[i] by {
                }
                assert forall|d: int| 0 <= d < dir + 1 implies #[trigger] dir_done(*rule, w, h, zone_ids@, cx, cy, d) by {
                    let bx = cx as int + spec_neighbor(d).0;
                    let by = cy as int + spec_neighbor(d).1;
                    if 0 <= bx < w && 0 <= by < h {
                        lemma_index_in_bounds(bx, by, w, h);
                        if d < dir {
                            assert(dir_done(*rule, w, h, z0, cx, cy, d));
                        }
                    }
                }
            }
            dir = dir + 1;
        }
        proof {
            assert forall|ax: u16, ay: u16, bx: u16, by: u16|
                #[trigger] flood_allowed(*rule, w, h, ax, ay, bx, by) && label_at(zone_ids@, w, ax, ay) == id
                    && !stack@.contains((ax, ay)) implies label_at(zone_ids@, w, bx, by) != ZONE_INVALID by {
                if (ax, ay) == (cx, cy) {
                    let d = lemma_dir_of(cx as int, cy as int, bx as int, by as int);
                    assert(dir_done(*rule, w, h, zone_ids@, cx, cy, d));
                    assert(bx as int == cx as int + spec_neighbor(d).0);
                }
            }
            assert(2 * zeros_before(zone_ids@, n) + stack@.len() < 2 * zeros_before(before, n) + stack_before.len());
            lemma_zeros_bounds(zone_ids@, n);
            assert(0 <= 2 * zeros_before(zone_ids@, n) + stack@.len());
        }
    }
    proof {
        if keyed0 {
            assert forall|x1: u16, y1: u16, x2: u16, y2: u16|
                x1 < w && y1 < h && x2 < w && y2 < h && #[trigger] label_at(zone_ids@, w, x1, y1) != ZONE_INVALID
                    && label_at(zone_ids@, w, x1, y1) == #[trigger] label_at(zone_ids@, w, x2, y2) implies rule_key(
                *rule,
                w,
                x1,
                y1,
            ) == rule_key(*rule, w, x2, y2) by {
                lemma_index_in_bounds(x1 as int, y1 as int, w, h);
                lemma_index_in_bounds(x2 as int, y2 as int, w, h);
                if label_at(zone_ids@, w, x1, y1) != id {
                    assert(label_at(orig, w, x1, y1) == label_at(zone_ids@, w, x1, y1));
                    assert(label_at(orig, w, x2, y2) == label_at(zone_ids@, w, x2, y2));
                }
            }
        }
        if closed0 {
            assert forall|cx: u16, cy: u16, nx: u16, ny: u16|
                #[trigger] flood_allowed(*rule, w, h, cx, cy, nx, ny) && label_at(zone_ids@, w, cx, cy)
                    != ZONE_INVALID implies label_at(zone_ids@, w, nx, ny) == label_at(zone_ids@, w, cx, cy) by {
                if label_at(zone_ids@, w, cx, cy) == id {
                    lemma_flood_allowed_symmetric(*rule, w, h, cx, cy, nx, ny);
                    assert(flood_allowed(*rule, w, h, nx, ny, cx, cy));
                    assert(label_at(zone_ids@, w, nx, ny) != ZONE_INVALID);
                }
            }
        }
    }
}

/// Every member cell carries a label.
pub open spec fn members_labeled(z: Seq<ZoneId>, rule: FloodRule, w: int, h: int) -> bool {
    forall|x: u16, y: u16| x < w && y < h && #[trigger] rule_member(rule, w, x, y) ==> label_at(z, w, x, y) != ZONE_INVALID
}

/// Step `k` of `p` is a link of the rule.
pub open spec fn chain_step(rule: FloodRule, w: int, h: int, p: Seq<(u16, u16)>, k: int) -> bool {
    flood_allowed(rule, w, h, p[k].0, p[k].1, p[k + 1].0, p[k + 1].1)
}

/// Cells `a` and `b` are joined by a chain of links of the rule.
pub open spec fn linked(rule: FloodRule, w: int, h: int, a: (u16, u16), b: (u16, u16)) -> bool {
    exists|p: Seq<(u16, u16)>|
        p.len() >= 1 && p[0] == a && p[p.len() - 1] == b && forall|k: int| 0 <= k < p.len() - 1 ==> #[trigger] chain_step(rule, w, h, p, k)
}

/// Cell `i` (row-major) opens a zone in a row-major scan: it is a member,
/// and no cell before it is linked to it.
pub open spec fn opens_zone(rule: FloodRule, w: int, h: int, i: int) -> bool {
    &&& rule_member(rule, w, (i % w) as u16, (i / w) as u16)
    &&& forall|j: int| 0 <= j < i ==> !#[trigger] linked(rule, w, h, ((j % w) as u16, (j / w) as u16), ((i % w) as u16, (i / w) as u16))
}

/// Number of zones opened among the first `k` cells of a row-major scan:
/// over the whole grid, the number of linked groups of members.
pub open spec fn zones_opened(rule: FloodRule, w: int, h: int, k: int) -> int
    decreases k,
{
    if k <= 0 {
        0
    } else {
        zones_opened(rule, w, h, k - 1) + if opens_zone(rule, w, h, k - 1) {
            1int
        } else {
            0int
        }
    }
}

/// More cells open no fewer zones, and never more zones than cells.
pub proof fn lemma_zones_opened_monotone(rule: FloodRule, w: int, h: int, j: int, k: int)
    requires
        0 <= j <= k,
    ensures
        0 <= zones_opened(rule, w, h, j) <= zones_opened(rule, w, h, k),
        zones_opened(rule, w, h, k) - zones_opened(rule, w, h, j) <= k - j,
    decreases k,
{
    if k > j {
        lemma_zones_opened_monotone(rule, w, h, j, k - 1);
    } else if k > 0 {
        lemma_zones_opened_monotone(rule, w, h, 0, k - 1);
    }
}

/// Under closed labels, every cell of a chain from a labeled cell carries
/// that cell's label.
proof fn lemma_chain_labeled(z: Seq<ZoneId>, rule: FloodRule, w: int, h: int, p: Seq<(u16, u16)>, k: int)
    requires
        labels_closed(z, rule, w, h),
        0 <= k < p.len(),
        label_at(z, w, p[0].0, p[0].1) != ZONE_INVALID,
        forall|j: int| 0 <= j < p.len() - 1 ==> #[trigger] chain_step(rule, w, h, p, j),
    ensures
        label_at(z, w, p[k].0, p[k].1) == label_at(z, w, p[0].0, p[0].1),
    decreases k,
{
    if k > 0 {
        lemma_chain_labeled(z, rule, w, h, p, k - 1);
        assert(chain_step(rule, w, h, p, k - 1));
        assert(flood_allowed(rule, w, h, p[k - 1].0, p[k - 1].1, p[k].0, p[k].1));
    }
}

/// An unlabeled member whose every earlier member is labeled opens a zone,
/// when the labels are closed under the links.
proof fn lemma_seed_opens_zone(z: Seq<ZoneId>, rule: FloodRule, w: int, h: int, x: u16, y: u16)
    requires
        labels_closed(z, rule, w, h),
        z.len() == w * h,
        w <= 0xffff,
        h <= 0xffff,
        x < w,
        y < h,
        rule_member(rule, w, x, y),
        label_at(z, w, x, y) == ZONE_INVALID,
        forall|a: u16, b: u16|
            ((a < w && b < y) || (a < x && b == y)) && #[trigger] rule_member(rule, w, a, b) ==> label_at(z, w, a, b)
                != ZONE_INVALID,
    ensures
        opens_zone(rule, w, h, cell_index(x as int, y as int, w)),
{
    let i = cell_index(x as int, y as int, w);
    lemma_index_coords(x as int, y as int, w);
    assert forall|j: int| 0 <= j < i implies !#[trigger] linked(rule, w, h, ((j % w) as u16, (j / w) as u16), ((i % w) as u16, (i / w) as u16)) by {
        let a = ((j % w) as u16, (j / w) as u16);
        if linked(rule, w, h, a, (x, y)) {
            let p = choose|p: Seq<(u16, u16)>|
                p.len() >= 1 && p[0] == a && p[p.len() - 1] == (x, y) && forall|k: int| 0 <= k < p.len() - 1 ==> #[trigger] chain_step(rule, w, h, p, k);
            lemma_index_in_bounds(x as int, y as int, w, h);
            lemma_index_decompose(j, w, h);
            if p.len() == 1 {
                assert(a == (x, y));
                assert(j % w == x as int);
                assert(j / w == y as int);
                assert(j == i);
            } else {
                assert(chain_step(rule, w, h, p, 0));
                assert(rule_member(rule, w, a.0, a.1));
                assert((j / w) < y || ((j / w) == y && (j % w) < x)) by (nonlinear_arith)
                    requires
                        (j / w) * w + j % w == j,
                        0 <= j % w < w,
                        j < y * w + x,
                        0 <= j,
                        x < w,
                ;
                assert(label_at(z, w, a.0, a.1) != ZONE_INVALID);
                lemma_chain_labeled(z, rule, w, h, p, p.len() - 1);
            }
        }
    }
}

/// Scan the grid row by row and flood every unlabeled member cell with the
/// next label, starting at `next`. Returns the label after the last one used.
pub(crate) fn fill_all(rule: &FloodRule, zone_ids: &mut Vec<ZoneId>, width: u16, height: u16, next: ZoneId) -> (r: ZoneId)
    requires
        old(zone_ids)@.len() == width as int * height as int,
        next != ZONE_INVALID,
        next as int + unlabeled_members(old(zone_ids)@, *rule, width as int, width as int * height as int) <= u16::MAX || (
        labels_closed(old(zone_ids)@, *rule, width as int, height as int) && next as int + zones_opened(
            *rule,
            width as int,
            height as int,
            width as int * height as int,
        ) <= u16::MAX),
        labels_below(old(zone_ids)@, next as int),
    ensures
        final(zone_ids)@.len() == old(zone_ids)@.len(),
        next <= r <= next as int + width as int * height as int,
        r <= next as int + unlabeled_members(old(zone_ids)@, *rule, width as int, width as int * height as int),
        labels_closed(old(zone_ids)@, *rule, width as int, height as int) ==> r <= next as int + zones_opened(
            *rule,
            width as int,
            height as int,
            width as int * height as int,
        ),
        forall|i: int|
            0 <= i < old(zone_ids)@.len() ==> #[trigger] final(zone_ids)@[i] == old(zone_ids)@[i] || (old(zone_ids)@[i]
                == ZONE_INVALID && next <= final(zone_ids)@[i] < r),
        labels_below(final(zone_ids)@, r as int),
        labels_members(old(zone_ids)@, *rule, width as int) ==> labels_members(final(zone_ids)@, *rule, width as int),
        labels_closed(old(zone_ids)@, *rule, width as int, height as int) ==> labels_closed(
            final(zone_ids)@,
            *rule,
            width as int,
            height as int,
        ),
        members_labeled(final(zone_ids)@, *rule, width as int, height as int),
        labels_keyed(old(zone_ids)@, *rule, width as int, height as int) ==> labels_keyed(
            final(zone_ids)@,
            *rule,
            width as int,
            height as int,
        ),
        r > next ==> exists|i: int| 0 <= i < old(zone_ids)@.len() && old(zone_ids)@[i] == ZONE_INVALID && #[trigger] final(zone_ids)@[i] != ZONE_INVALID,
{
    let ghost w = width as int;
    let ghost h = height as int;
    let ghost orig = zone_ids@;
    let ghost mem0 = labels_members(zone_ids@, *rule, w);
    let ghost closed0 = labels_closed(zone_ids@, *rule, w, h);
    let ghost keyed0 = labels_keyed(zone_ids@, *rule, w, h);
    let ghost um0 = unlabeled_members(zone_ids@, *rule, w, w * h);
    let ghost zo = zones_opened(*rule, w, h, w * h);
    let total = zone_ids.len();
    let mut next_zone = next;
    proof {
        lemma_unlabeled_members_bounds(zone_ids@, *rule, w, w * h, 0);
    }
    let mut ry: u16 = 0;
    while ry < height
        invariant
            w == width as int,
            h == height as int,
            total == w * h,
            zone_ids@.len() == total,
            next <= next_zone,
            next_zone as int <= next as int + ry as int * w,
            um0 == unlabeled_members(orig, *rule, w, w * h),
            zo == zones_opened(*rule, w, h, w * h),
            next as int + um0 <= u16::MAX || (closed0 && next as int + zo <= u16::MAX),
            next_zone as int + unlabeled_members(zone_ids@, *rule, w, w * h) <= next as int + um0,
            closed0 ==> next_zone as int - next as int <= zones_opened(*rule, w, h, ry as int * w),
            ry <= height,
            forall|i: int|
                0 <= i < total ==> #[trigger] zone_ids@[i] == orig[i] || (orig[i] == ZONE_INVALID && next <= zone_ids@[i]
                    < next_zone),
            labels_below(zone_ids@, next_zone as int),
            mem0 ==> labels_members(zone_ids@, *rule, w),
            closed0 ==> labels_closed(zone_ids@, *rule, w, h),
            keyed0 ==> labels_keyed(zone_ids@, *rule, w, h),
            next_zone > next ==> exists|i: int| 0 <= i < total && orig[i] == ZONE_INVALID && #[trigger] zone_ids@[i] != ZONE_INVALID,
            forall|x: u16, y: u16|
                x < w && y < ry && #[trigger] rule_member(*rule, w, x, y) ==> label_at(zone_ids@, w, x, y) != ZONE_INVALID,
        decreases height - ry,
    {
        let mut rx: u16 = 0;
        proof {
            assert(ry as int * w + w <= w * h) by (nonlinear_arith)
                requires
                    ry < h,
                    0 <= w,
            ;
        }
        while rx < width
            invariant
                w == width as int,
                h == height as int,
                total == w * h,
                zone_ids@.len() == total,
                next <= next_zone,
                next_zone as int <= next as int + ry as int * w + rx as int,
                ry as int * w + w <= w * h,
                um0 == unlabeled_members(orig, *rule, w, w * h),
                zo == zones_opened(*rule, w, h, w * h),
                next as int + um0 <= u16::MAX || (closed0 && next as int + zo <= u16::MAX),
                next_zone as int + unlabeled_members(zone_ids@, *rule, w, w * h) <= next as int + um0,
                closed0 ==> next_zone as int - next as int <= zones_opened(*rule, w, h, ry as int * w + rx as int),
                ry < height,
                rx <= width,
                forall|i: int|
                    0 <= i < total ==> #[trigger] zone_ids@[i] == orig[i] || (orig[i] == ZONE_INVALID && next
                        <= zone_ids@[i] < next_zone),
                labels_below(zone_ids@, next_zone as int),
                mem0 ==> labels_members(zone_ids@, *rule, w),
                closed0 ==> labels_closed(zone_ids@, *rule, w, h),
                keyed0 ==> labels_keyed(zone_ids@, *rule, w, h),
                next_zone > next ==> exists|i: int| 0 <= i < total && orig[i] == ZONE_INVALID && #[trigger] zone_ids@[i] != ZONE_INVALID,
                forall|x: u16, y: u16|
                    ((x < w && y < ry) || (x < rx && y == ry)) && #[trigger] rule_member(*rule, w, x, y) ==> label_at(
                        zone_ids@,
                        w,
                        x,
                        y,
                    ) != ZONE_INVALID,
            decreases width - rx,
        {
            proof {
                lemma_index_in_bounds(rx as int, ry as int, w, h);
            }
            let idx = ry as usize * width as usize + rx as usize;
            if zone_ids[idx] == ZONE_INVALID && rule_member_exec(rule, width, rx, ry) {
                let ghost before = zone_ids@;
                proof {
                    lemma_index_coords(rx as int, ry as int, w);
                    lemma_unlabeled_members_bounds(zone_ids@, *rule, w, w * h, idx as int);
                    if closed0 {
                        lemma_seed_opens_zone(zone_ids@, *rule, w, h, rx, ry);
                        lemma_zones_opened_monotone(*rule, w, h, idx as int + 1, w * h);
                    }
                }
                flood_fill(rule, rx, ry, next_zone, zone_ids, width, height);
                proof {
                    lemma_index_coords(rx as int, ry as int, w);
                    lemma_unlabeled_members_shrink(before, zone_ids@, *rule, w, w * h, idx as int);
                    assert(zone_ids@[idx as int] != ZONE_INVALID);
                    assert(orig[idx as int] == ZONE_INVALID) by {
                        assert(before[idx as int] == ZONE_INVALID);
                    }
                    assert forall|x: u16, y: u16|
                        ((x < w && y < ry) || (x < rx + 1 && y == ry)) && #[trigger] rule_member(*rule, w, x, y)
                            implies label_at(zone_ids@, w, x, y) != ZONE_INVALID by {
                        lemma_index_in_bounds(x as int, y as int, w, h);
                        if !(x == rx && y == ry) {
                            assert(label_at(before, w, x, y) != ZONE_INVALID);
                            assert(zone_ids@[cell_index(x as int, y as int, w)] == before[cell_index(x as int, y as int, w)]);
                        }
                    }
                    assert forall|i: int|
                        0 <= i < total implies #[trigger] zone_ids@[i] == orig[i] || (orig[i] == ZONE_INVALID && next
                            <= zone_ids@[i] < next_zone + 1) by {
                        assert(before[i] == orig[i] || (orig[i] == ZONE_INVALID && next <= before[i] < next_zone));
                        assert(zone_ids@[i] == before[i] || (before[i] == ZONE_INVALID && zone_ids@[i] == next_zone));
                    }
                }
                next_zone = next_zone + 1;
            } else {
                proof {
                    lemma_zones_opened_monotone(*rule, w, h, idx as int, idx as int + 1);
                    assert forall|x: u16, y: u16|
                        ((x < w && y < ry) || (x < rx + 1 && y == ry)) && #[trigger] rule_member(*rule, w, x, y)
                            implies label_at(zone_ids@, w, x, y) != ZONE_INVALID by {
                        if x == rx && y == ry {
                            lemma_index_in_bounds(x as int, y as int, w, h);
                        }
                    }
                }
            }
            rx = rx + 1;
        }
        proof {
            assert((ry as int + 1) * w == ry as int * w + w) by (nonlinear_arith);
        }
        ry = ry + 1;
    }
    proof {
        assert(ry as int * w == w * h) by (nonlinear_arith)
            requires
                ry as int == h,
        ;
        lemma_unlabeled_members_bounds(zone_ids@, *rule, w, w * h, 0);
    }
    next_zone
}

/// A strictly increasing list (sorted, no duplicates).
pub open spec fn strictly_sorted(s: Seq<ZoneId>) -> bool {
    forall|i: int, j: int| 0 <= i < j < s.len() ==> s[i] < s[j]
}

/// Insert `v` into a strictly increasing list, keeping it so.
#[verifier::spinoff_prover]
fn insert_sorted(list: &mut Vec<ZoneId>, v: ZoneId)
    requires
        strictly_sorted(old(list)@),
    ensures
        strictly_sorted(final(list)@),
        forall|x: ZoneId| final(list)@.contains(x) <==> (old(list)@.contains(x) || x == v),
{
    let mut i: usize = 0;
    while i < list.len() && list[i] < v
        invariant
            i <= list@.len(),
            list@ == old(list)@,
            strictly_sorted(list@),
            forall|k: int| 0 <= k < i ==> #[trigger] list@[k] < v,
        decreases list@.len() - i,
    {
        i = i + 1;
    }
    if i < list.len() && list[i] == v {
        proof {
            assert(list@[i as int] == v);
        }
        return;
    }
    let ghost before = list@;
    list.insert(i, v);
    proof {
        assert(before == old(list)@);
        assert(list@ == before.insert(i as int, v));
        assert forall|x: ZoneId| #[trigger] list@.contains(x) <==> (before.contains(x) || x == v) by {
            if list@.contains(x) {
                let k = choose|k: int| 0 <= k < list@.len() && list@[k] == x;
                if k < i {
                    assert(before[k] == x);
                } else if k > i {
                    assert(before[k - 1] == x);
                }
            }
            if before.contains(x) {
                let k = choose|k: int| 0 <= k < before.len() && before[k] == x;
                if k < i {
                    assert(list@[k] == x);
                } else {
                    assert(list@[k + 1] == x);
                }
            }
            if x == v {
                assert(list@[i as int] == v);
            }
        }
    }
}

/// Adjacency lists indexed by zone (index 0 unused): each strictly
/// increasing, holding zones 1 to `count`, and symmetric.
pub open spec fn adjacency_ok(adj: Seq<Vec<ZoneId>>, count: int) -> bool {
    &&& adj.len() == count + 1
    &&& adj.len() <= 65536
    &&& forall|a: int| 0 <= a < adj.len() ==> strictly_sorted(#[trigger] adj[a]@)
    &&& forall|a: int, k: int| 0 <= a < adj.len() && 0 <= k < adj[a]@.len() ==> 1 <= #[trigger] adj[a]@[k] <= count
    &&& forall|a: ZoneId, b: ZoneId| a < adj.len() && b < adj.len() ==> (#[trigger] adj_has(adj, a, b) <==> adj_has(adj, b, a))
}

/// Whether zone `b` is listed next to zone `a`.
pub open spec fn adj_has(adj: Seq<Vec<ZoneId>>, a: ZoneId, b: ZoneId) -> bool {
    0 <= a < adj.len() && adj[a as int]@.contains(b)
}

/// Record that zones `a` and `b` border each other.
pub fn add_adjacency(adj: &mut Vec<Vec<ZoneId>>, a: ZoneId, b: ZoneId)
    requires
        adjacency_ok(old(adj)@, old(adj)@.len() - 1),
        1 <= a < old(adj)@.len(),
        1 <= b < old(adj)@.len(),
        a != b,
    ensures
        adjacency_ok(final(adj)@, old(adj)@.len() - 1),
        forall|x: ZoneId, y: ZoneId| #[trigger] adj_has(final(adj)@, x, y) <==> (adj_has(old(adj)@, x, y) || (x == a && y == b) || (x == b && y == a)),
{
    let ghost count = adj@.len() - 1;
    let ghost before = adj@;
    insert_sorted(&mut adj[a as usize], b);
    let ghost mid = adj@;
    insert_sorted(&mut adj[b as usize], a);
    proof {
        assert forall|x: ZoneId, y: ZoneId| #[trigger] adj_has(adj@, x, y) <==> (adj_has(before, x, y) || (x == a && y == b) || (x == b && y == a)) by {
            if 0 <= x < adj@.len() {
                if x != a && x != b {
                    assert(adj@[x as int] == before[x as int]);
                }
            }
        }
        assert forall|p: int, k: int| 0 <= p < adj@.len() && 0 <= k < adj@[p]@.len() implies 1 <= #[trigger] adj@[p]@[k] <= count by {
            let v = adj@[p]@[k];
            assert(adj@[p]@.contains(v));
            assert(adj_has(adj@, p as ZoneId, v));
            if adj_has(before, p as ZoneId, v) {
                let j = choose|j: int| 0 <= j < before[p]@.len() && before[p]@[j] == v;
                assert(1 <= before[p]@[j] <= count);
            }
        }
        assert forall|p: int| 0 <= p < adj@.len() implies strictly_sorted(#[trigger] adj@[p]@) by {
            if p != a && p != b {
                assert(adj@[p] == before[p]);
            }
        }
        assert forall|p: ZoneId, q: ZoneId| p < adj@.len() && q < adj@.len() implies (#[trigger] adj_has(adj@, p, q) <==> adj_has(adj@, q, p)) by {
            assert(adj_has(before, p, q) <==> adj_has(before, q, p));
        }
    }
}

/// Whether neighboring cells `(x, y)` and `(nx, ny)` carry different zones.
pub open spec fn borders(z: Seq<ZoneId>, w: int, h: int, x: u16, y: u16, nx: u16, ny: u16) -> bool {
    &&& x < w
    &&& y < h
    &&& nx < w
    &&& ny < h
    &&& chebyshev(x as int, y as int, nx as int, ny as int) == 1
    &&& label_at(z, w, x, y) != ZONE_INVALID
    &&& label_at(z, w, nx, ny) != ZONE_INVALID
    &&& label_at(z, w, x, y) != label_at(z, w, nx, ny)
}

/// Every pair of bordering zones of a layer is listed as adjacent.
pub open spec fn borders_listed(adj: Seq<Vec<ZoneId>>, z: Seq<ZoneId>, w: int, h: int) -> bool {
    forall|x: u16, y: u16, nx: u16, ny: u16|
        #[trigger] borders(z, w, h, x, y, nx, ny) ==> adj_has(adj, label_at(z, w, x, y), label_at(z, w, nx, ny))
}

/// Offsets scanned forward from each cell: east, south, south-east, north-east.
pub open spec fn fwd(d: int) -> (int, int) {
    if d == 0 {
        (1, 0)
    } else if d == 1 {
        (0, 1)
    } else if d == 2 {
        (1, 1)
    } else {
        (1, -1)
    }
}

/// The border of `(x, y)` with its forward neighbor `d` is listed.
pub open spec fn fwd_done(adj: Seq<Vec<ZoneId>>, z: Seq<ZoneId>, w: int, h: int, x: u16, y: u16, d: int) -> bool {
    let nx = x as int + fwd(d).0;
    let ny = y as int + fwd(d).1;
    0 <= nx < w && 0 <= ny < h && borders(z, w, h, x, y, nx as u16, ny as u16) ==> adj_has(
        adj,
        label_at(z, w, x, y),
        label_at(z, w, nx as u16, ny as u16),
    )
}

/// All zones of a layer lie in `1..=count` where present.
pub open spec fn zones_within(z: Seq<ZoneId>, count: int) -> bool {
    forall|i: int| 0 <= i < z.len() ==> #[trigger] z[i] <= count
}

/// List the border of `(x, y)` with its forward neighbor `d`.
fn link_forward(adj: &mut Vec<Vec<ZoneId>>, z: &[ZoneId], width: u16, height: u16, x: u16, y: u16, d: usize, Ghost(count): Ghost<int>)
    requires
        adjacency_ok(old(adj)@, count),
        z@.len() == width as int * height as int,
        zones_within(z@, count),
        x < width,
        y < height,
        d < 4,
    ensures
        adjacency_ok(final(adj)@, count),
        forall|a: ZoneId, b: ZoneId| adj_has(old(adj)@, a, b) ==> #[trigger] adj_has(final(adj)@, a, b),
        fwd_done(final(adj)@, z@, width as int, height as int, x, y, d as int),
{
    let ghost w = width as int;
    let ghost h = height as int;
    let (dx, dy): (i32, i32) = if d == 0 {
        (1, 0)
    } else if d == 1 {
        (0, 1)
    } else if d == 2 {
        (1, 1)
    } else {
        (1, -1)
    };
    let nx_i = x as i32 + dx;
    let ny_i = y as i32 + dy;
    if nx_i < 0 || ny_i < 0 || nx_i >= width as i32 || ny_i >= height as i32 {
        return;
    }
    let nx = nx_i as u16;
    let ny = ny_i as u16;
    let zl = z.len();
    proof {
        lemma_index_in_bounds(x as int, y as int, w, h);
        lemma_index_in_bounds(nx as int, ny as int, w, h);
    }
    let a = z[y as usize * width as usize + x as usize];
    let b = z[ny as usize * width as usize + nx as usize];
    if a != ZONE_INVALID && b != ZONE_INVALID && a != b {
        add_adjacency(adj, a, b);
    }
}

/// List every border between zones of one layer.
fn link_layer(adj: &mut Vec<Vec<ZoneId>>, z: &[ZoneId], width: u16, height: u16, Ghost(count): Ghost<int>)
    requires
        adjacency_ok(old(adj)@, count),
        z@.len() == width as int * height as int,
        zones_within(z@, count),
    ensures
        adjacency_ok(final(adj)@, count),
        forall|a: ZoneId, b: ZoneId| adj_has(old(adj)@, a, b) ==> #[trigger] adj_has(final(adj)@, a, b),
        borders_listed(final(adj)@, z@, width as int, height as int),
{
    let ghost w = width as int;
    let ghost h = height as int;
    let ghost orig = adj@;
    let mut ry: u16 = 0;
    while ry < height
        invariant
            w == width as int,
            h == height as int,
            z@.len() == w * h,
            zones_within(z@, count),
            adjacency_ok(adj@, count),
            ry <= height,
            forall|a: ZoneId, b: ZoneId| adj_has(orig, a, b) ==> #[trigger] adj_has(adj@, a, b),
            forall|x: u16, y: u16, d: int| x < w && y < ry && 0 <= d < 4 ==> #[trigger] fwd_done(adj@, z@, w, h, x, y, d),
        decreases height - ry,
    {
        let mut rx: u16 = 0;
        while rx < width
            invariant
                w == width as int,
                h == height as int,
                z@.len() == w * h,
                zones_within(z@, count),
                adjacency_ok(adj@, count),
                ry < height,
                rx <= width,
                forall|a: ZoneId, b: ZoneId| adj_has(orig, a, b) ==> #[trigger] adj_has(adj@, a, b),
                forall|x: u16, y: u16, d: int|
                    ((x < w && y < ry) || (x < rx && y == ry)) && 0 <= d < 4 ==> #[trigger] fwd_done(adj@, z@, w, h, x, y, d),
            decreases width - rx,
        {
            let mut d: usize = 0;
            while d < 4
                invariant
                    w == width as int,
                    h == height as int,
                    z@.len() == w * h,
                    zones_within(z@, count),
                    adjacency_ok(adj@, count),
                    ry < height,
                    rx < width,
                    d <= 4,
                    forall|a: ZoneId, b: ZoneId| adj_has(orig, a, b) ==> #[trigger] adj_has(adj@, a, b),
                    forall|x: u16, y: u16, e: int|
                        (((x < w && y < ry) || (x < rx && y == ry)) && 0 <= e < 4) || (x == rx && y == ry && 0 <= e < d)
                            ==> #[trigger] fwd_done(adj@, z@, w, h, x, y, e),
                decreases 4 - d,
            {
                let ghost before = adj@;
                link_forward(adj, z, width, height, rx, ry, d, Ghost(count));
                proof {
                    assert forall|x: u16, y: u16, e: int|
                        (((x < w && y < ry) || (x < rx && y == ry)) && 0 <= e < 4) || (x == rx && y == ry && 0 <= e < d + 1)
                            implies #[trigger] fwd_done(adj@, z@, w, h, x, y, e) by {
                        if !(x == rx && y == ry && e == d) {
                            assert(fwd_done(before, z@, w, h, x, y, e));
                        }
                    }
                }
                d = d + 1;
            }
            rx = rx + 1;
        }
        ry = ry + 1;
    }
    proof {
        assert forall|x: u16, y: u16, nx: u16, ny: u16|
            #[trigger] borders(z@, w, h, x, y, nx, ny) implies adj_has(adj@, label_at(z@, w, x, y), label_at(z@, w, nx, ny)) by {
            let dx = nx as int - x as int;
            let dy = ny as int - y as int;
            if (dx == 1 && dy == 0) || (dx == 0 && dy == 1) || (dx == 1 && dy == 1) || (dx == 1 && dy == -1) {
                let d = if dx == 1 && dy == 0 {
                    0int
                } else if dx == 0 && dy == 1 {
                    1int
                } else if dx == 1 && dy == 1 {
                    2int
                } else {
                    3int
                };
                assert(fwd_done(adj@, z@, w, h, x, y, d));
            } else {
                let d = if dx == -1 && dy == 0 {
                    0int
                } else if dx == 0 && dy == -1 {
                    1int
                } else if dx == -1 && dy == -1 {
                    2int
                } else {
                    3int
                };
                assert(borders(z@, w, h, nx, ny, x, y));
                assert(fwd_done(adj@, z@, w, h, nx, ny, d));
                let la = label_at(z@, w, x, y);
                let lb = label_at(z@, w, nx, ny);
                lemma_index_in_bounds(x as int, y as int, w, h);
                lemma_index_in_bounds(nx as int, ny as int, w, h);
                assert(la <= count && lb <= count);
                assert(adj_has(adj@, lb, la));
            }
        }
    }
}

/// Every transition cell whose bridge and ground zones differ links them.
pub open spec fn transitions_listed(adj: Seq<Vec<ZoneId>>, g: Seq<ZoneId>, b: Seq<ZoneId>, grid: PathGrid, w: int, h: int) -> bool {
    forall|x: u16, y: u16|
        x < w && y < h && #[trigger] grid.spec_cell(x, y) is Some && grid.spec_cell(x, y)->0.transition
            && label_at(b, w, x, y) != ZONE_INVALID && label_at(g, w, x, y) != ZONE_INVALID && label_at(b, w, x, y)
            != label_at(g, w, x, y) ==> adj_has(adj, label_at(b, w, x, y), label_at(g, w, x, y))
}

/// Optional slice as an optional sequence.
pub open spec fn opt_ids(s: Option<&[ZoneId]>) -> Option<Seq<ZoneId>> {
    match s {
        Some(v) => Some(v@),
        None => None,
    }
}

/// Build the zone adjacency graph: zones of neighboring cells on the ground
/// layer, on the bridge layer, and the bridge and ground zones of each
/// transition cell border each other.
pub fn extract_adjacency(
    ground_zones: &[ZoneId],
    bridge_zones: Option<&[ZoneId]>,
    path_grid: &PathGrid,
    width: u16,
    height: u16,
    zone_count: u16,
) -> (r: ZoneAdjacency)
    requires
        ground_zones@.len() == width as int * height as int,
        zones_within(ground_zones@, zone_count as int),
        bridge_zones matches Some(b) ==> b@.len() == width as int * height as int && zones_within(b@, zone_count as int),
    ensures
        adjacency_ok(r.neighbors@, zone_count as int),
        borders_listed(r.neighbors@, ground_zones@, width as int, height as int),
        bridge_zones matches Some(b) ==> borders_listed(r.neighbors@, b@, width as int, height as int)
            && transitions_listed(r.neighbors@, ground_zones@, b@, *path_grid, width as int, height as int),
{
    let ghost w = width as int;
    let ghost h = height as int;
    let ghost count = zone_count as int;
    let mut adj: Vec<Vec<ZoneId>> = Vec::new();
    let mut k: usize = 0;
    while k <= zone_count as usize
        invariant
            k <= zone_count as int + 1,
            adj@.len() == k,
            forall|a: int| 0 <= a < k ==> (#[trigger] adj@[a])@.len() == 0,
        decreases zone_count as int + 1 - k,
    {
        adj.push(Vec::new());
        k = k + 1;
    }
    proof {
        assert forall|a: ZoneId, b: ZoneId| a < adj@.len() && b < adj@.len() implies (#[trigger] adj_has(adj@, a, b) <==> adj_has(adj@, b, a)) by {
            assert(adj@[a as int]@.len() == 0);
            assert(adj@[b as int]@.len() == 0);
        }
    }
    link_layer(&mut adj, ground_zones, width, height, Ghost(count));
    let ghost after_ground = adj@;
    if let Some(bz) = bridge_zones {
        link_layer(&mut adj, bz, width, height, Ghost(count));
        let ghost after_bridge = adj@;
        let mut ry: u16 = 0;
        while ry < height
            invariant
                w == width as int,
                h == height as int,
                ground_zones@.len() == w * h,
                bz@.len() == w * h,
                zones_within(ground_zones@, count),
                zones_within(bz@, count),
                adjacency_ok(adj@, count),
                ry <= height,
                forall|a: ZoneId, b: ZoneId| adj_has(after_bridge, a, b) ==> #[trigger] adj_has(adj@, a, b),
                forall|x: u16, y: u16|
                    x < w && y < ry && #[trigger] path_grid.spec_cell(x, y) is Some && path_grid.spec_cell(x, y)->0.transition
                        && label_at(bz@, w, x, y) != ZONE_INVALID && label_at(ground_zones@, w, x, y) != ZONE_INVALID
                        && label_at(bz@, w, x, y) != label_at(ground_zones@, w, x, y) ==> adj_has(
                        adj@,
                        label_at(bz@, w, x, y),
                        label_at(ground_zones@, w, x, y),
                    ),
            decreases height - ry,
        {
            let mut rx: u16 = 0;
            while rx < width
                invariant
                    w == width as int,
                    h == height as int,
                    ground_zones@.len() == w * h,
                    bz@.len() == w * h,
                    zones_within(ground_zones@, count),
                    zones_within(bz@, count),
                    adjacency_ok(adj@, count),
                    ry < height,
                    rx <= width,
                    forall|a: ZoneId, b: ZoneId| adj_has(after_bridge, a, b) ==> #[trigger] adj_has(adj@, a, b),
                    forall|x: u16, y: u16|
                        ((x < w && y < ry) || (x < rx && y == ry)) && #[trigger] path_grid.spec_cell(x, y) is Some
                            && path_grid.spec_cell(x, y)->0.transition && label_at(bz@, w, x, y) != ZONE_INVALID
                            && label_at(ground_zones@, w, x, y) != ZONE_INVALID && label_at(bz@, w, x, y) != label_at(
                            ground_zones@,
                            w,
                            x,
                            y,
                        ) ==> adj_has(adj@, label_at(bz@, w, x, y), label_at(ground_zones@, w, x, y)),
                decreases width - rx,
            {
                let gl = ground_zones.len();
                let bl = bz.len();
                proof {
                    lemma_index_in_bounds(rx as int, ry as int, w, h);
                }
                let idx = ry as usize * width as usize + rx as usize;
                let zb = bz[idx];
                let zg = ground_zones[idx];
                if zb != ZONE_INVALID && path_grid.is_transition(rx, ry) && zg != ZONE_INVALID && zb != zg {
                    add_adjacency(&mut adj, zb, zg);
                }
                rx = rx + 1;
            }
            ry = ry + 1;
        }
        proof {
            assert(borders_listed(adj@, ground_zones@, w, h)) by {
                assert forall|x: u16, y: u16, nx: u16, ny: u16|
                    #[trigger] borders(ground_zones@, w, h, x, y, nx, ny) implies adj_has(
                    adj@,
                    label_at(ground_zones@, w, x, y),
                    label_at(ground_zones@, w, nx, ny),
                ) by {
                    assert(adj_has(after_ground, label_at(ground_zones@, w, x, y), label_at(ground_zones@, w, nx, ny)));
                }
            }
            assert(borders_listed(adj@, bz@, w, h)) by {
                assert forall|x: u16, y: u16, nx: u16, ny: u16|
                    #[trigger] borders(bz@, w, h, x, y, nx, ny) implies adj_has(
                    adj@,
                    label_at(bz@, w, x, y),
                    label_at(bz@, w, nx, ny),
                ) by {
                    assert(adj_has(after_bridge, label_at(bz@, w, x, y), label_at(bz@, w, nx, ny)));
                }
            }
        }
    }
    ZoneAdjacency::new(adj)
}

/// Number of the first `k` cells labeled `zid`.
pub open spec fn label_count(z: Seq<ZoneId>, zid: int, k: int) -> int
    decreases k,
{
    if k <= 0 {
        0
    } else {
        label_count(z, zid, k - 1) + if z[k - 1] == zid {
            1int
        } else {
            0int
        }
    }
}

/// Sum of the column (`col`) or row of the first `k` cells labeled `zid`.
pub open spec fn label_coord_sum(z: Seq<ZoneId>, w: int, zid: int, k: int, col: bool) -> int
    decreases k,
{
    if k <= 0 {
        0
    } else {
        label_coord_sum(z, w, zid, k - 1, col) + if z[k - 1] == zid {
            if col {
                (k - 1) % w
            } else {
                (k - 1) / w
            }
        } else {
            0int
        }
    }
}

proof fn lemma_label_sums_bounded(z: Seq<ZoneId>, w: int, zid: int, k: int)
    requires
        0 <= k <= z.len(),
        0 < w <= 65535,
        z.len() <= w * 65536,
    ensures
        0 <= label_count(z, zid, k) <= k,
        0 <= label_coord_sum(z, w, zid, k, true) <= k * 65535,
        0 <= label_coord_sum(z, w, zid, k, false) <= k * 65535,
    decreases k,
{
    if k > 0 {
        lemma_label_sums_bounded(z, w, zid, k - 1);
        let i = k - 1;
        assert(0 <= i % w < w) by (nonlinear_arith)
            requires
                0 < w,
                0 <= i,
        ;
        assert(0 <= i / w <= 65535) by (nonlinear_arith)
            requires
                0 < w,
                0 <= i < w * 65536,
        ;
    }
}

/// Total count and coordinate sums of the cells of zone `zid` over the
/// ground layer and, when present, the bridge layer.
pub open spec fn zone_totals(g: Seq<ZoneId>, b: Option<Seq<ZoneId>>, w: int, zid: int) -> (int, int, int) {
    let (bx, by, bc) = match b {
        Some(s) => (
            label_coord_sum(s, w, zid, s.len() as int, true),
            label_coord_sum(s, w, zid, s.len() as int, false),
            label_count(s, zid, s.len() as int),
        ),
        None => (0, 0, 0),
    };
    (
        label_coord_sum(g, w, zid, g.len() as int, true) + bx,
        label_coord_sum(g, w, zid, g.len() as int, false) + by,
        label_count(g, zid, g.len() as int) + bc,
    )
}

/// Record of zone `zid`: its cell count and the mean cell (each coordinate
/// capped at 65535); an empty zone gets an empty record.
pub open spec fn spec_zone_info(g: Seq<ZoneId>, b: Option<Seq<ZoneId>>, w: int, zid: int) -> ZoneInfo {
    let (sx, sy, c) = zone_totals(g, b, w, zid);
    if c == 0 {
        ZoneInfo { center: (0, 0), cell_count: 0 }
    } else {
        ZoneInfo {
            center: (
                (if sx / c > 65535 {
                    65535
                } else {
                    sx / c
                }) as u16,
                (if sy / c > 65535 {
                    65535
                } else {
                    sy / c
                }) as u16,
            ),
            cell_count: c as u32,
        }
    }
}

/// Add the cells of one layer to the per-zone sums.
#[verifier::spinoff_prover]
#[verifier::rlimit(30)]
fn accumulate_layer(sums: &mut Vec<(u64, u64, u32)>, z: &[ZoneId], width: u16, base: Ghost<Seq<ZoneId>>)
    requires
        0 < width,
        z@.len() <= width as int * 65535,
        z@.len() <= 0x7fff_ffff,
        zones_within(z@, old(sums)@.len() as int),
        old(sums)@.len() <= 65535,
        forall|j: int|
            0 <= j < old(sums)@.len() ==> #[trigger] old(sums)@[j].0 as int <= base@.len() * 65535
                && old(sums)@[j].1 as int <= base@.len() * 65535 && old(sums)@[j].2 as int <= base@.len(),
        base@.len() <= 0x7fff_ffff,
    ensures
        final(sums)@.len() == old(sums)@.len(),
        forall|j: int|
            0 <= j < old(sums)@.len() ==> #[trigger] final(sums)@[j].0 as int == old(sums)@[j].0 as int
                + label_coord_sum(z@, width as int, j + 1, z@.len() as int, true) && final(sums)@[j].1 as int
                == old(sums)@[j].1 as int + label_coord_sum(z@, width as int, j + 1, z@.len() as int, false)
                && final(sums)@[j].2 as int == old(sums)@[j].2 as int + label_count(z@, j + 1, z@.len() as int),
{
    let ghost w = width as int;
    let ghost orig = sums@;
    let n = z.len();
    let mut i: usize = 0;
    proof {
    }
    while i < n
        invariant
            0 < w,
            w == width as int,
            n == z@.len(),
            n <= w * 65535,
            n <= 0x7fff_ffff,
            i <= n,
            sums@.len() == orig.len(),
            orig.len() <= 65535,
            zones_within(z@, orig.len() as int),
            base@.len() <= 0x7fff_ffff,
            forall|j: int|
                0 <= j < orig.len() ==> #[trigger] orig[j].0 as int <= base@.len() * 65535 && orig[j].1 as int
                    <= base@.len() * 65535 && orig[j].2 as int <= base@.len(),
            forall|j: int|
                0 <= j < orig.len() ==> #[trigger] sums@[j].0 as int == orig[j].0 as int + label_coord_sum(
                    z@,
                    w,
                    j + 1,
                    i as int,
                    true,
                ) && sums@[j].1 as int == orig[j].1 as int + label_coord_sum(z@, w, j + 1, i as int, false)
                    && sums@[j].2 as int == orig[j].2 as int + label_count(z@, j + 1, i as int),
        decreases n - i,
    {
        let ghost prev = sums@;
        let zid = z[i];
        if zid != ZONE_INVALID {
            let j = (zid - 1) as usize;
            proof {
                lemma_label_sums_bounded(z@, w, j + 1, i as int);
                assert(i as int % w < w && i as int / w <= 65535) by (nonlinear_arith)
                    requires
                        0 < w,
                        0 <= i < w * 65535,
                ;
                assert(base@.len() * 65535 + i * 65535 + 65535 <= 0xffff_ffff_ffff_ffff) by (nonlinear_arith)
                    requires
                        base@.len() <= 0x7fff_ffff,
                        i < 0x7fff_ffff,
                ;
                assert(base@.len() + i + 1 <= 0xffff_ffff) by (nonlinear_arith)
                    requires
                        base@.len() <= 0x7fff_ffff,
                        i < 0x7fff_ffff,
                ;
            }
            let x = (i % width as usize) as u64;
            let y = (i / width as usize) as u64;
            let (sx, sy, c) = sums[j];
            sums.set(j, (sx + x, sy + y, c + 1));
            proof {
                assert(x as int == (i as int) % w);
                assert(y as int == (i as int) / w);
                assert(sums@[j as int].0 as int == prev[j as int].0 as int + (i as int) % w);
                assert(sums@[j as int].1 as int == prev[j as int].1 as int + (i as int) / w);
                assert(sums@[j as int].2 as int == prev[j as int].2 as int + 1);
            }
        }
        proof {
            assert forall|jj: int|
                0 <= jj < orig.len() implies #[trigger] sums@[jj].0 as int == orig[jj].0 as int + label_coord_sum(
                z@,
                w,
                jj + 1,
                i as int + 1,
                true,
            ) && sums@[jj].1 as int == orig[jj].1 as int + label_coord_sum(z@, w, jj + 1, i as int + 1, false)
                && sums@[jj].2 as int == orig[jj].2 as int + label_count(z@, jj + 1, i as int + 1) by {
            assert(label_coord_sum(z@, w, jj + 1, i as int + 1, true) == label_coord_sum(z@, w, jj + 1, i as int, true)
                + if z@[i as int] == jj + 1 { (i as int) % w } else { 0int });
            assert(label_coord_sum(z@, w, jj + 1, i as int + 1, false) == label_coord_sum(z@, w, jj + 1, i as int, false)
                + if z@[i as int] == jj + 1 { (i as int) / w } else { 0int });
            assert(label_count(z@, jj + 1, i as int + 1) == label_count(z@, jj + 1, i as int)
                + if z@[i as int] == jj + 1 { 1int } else { 0int });
            assert(prev[jj].0 as int == orig[jj].0 as int + label_coord_sum(z@, w, jj + 1, i as int, true));
            assert(prev[jj].1 as int == orig[jj].1 as int + label_coord_sum(z@, w, jj + 1, i as int, false));
            assert(prev[jj].2 as int == orig[jj].2 as int + label_count(z@, jj + 1, i as int));
            if zid != ZONE_INVALID && jj == zid - 1 {
            } else {
                assert(sums@[jj] == prev[jj]);
            }
        }
        }
        i = i + 1;
    }
    proof {
        assert forall|j: int| 0 <= j < orig.len() implies #[trigger] sums@[j].0 as int == orig[j].0 as int
            + label_coord_sum(z@, w, j + 1, z@.len() as int, true) && sums@[j].1 as int
            == orig[j].1 as int + label_coord_sum(z@, w, j + 1, z@.len() as int, false)
            && sums@[j].2 as int == orig[j].2 as int + label_count(z@, j + 1, z@.len() as int) by {
            assert(sums@[j].0 as int == orig[j].0 as int + label_coord_sum(z@, w, j + 1, i as int, true));
        }
    }
}

/// Per-zone records (zone `z` at index `z - 1`): cell count and mean cell
/// over the ground and bridge layers.
#[verifier::spinoff_prover]
pub fn compute_zone_info(
    zone_ids: &[ZoneId],
    bridge_zone_ids: Option<&[ZoneId]>,
    width: u16,
    height: u16,
    zone_count: u16,
) -> (r: Vec<ZoneInfo>)
    requires
        zone_ids@.len() == width as int * height as int,
        width as int * height as int <= 0x7fff_ffff,
        zones_within(zone_ids@, zone_count as int),
        bridge_zone_ids matches Some(b) ==> b@.len() == width as int * height as int && zones_within(b@, zone_count as int),
    ensures
        r@.len() == zone_count,
        forall|j: int| 0 <= j < zone_count ==> #[trigger] r@[j] == spec_zone_info(zone_ids@, opt_ids(bridge_zone_ids), width as int, j + 1),
{
    let ghost w = width as int;
    let mut sums: Vec<(u64, u64, u32)> = Vec::new();
    let mut k: usize = 0;
    while k < zone_count as usize
        invariant
            k <= zone_count,
            sums@.len() == k,
            forall|j: int| 0 <= j < k ==> #[trigger] sums@[j] == (0u64, 0u64, 0u32),
        decreases zone_count - k,
    {
        sums.push((0, 0, 0));
        k = k + 1;
    }
    let ghost zero_sums = sums@;
    if width > 0 {
        proof {
            assert(zone_ids@.len() <= w * 65535) by (nonlinear_arith)
                requires
                    zone_ids@.len() == w * height as int,
                    height <= 65535,
                    0 < w,
            ;
        }
        accumulate_layer(&mut sums, zone_ids, width, Ghost(Seq::empty()));
        let ghost after_ground = sums@;
        if let Some(bz) = bridge_zone_ids {
            proof {
                assert forall|j: int| 0 <= j < sums@.len() implies #[trigger] sums@[j].0 as int <= zone_ids@.len() * 65535
                    && sums@[j].1 as int <= zone_ids@.len() * 65535 && sums@[j].2 as int <= zone_ids@.len() by {
                    assert(zone_ids@.len() <= w * 65536) by (nonlinear_arith)
                        requires
                            zone_ids@.len() <= w * 65535,
                            0 < w,
                    ;
                    lemma_label_sums_bounded(zone_ids@, w, j + 1, zone_ids@.len() as int);
                    assert(zero_sums[j] == (0u64, 0u64, 0u32));
                }
            }
            let ghost gl = zone_ids@;
            proof {
                assert forall|j: int| 0 <= j < sums@.len() implies #[trigger] sums@[j].0 as int <= gl.len() * 65535
                    && sums@[j].1 as int <= gl.len() * 65535 && sums@[j].2 as int <= gl.len() by {
                    assert(sums@[j].0 as int <= zone_ids@.len() * 65535);
                }
            }
            accumulate_layer(&mut sums, bz, width, Ghost(gl));
        }
    }
    let mut out: Vec<ZoneInfo> = Vec::new();
    let mut j: usize = 0;
    while j < zone_count as usize
        invariant
            j <= zone_count,
            sums@.len() == zone_count,
            out@.len() == j,
            forall|t: int|
                0 <= t < zone_count ==> (#[trigger] sums@[t]).0 as int == zone_totals(zone_ids@, opt_ids(bridge_zone_ids), w, t + 1).0
                    && sums@[t].1 as int == zone_totals(zone_ids@, opt_ids(bridge_zone_ids), w, t + 1).1
                    && sums@[t].2 as int == zone_totals(zone_ids@, opt_ids(bridge_zone_ids), w, t + 1).2,
            forall|t: int| 0 <= t < j ==> #[trigger] out@[t] == spec_zone_info(zone_ids@, opt_ids(bridge_zone_ids), w, t + 1),
        decreases zone_count - j,
    {
        let (sx, sy, c) = sums[j];
        let info = if c == 0 {
            ZoneInfo { center: (0, 0), cell_count: 0 }
        } else {
            let mx = sx / c as u64;
            let my = sy / c as u64;
            ZoneInfo {
                center: (
                    if mx > 65535 {
                        65535u16
                    } else {
                        mx as u16
                    },
                    if my > 65535 {
                        65535u16
                    } else {
                        my as u16
                    },
                ),
                cell_count: c,
            }
        };
        out.push(info);
        j = j + 1;
    }
    out
}

/// A layer of zone labels built by flood fills under `rule`: every member
/// cell carries a label from `lo` to `count`, other cells none, and linked
/// cells carry the same label.
pub open spec fn layer_labeled(z: Seq<ZoneId>, rule: FloodRule, w: int, h: int, lo: int, count: int) -> bool {
    &&& z.len() == w * h
    &&& labels_ok(z, rule, w, count + 1)
    &&& labels_closed(z, rule, w, h)
    &&& members_labeled(z, rule, w, h)
    &&& forall|i: int| 0 <= i < z.len() && #[trigger] z[i] != ZONE_INVALID ==> lo <= z[i]
}

/// Number of cells among the first `k` that have a walkable bridge deck.
pub open spec fn bridge_cells(grid: PathGrid, w: int, k: int) -> int
    decreases k,
{
    if k <= 0 {
        0
    } else {
        bridge_cells(grid, w, k - 1) + if grid.spec_walkable_on_layer(
            ((k - 1) % w) as u16,
            ((k - 1) / w) as u16,
            MovementLayer::Bridge,
        ) {
            1int
        } else {
            0int
        }
    }
}

/// Zone ids are 16-bit: every cell of a `w` by `h` map, and every bridge
/// deck cell again, can have a zone of its own (ids 0, 1 and 65535 are
/// taken while numbering).
pub open spec fn zone_space_fits(grid: PathGrid, w: int, h: int) -> bool {
    w * h + bridge_cells(grid, w, w * h) <= 65533
}

/// A map whose zone space fits has at most 65533 cells.
pub proof fn lemma_zone_space_cells(grid: PathGrid, w: int, h: int)
    requires
        zone_space_fits(grid, w, h),
        0 <= w,
        0 <= h,
    ensures
        w * h <= 65533,
        0 <= bridge_cells(grid, w, w * h),
{
    assert(0 <= w * h) by (nonlinear_arith)
        requires
            0 <= w,
            0 <= h,
    ;
    lemma_bridge_cells_nonneg(grid, w, w * h);
}

/// Counts are never negative.
proof fn lemma_bridge_cells_nonneg(grid: PathGrid, w: int, k: int)
    ensures
        0 <= bridge_cells(grid, w, k),
    decreases k,
{
    if k > 0 {
        lemma_bridge_cells_nonneg(grid, w, k - 1);
    }
}

/// On a layer with no labels yet, the unlabeled bridge members are the
/// bridge deck cells.
proof fn lemma_unlabeled_bridge_cells(z: Seq<ZoneId>, grid: &PathGrid, w: int, k: int)
    requires
        0 <= k <= z.len(),
        forall|i: int| 0 <= i < z.len() ==> #[trigger] z[i] == ZONE_INVALID,
    ensures
        unlabeled_members(z, bridge_rule(grid), w, k) == bridge_cells(*grid, w, k),
        0 <= bridge_cells(*grid, w, k),
    decreases k,
{
    if k > 0 {
        lemma_unlabeled_bridge_cells(z, grid, w, k - 1);
    }
}

/// Zone ids are 16-bit. Built by flood fills (no resolved terrain), the
/// linked groups of ground cells, and of bridge deck cells for categories
/// with a bridge layer, must together leave room in the id space (ids 0, 1
/// and 65535 are taken while numbering). Built from movement classes, the
/// map must leave room for a zone per cell and per bridge deck cell.
pub open spec fn zone_ids_fit(
    grid: &PathGrid,
    cost: Option<&TerrainCostGrid>,
    terrain: Option<&ResolvedTerrainGrid>,
    cat: ZoneCategory,
    w: int,
    h: int,
) -> bool {
    match terrain {
        None => {
            &&& w * h <= 0x7fff_ffff
            &&& zones_opened(ground_rule(cat, grid, cost, None), w, h, w * h) + if has_bridge_layer(cat) {
                zones_opened(bridge_rule(grid), w, h, w * h)
            } else {
                0
            } <= 65533
        },
        Some(_) => zone_space_fits(*grid, w, h),
    }
}

/// Link rule of the ground layer of a category.
pub open spec fn ground_rule<'a>(
    cat: ZoneCategory,
    grid: &'a PathGrid,
    cost: Option<&'a TerrainCostGrid>,
    terrain: Option<&'a ResolvedTerrainGrid>,
) -> FloodRule<'a> {
    FloodRule::Ground { cat, grid, cost, terrain }
}

/// Link rule of the bridge layer.
pub open spec fn bridge_rule<'a>(grid: &'a PathGrid) -> FloodRule<'a> {
    FloodRule::Bridge { grid }
}

/// Categories whose units can walk bridge decks.
pub open spec fn has_bridge_layer(cat: ZoneCategory) -> bool {
    cat == ZoneCategory::Land || cat == ZoneCategory::Infantry || cat == ZoneCategory::Amphibious
}

/// Whether any cell of the grid has a walkable bridge deck.
pub open spec fn any_bridge_cell(grid: PathGrid, w: int, h: int) -> bool {
    exists|x: u16, y: u16| x < w && y < h && #[trigger] grid.spec_walkable_on_layer(x, y, MovementLayer::Bridge)
}

/// What a flood-built zone map of a category holds: ground zones, bridge
/// zones after them where the category walks bridges and the grid has any,
/// records per zone and the complete adjacency graph.
pub open spec fn flood_zone_map_ok(
    r: (ZoneMap, ZoneAdjacency),
    grid: &PathGrid,
    cost: Option<&TerrainCostGrid>,
    cat: ZoneCategory,
    w: int,
    h: int,
) -> bool {
    let g = r.0.spec_zone_ids();
    let count = r.0.spec_zone_count() as int;
    &&& r.0.spec_width() == w
    &&& r.0.spec_height() == h
    &&& layer_labeled(g, ground_rule(cat, grid, cost, None), w, h, 1, count)
    &&& match r.0.spec_bridge_zone_ids() {
        Some(b) => has_bridge_layer(cat) && any_bridge_cell(*grid, w, h) && layer_labeled(b, bridge_rule(grid), w, h, 1, count)
            && borders_listed(r.1.neighbors@, b, w, h) && transitions_listed(r.1.neighbors@, g, b, *grid, w, h),
        None => !has_bridge_layer(cat) || !any_bridge_cell(*grid, w, h),
    }
    &&& adjacency_ok(r.1.neighbors@, count)
    &&& borders_listed(r.1.neighbors@, g, w, h)
    &&& r.0.spec_zone_info().len() == count
    &&& forall|j: int| 0 <= j < count ==> #[trigger] r.0.spec_zone_info()[j] == spec_zone_info(g, r.0.spec_bridge_zone_ids(), w, j + 1)
}

/// A zeroed label array of `n` cells.
fn zero_labels(n: usize) -> (r: Vec<ZoneId>)
    ensures
        r@.len() == n,
        forall|i: int| 0 <= i < n ==> #[trigger] r@[i] == ZONE_INVALID,
{
    let mut v: Vec<ZoneId> = Vec::new();
    let mut i: usize = 0;
    while i < n
        invariant
            i <= n,
            v@.len() == i,
            forall|k: int| 0 <= k < i ==> #[trigger] v@[k] == ZONE_INVALID,
        decreases n - i,
    {
        v.push(ZONE_INVALID);
        i = i + 1;
    }
    v
}

/// An unlabeled array satisfies the label invariants of any rule.
proof fn lemma_zero_labels(z: Seq<ZoneId>, rule: FloodRule, w: int, h: int, bound: int)
    requires
        z.len() == w * h,
        bound >= 1,
        forall|i: int| 0 <= i < z.len() ==> #[trigger] z[i] == ZONE_INVALID,
    ensures
        labels_ok(z, rule, w, bound),
        labels_closed(z, rule, w, h),
{
    assert forall|cx: u16, cy: u16, nx: u16, ny: u16|
        #[trigger] flood_allowed(rule, w, h, cx, cy, nx, ny) && label_at(z, w, cx, cy) != ZONE_INVALID implies label_at(
        z,
        w,
        nx,
        ny,
    ) == label_at(z, w, cx, cy) by {
        lemma_index_in_bounds(cx as int, cy as int, w, h);
    }
}

/// Zone map of a category by flood fills over the walkability grid.
fn build_flood_zone_map(
    path_grid: &PathGrid,
    cost_grid: Option<&TerrainCostGrid>,
    cat: ZoneCategory,
    width: u16,
    height: u16,
) -> (r: (ZoneMap, ZoneAdjacency))
    requires
        zone_ids_fit(path_grid, cost_grid, None, cat, width as int, height as int),
    ensures
        flood_zone_map_ok(r, path_grid, cost_grid, cat, width as int, height as int),
{
    let ghost w = width as int;
    let ghost h = height as int;
    proof {
        assert(0 <= w * h) by (nonlinear_arith)
            requires
                0 <= w,
                0 <= h,
        ;
        lemma_zones_opened_monotone(ground_rule(cat, path_grid, cost_grid, None), w, h, 0, w * h);
        lemma_zones_opened_monotone(bridge_rule(path_grid), w, h, 0, w * h);
    }
    let total = width as usize * height as usize;
    let mut zone_ids = zero_labels(total);
    let ground = FloodRule::Ground { cat, grid: path_grid, cost: cost_grid, terrain: None };
    proof {
        assert(ground == ground_rule(cat, path_grid, cost_grid, None));
    }
    proof {
        lemma_zero_labels(zone_ids@, ground, w, h, 1);
    }
    let next_zone = fill_all(&ground, &mut zone_ids, width, height, 1);
    let mut zone_count = next_zone - 1;
    let bridge_cat = cat == ZoneCategory::Land || cat == ZoneCategory::Infantry || cat == ZoneCategory::Amphibious;
    let bridge_zone_ids: Option<Vec<ZoneId>> = if bridge_cat {
        let mut bz = zero_labels(total);
        let bridge = FloodRule::Bridge { grid: path_grid };
        proof {
            lemma_zero_labels(bz@, bridge, w, h, next_zone as int);
        }
        let next_after = fill_all(&bridge, &mut bz, width, height, next_zone);
        if next_after > next_zone {
            zone_count = next_after - 1;
            proof {
                assert forall|i: int| 0 <= i < bz@.len() && #[trigger] bz@[i] != ZONE_INVALID implies 1 <= bz@[i] by {
                }
                let k = choose|k: int| 0 <= k < total && #[trigger] bz@[k] != ZONE_INVALID;
                assert(w != 0) by {
                    if w == 0 {
                        assert(w * h == 0);
                    }
                }
                lemma_index_decompose(k, w, h);
                assert(rule_member(bridge, w, (k % w) as u16, (k / w) as u16));
                assert(any_bridge_cell(*path_grid, w, h));
            }
            Some(bz)
        } else {
            proof {
                assert forall|x: u16, y: u16| x < w && y < h implies !#[trigger] path_grid.spec_walkable_on_layer(x, y, MovementLayer::Bridge) by {
                    lemma_index_in_bounds(x as int, y as int, w, h);
                    if path_grid.spec_walkable_on_layer(x, y, MovementLayer::Bridge) {
                        assert(rule_member(bridge, w, x, y));
                    }
                }
            }
            None
        }
    } else {
        None
    };
    proof {
        assert(zones_within(zone_ids@, zone_count as int));
        if w != 0 {
            assert(h <= w * h) by (nonlinear_arith)
                requires
                    w >= 1,
                    h >= 0,
            ;
        }
    }
    let adj = {
        let bslice: Option<&[ZoneId]> = match &bridge_zone_ids {
            Some(v) => Some(v.as_slice()),
            None => None,
        };
        extract_adjacency(zone_ids.as_slice(), bslice, path_grid, width, height, zone_count)
    };
    let info = {
        let bslice: Option<&[ZoneId]> = match &bridge_zone_ids {
            Some(v) => Some(v.as_slice()),
            None => None,
        };
        compute_zone_info(zone_ids.as_slice(), bslice, width, height, zone_count)
    };
    let zone_map = ZoneMap::new(zone_ids, bridge_zone_ids, width, height, zone_count, info);
    (zone_map, adj)
}

/// Movement class of open ground.
pub const MOVEMENT_CLASS_OPEN: u8 = 0;

/// Movement class of a beach.
pub const MOVEMENT_CLASS_BEACH: u8 = 3;

/// Movement class of water.
pub const MOVEMENT_CLASS_WATER: u8 = 4;

/// Passability of the movement classes (columns) per movement zone (rows):
/// 1 passable, 2 impassable, 3 off the map.
pub const MOVEMENT_CLASS_PASSABILITY: [[u8; 8]; 13] = [
    [1, 2, 2, 2, 2, 2, 2, 3],
    [1, 1, 2, 2, 2, 2, 2, 3],
    [1, 1, 1, 2, 2, 2, 2, 3],
    [1, 1, 1, 1, 1, 1, 2, 3],
    [1, 1, 2, 1, 1, 2, 2, 3],
    [1, 2, 2, 1, 1, 2, 2, 3],
    [1, 1, 1, 2, 2, 2, 1, 3],
    [1, 2, 2, 2, 2, 1, 2, 3],
    [1, 1, 1, 2, 2, 1, 2, 3],
    [1, 1, 1, 1, 1, 1, 1, 3],
    [2, 2, 2, 2, 1, 2, 2, 3],
    [2, 2, 2, 1, 1, 2, 2, 3],
    [1, 1, 1, 2, 2, 2, 2, 3],
];

/// Whether a movement zone passes a movement class.
pub open spec fn class_passable(mz: MovementZone, class: u8) -> bool {
    class < 8 && MOVEMENT_CLASS_PASSABILITY@[movement_zone_row(mz)]@[class as int] == 1
}

/// Movement classes by mover: nothing passes cells off the map; every
/// mover but ships passes open ground; ships, amphibious movers and
/// aircraft pass water while ordinary vehicles and infantry do not; and
/// blocked cells are passed only by aircraft and subterranean movers.
pub proof fn law_movement_classes_by_mover(mz: MovementZone)
    ensures
        !class_passable(mz, MOVEMENT_CLASS_OUTSIDE),
        class_passable(mz, MOVEMENT_CLASS_OPEN) <==> !mz.spec_is_water_mover(),
        (mz == MovementZone::Water || mz == MovementZone::WaterBeach || mz == MovementZone::Amphibious || mz
            == MovementZone::AmphibiousCrusher || mz == MovementZone::AmphibiousDestroyer || mz == MovementZone::Fly)
            ==> class_passable(mz, MOVEMENT_CLASS_WATER),
        (mz == MovementZone::Normal || mz == MovementZone::Infantry || mz == MovementZone::Crusher) ==> !class_passable(
            mz,
            MOVEMENT_CLASS_WATER,
        ),
        class_passable(mz, MOVEMENT_CLASS_BLOCKED) <==> (mz == MovementZone::Fly || mz == MovementZone::Subterranean),
{
    let t = MOVEMENT_CLASS_PASSABILITY@;
    assert(t[0]@ =~= seq![1u8, 2, 2, 2, 2, 2, 2, 3]);
    assert(t[1]@ =~= seq![1u8, 1, 2, 2, 2, 2, 2, 3]);
    assert(t[2]@ =~= seq![1u8, 1, 1, 2, 2, 2, 2, 3]);
    assert(t[3]@ =~= seq![1u8, 1, 1, 1, 1, 1, 2, 3]);
    assert(t[4]@ =~= seq![1u8, 1, 2, 1, 1, 2, 2, 3]);
    assert(t[5]@ =~= seq![1u8, 2, 2, 1, 1, 2, 2, 3]);
    assert(t[6]@ =~= seq![1u8, 1, 1, 2, 2, 2, 1, 3]);
    assert(t[7]@ =~= seq![1u8, 2, 2, 2, 2, 1, 2, 3]);
    assert(t[8]@ =~= seq![1u8, 1, 1, 2, 2, 1, 2, 3]);
    assert(t[9]@ =~= seq![1u8, 1, 1, 1, 1, 1, 1, 3]);
    assert(t[10]@ =~= seq![2u8, 2, 2, 2, 1, 2, 2, 3]);
    assert(t[11]@ =~= seq![2u8, 2, 2, 1, 1, 2, 2, 3]);
    assert(t[12]@ =~= seq![1u8, 1, 1, 2, 2, 2, 2, 3]);
}

/// Zone passability: a land category never passes a cell the grid marks
/// unwalkable; without resolved terrain for the cell, a cost grid decides
/// (a cost of 0 blocks), and without one a land category passes every
/// walkable cell while a water category passes none.
pub proof fn law_zone_passability(
    x: u16,
    y: u16,
    cat: ZoneCategory,
    grid: PathGrid,
    cost: Option<&TerrainCostGrid>,
)
    ensures
        (cat != ZoneCategory::Water && cat != ZoneCategory::WaterBeach && !grid.spec_walkable(x, y)) ==> forall|
            t: Option<&ResolvedTerrainGrid>,
        | !#[trigger] spec_zone_passable(x, y, cat, grid, cost, t),
        cost matches Some(cg) ==> (cg.spec_cost_at(x, y) == 0 ==> !spec_zone_passable(x, y, cat, grid, cost, None)),
        cost is None ==> (spec_zone_passable(x, y, cat, grid, None, None) <==> (cat != ZoneCategory::Water && cat
            != ZoneCategory::WaterBeach && grid.spec_walkable(x, y))),
{
}

/// Movement class of a cell: off the map, blocked by an object or overlay,
/// blocked ground (water excepted), water, beach, or open.
pub open spec fn spec_movement_class(grid: PathGrid, terrain: ResolvedTerrainGrid, x: u16, y: u16) -> u8 {
    match terrain.spec_cell(x, y) {
        None => MOVEMENT_CLASS_OUTSIDE,
        Some(c) => if c.overlay_blocks || c.terrain_object_blocks {
            MOVEMENT_CLASS_BLOCKED
        } else if (c.ground_walk_blocked && !c.is_water) || (!grid.spec_walkable(x, y) && !c.is_water) {
            MOVEMENT_CLASS_BLOCKED
        } else if c.is_water {
            MOVEMENT_CLASS_WATER
        } else if c.land_type == 3 {
            MOVEMENT_CLASS_BEACH
        } else {
            MOVEMENT_CLASS_OPEN
        },
    }
}

/// Movement class of a cell (see `spec_movement_class`).
fn movement_class_for_cell(path_grid: &PathGrid, resolved_terrain: &ResolvedTerrainGrid, x: u16, y: u16) -> (r: u8)
    ensures
        r == spec_movement_class(*path_grid, *resolved_terrain, x, y),
{
    let cell = match resolved_terrain.cell(x, y) {
        None => {
            return MOVEMENT_CLASS_OUTSIDE;
        },
        Some(c) => c,
    };
    if cell.overlay_blocks || cell.terrain_object_blocks {
        return MOVEMENT_CLASS_BLOCKED;
    }
    if (cell.ground_walk_blocked && !cell.is_water) || (!path_grid.is_walkable(x, y) && !cell.is_water) {
        return MOVEMENT_CLASS_BLOCKED;
    }
    if cell.is_water {
        return MOVEMENT_CLASS_WATER;
    }
    if cell.land_type == LandType::Beach.as_index() {
        return MOVEMENT_CLASS_BEACH;
    }
    MOVEMENT_CLASS_OPEN
}

/// Movement classes of all cells, row-major.
fn movement_classes(path_grid: &PathGrid, resolved_terrain: &ResolvedTerrainGrid, width: u16, height: u16) -> (r: Vec<u8>)
    requires
        width as int * height as int <= 65534,
    ensures
        r@.len() == width as int * height as int,
        forall|x: u16, y: u16|
            x < width && y < height ==> #[trigger] class_at(r@, width as int, x, y) == spec_movement_class(
                *path_grid,
                *resolved_terrain,
                x,
                y,
            ),
{
    let ghost w = width as int;
    let ghost h = height as int;
    let mut v: Vec<u8> = Vec::new();
    let mut ry: u16 = 0;
    while ry < height
        invariant
            w == width as int,
            h == height as int,
            w * h <= 65534,
            ry <= height,
            v@.len() == ry as int * w,
            forall|x: u16, y: u16|
                x < w && y < ry ==> #[trigger] class_at(v@, w, x, y) == spec_movement_class(*path_grid, *resolved_terrain, x, y),
        decreases height - ry,
    {
        let mut rx: u16 = 0;
        proof {
            assert(ry as int * w + w <= w * h) by (nonlinear_arith)
                requires
                    ry < h,
                    0 <= w,
            ;
        }
        while rx < width
            invariant
                w == width as int,
                h == height as int,
                ry < height,
                rx <= width,
                ry as int * w + w <= w * h,
                v@.len() == ry as int * w + rx,
                forall|x: u16, y: u16|
                    ((x < w && y < ry) || (x < rx && y == ry)) ==> #[trigger] class_at(v@, w, x, y) == spec_movement_class(
                        *path_grid,
                        *resolved_terrain,
                        x,
                        y,
                    ),
            decreases width - rx,
        {
            let ghost before = v@;
            v.push(movement_class_for_cell(path_grid, resolved_terrain, rx, ry));
            proof {
                assert forall|x: u16, y: u16|
                    ((x < w && y < ry) || (x < rx + 1 && y == ry)) implies #[trigger] class_at(v@, w, x, y)
                        == spec_movement_class(*path_grid, *resolved_terrain, x, y) by {
                    lemma_index_in_bounds(x as int, y as int, w, h);
                    if x == rx && y == ry {
                    } else {
                        if y < ry {
                            assert(cell_index(x as int, y as int, w) < ry as int * w) by (nonlinear_arith)
                                requires
                                    x < w,
                                    y < ry,
                            ;
                        }
                        assert(class_at(before, w, x, y) == class_at(v@, w, x, y));
                    }
                }
            }
            rx = rx + 1;
        }
        proof {
            assert((ry as int + 1) * w == ry as int * w + w) by (nonlinear_arith);
        }
        ry = ry + 1;
    }
    proof {
        assert(ry as int * w == w * h) by (nonlinear_arith)
            requires
                ry as int == h,
        ;
    }
    v
}

/// Link rule of the node flood over movement classes.
pub open spec fn node_rule<'a>(classes: &'a Vec<u8>, grid: &'a PathGrid) -> FloodRule<'a> {
    FloodRule::Node { classes, grid }
}

/// Number every region of equal movement class (heights at most one level
/// apart unless blocked) with a node index from 1; cells off the map get 0.
/// Returns the indices and the number of nodes.
fn rebuild_node_indices(movement_classes: &Vec<u8>, path_grid: &PathGrid, width: u16, height: u16) -> (r: (Vec<u16>, u16))
    requires
        movement_classes@.len() == width as int * height as int,
        width as int * height as int <= 65534,
    ensures
        layer_labeled(r.0@, node_rule(movement_classes, path_grid), width as int, height as int, 1, r.1 as int),
        labels_keyed(r.0@, node_rule(movement_classes, path_grid), width as int, height as int),
        r.1 <= width as int * height as int,
{
    let ghost w = width as int;
    let ghost h = height as int;
    let total = width as usize * height as usize;
    let mut nodes = zero_labels(total);
    let rule = FloodRule::Node { classes: movement_classes, grid: path_grid };
    proof {
        lemma_zero_labels(nodes@, rule, w, h, 1);
        assert forall|x1: u16, y1: u16, x2: u16, y2: u16|
            x1 < w && y1 < h && x2 < w && y2 < h && #[trigger] label_at(nodes@, w, x1, y1) != ZONE_INVALID && label_at(
                nodes@,
                w,
                x1,
                y1,
            ) == #[trigger] label_at(nodes@, w, x2, y2) implies rule_key(rule, w, x1, y1) == rule_key(rule, w, x2, y2) by {
            lemma_index_in_bounds(x1 as int, y1 as int, w, h);
        }
    }
    proof {
        lemma_unlabeled_members_bounds(nodes@, rule, width as int, width as int * height as int, 0);
    }
    let next = fill_all(&rule, &mut nodes, width, height, 1);
    (nodes, next - 1)
}

/// Strictly increasing lists holding values from 1 to `max`.
pub open spec fn lists_ok(adj: Seq<Vec<u16>>, max: int) -> bool {
    &&& forall|a: int| 0 <= a < adj.len() ==> strictly_sorted(#[trigger] adj[a]@)
    &&& forall|a: int, k: int| 0 <= a < adj.len() && 0 <= k < adj[a]@.len() ==> 1 <= #[trigger] adj[a]@[k] <= max
}

/// Neighbor lists of nodes: node `b` is listed for node `a` when a cell of
/// `a` has a neighbor cell of `b` (a diagonal neighbor only when one of the
/// two cells between them belongs to some node).
fn build_node_adjacency(node_indices: &[u16], width: u16, height: u16) -> (r: Vec<Vec<u16>>)
    requires
        node_indices@.len() == width as int * height as int,
        width as int * height as int <= 65534,
    ensures
        lists_ok(r@, r@.len() - 1),
        r@.len() >= 1,
        forall|i: int| 0 <= i < node_indices@.len() ==> #[trigger] node_indices@[i] < r@.len(),
{
    let ghost w = width as int;
    let ghost h = height as int;
    let n = node_indices.len();
    let mut node_count: u16 = 0;
    let mut i: usize = 0;
    while i < n
        invariant
            i <= n,
            n == node_indices@.len(),
            forall|k: int| 0 <= k < i ==> #[trigger] node_indices@[k] <= node_count,
        decreases n - i,
    {
        if node_indices[i] > node_count {
            node_count = node_indices[i];
        }
        i = i + 1;
    }
    let mut adj: Vec<Vec<u16>> = Vec::new();
    let mut k: usize = 0;
    while k <= node_count as usize
        invariant
            k <= node_count as int + 1,
            adj@.len() == k,
            forall|a: int| 0 <= a < k ==> (#[trigger] adj@[a])@.len() == 0,
        decreases node_count as int + 1 - k,
    {
        adj.push(Vec::new());
        k = k + 1;
    }
    let mut y: u16 = 0;
    while y < height
        invariant
            w == width as int,
            h == height as int,
            n == w * h,
            n == node_indices@.len(),
            adj@.len() == node_count as int + 1,
            forall|k: int| 0 <= k < n ==> #[trigger] node_indices@[k] <= node_count,
            lists_ok(adj@, node_count as int),
            y <= height,
        decreases height - y,
    {
        let mut x: u16 = 0;
        while x < width
            invariant
                w == width as int,
                h == height as int,
                n == w * h,
                n == node_indices@.len(),
                adj@.len() == node_count as int + 1,
                forall|k: int| 0 <= k < n ==> #[trigger] node_indices@[k] <= node_count,
                lists_ok(adj@, node_count as int),
                y < height,
                x <= width,
            decreases width - x,
        {
            proof {
                lemma_index_in_bounds(x as int, y as int, w, h);
            }
            let a = node_indices[y as usize * width as usize + x as usize];
            if a != 0 {
                let mut d: usize = 0;
                while d < 8
                    invariant
                        w == width as int,
                        h == height as int,
                        n == w * h,
                        n == node_indices@.len(),
                        adj@.len() == node_count as int + 1,
                        forall|k: int| 0 <= k < n ==> #[trigger] node_indices@[k] <= node_count,
                        lists_ok(adj@, node_count as int),
                        y < height,
                        x < width,
                        1 <= a <= node_count,
                        d <= 8,
                    decreases 8 - d,
                {
                    let (dx, dy, is_diagonal) = neighbor_delta(d);
                    let nx_i = x as i32 + dx;
                    let ny_i = y as i32 + dy;
                    if nx_i >= 0 && ny_i >= 0 && nx_i < width as i32 && ny_i < height as i32 {
                        let nx = nx_i as u16;
                        let ny = ny_i as u16;
                        proof {
                            lemma_index_in_bounds(nx as int, ny as int, w, h);
                            lemma_index_in_bounds(nx as int, y as int, w, h);
                            lemma_index_in_bounds(x as int, ny as int, w, h);
                        }
                        let b = node_indices[ny as usize * width as usize + nx as usize];
                        let mut keep = b != 0 && a != b;
                        if keep && is_diagonal {
                            let o = node_indices[y as usize * width as usize + nx as usize];
                            let p = node_indices[ny as usize * width as usize + x as usize];
                            if o == 0 && p == 0 {
                                keep = false;
                            }
                        }
                        if keep {
                            let ghost before = adj@;
                            insert_sorted(&mut adj[a as usize], b);
                            proof {
                                assert forall|q: int| 0 <= q < adj@.len() implies strictly_sorted(#[trigger] adj@[q]@) by {
                                    if q != a {
                                        assert(adj@[q] == before[q]);
                                    }
                                }
                                assert forall|q: int, t: int|
                                    0 <= q < adj@.len() && 0 <= t < adj@[q]@.len() implies 1 <= #[trigger] adj@[q]@[t]
                                        <= node_count by {
                                    if q != a {
                                        assert(adj@[q] == before[q]);
                                    } else {
                                        let v = adj@[q]@[t];
                                        assert(adj@[q]@.contains(v));
                                        if before[q]@.contains(v) {
                                            let j = choose|j: int| 0 <= j < before[q]@.len() && before[q]@[j] == v;
                                            assert(1 <= before[q]@[j] <= node_count);
                                        }
                                    }
                                }
                            }
                        }
                    }
                    d = d + 1;
                }
            }
            x = x + 1;
        }
        y = y + 1;
    }
    adj
}

/// Movement class of node `k`: the class of its first cell among the first
/// `upto` cells (off the map when none).
pub open spec fn spec_node_class(classes: Seq<u8>, nodes: Seq<u16>, k: int, upto: int) -> u8
    decreases upto,
{
    if upto <= 0 {
        MOVEMENT_CLASS_OUTSIDE
    } else {
        let prev = spec_node_class(classes, nodes, k, upto - 1);
        if prev == MOVEMENT_CLASS_OUTSIDE && nodes[upto - 1] == k {
            classes[upto - 1]
        } else {
            prev
        }
    }
}

/// Raw zone of each node for a movement zone: 1 for nodes of a class the
/// zone cannot pass, labels from 2 for passable nodes (one label per group
/// of passable nodes joined through the node graph); entry 0 is `u16::MAX`.
fn rebuild_zone_ids_for_movement_zone(
    movement_classes: &[u8],
    node_indices: &[u16],
    node_count: u16,
    node_adj: &Vec<Vec<u16>>,
    movement_zone: MovementZone,
) -> (r: Vec<u16>)
    requires
        movement_classes@.len() == node_indices@.len(),
        node_count <= 65533,
        forall|i: int| 0 <= i < node_indices@.len() ==> #[trigger] node_indices@[i] <= node_count,
    ensures
        r@.len() == node_count as int + 1,
        r@[0] == u16::MAX,
        forall|k: int|
            1 <= k <= node_count ==> (#[trigger] r@[k] == 1) == !class_passable(
                movement_zone,
                spec_node_class(movement_classes@, node_indices@, k, node_indices@.len() as int),
            ) && r@[k] >= 1,
{
    let n = node_indices.len();
    let mut node_classes: Vec<u8> = Vec::new();
    let mut k: usize = 0;
    while k <= node_count as usize
        invariant
            k <= node_count as int + 1,
            node_classes@.len() == k,
            forall|j: int| 0 <= j < k ==> #[trigger] node_classes@[j] == MOVEMENT_CLASS_OUTSIDE,
        decreases node_count as int + 1 - k,
    {
        node_classes.push(MOVEMENT_CLASS_OUTSIDE);
        k = k + 1;
    }
    let mut i: usize = 0;
    while i < n
        invariant
            i <= n,
            n == node_indices@.len(),
            n == movement_classes@.len(),
            node_classes@.len() == node_count as int + 1,
            forall|j: int| 0 <= j < n ==> #[trigger] node_indices@[j] <= node_count,
            forall|j: int|
                1 <= j <= node_count ==> #[trigger] node_classes@[j] == spec_node_class(
                    movement_classes@,
                    node_indices@,
                    j,
                    i as int,
                ),
        decreases n - i,
    {
        let node = node_indices[i];
        if node != 0 && node_classes[node as usize] == MOVEMENT_CLASS_OUTSIDE {
            node_classes.set(node as usize, movement_classes[i]);
        }
        i = i + 1;
    }
    let row = movement_zone.row();
    let mut zid: Vec<u16> = Vec::new();
    let mut k: usize = 0;
    while k <= node_count as usize
        invariant
            k <= node_count as int + 1,
            zid@.len() == k,
            node_classes@.len() == node_count as int + 1,
            row == movement_zone_row(movement_zone),
            row < 13,
            forall|j: int| 1 <= j < k ==> (#[trigger] zid@[j] == 0) == class_passable(movement_zone, node_classes@[j]),
            forall|j: int| 0 <= j < k ==> #[trigger] zid@[j] <= 1,
        decreases node_count as int + 1 - k,
    {
        let c = node_classes[k];
        if k >= 1 && (c as usize) < 8 && MOVEMENT_CLASS_PASSABILITY[row][c as usize] == 1 {
            zid.push(0);
        } else {
            zid.push(1);
        }
        k = k + 1;
    }
    let ghost passable_nodes = zid@;
    let mut next_label: u16 = 2;
    let mut start: usize = 1;
    while start <= node_count as usize
        invariant
            1 <= start <= node_count as int + 1,
            zid@.len() == node_count as int + 1,
            2 <= next_label <= start + 1,
            node_count <= 65533,
            forall|j: int| 0 <= j <= node_count ==> (#[trigger] passable_nodes[j] == 1) == (zid@[j] == 1),
            forall|j: int| 1 <= j < start ==> #[trigger] zid@[j] != 0,
        decreases node_count as int + 1 - start,
    {
        if zid[start] == 0 {
            let ghost before_fill = zid@;
            zid.set(start, next_label);
            let mut queue: Vec<u16> = Vec::new();
            queue.push(start as u16);
            proof {
                lemma_zeros_update(before_fill, start as int, next_label, zid@.len() as int);
            }
            while queue.len() > 0
                invariant
                    zid@.len() == node_count as int + 1,
                    next_label >= 2,
                    zid@[start as int] != 0,
                    1 <= start <= node_count,
                    forall|j: int| 0 <= j <= node_count ==> (#[trigger] passable_nodes[j] == 1) == (zid@[j] == 1),
                    forall|j: int| 1 <= j < start ==> #[trigger] zid@[j] != 0,
                decreases 2 * zeros_before(zid@, zid@.len() as int) + queue@.len(),
            {
                let ghost zb = zid@;
                let ghost qb = queue@;
                let cur = queue.pop().unwrap();
                proof {
                    lemma_zeros_bounds(zid@, zid@.len() as int);
                }
                if (cur as usize) < node_adj.len() {
                    let list = &node_adj[cur as usize];
                    let mut t: usize = 0;
                    while t < list.len()
                        invariant
                            t <= list@.len(),
                            zid@.len() == node_count as int + 1,
                            next_label >= 2,
                            zid@[start as int] != 0,
                            1 <= start <= node_count,
                            forall|j: int| 0 <= j <= node_count ==> (#[trigger] passable_nodes[j] == 1) == (zid@[j] == 1),
                            forall|j: int| 1 <= j < start ==> #[trigger] zid@[j] != 0,
                            2 * zeros_before(zid@, zid@.len() as int) + queue@.len() <= 2 * zeros_before(zb, zb.len() as int)
                                + qb.len() - 1,
                        decreases list@.len() - t,
                    {
                        let nb = list[t];
                        if (nb as usize) < zid.len() && zid[nb as usize] == 0 {
                            proof {
                                lemma_zeros_update(zid@, nb as int, next_label, zid@.len() as int);
                            }
                            zid.set(nb as usize, next_label);
                            queue.push(nb);
                        }
                        t = t + 1;
                    }
                }
                proof {
                    lemma_zeros_bounds(zid@, zid@.len() as int);
                }
            }
            next_label = next_label + 1;
        }
        start = start + 1;
    }
    zid.set(0, u16::MAX);
    proof {
        assert forall|j: int|
            1 <= j <= node_count implies (#[trigger] zid@[j] == 1) == !class_passable(
            movement_zone,
            spec_node_class(movement_classes@, node_indices@, j, node_indices@.len() as int),
        ) && zid@[j] >= 1 by {
            assert(passable_nodes[j] == 1 <==> zid@[j] == 1);
            assert(node_classes@[j] == spec_node_class(movement_classes@, node_indices@, j, n as int));
        }
    }
    zid
}

/// Raw zone of the node of cell `i` (0 for cells of no node).
pub open spec fn raw_of(nodes: Seq<u16>, raw: Seq<u16>, i: int) -> int {
    let node = nodes[i] as int;
    if node == 0 || node >= raw.len() {
        0
    } else {
        raw[node] as int
    }
}

/// Renumber raw zones from 1 in order of first appearance; cells of no node
/// or of an impassable raw zone (1 or less) get no zone. Returns the zones
/// and their number.
#[verifier::spinoff_prover]
fn compact_raw_zone_ids(node_indices: &[u16], raw_zone_ids: &[u16], total: usize) -> (r: (Vec<ZoneId>, ZoneId))
    requires
        node_indices@.len() == total,
        total <= 65534,
    ensures
        r.0@.len() == total,
        r.1 <= total,
        forall|i: int| 0 <= i < total ==> (#[trigger] r.0@[i] == ZONE_INVALID) == (raw_of(node_indices@, raw_zone_ids@, i) <= 1),
        forall|i: int| 0 <= i < total ==> #[trigger] r.0@[i] <= r.1,
        forall|i: int, j: int|
            0 <= i < total && 0 <= j < total && #[trigger] r.0@[i] != ZONE_INVALID && #[trigger] r.0@[j] != ZONE_INVALID
                ==> ((r.0@[i] == r.0@[j]) == (raw_of(node_indices@, raw_zone_ids@, i) == raw_of(
                node_indices@,
                raw_zone_ids@,
                j,
            ))),
{
    proof {
        lemma_u16_keys_ordered();
    }
    let mut remap: BTreeMap<u16, ZoneId> = BTreeMap::new();
    let mut next_zone: ZoneId = 1;
    let mut zone_ids = zero_labels(total);
    let mut idx: usize = 0;
    while idx < total
        invariant
            idx <= total,
            total <= 65534,
            node_indices@.len() == total,
            zone_ids@.len() == total,
            1 <= next_zone <= idx + 1,
            u16_keys_ordered(),
            forall|k: u16| #[trigger] remap@.contains_key(k) ==> 1 <= remap@[k] < next_zone && k > 1,
            forall|k1: u16, k2: u16|
                #[trigger] remap@.contains_key(k1) && #[trigger] remap@.contains_key(k2) && remap@[k1] == remap@[k2] ==> k1 == k2,
            forall|i: int| idx <= i < total ==> #[trigger] zone_ids@[i] == ZONE_INVALID,
            forall|i: int|
                0 <= i < idx ==> (#[trigger] zone_ids@[i] == ZONE_INVALID) == (raw_of(node_indices@, raw_zone_ids@, i) <= 1),
            forall|i: int|
                0 <= i < idx && #[trigger] zone_ids@[i] != ZONE_INVALID ==> remap@.contains_key(
                    raw_of(node_indices@, raw_zone_ids@, i) as u16,
                ) && remap@[raw_of(node_indices@, raw_zone_ids@, i) as u16] == zone_ids@[i] && raw_of(
                    node_indices@,
                    raw_zone_ids@,
                    i,
                ) <= u16::MAX,
        decreases total - idx,
    {
        let node = node_indices[idx];
        if node != 0 && (node as usize) < raw_zone_ids.len() {
            let raw = raw_zone_ids[node as usize];
            if raw > 1 {
                let zone = match remap.get(&raw) {
                    Some(z) => *z,
                    None => {
                        let assigned = next_zone;
                        next_zone = next_zone + 1;
                        remap.insert(raw, assigned);
                        assigned
                    },
                };
                zone_ids.set(idx, zone);
            }
        }
        idx = idx + 1;
    }
    proof {
        assert forall|i: int| 0 <= i < total implies #[trigger] zone_ids@[i] <= next_zone - 1 by {
            if zone_ids@[i] != ZONE_INVALID {
                let k = raw_of(node_indices@, raw_zone_ids@, i) as u16;
                assert(remap@.contains_key(k));
            }
        }
        assert forall|i: int, j: int|
            0 <= i < total && 0 <= j < total && #[trigger] zone_ids@[i] != ZONE_INVALID && #[trigger] zone_ids@[j]
                != ZONE_INVALID implies ((zone_ids@[i] == zone_ids@[j]) == (raw_of(node_indices@, raw_zone_ids@, i)
            == raw_of(node_indices@, raw_zone_ids@, j))) by {
            let ki = raw_of(node_indices@, raw_zone_ids@, i) as u16;
            let kj = raw_of(node_indices@, raw_zone_ids@, j) as u16;
            assert(remap@.contains_key(ki));
            assert(remap@.contains_key(kj));
        }
    }
    (zone_ids, next_zone - 1)
}

/// Whether neighboring cells share a movement class (not off the map) and,
/// unless blocked, lie at most one level apart.
pub open spec fn class_linked(grid: PathGrid, terrain: ResolvedTerrainGrid, w: int, h: int, cx: u16, cy: u16, nx: u16, ny: u16) -> bool {
    let c = spec_movement_class(grid, terrain, cx, cy);
    &&& cx < w
    &&& cy < h
    &&& nx < w
    &&& ny < h
    &&& chebyshev(cx as int, cy as int, nx as int, ny as int) == 1
    &&& c != MOVEMENT_CLASS_OUTSIDE
    &&& c == spec_movement_class(grid, terrain, nx, ny)
    &&& (c != MOVEMENT_CLASS_BLOCKED ==> levels_close(grid, cx, cy, nx, ny, false))
}

/// Bridge zones and records that both kinds of zone map share.
pub open spec fn bridge_and_records_ok(r: (ZoneMap, ZoneAdjacency), grid: &PathGrid, cat: ZoneCategory, w: int, h: int, lo: int) -> bool {
    let g = r.0.spec_zone_ids();
    let count = r.0.spec_zone_count() as int;
    &&& r.0.spec_width() == w
    &&& r.0.spec_height() == h
    &&& match r.0.spec_bridge_zone_ids() {
        Some(b) => has_bridge_layer(cat) && any_bridge_cell(*grid, w, h) && layer_labeled(b, bridge_rule(grid), w, h, lo, count)
            && borders_listed(r.1.neighbors@, b, w, h) && transitions_listed(r.1.neighbors@, g, b, *grid, w, h),
        None => !has_bridge_layer(cat) || !any_bridge_cell(*grid, w, h),
    }
    &&& adjacency_ok(r.1.neighbors@, count)
    &&& borders_listed(r.1.neighbors@, g, w, h)
    &&& r.0.spec_zone_info().len() == count
    &&& forall|j: int| 0 <= j < count ==> #[trigger] r.0.spec_zone_info()[j] == spec_zone_info(g, r.0.spec_bridge_zone_ids(), w, j + 1)
}

/// What a zone map built from movement classes holds: ground zones where
/// cells of one movement class region pass for the category's movement
/// zone (linked cells share their zone), bridge zones after them, records
/// and the complete adjacency graph.
pub open spec fn class_zone_map_ok(
    r: (ZoneMap, ZoneAdjacency),
    grid: &PathGrid,
    terrain: &ResolvedTerrainGrid,
    cat: ZoneCategory,
    w: int,
    h: int,
) -> bool {
    let g = r.0.spec_zone_ids();
    let count = r.0.spec_zone_count() as int;
    &&& g.len() == w * h
    &&& forall|i: int| 0 <= i < g.len() ==> #[trigger] g[i] <= count
    &&& forall|cx: u16, cy: u16, nx: u16, ny: u16|
        #[trigger] class_linked(*grid, *terrain, w, h, cx, cy, nx, ny) ==> label_at(g, w, cx, cy) == label_at(g, w, nx, ny)
    &&& forall|x: u16, y: u16|
        x < w && y < h ==> ((#[trigger] label_at(g, w, x, y) == ZONE_INVALID) <==> !class_passable(
            spec_representative(cat),
            spec_movement_class(*grid, *terrain, x, y),
        ))
    &&& bridge_and_records_ok(r, grid, cat, w, h, 1)
}

/// No movement zone passes cells off the map.
proof fn lemma_outside_impassable(mz: MovementZone)
    ensures
        !class_passable(mz, MOVEMENT_CLASS_OUTSIDE),
{
    assert(MOVEMENT_CLASS_PASSABILITY@[movement_zone_row(mz)]@[7] == 3);
}

/// The class recorded for node `k` is the class of its cells, once all of
/// them share one.
proof fn lemma_node_class(classes: Seq<u8>, nodes: Seq<u16>, k: int, c: u8, upto: int)
    requires
        0 <= upto <= nodes.len(),
        nodes.len() <= classes.len(),
        c != MOVEMENT_CLASS_OUTSIDE,
        forall|t: int| 0 <= t < nodes.len() && #[trigger] nodes[t] == k ==> classes[t] == c,
    ensures
        spec_node_class(classes, nodes, k, upto) == (if exists|t: int| 0 <= t < upto && #[trigger] nodes[t] == k {
            c
        } else {
            MOVEMENT_CLASS_OUTSIDE
        }),
    decreases upto,
{
    if upto > 0 {
        lemma_node_class(classes, nodes, k, c, upto - 1);
        if exists|t: int| 0 <= t < upto - 1 && #[trigger] nodes[t] == k {
            let t = choose|t: int| 0 <= t < upto - 1 && #[trigger] nodes[t] == k;
            assert(0 <= t < upto && nodes[t] == k);
        } else if nodes[upto - 1] == k {
            assert(0 <= upto - 1 < upto && nodes[upto - 1] == k);
        } else {
            assert forall|t: int| 0 <= t < upto implies #[trigger] nodes[t] != k by {
                if t < upto - 1 {
                }
            }
        }
    }
}

/// A cell gets no ground zone exactly when the movement zone cannot pass its
/// movement class.
#[verifier::spinoff_prover]
#[verifier::rlimit(40)]
proof fn lemma_class_cell_label(
    cv: &Vec<u8>,
    grid: &PathGrid,
    nodes: Seq<u16>,
    raw: Seq<u16>,
    zone_ids: Seq<ZoneId>,
    node_count: int,
    mz: MovementZone,
    w: int,
    h: int,
    x: u16,
    y: u16,
)
    requires
        x < w <= 65535,
        y < h <= 65535,
        cv@.len() == w * h,
        zone_ids.len() == w * h,
        layer_labeled(nodes, node_rule(cv, grid), w, h, 1, node_count),
        labels_keyed(nodes, node_rule(cv, grid), w, h),
        raw.len() == node_count + 1,
        forall|k: int|
            1 <= k <= node_count ==> (#[trigger] raw[k] == 1) == !class_passable(
                mz,
                spec_node_class(cv@, nodes, k, nodes.len() as int),
            ) && raw[k] >= 1,
        forall|i: int| 0 <= i < w * h ==> (#[trigger] zone_ids[i] == ZONE_INVALID) == (raw_of(nodes, raw, i) <= 1),
    ensures
        (label_at(zone_ids, w, x, y) == ZONE_INVALID) == !class_passable(mz, class_at(cv@, w, x, y)),
{
    let rule = node_rule(cv, grid);
    let i = cell_index(x as int, y as int, w);
    lemma_index_in_bounds(x as int, y as int, w, h);
    lemma_index_coords(x as int, y as int, w);
    let c = class_at(cv@, w, x, y);
    assert(zone_ids[i] == ZONE_INVALID <==> raw_of(nodes, raw, i) <= 1);
    if c == MOVEMENT_CLASS_OUTSIDE {
        lemma_outside_impassable(mz);
        if nodes[i] != ZONE_INVALID {
            assert(rule_member(rule, w, (i % w) as u16, (i / w) as u16));
        }
    } else {
        assert(rule_member(rule, w, x, y));
        let k = nodes[i] as int;
        assert(k != 0);
        assert(k <= node_count);
        assert forall|t: int| 0 <= t < nodes.len() && #[trigger] nodes[t] == k implies cv@[t] == c by {
            lemma_index_decompose(t, w, h);
            assert(t % w <= 65535 && t / w <= 65535);
            let tx = (t % w) as u16;
            let ty = (t / w) as u16;
            assert(cell_index(tx as int, ty as int, w) == t);
            assert(label_at(nodes, w, tx, ty) == nodes[t]);
            assert(label_at(nodes, w, x, y) == nodes[i]);
            assert(rule_key(rule, w, x, y) == rule_key(rule, w, tx, ty));
        }
        lemma_node_class(cv@, nodes, k, c, nodes.len() as int);
        assert(0 <= i < nodes.len() && nodes[i] == k);
        assert(spec_node_class(cv@, nodes, k, nodes.len() as int) == c);
        assert(raw_of(nodes, raw, i) == raw[k] as int);
    }
}

/// Bridge zones (numbered from `next`), when the category walks bridges and
/// the grid has any.
fn bridge_layer(path_grid: &PathGrid, cat: ZoneCategory, width: u16, height: u16, next: ZoneId) -> (r: (Option<Vec<ZoneId>>, ZoneId))
    requires
        width as int * height as int <= 65534,
        1 <= next,
        next - 1 + bridge_cells(*path_grid, width as int, width as int * height as int) <= 65534,
    ensures
        next - 1 <= r.1,
        r.1 <= next as int + width as int * height as int,
        match r.0 {
            Some(b) => has_bridge_layer(cat) && any_bridge_cell(*path_grid, width as int, height as int) && layer_labeled(
                b@,
                bridge_rule(path_grid),
                width as int,
                height as int,
                next as int,
                r.1 as int,
            ) && r.1 >= next,
            None => (!has_bridge_layer(cat) || !any_bridge_cell(*path_grid, width as int, height as int)) && r.1 == next - 1,
        },
{
    let ghost w = width as int;
    let ghost h = height as int;
    let bridge_cat = cat == ZoneCategory::Land || cat == ZoneCategory::Infantry || cat == ZoneCategory::Amphibious;
    if !bridge_cat {
        return (None, next - 1);
    }
    let total = width as usize * height as usize;
    let mut bz = zero_labels(total);
    let bridge = FloodRule::Bridge { grid: path_grid };
    proof {
        lemma_zero_labels(bz@, bridge, w, h, next as int);
    }
    proof {
        lemma_unlabeled_members_bounds(bz@, bridge, width as int, width as int * height as int, 0);
        lemma_unlabeled_bridge_cells(bz@, path_grid, width as int, width as int * height as int);
    }
    let next_after = fill_all(&bridge, &mut bz, width, height, next);
    if next_after > next {
        let mut max_id: ZoneId = 0;
        let mut i: usize = 0;
        while i < total
            invariant
                i <= total,
                bz@.len() == total,
                forall|k: int| 0 <= k < total ==> #[trigger] bz@[k] < next_after,
                forall|k: int| 0 <= k < i ==> #[trigger] bz@[k] <= max_id,
                max_id < next_after,
            decreases total - i,
        {
            if bz[i] > max_id {
                max_id = bz[i];
            }
            i = i + 1;
        }
        proof {
            let k = choose|k: int| 0 <= k < total && #[trigger] bz@[k] != ZONE_INVALID;
            assert(w != 0) by {
                if w == 0 {
                    assert(w * h == 0);
                }
            }
            lemma_index_decompose(k, w, h);
            assert(rule_member(bridge, w, (k % w) as u16, (k / w) as u16));
            assert(any_bridge_cell(*path_grid, w, h));
            assert(bz@[k] <= max_id);
            assert forall|t: int| 0 <= t < bz@.len() && #[trigger] bz@[t] != ZONE_INVALID implies next <= bz@[t] by {
            }
            assert(labels_ok(bz@, bridge, w, max_id as int + 1));
        }
        (Some(bz), max_id)
    } else {
        proof {
            assert forall|x: u16, y: u16| x < w && y < h implies !#[trigger] path_grid.spec_walkable_on_layer(x, y, MovementLayer::Bridge) by {
                lemma_index_in_bounds(x as int, y as int, w, h);
                if path_grid.spec_walkable_on_layer(x, y, MovementLayer::Bridge) {
                    assert(rule_member(bridge, w, x, y));
                }
            }
        }
        (None, next - 1)
    }
}

/// Zone map of a category from movement classes: cells are grouped into
/// nodes of one movement class, nodes are joined through the node graph
/// when the category's movement zone passes them, and the groups are
/// numbered in order of first appearance.
#[verifier::rlimit(40)]
fn build_zone_map_with_movement_classes(
    path_grid: &PathGrid,
    resolved_terrain: &ResolvedTerrainGrid,
    cat: ZoneCategory,
    width: u16,
    height: u16,
) -> (r: (ZoneMap, ZoneAdjacency))
    requires
        zone_space_fits(*path_grid, width as int, height as int),
    ensures
        class_zone_map_ok(r, path_grid, resolved_terrain, cat, width as int, height as int),
{
    let ghost w = width as int;
    let ghost h = height as int;
    proof {
        lemma_zone_space_cells(*path_grid, w, h);
    }
    let total = width as usize * height as usize;
    let classes = movement_classes(path_grid, resolved_terrain, width, height);
    let (nodes, node_count) = rebuild_node_indices(&classes, path_grid, width, height);
    let node_adj = build_node_adjacency(nodes.as_slice(), width, height);
    let mz = cat.representative_movement_zone();
    proof {
        assert forall|i: int| 0 <= i < nodes@.len() implies #[trigger] nodes@[i] <= node_count by {
        }
    }
    let raw = rebuild_zone_ids_for_movement_zone(classes.as_slice(), nodes.as_slice(), node_count, &node_adj, mz);
    let (zone_ids, ground_count) = compact_raw_zone_ids(nodes.as_slice(), raw.as_slice(), total);
    let (bridge_zone_ids, bridge_count) = bridge_layer(path_grid, cat, width, height, ground_count + 1);
    let mut zone_count = ground_count;
    if bridge_zone_ids.is_some() && bridge_count > zone_count {
        zone_count = bridge_count;
    }
    proof {
        assert(zones_within(zone_ids@, zone_count as int));
        if w != 0 {
            assert(h <= w * h) by (nonlinear_arith)
                requires
                    w >= 1,
                    h >= 0,
            ;
        }
        let rule = node_rule(&classes, path_grid);
        assert forall|cx: u16, cy: u16, nx: u16, ny: u16|
            #[trigger] class_linked(*path_grid, *resolved_terrain, w, h, cx, cy, nx, ny) implies label_at(zone_ids@, w, cx, cy)
            == label_at(zone_ids@, w, nx, ny) by {
            assert(class_at(classes@, w, cx, cy) == spec_movement_class(*path_grid, *resolved_terrain, cx, cy));
            assert(class_at(classes@, w, nx, ny) == spec_movement_class(*path_grid, *resolved_terrain, nx, ny));
            assert(flood_allowed(rule, w, h, cx, cy, nx, ny));
            lemma_index_in_bounds(cx as int, cy as int, w, h);
            lemma_index_in_bounds(nx as int, ny as int, w, h);
            lemma_index_coords(cx as int, cy as int, w);
            assert(label_at(nodes@, w, cx, cy) != ZONE_INVALID);
            assert(label_at(nodes@, w, nx, ny) == label_at(nodes@, w, cx, cy));
            let i = cell_index(cx as int, cy as int, w);
            let j = cell_index(nx as int, ny as int, w);
            assert(raw_of(nodes@, raw@, i) == raw_of(nodes@, raw@, j));
            if zone_ids@[i] != ZONE_INVALID {
                assert(zone_ids@[j] != ZONE_INVALID);
            }
        }
        if bridge_zone_ids is Some {
            assert(zones_within(bridge_zone_ids->0@, zone_count as int));
        }
        assert forall|x: u16, y: u16| x < w && y < h implies ((#[trigger] label_at(zone_ids@, w, x, y) == ZONE_INVALID)
            <==> !class_passable(spec_representative(cat), spec_movement_class(*path_grid, *resolved_terrain, x, y))) by {
            lemma_class_cell_label(&classes, path_grid, nodes@, raw@, zone_ids@, node_count as int, mz, w, h, x, y);
        }
    }
    let adj = {
        let bslice: Option<&[ZoneId]> = match &bridge_zone_ids {
            Some(v) => Some(v.as_slice()),
            None => None,
        };
        extract_adjacency(zone_ids.as_slice(), bslice, path_grid, width, height, zone_count)
    };
    let info = {
        let bslice: Option<&[ZoneId]> = match &bridge_zone_ids {
            Some(v) => Some(v.as_slice()),
            None => None,
        };
        compute_zone_info(zone_ids.as_slice(), bslice, width, height, zone_count)
    };
    let zone_map = ZoneMap::new(zone_ids, bridge_zone_ids, width, height, zone_count, info);
    (zone_map, adj)
}

/// What `build_zone_map_with_terrain` returns.
pub open spec fn zone_map_built(
    r: (ZoneMap, ZoneAdjacency),
    grid: &PathGrid,
    cost: Option<&TerrainCostGrid>,
    terrain: Option<&ResolvedTerrainGrid>,
    cat: ZoneCategory,
    w: int,
    h: int,
) -> bool {
    match terrain {
        Some(t) => class_zone_map_ok(r, grid, t, cat, w, h),
        None => flood_zone_map_ok(r, grid, cost, cat, w, h),
    }
}

/// Build the zone map and adjacency graph of a category: from movement
/// classes when resolved terrain is given, else by flood fills over the
/// walkability grid (and the cost grid, if any). Zone ids are 16-bit: see
/// `zone_ids_fit` for the room the map must leave.
pub fn build_zone_map_with_terrain(
    path_grid: &PathGrid,
    cost_grid: Option<&TerrainCostGrid>,
    resolved_terrain: Option<&ResolvedTerrainGrid>,
    cat: ZoneCategory,
    width: u16,
    height: u16,
) -> (r: (ZoneMap, ZoneAdjacency))
    requires
        zone_ids_fit(path_grid, cost_grid, resolved_terrain, cat, width as int, height as int),
    ensures
        zone_map_built(r, path_grid, cost_grid, resolved_terrain, cat, width as int, height as int),
{
    if let Some(terrain) = resolved_terrain {
        return build_zone_map_with_movement_classes(path_grid, terrain, cat, width, height);
    }
    build_flood_zone_map(path_grid, cost_grid, cat, width, height)
}

/// Build the zone map of a category by flood fills over the walkability grid.
pub fn build_zone_map(
    path_grid: &PathGrid,
    cost_grid: Option<&TerrainCostGrid>,
    cat: ZoneCategory,
    width: u16,
    height: u16,
) -> (r: (ZoneMap, ZoneAdjacency))
    requires
        zone_ids_fit(path_grid, cost_grid, None, cat, width as int, height as int),
    ensures
        flood_zone_map_ok(r, path_grid, cost_grid, cat, width as int, height as int),
{
    build_zone_map_with_terrain(path_grid, cost_grid, None, cat, width, height)
}

} // verus!
