//! Incremental zone updates: when few cells change, the zones touching the
//! changed region are cleared and re-filled instead of rebuilding all maps.
//! Too many changes, resolved-terrain zoning or nearly exhausted zone ids
//! call for a full rebuild instead.

use crate::keys::{lemma_u16_keys_ordered, lemma_u8_keys_ordered, u16_keys_ordered, u8_keys_ordered};
use crate::map::ResolvedTerrainGrid;
use crate::movement::MovementLayer;
use crate::pathfinding::path_grid::PathGrid;
use crate::pathfinding::terrain_cost::TerrainCostGrid;
use crate::grid_index::{cell_index, chebyshev, lemma_index_in_bounds};
use crate::pathfinding::zone_build::{
    compute_zone_info, extract_adjacency, fill_all, flood_allowed, ground_rule, is_passable, label_at, labels_below,
    labels_closed, lemma_unlabeled_members_bounds, members_labeled, spec_zone_passable, zones_within, FloodRule,
};
use crate::pathfinding::zone_hierarchy::{neighbors_within, SuperZoneMap};
use crate::pathfinding::zone_map::{
    category_at, category_cost, category_consistent, spec_category_at, spec_category_index, ZoneCategory, ZoneGrid, ZoneId,
    ZoneMap, ZONE_INVALID,
};
use std::collections::{BTreeMap, BTreeSet};
use vstd::prelude::*;

verus! {

/// Most changed cells handled incrementally.
pub const INCREMENTAL_THRESHOLD: usize = 200;

/// Zone count from which a full rebuild compacts the ids instead.
pub const ZONE_ID_COMPACTION_THRESHOLD: u16 = 60_000;

/// Padding around the changed cells.
pub const BBOX_PADDING: u16 = 2;

/// Smallest and largest coordinates of the changed cells.
pub open spec fn spec_min_max(cells: Seq<(u16, u16)>, k: int) -> (int, int, int, int)
    decreases k,
{
    if k <= 0 {
        (65535, 65535, 0, 0)
    } else {
        let (a, b, c, d) = spec_min_max(cells, k - 1);
        let (x, y) = cells[k - 1];
        (
            if x < a { x as int } else { a },
            if y < b { y as int } else { b },
            if x > c { x as int } else { c },
            if y > d { y as int } else { d },
        )
    }
}

/// Bounding box of the changed cells padded by two cells on every side and
/// clamped to the map.
pub open spec fn spec_padded_bbox(cells: Seq<(u16, u16)>, width: u16, height: u16) -> (u16, u16, u16, u16) {
    let (a, b, c, d) = spec_min_max(cells, cells.len() as int);
    (
        (if a >= 2 { a - 2 } else { 0 }) as u16,
        (if b >= 2 { b - 2 } else { 0 }) as u16,
        (if c + 2 < width - 1 { c + 2 } else { width - 1 }) as u16,
        (if d + 2 < height - 1 { d + 2 } else { height - 1 }) as u16,
    )
}

/// Padded bounding box of the changed cells, clamped to the map.
pub fn padded_bbox(changed_cells: &[(u16, u16)], width: u16, height: u16) -> (r: (u16, u16, u16, u16))
    requires
        width >= 1,
        height >= 1,
        forall|k: int| 0 <= k < changed_cells@.len() ==> (#[trigger] changed_cells@[k]).0 < 65534 && changed_cells@[k].1 < 65534,
    ensures
        r == spec_padded_bbox(changed_cells@, width, height),
{
    let mut min_x: u16 = u16::MAX;
    let mut min_y: u16 = u16::MAX;
    let mut max_x: u16 = 0;
    let mut max_y: u16 = 0;
    let mut i: usize = 0;
    while i < changed_cells.len()
        invariant
            i <= changed_cells@.len(),
            forall|k: int| 0 <= k < changed_cells@.len() ==> (#[trigger] changed_cells@[k]).0 < 65534 && changed_cells@[k].1 < 65534,
            (min_x as int, min_y as int, max_x as int, max_y as int) == spec_min_max(changed_cells@, i as int),
            max_x < 65534,
            max_y < 65534,
        decreases changed_cells@.len() - i,
    {
        let (x, y) = changed_cells[i];
        if x < min_x {
            min_x = x;
        }
        if y < min_y {
            min_y = y;
        }
        if x > max_x {
            max_x = x;
        }
        if y > max_y {
            max_y = y;
        }
        i = i + 1;
    }
    let lo_x = if min_x >= BBOX_PADDING { min_x - BBOX_PADDING } else { 0 };
    let lo_y = if min_y >= BBOX_PADDING { min_y - BBOX_PADDING } else { 0 };
    let hi_x = if max_x + BBOX_PADDING < width - 1 { max_x + BBOX_PADDING } else { width - 1 };
    let hi_y = if max_y + BBOX_PADDING < height - 1 { max_y + BBOX_PADDING } else { height - 1 };
    (lo_x, lo_y, hi_x, hi_y)
}

/// Two grids of one size whose cells agree everywhere but at the listed cells.
pub open spec fn agree_outside(a: PathGrid, b: PathGrid, changed: Seq<(u16, u16)>) -> bool {
    &&& a.spec_width() == b.spec_width()
    &&& a.spec_height() == b.spec_height()
    &&& forall|x: u16, y: u16| !changed.contains((x, y)) ==> #[trigger] a.spec_cell(x, y) == b.spec_cell(x, y)
}

/// Whether `(x, y)` lies in the box `(min x, min y, max x, max y)`.
pub open spec fn in_box(b: (u16, u16, u16, u16), x: int, y: int) -> bool {
    b.0 <= x <= b.2 && b.1 <= y <= b.3
}

/// Every map cell within one step of a listed map cell lies in the box.
pub open spec fn box_covers(b: (u16, u16, u16, u16), changed: Seq<(u16, u16)>, w: int, h: int) -> bool {
    forall|k: int, x: int, y: int|
        #![trigger changed[k], in_box(b, x, y)]
        0 <= k < changed.len() && changed[k].0 < w && changed[k].1 < h && 0 <= x < w && 0 <= y < h && chebyshev(
            x,
            y,
            changed[k].0 as int,
            changed[k].1 as int,
        ) <= 1 ==> in_box(b, x, y)
}

/// The ground zones of a category's map (if any) are closed under the
/// links of `grid`: cells a step apart that the rule links share a zone.
pub open spec fn closed_under(m: Option<ZoneMap>, cat: ZoneCategory, grid: &PathGrid, cost: Option<&TerrainCostGrid>, w: int, h: int) -> bool {
    m matches Some(mm) ==> labels_closed(mm.spec_zone_ids(), ground_rule(cat, grid, cost, None), w, h)
}

proof fn lemma_min_max_bounds(cells: Seq<(u16, u16)>, n: int, k: int)
    requires
        0 <= k < n <= cells.len(),
    ensures
        spec_min_max(cells, n).0 <= cells[k].0 <= spec_min_max(cells, n).2,
        spec_min_max(cells, n).1 <= cells[k].1 <= spec_min_max(cells, n).3,
    decreases n,
{
    if k < n - 1 {
        lemma_min_max_bounds(cells, n - 1, k);
    }
}

/// The padded box covers the one-step neighbourhood of every changed map cell.
proof fn lemma_bbox_covers(cells: Seq<(u16, u16)>, width: u16, height: u16)
    requires
        width >= 1,
        height >= 1,
    ensures
        box_covers(spec_padded_bbox(cells, width, height), cells, width as int, height as int),
{
    let b = spec_padded_bbox(cells, width, height);
    assert forall|k: int, x: int, y: int|
        #![trigger cells[k], in_box(b, x, y)]
        0 <= k < cells.len() && cells[k].0 < width && cells[k].1 < height && 0 <= x < width && 0 <= y < height
            && chebyshev(x, y, cells[k].0 as int, cells[k].1 as int) <= 1 implies in_box(b, x, y) by {
        lemma_min_max_bounds(cells, cells.len() as int, k);
    }
}

/// A link of the new grid that involves no changed cell is a link of the
/// old grid.
proof fn lemma_link_local(
    cat: ZoneCategory,
    g_old: PathGrid,
    g_new: PathGrid,
    cost: Option<&TerrainCostGrid>,
    w: int,
    h: int,
    cx: u16,
    cy: u16,
    nx: u16,
    ny: u16,
)
    requires
        flood_allowed(ground_rule(cat, &g_new, cost, None), w, h, cx, cy, nx, ny),
        g_old.spec_width() == g_new.spec_width(),
        g_old.spec_height() == g_new.spec_height(),
        g_old.spec_cell(cx, cy) == g_new.spec_cell(cx, cy),
        g_old.spec_cell(nx, ny) == g_new.spec_cell(nx, ny),
        g_old.spec_cell(nx, cy) == g_new.spec_cell(nx, cy),
        g_old.spec_cell(cx, ny) == g_new.spec_cell(cx, ny),
    ensures
        flood_allowed(ground_rule(cat, &g_old, cost, None), w, h, cx, cy, nx, ny),
{
}

/// Clearing every zone that touches the box keeps the labels closed under
/// the new grid, when the box covers the changed cells' neighbourhoods and
/// the labels were closed under the old grid.
proof fn lemma_cleared_closed(
    old_ids: Seq<ZoneId>,
    cleared: Seq<ZoneId>,
    affected: Set<ZoneId>,
    bbox: (u16, u16, u16, u16),
    changed: Seq<(u16, u16)>,
    g_old: PathGrid,
    g_new: PathGrid,
    cat: ZoneCategory,
    cost: Option<&TerrainCostGrid>,
    w: int,
    h: int,
)
    requires
        old_ids.len() == w * h,
        cleared.len() == w * h,
        forall|k: int| 0 <= k < w * h ==> #[trigger] cleared[k] == if affected.contains(old_ids[k]) {
            ZONE_INVALID
        } else {
            old_ids[k]
        },
        forall|x: int, y: int|
            0 <= x < w && 0 <= y < h && in_box(bbox, x, y) && #[trigger] old_ids[cell_index(x, y, w)] != ZONE_INVALID
                ==> affected.contains(old_ids[cell_index(x, y, w)]),
        box_covers(bbox, changed, w, h),
        agree_outside(g_old, g_new, changed),
        labels_closed(old_ids, ground_rule(cat, &g_old, cost, None), w, h),
    ensures
        labels_closed(cleared, ground_rule(cat, &g_new, cost, None), w, h),
{
    let rn = ground_rule(cat, &g_new, cost, None);
    let ro = ground_rule(cat, &g_old, cost, None);
    assert forall|cx: u16, cy: u16, nx: u16, ny: u16|
        #[trigger] flood_allowed(rn, w, h, cx, cy, nx, ny) && label_at(cleared, w, cx, cy) != ZONE_INVALID implies label_at(
            cleared,
            w,
            nx,
            ny,
        ) == label_at(cleared, w, cx, cy) by {
        lemma_index_in_bounds(cx as int, cy as int, w, h);
        lemma_index_in_bounds(nx as int, ny as int, w, h);
        let ic = cell_index(cx as int, cy as int, w);
        let ineighbor = cell_index(nx as int, ny as int, w);
        let lbl = old_ids[ic];
        assert(cleared[ic] == lbl);
        assert(!affected.contains(lbl));
        assert(lbl != ZONE_INVALID);
        assert(!in_box(bbox, cx as int, cy as int));
        let quad = seq![(cx, cy), (nx, ny), (nx, cy), (cx, ny)];
        assert forall|j: int| 0 <= j < 4 implies !changed.contains(#[trigger] quad[j]) by {
            if changed.contains(quad[j]) {
                let k = choose|k: int| 0 <= k < changed.len() && changed[k] == quad[j];
                assert(changed[k].0 < w && changed[k].1 < h);
                assert(chebyshev(cx as int, cy as int, changed[k].0 as int, changed[k].1 as int) <= 1);
                assert(in_box(bbox, cx as int, cy as int));
            }
        }
        assert(!changed.contains(quad[0]));
        assert(!changed.contains(quad[1]));
        assert(!changed.contains(quad[2]));
        assert(!changed.contains(quad[3]));
        assert(g_old.spec_cell(cx, cy) == g_new.spec_cell(cx, cy));
        assert(g_old.spec_cell(nx, ny) == g_new.spec_cell(nx, ny));
        assert(g_old.spec_cell(nx, cy) == g_new.spec_cell(nx, cy));
        assert(g_old.spec_cell(cx, ny) == g_new.spec_cell(cx, ny));
        lemma_link_local(cat, g_old, g_new, cost, w, h, cx, cy, nx, ny);
        assert(flood_allowed(ro, w, h, cx, cy, nx, ny));
        assert(label_at(old_ids, w, cx, cy) == lbl);
        assert(label_at(old_ids, w, nx, ny) == lbl);
        assert(cleared[ineighbor] == lbl);
    }
}

/// Copy of a label array.
fn copy_ids(s: &[ZoneId]) -> (r: Vec<ZoneId>)
    ensures
        r@ == s@,
{
    let mut v: Vec<ZoneId> = Vec::new();
    let mut i: usize = 0;
    while i < s.len()
        invariant
            i <= s@.len(),
            v@ == s@.take(i as int),
        decreases s@.len() - i,
    {
        proof {
            assert(s@.take(i as int + 1) =~= s@.take(i as int).push(s@[i as int]));
        }
        v.push(s[i]);
        i = i + 1;
    }
    proof {
        assert(s@.take(s@.len() as int) =~= s@);
    }
    v
}

/// What a successful update of a category leaves: a consistent category
/// whose ground zones cover every cell passable on the new grid.
pub open spec fn category_refilled(zg: ZoneGrid, cat: ZoneCategory, grid: &PathGrid, cost: Option<&TerrainCostGrid>) -> bool {
    zg.spec_map(cat) matches Some(m) ==> members_labeled(
        m.spec_zone_ids(),
        ground_rule(cat, grid, cost, None),
        zg.spec_width() as int,
        zg.spec_height() as int,
    )
}

/// Update the zones of one category; `false` asks for a full rebuild.
#[verifier::rlimit(60)]
fn update_category(
    zone_grid: &mut ZoneGrid,
    cat: ZoneCategory,
    bbox: (u16, u16, u16, u16),
    changed_cells: &[(u16, u16)],
    path_grid: &PathGrid,
    terrain_costs: &BTreeMap<u8, TerrainCostGrid>,
    width: u16,
    height: u16,
) -> (r: bool)
    requires
        old(zone_grid).wf(),
        cat != ZoneCategory::Fly,
        width == old(zone_grid).spec_width(),
        height == old(zone_grid).spec_height(),
        width as int * height as int <= 65534,
        bbox.2 < width,
        bbox.3 < height,
        old(zone_grid).spec_map(cat) matches Some(m) ==> m.spec_zone_count() >= 60_000 || m.spec_zone_count() as int
            + width as int * height as int <= 65534,
        box_covers(bbox, changed_cells@, width as int, height as int),
    ensures
        r ==> forall|g: PathGrid|
            agree_outside(g, *path_grid, changed_cells@) && #[trigger] closed_under(
                old(zone_grid).spec_map(cat),
                cat,
                &g,
                category_cost(terrain_costs@, cat),
                width as int,
                height as int,
            ) ==> closed_under(
                final(zone_grid).spec_map(cat),
                cat,
                path_grid,
                category_cost(terrain_costs@, cat),
                width as int,
                height as int,
            ),
        final(zone_grid).wf(),
        final(zone_grid).spec_width() == old(zone_grid).spec_width(),
        final(zone_grid).spec_height() == old(zone_grid).spec_height(),
        forall|c: ZoneCategory|
            c != cat ==> #[trigger] final(zone_grid).spec_map(c) == old(zone_grid).spec_map(c) && final(zone_grid).spec_adjacency(c)
                == old(zone_grid).spec_adjacency(c) && final(zone_grid).spec_super(c) == old(zone_grid).spec_super(c),
        r <==> !(old(zone_grid).spec_map(cat) matches Some(m) && m.spec_zone_count() >= 60_000),
        !r || old(zone_grid).spec_map(cat) is None ==> *final(zone_grid) == *old(zone_grid),
        r ==> (final(zone_grid).spec_map(cat) is Some) == (old(zone_grid).spec_map(cat) is Some),
        r && final(zone_grid).spec_map(cat) != old(zone_grid).spec_map(cat) ==> category_refilled(
            *final(zone_grid),
            cat,
            path_grid,
            category_cost(terrain_costs@, cat),
        ),
{
    let ghost w = width as int;
    let ghost h = height as int;
    proof {
        lemma_u8_keys_ordered();
        lemma_u16_keys_ordered();
    }
    let cost_grid = terrain_costs.get(&cat.speed_type().index());
    proof {
        assert(cost_grid == category_cost(terrain_costs@, cat));
    }
    let zone_map = match zone_grid.map_for(cat) {
        None => {
            return true;
        },
        Some(m) => m,
    };
    proof {
        assert(category_consistent(
            *zone_map,
            zone_grid.spec_adjacency(cat),
            zone_grid.spec_super(cat),
            w,
            h,
        ));
    }
    let old_count = zone_map.count();
    if old_count >= ZONE_ID_COMPACTION_THRESHOLD {
        return false;
    }
    let ids = zone_map.zone_ids_slice();
    let ids_len = ids.len();
    let mut affected: BTreeSet<ZoneId> = BTreeSet::new();
    let mut ry: u32 = bbox.1 as u32;
    while ry <= bbox.3 as u32
        invariant
            bbox.2 < width,
            bbox.3 < height,
            bbox.1 <= ry,
            ry <= bbox.3 as int + 1 || ry == bbox.1,
            ids_len == ids@.len(),
            ids@.len() == w * h,
            w == width as int,
            h == height as int,
            u16_keys_ordered(),
            forall|x: int, y: int|
                0 <= x < w && 0 <= y < h && in_box(bbox, x, y) && y < ry && #[trigger] ids@[cell_index(x, y, w)]
                    != ZONE_INVALID ==> affected@.contains(ids@[cell_index(x, y, w)]),
        decreases bbox.3 as int + 1 - ry,
    {
        let mut rx: u32 = bbox.0 as u32;
        while rx <= bbox.2 as u32
            invariant
                bbox.2 < width,
                bbox.1 <= ry <= bbox.3,
                bbox.3 < height,
                bbox.0 <= rx,
                rx <= bbox.2 as int + 1 || rx == bbox.0,
                ids_len == ids@.len(),
                ids@.len() == w * h,
                w == width as int,
                h == height as int,
                u16_keys_ordered(),
                forall|x: int, y: int|
                    0 <= x < w && 0 <= y < h && in_box(bbox, x, y) && (y < ry || (y == ry && x < rx))
                        && #[trigger] ids@[cell_index(x, y, w)] != ZONE_INVALID ==> affected@.contains(
                        ids@[cell_index(x, y, w)],
                    ),
            decreases bbox.2 as int + 1 - rx,
        {
            proof {
                crate::grid_index::lemma_index_in_bounds(rx as int, ry as int, w, h);
            }
            let zid = ids[ry as usize * width as usize + rx as usize];
            if zid != ZONE_INVALID {
                affected.insert(zid);
            }
            rx = rx + 1;
        }
        ry = ry + 1;
    }
    proof {
        assert forall|x: int, y: int|
            0 <= x < w && 0 <= y < h && in_box(bbox, x, y) && #[trigger] ids@[cell_index(x, y, w)] != ZONE_INVALID implies affected@.contains(
            ids@[cell_index(x, y, w)],
        ) by {
            assert(y < ry);
        }
    }
    if affected.is_empty() {
        let mut any_new_passable = false;
        let mut i: usize = 0;
        while i < changed_cells.len()
            invariant
                i <= changed_cells@.len(),
            decreases changed_cells@.len() - i,
        {
            let (cx, cy) = changed_cells[i];
            if is_passable(cx, cy, cat, path_grid, cost_grid, None, MovementLayer::Ground) {
                any_new_passable = true;
            }
            i = i + 1;
        }
        if !any_new_passable {
            proof {
                assert forall|g: PathGrid|
                    agree_outside(g, *path_grid, changed_cells@) && #[trigger] closed_under(
                        zone_grid.spec_map(cat),
                        cat,
                        &g,
                        cost_grid,
                        w,
                        h,
                    ) implies closed_under(zone_grid.spec_map(cat), cat, path_grid, cost_grid, w, h) by {
                    assert forall|k: int| 0 <= k < w * h implies #[trigger] ids@[k] == if affected@.contains(ids@[k]) {
                        ZONE_INVALID
                    } else {
                        ids@[k]
                    } by {}
                    lemma_cleared_closed(ids@, ids@, affected@, bbox, changed_cells@, g, *path_grid, cat, cost_grid, w, h);
                }
            }
            return true;
        }
    }
    let mut new_ids = copy_ids(ids);
    let mut i: usize = 0;
    while i < new_ids.len()
        invariant
            i <= new_ids@.len(),
            new_ids@.len() == ids@.len(),
            forall|k: int| 0 <= k < ids@.len() ==> #[trigger] ids@[k] <= old_count,
            forall|k: int| 0 <= k < new_ids@.len() ==> #[trigger] new_ids@[k] <= old_count,
            forall|k: int| 0 <= k < i ==> #[trigger] new_ids@[k] == if affected@.contains(ids@[k]) {
                ZONE_INVALID
            } else {
                ids@[k]
            },
            forall|k: int| i <= k < new_ids@.len() ==> #[trigger] new_ids@[k] == ids@[k],
            u16_keys_ordered(),
        decreases new_ids@.len() - i,
    {
        if affected.contains(&new_ids[i]) {
            new_ids.set(i, ZONE_INVALID);
        }
        i = i + 1;
    }
    let ghost cleared = new_ids@;
    let rule = FloodRule::Ground { cat, grid: path_grid, cost: cost_grid, terrain: None };
    proof {
        lemma_unlabeled_members_bounds(new_ids@, rule, width as int, width as int * height as int, 0);
    }
    let next_zone = fill_all(&rule, &mut new_ids, width, height, old_count + 1);
    proof {
        assert(rule == ground_rule(cat, path_grid, cost_grid, None));
        assert forall|g: PathGrid|
            agree_outside(g, *path_grid, changed_cells@) && #[trigger] closed_under(
                zone_grid.spec_map(cat),
                cat,
                &g,
                cost_grid,
                w,
                h,
            ) implies labels_closed(new_ids@, ground_rule(cat, path_grid, cost_grid, None), w, h) by {
            lemma_cleared_closed(ids@, cleared, affected@, bbox, changed_cells@, g, *path_grid, cat, cost_grid, w, h);
        }
    }
    let new_count = next_zone - 1;
    let bridge = match zone_map.bridge_ids_slice() {
        Some(b) => Some(copy_ids(b)),
        None => None,
    };
    proof {
        assert(zones_within(new_ids@, new_count as int));
        if bridge is Some {
            assert(zones_within(bridge->0@, new_count as int));
        }
    }
    let adj = {
        let bslice: Option<&[ZoneId]> = match &bridge {
            Some(v) => Some(v.as_slice()),
            None => None,
        };
        extract_adjacency(new_ids.as_slice(), bslice, path_grid, width, height, new_count)
    };
    proof {
        assert forall|z: ZoneId, k: int|
            1 <= z <= new_count && 0 <= k < adj.spec_neighbors(z).len() implies #[trigger] adj.spec_neighbors(z)[k]
            <= new_count by {
            assert(adj.neighbors@[z as int]@[k] <= new_count);
        }
    }
    let info = {
        let bslice: Option<&[ZoneId]> = match &bridge {
            Some(v) => Some(v.as_slice()),
            None => None,
        };
        proof {
            if w != 0 {
                assert(h <= w * h) by (nonlinear_arith)
                    requires
                        w >= 1,
                        h >= 0,
                ;
            }
        }
        compute_zone_info(new_ids.as_slice(), bslice, width, height, new_count)
    };
    let sz = SuperZoneMap::from_adjacency(&adj, new_count);
    let new_map = ZoneMap::new(new_ids, bridge, width, height, new_count, info);
    let ghost before = *zone_grid;
    zone_grid.set_category(cat, new_map, adj, sz);
    proof {
        assert forall|c: ZoneCategory|
            c != ZoneCategory::Fly && #[trigger] zone_grid.spec_map(c) is Some implies category_consistent(
            zone_grid.spec_map(c)->0,
            zone_grid.spec_adjacency(c),
            zone_grid.spec_super(c),
            zone_grid.spec_width() as int,
            zone_grid.spec_height() as int,
        ) by {
            if c != cat {
                assert(before.spec_map(c) is Some);
            }
        }
    }
    true
}

/// Try to update the zones after `changed_cells` changed on `path_grid`.
/// Returns `true` when done (nothing changed, or every category updated)
/// and `false` when a full rebuild is needed: resolved-terrain zoning, more
/// than 200 changed cells, or a category whose zone ids near exhaustion.
pub fn try_incremental_update(
    zone_grid: &mut ZoneGrid,
    changed_cells: &[(u16, u16)],
    path_grid: &PathGrid,
    terrain_costs: &BTreeMap<u8, TerrainCostGrid>,
    resolved_terrain: Option<&ResolvedTerrainGrid>,
) -> (r: bool)
    requires
        old(zone_grid).wf(),
        old(zone_grid).spec_width() as int * old(zone_grid).spec_height() as int <= 65534,
        changed_cells@.len() > 0 && resolved_terrain is None && changed_cells@.len() <= 200 ==> old(zone_grid).spec_width()
            >= 1 && old(zone_grid).spec_height() >= 1 && forall|k: int|
            0 <= k < changed_cells@.len() ==> (#[trigger] changed_cells@[k]).0 < 65534 && changed_cells@[k].1 < 65534,
        forall|cat: ZoneCategory|
            #[trigger] old(zone_grid).spec_map(cat) matches Some(m) ==> m.spec_zone_count() >= 60_000
                || m.spec_zone_count() as int + old(zone_grid).spec_width() as int * old(zone_grid).spec_height() as int
                <= 65534,
    ensures
        final(zone_grid).wf(),
        final(zone_grid).spec_width() == old(zone_grid).spec_width(),
        final(zone_grid).spec_height() == old(zone_grid).spec_height(),
        changed_cells@.len() == 0 ==> r && *final(zone_grid) == *old(zone_grid),
        changed_cells@.len() > 0 && resolved_terrain is Some ==> !r && *final(zone_grid) == *old(zone_grid),
        changed_cells@.len() > 200 ==> !r && *final(zone_grid) == *old(zone_grid),
        changed_cells@.len() > 0 && changed_cells@.len() <= 200 && resolved_terrain is None ==> (r <==> forall|
            cat: ZoneCategory,
        |
            cat != ZoneCategory::Fly ==> (#[trigger] old(zone_grid).spec_map(cat) matches Some(m) ==> m.spec_zone_count()
                < 60_000)),
        r ==> forall|cat: ZoneCategory|
            cat != ZoneCategory::Fly ==> #[trigger] final(zone_grid).spec_map(cat) == old(zone_grid).spec_map(cat)
                || category_refilled(*final(zone_grid), cat, path_grid, category_cost(terrain_costs@, cat)),
        r ==> forall|cat: ZoneCategory, g: PathGrid|
            cat != ZoneCategory::Fly && agree_outside(g, *path_grid, changed_cells@) && #[trigger] closed_under(
                old(zone_grid).spec_map(cat),
                cat,
                &g,
                category_cost(terrain_costs@, cat),
                old(zone_grid).spec_width() as int,
                old(zone_grid).spec_height() as int,
            ) ==> closed_under(
                final(zone_grid).spec_map(cat),
                cat,
                path_grid,
                category_cost(terrain_costs@, cat),
                old(zone_grid).spec_width() as int,
                old(zone_grid).spec_height() as int,
            ),
{
    if changed_cells.len() == 0 {
        proof {
            let w = zone_grid.spec_width() as int;
            let h = zone_grid.spec_height() as int;
            assert forall|cat: ZoneCategory, g: PathGrid|
                cat != ZoneCategory::Fly && agree_outside(g, *path_grid, changed_cells@) && #[trigger] closed_under(
                    zone_grid.spec_map(cat),
                    cat,
                    &g,
                    category_cost(terrain_costs@, cat),
                    w,
                    h,
                ) implies closed_under(zone_grid.spec_map(cat), cat, path_grid, category_cost(terrain_costs@, cat), w, h) by {
                if zone_grid.spec_map(cat) is Some {
                    let ids = zone_grid.spec_map(cat)->0.spec_zone_ids();
                    assert(category_consistent(
                        zone_grid.spec_map(cat)->0,
                        zone_grid.spec_adjacency(cat),
                        zone_grid.spec_super(cat),
                        w,
                        h,
                    ));
                    lemma_cleared_closed(
                        ids,
                        ids,
                        Set::empty(),
                        (1, 1, 0, 0),
                        changed_cells@,
                        g,
                        *path_grid,
                        cat,
                        category_cost(terrain_costs@, cat),
                        w,
                        h,
                    );
                }
            }
        }
        return true;
    }
    if resolved_terrain.is_some() {
        return false;
    }
    if changed_cells.len() > INCREMENTAL_THRESHOLD {
        return false;
    }
    let width = zone_grid.grid_width();
    let height = zone_grid.grid_height();
    let bbox = padded_bbox(changed_cells, width, height);
    proof {
        lemma_bbox_covers(changed_cells@, width, height);
    }
    let ghost orig = *zone_grid;
    let mut i: usize = 0;
    while i < 5
        invariant
            i <= 5,
            orig == *old(zone_grid),
            changed_cells@.len() > 0,
            changed_cells@.len() <= 200,
            resolved_terrain is None,
            forall|cat: ZoneCategory|
                #[trigger] zone_grid.spec_map(cat) == orig.spec_map(cat) ==> (zone_grid.spec_map(cat) matches Some(m)
                    ==> m.spec_zone_count() >= 60_000 || m.spec_zone_count() as int + width as int * height as int
                    <= 65534),
            forall|cat: ZoneCategory|
                spec_category_index(cat) >= i && cat != ZoneCategory::Fly ==> #[trigger] zone_grid.spec_map(cat) == orig.spec_map(cat),
            forall|cat: ZoneCategory|
                spec_category_index(cat) < i ==> (#[trigger] orig.spec_map(cat) matches Some(m) ==> m.spec_zone_count()
                    < 60_000),
            zone_grid.wf(),
            zone_grid.spec_width() == orig.spec_width(),
            zone_grid.spec_height() == orig.spec_height(),
            width == orig.spec_width(),
            height == orig.spec_height(),
            width as int * height as int <= 65534,
            bbox.2 < width,
            bbox.3 < height,
            forall|cat: ZoneCategory|
                cat != ZoneCategory::Fly ==> #[trigger] zone_grid.spec_map(cat) == orig.spec_map(cat)
                    || category_refilled(*zone_grid, cat, path_grid, category_cost(terrain_costs@, cat)),
            box_covers(bbox, changed_cells@, width as int, height as int),
            forall|cat: ZoneCategory, g: PathGrid|
                spec_category_index(cat) < i && cat != ZoneCategory::Fly && agree_outside(g, *path_grid, changed_cells@)
                    && #[trigger] closed_under(
                    orig.spec_map(cat),
                    cat,
                    &g,
                    category_cost(terrain_costs@, cat),
                    width as int,
                    height as int,
                ) ==> closed_under(
                    zone_grid.spec_map(cat),
                    cat,
                    path_grid,
                    category_cost(terrain_costs@, cat),
                    width as int,
                    height as int,
                ),
        decreases 5 - i,
    {
        let cat = category_at(i);
        let ghost before = *zone_grid;
        if !update_category(zone_grid, cat, bbox, changed_cells, path_grid, terrain_costs, width, height) {
            proof {
                assert(spec_category_index(cat) == i);
                assert(before.spec_map(cat) == orig.spec_map(cat));
            }
            return false;
        }
        proof {
            assert(before.spec_map(cat) == orig.spec_map(cat));
            assert forall|c: ZoneCategory|
                spec_category_index(c) < i + 1 implies (#[trigger] orig.spec_map(c) matches Some(m) ==> m.spec_zone_count()
                < 60_000) by {
                if spec_category_index(c) == i {
                    assert(c == cat);
                }
            }
            assert forall|c: ZoneCategory|
                c != ZoneCategory::Fly implies #[trigger] zone_grid.spec_map(c) == orig.spec_map(c) || category_refilled(
                *zone_grid,
                c,
                path_grid,
                category_cost(terrain_costs@, c),
            ) by {
                if c != cat {
                    assert(zone_grid.spec_map(c) == before.spec_map(c));
                    if before.spec_map(c) != orig.spec_map(c) {
                        assert(category_refilled(before, c, path_grid, category_cost(terrain_costs@, c)));
                    }
                }
            }
            assert(spec_category_index(cat) == i);
            assert forall|c: ZoneCategory, g: PathGrid|
                spec_category_index(c) < i + 1 && c != ZoneCategory::Fly && agree_outside(g, *path_grid, changed_cells@)
                    && #[trigger] closed_under(
                    orig.spec_map(c),
                    c,
                    &g,
                    category_cost(terrain_costs@, c),
                    width as int,
                    height as int,
                ) implies closed_under(
                    zone_grid.spec_map(c),
                    c,
                    path_grid,
                    category_cost(terrain_costs@, c),
                    width as int,
                    height as int,
                ) by {
                if c == cat {
                    assert(before.spec_map(c) == orig.spec_map(c));
                    assert(closed_under(before.spec_map(c), c, &g, category_cost(terrain_costs@, c), width as int, height as int));
                } else {
                    assert(zone_grid.spec_map(c) == before.spec_map(c));
                    assert(closed_under(before.spec_map(c), c, path_grid, category_cost(terrain_costs@, c), width as int, height as int));
                }
            }
        }
        i = i + 1;
    }
    proof {
        assert forall|c: ZoneCategory|
            c != ZoneCategory::Fly implies (#[trigger] old(zone_grid).spec_map(c) matches Some(m) ==> m.spec_zone_count()
            < 60_000) by {
            assert(spec_category_index(c) < 5);
        }
    }
    true
}

} // verus!
