//! Per-speed-type terrain cost grid for variable-cost path search.
//!
//! Each cell holds a speed modifier: 0 = blocked, 100 = normal, below 100 =
//! slow terrain. Path search scales a step's cost by `100 / cost`.

use crate::grid_index::{cell_index, lemma_index_in_bounds};
use crate::map::{lookup_is_cliff, lookup_is_water, spec_tile_id, tile_id_of, MapCell, ResolvedTerrainCell, ResolvedTerrainGrid, TilesetLookup};
use crate::pathfinding::passability::{is_passable_for_speed_type, spec_passable_for_speed_type};
use crate::rules::SpeedType;
use vstd::prelude::*;

verus! {

/// Normal terrain speed.
pub const COST_NORMAL: u8 = 100;

/// Rough terrain for tracked units.
pub const COST_ROUGH: u8 = 75;

/// Blocked for this speed type.
pub const COST_BLOCKED: u8 = 0;

/// Cost of a cell from its speed type and tile classes (roads cost the same
/// as clear terrain).
pub open spec fn spec_classify_terrain_cost(st: SpeedType, is_water: bool, is_cliff: bool, is_rough: bool) -> u8 {
    match st {
        SpeedType::Foot => if is_water || is_cliff {
            COST_BLOCKED
        } else if is_rough {
            90
        } else {
            COST_NORMAL
        },
        SpeedType::Track => if is_water || is_cliff {
            COST_BLOCKED
        } else if is_rough {
            COST_ROUGH
        } else {
            COST_NORMAL
        },
        SpeedType::Wheel => if is_water || is_cliff {
            COST_BLOCKED
        } else if is_rough {
            60
        } else {
            COST_NORMAL
        },
        SpeedType::Float | SpeedType::FloatBeach | SpeedType::Hover | SpeedType::Amphibious => if is_cliff {
            COST_BLOCKED
        } else {
            COST_NORMAL
        },
        SpeedType::Winged => COST_NORMAL,
    }
}

/// Terrain cost of a cell for a speed type and its tile classification.
pub fn classify_terrain_cost(speed_type: SpeedType, is_water: bool, is_cliff: bool, is_rough: bool, _is_road: bool) -> (r: u8)
    ensures
        r == spec_classify_terrain_cost(speed_type, is_water, is_cliff, is_rough),
{
    match speed_type {
        SpeedType::Foot => {
            if is_water || is_cliff {
                COST_BLOCKED
            } else if is_rough {
                90
            } else {
                COST_NORMAL
            }
        },
        SpeedType::Track => {
            if is_water || is_cliff {
                COST_BLOCKED
            } else if is_rough {
                COST_ROUGH
            } else {
                COST_NORMAL
            }
        },
        SpeedType::Wheel => {
            if is_water || is_cliff {
                COST_BLOCKED
            } else if is_rough {
                60
            } else {
                COST_NORMAL
            }
        },
        SpeedType::Float | SpeedType::FloatBeach | SpeedType::Hover => {
            if is_cliff {
                COST_BLOCKED
            } else {
                COST_NORMAL
            }
        },
        SpeedType::Amphibious => {
            if is_cliff {
                COST_BLOCKED
            } else {
                COST_NORMAL
            }
        },
        SpeedType::Winged => COST_NORMAL,
    }
}

/// ASCII lowercase of a byte.
pub open spec fn lower(b: u8) -> u8 {
    if 65 <= b <= 90 {
        (b + 32) as u8
    } else {
        b
    }
}

/// Whether `needle` occurs in the ASCII-lowercased `hay` at position `i`.
pub open spec fn occurs_at(hay: Seq<u8>, needle: Seq<u8>, i: int) -> bool {
    0 <= i && i + needle.len() <= hay.len() && forall|j: int|
        0 <= j < needle.len() ==> lower(#[trigger] hay[i + j]) == needle[j]
}

/// Whether `needle` occurs anywhere in the ASCII-lowercased `hay`.
pub open spec fn contains_lowered(hay: Seq<u8>, needle: Seq<u8>) -> bool {
    exists|i: int| occurs_at(hay, needle, i)
}

/// The lowercase ASCII bytes of "rough".
pub open spec fn rough_bytes() -> Seq<u8> {
    seq![114u8, 111, 117, 103, 104]
}

/// Case-insensitive substring search of `needle` in `hay`.
pub fn contains_ignore_ascii_case(hay: &[u8], needle: &[u8]) -> (r: bool)
    ensures
        r == contains_lowered(hay@, needle@),
{
    let n = hay.len();
    let m = needle.len();
    if m > n {
        proof {
            assert forall|i: int| !occurs_at(hay@, needle@, i) by {}
        }
        return false;
    }
    let mut i: usize = 0;
    while i <= n - m
        invariant
            n == hay@.len(),
            m == needle@.len(),
            m <= n,
            i <= n - m + 1,
            forall|k: int| 0 <= k < i ==> !occurs_at(hay@, needle@, k),
        decreases n - m + 1 - i,
    {
        let mut j: usize = 0;
        while j < m && lower_byte(hay[i + j]) == needle[j]
            invariant
                n == hay@.len(),
                m == needle@.len(),
                i + m <= n,
                j <= m,
                forall|t: int| 0 <= t < j ==> lower(#[trigger] hay@[i + t]) == needle@[t],
            decreases m - j,
        {
            j = j + 1;
        }
        if j == m {
            proof {
                assert(occurs_at(hay@, needle@, i as int));
            }
            return true;
        }
        proof {
            assert(lower(hay@[i + j]) != needle@[j as int]);
            assert(!occurs_at(hay@, needle@, i as int));
        }
        i = i + 1;
    }
    proof {
        assert forall|k: int| !occurs_at(hay@, needle@, k) by {
            if k >= i {
                assert(k + m > n);
            }
        }
    }
    false
}

/// ASCII lowercase of a byte.
pub fn lower_byte(b: u8) -> (r: u8)
    ensures
        r == lower(b),
{
    if 65u8 <= b && b <= 90u8 {
        b + 32
    } else {
        b
    }
}

/// Per-cell speed modifiers for one speed type, row-major.
#[derive(Debug)]
pub struct TerrainCostGrid {
    costs: Vec<u8>,
    width: u16,
    height: u16,
}

/// Index a map cell writes in `TerrainCostGrid::build`: it has a tile and
/// lies inside the map.
pub open spec fn build_target(c: MapCell, w: u16, h: u16) -> Option<int> {
    if c.tile_index >= 0 && c.rx < w && c.ry < h {
        Some(cell_index(c.rx as int, c.ry as int, w as int))
    } else {
        None
    }
}

/// Whether a lookup gives tile `id` a set name containing "rough" (any case).
pub open spec fn lookup_is_rough(l: Option<&TilesetLookup>, id: u16) -> bool {
    match l {
        Some(t) => match t.spec_set_name(id) {
            Some(n) => contains_lowered(n, rough_bytes()),
            None => false,
        },
        None => false,
    }
}

/// Cost a map cell contributes for a speed type.
pub open spec fn map_cell_cost(c: MapCell, l: Option<&TilesetLookup>, st: SpeedType) -> u8 {
    let id = spec_tile_id(c);
    spec_classify_terrain_cost(st, lookup_is_water(l, id), lookup_is_cliff(l, id), lookup_is_rough(l, id))
}

/// Cost at index `i` after the first `n` map cells were applied in order:
/// the last cell that targets `i` wins; untouched cells are blocked.
pub open spec fn built_cost(cells: Seq<MapCell>, l: Option<&TilesetLookup>, st: SpeedType, w: u16, h: u16, n: int, i: int) -> u8
    decreases n,
{
    if n <= 0 {
        COST_BLOCKED
    } else if build_target(cells[n - 1], w, h) == Some(i) {
        map_cell_cost(cells[n - 1], l, st)
    } else {
        built_cost(cells, l, st, w, h, n - 1, i)
    }
}

/// Cost of a resolved terrain cell for a speed type: bridge decks are
/// normal, cliffs and blockers are blocked, then the rules' speed percentage,
/// then the passability matrix, then the tile classification.
pub open spec fn resolved_cost(cell: ResolvedTerrainCell, st: SpeedType) -> u8 {
    let hard_blocked = cell.is_cliff_like || cell.overlay_blocks || cell.terrain_object_blocks;
    if cell.has_bridge_deck && !cell.overlay_blocks {
        COST_NORMAL
    } else if hard_blocked {
        COST_BLOCKED
    } else if cell.speed_costs.spec_cost_for(st) is Some {
        cell.speed_costs.spec_cost_for(st)->0
    } else if !spec_passable_for_speed_type(cell.land_type, st) {
        COST_BLOCKED
    } else {
        spec_classify_terrain_cost(st, cell.is_water, cell.ground_walk_blocked, cell.is_rough)
    }
}

/// Index a resolved cell writes: its own coordinates, when inside the grid's storage.
pub open spec fn resolved_target(cell: ResolvedTerrainCell, w: u16, len: int) -> Option<int> {
    let idx = cell.ry as int * w as int + cell.rx as int;
    if idx < len {
        Some(idx)
    } else {
        None
    }
}

/// Cost at index `i` after the first `n` resolved cells were applied in order.
pub open spec fn resolved_built_cost(cells: Seq<ResolvedTerrainCell>, st: SpeedType, w: u16, n: int, i: int) -> u8
    decreases n,
{
    if n <= 0 {
        COST_BLOCKED
    } else if resolved_target(cells[n - 1], w, cells.len() as int) == Some(i) {
        resolved_cost(cells[n - 1], st)
    } else {
        resolved_built_cost(cells, st, w, n - 1, i)
    }
}

/// Compute the cost of one resolved cell.
fn resolved_cost_exec(cell: &ResolvedTerrainCell, st: SpeedType) -> (r: u8)
    ensures
        r == resolved_cost(*cell, st),
{
    let hard_blocked = cell.is_cliff_like || cell.overlay_blocks || cell.terrain_object_blocks;
    if cell.has_bridge_deck && !cell.overlay_blocks {
        COST_NORMAL
    } else if hard_blocked {
        COST_BLOCKED
    } else if let Some(resolved) = cell.speed_costs.cost_for_speed_type(st) {
        resolved
    } else if !is_passable_for_speed_type(cell.land_type, st) {
        COST_BLOCKED
    } else {
        classify_terrain_cost(st, cell.is_water, cell.ground_walk_blocked, cell.is_rough, cell.is_road)
    }
}

proof fn lemma_u16_index_fits(x: u16, y: u16, w: u16)
    ensures
        y as int * w as int + x as int <= u32::MAX,
        0 <= y as int * w as int,
{
    assert(y as int * w as int <= 65535 * 65535) by (nonlinear_arith)
        requires
            y <= 65535,
            w <= 65535,
    ;
    assert(0 <= y as int * w as int) by (nonlinear_arith);
}

impl TerrainCostGrid {
    #[verifier::type_invariant]
    spec fn wf(self) -> bool {
        self.costs@.len() == self.width as int * self.height as int
    }

    /// Grid width.
    pub closed spec fn spec_width(self) -> u16 {
        self.width
    }

    /// Grid height.
    pub closed spec fn spec_height(self) -> u16 {
        self.height
    }

    /// Costs, row-major.
    pub closed spec fn spec_costs(self) -> Seq<u8> {
        self.costs@
    }

    /// Cost at `(x, y)`; blocked out of bounds.
    pub open spec fn spec_cost_at(self, x: u16, y: u16) -> u8 {
        if x < self.spec_width() && y < self.spec_height() {
            self.spec_costs()[cell_index(x as int, y as int, self.spec_width() as int)]
        } else {
            COST_BLOCKED
        }
    }

    /// Build a grid from map cells and theater tile classes for a speed type;
    /// cells without tile data stay blocked, later map cells overwrite earlier ones.
    pub fn build(cells: &[MapCell], lookup: Option<&TilesetLookup>, speed_type: SpeedType, map_width: u16, map_height: u16) -> (r: Self)
        requires
            map_width as int * map_height as int <= usize::MAX,
        ensures
            r.spec_width() == map_width,
            r.spec_height() == map_height,
            r.spec_costs().len() == map_width as int * map_height as int,
            forall|i: int|
                0 <= i < r.spec_costs().len() ==> #[trigger] r.spec_costs()[i] == built_cost(
                    cells@,
                    lookup,
                    speed_type,
                    map_width,
                    map_height,
                    cells@.len() as int,
                    i,
                ),
    {
        let size = map_width as usize * map_height as usize;
        let mut costs: Vec<u8> = vec![COST_BLOCKED; size];
        let mut k: usize = 0;
        while k < cells.len()
            invariant
                k <= cells@.len(),
                size == map_width as int * map_height as int,
                costs@.len() == size,
                forall|i: int|
                    0 <= i < size ==> #[trigger] costs@[i] == built_cost(
                        cells@,
                        lookup,
                        speed_type,
                        map_width,
                        map_height,
                        k as int,
                        i,
                    ),
            decreases cells@.len() - k,
        {
            let c = cells[k];
            if c.tile_index >= 0 && c.rx < map_width && c.ry < map_height {
                let tile_id = tile_id_of(&c);
                let (is_water, is_cliff, is_rough) = match lookup {
                    Some(l) => {
                        let rough = match l.set_name(tile_id) {
                            Some(name) => {
                                let pat: [u8; 5] = [114u8, 111, 117, 103, 104];
                                proof {
                                    assert(pat@ =~= rough_bytes());
                                }
                                contains_ignore_ascii_case(name, pat.as_slice())
                            },
                            None => false,
                        };
                        (l.is_water(tile_id), l.is_cliff(tile_id), rough)
                    },
                    None => (false, false, false),
                };
                let cost = classify_terrain_cost(speed_type, is_water, is_cliff, is_rough, false);
                proof {
                    lemma_index_in_bounds(c.rx as int, c.ry as int, map_width as int, map_height as int);
                }
                let idx = c.ry as usize * map_width as usize + c.rx as usize;
                costs.set(idx, cost);
            }
            k = k + 1;
        }
        TerrainCostGrid { costs, width: map_width, height: map_height }
    }

    /// Build a grid from resolved terrain for a speed type. Each terrain cell
    /// writes its cost at the index of its own coordinates.
    pub fn from_resolved_terrain(terrain: &ResolvedTerrainGrid, speed_type: SpeedType) -> (r: Self)
        ensures
            r.spec_width() == terrain.spec_width(),
            r.spec_height() == terrain.spec_height(),
            r.spec_costs().len() == terrain.spec_cells().len(),
            forall|i: int|
                0 <= i < r.spec_costs().len() ==> #[trigger] r.spec_costs()[i] == resolved_built_cost(
                    terrain.spec_cells(),
                    speed_type,
                    terrain.spec_width(),
                    terrain.spec_cells().len() as int,
                    i,
                ),
    {
        let size = terrain.len();
        let w = terrain.width();
        let mut costs: Vec<u8> = vec![COST_BLOCKED; size];
        let mut k: usize = 0;
        while k < size
            invariant
                k <= size,
                size == terrain.spec_cells().len(),
                size == terrain.spec_width() as int * terrain.spec_height() as int,
                w == terrain.spec_width(),
                costs@.len() == size,
                forall|i: int|
                    0 <= i < size ==> #[trigger] costs@[i] == resolved_built_cost(
                        terrain.spec_cells(),
                        speed_type,
                        w,
                        k as int,
                        i,
                    ),
            decreases size - k,
        {
            let cell = terrain.cell_at_index(k);
            proof {
                lemma_u16_index_fits(cell.rx, cell.ry, w);
            }
            let idx: u64 = cell.ry as u64 * w as u64 + cell.rx as u64;
            if idx < size as u64 {
                let cost = resolved_cost_exec(cell, speed_type);
                costs.set(idx as usize, cost);
            }
            k = k + 1;
        }
        TerrainCostGrid { costs, width: w, height: terrain.height() }
    }

    /// Cost at `(x, y)` (0 = blocked, 100 = normal); blocked out of bounds.
    pub fn cost_at(&self, x: u16, y: u16) -> (r: u8)
        ensures
            r == self.spec_cost_at(x, y),
    {
        proof {
            use_type_invariant(self);
        }
        // The stored length (a usize) bounds every in-grid index.
        let _stored = self.costs.len();
        if x >= self.width || y >= self.height {
            return COST_BLOCKED;
        }
        proof {
            lemma_index_in_bounds(x as int, y as int, self.width as int, self.height as int);
        }
        self.costs[y as usize * self.width as usize + x as usize]
    }

    /// Grid width.
    pub fn width(&self) -> (r: u16)
        ensures
            r == self.spec_width(),
    {
        self.width
    }

    /// Grid height.
    pub fn height(&self) -> (r: u16)
        ensures
            r == self.spec_height(),
    {
        self.height
    }
}

/// What a tile costs each kind of mover: ground movers (foot, tracks,
/// wheels) cannot enter water or cliffs; every other tile they can enter,
/// clear ground at the normal cost and rough ground more slowly (wheels
/// slowest, then tracks, then foot). Ships, hovercraft and amphibious
/// movers are stopped by cliffs only and cross water at the normal cost;
/// aircraft enter everything at the normal cost. Roads change nothing.
pub proof fn law_tile_costs_by_mover(st: SpeedType, is_water: bool, is_cliff: bool, is_rough: bool)
    ensures
        (st == SpeedType::Foot || st == SpeedType::Track || st == SpeedType::Wheel) ==> ((spec_classify_terrain_cost(
            st,
            is_water,
            is_cliff,
            is_rough,
        ) == COST_BLOCKED) <==> (is_water || is_cliff)),
        (st == SpeedType::Foot || st == SpeedType::Track || st == SpeedType::Wheel) && !is_water && !is_cliff ==> (
        spec_classify_terrain_cost(st, is_water, is_cliff, is_rough) == COST_NORMAL <==> !is_rough),
        (st == SpeedType::Foot || st == SpeedType::Track || st == SpeedType::Wheel) ==> spec_classify_terrain_cost(
            st,
            is_water,
            is_cliff,
            is_rough,
        ) <= COST_NORMAL,
        spec_classify_terrain_cost(SpeedType::Wheel, false, false, true) < spec_classify_terrain_cost(
            SpeedType::Track,
            false,
            false,
            true,
        ) < spec_classify_terrain_cost(SpeedType::Foot, false, false, true),
        (st == SpeedType::Float || st == SpeedType::FloatBeach || st == SpeedType::Hover || st == SpeedType::Amphibious)
            ==> spec_classify_terrain_cost(st, is_water, is_cliff, is_rough) == if is_cliff {
            COST_BLOCKED
        } else {
            COST_NORMAL
        },
        spec_classify_terrain_cost(SpeedType::Winged, is_water, is_cliff, is_rough) == COST_NORMAL,
{
}

/// What a resolved cell costs: a bridge deck that no overlay blocks is
/// normal ground for every mover; otherwise a cliff, a blocking overlay or
/// a blocking terrain object blocks every mover; a cell the mover's land
/// type cannot pass (and for which the rules give no speed) is blocked;
/// and a cost the rules give for the speed type is used as it is.
pub proof fn law_resolved_cell_costs(cell: ResolvedTerrainCell, st: SpeedType)
    ensures
        cell.has_bridge_deck && !cell.overlay_blocks ==> resolved_cost(cell, st) == COST_NORMAL,
        !cell.has_bridge_deck && (cell.is_cliff_like || cell.overlay_blocks || cell.terrain_object_blocks) ==> resolved_cost(
            cell,
            st,
        ) == COST_BLOCKED,
        cell.overlay_blocks ==> resolved_cost(cell, st) == COST_BLOCKED,
        !(cell.has_bridge_deck && !cell.overlay_blocks) && !(cell.is_cliff_like || cell.overlay_blocks
            || cell.terrain_object_blocks) && cell.speed_costs.spec_cost_for(st) is Some ==> resolved_cost(cell, st)
            == cell.speed_costs.spec_cost_for(st)->0,
        !(cell.has_bridge_deck && !cell.overlay_blocks) && cell.speed_costs.spec_cost_for(st) is None
            && !spec_passable_for_speed_type(cell.land_type, st) ==> resolved_cost(cell, st) == COST_BLOCKED,
        !(cell.has_bridge_deck && !cell.overlay_blocks) && (st == SpeedType::Foot || st == SpeedType::Track || st
            == SpeedType::Wheel) && cell.speed_costs.spec_cost_for(st) is None && cell.is_water ==> resolved_cost(
            cell,
            st,
        ) == COST_BLOCKED,
{
}

} // verus!
