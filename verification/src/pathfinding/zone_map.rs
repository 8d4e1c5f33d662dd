//! Zone-based connectivity map: the map is partitioned into zones, connected
//! regions of passable cells, per zone category. Two cells are mutually
//! reachable when their zones are the same or connected through the zone
//! adjacency graph.

use crate::grid_index::{cell_index, lemma_index_in_bounds};
use crate::movement::MovementLayer;
use crate::keys::{lemma_u8_keys_ordered, u8_keys_ordered};
use crate::map::ResolvedTerrainGrid;
use crate::pathfinding::path_grid::PathGrid;
use crate::pathfinding::terrain_cost::TerrainCostGrid;
use crate::pathfinding::zone_build::{adjacency_ok, build_zone_map_with_terrain, zone_ids_fit, zone_map_built};
use crate::pathfinding::zone_hierarchy::{is_zone_chain, neighbors_within, zone_linked, SuperZoneMap};
use crate::rules::{speed_type_index, MovementZone, SpeedType};
use std::collections::BTreeMap;
use vstd::prelude::*;

verus! {

/// Zone id: 0 = impassable or unassigned, 1 and up = a zone.
pub type ZoneId = u16;

/// Sentinel for impassable or unassigned cells.
pub const ZONE_INVALID: ZoneId = 0;

/// Per-zone centroid and cell count.
#[derive(Debug, Clone, Copy)]
pub struct ZoneInfo {
    pub center: (u16, u16),
    pub cell_count: u32,
}

impl ZoneInfo {
    /// An empty zone record: center (0, 0), no cells.
    pub fn empty() -> (r: ZoneInfo)
        ensures
            r.center == (0u16, 0u16),
            r.cell_count == 0,
    {
        ZoneInfo { center: (0, 0), cell_count: 0 }
    }
}

impl Default for ZoneInfo {
    fn default() -> (r: ZoneInfo)
        ensures
            r.center == (0u16, 0u16),
            r.cell_count == 0,
    {
        ZoneInfo::empty()
    }
}

/// Groups of movement zones that share one zone map.
#[derive(Debug, Clone, Copy, PartialEq, Eq, Structural)]
pub enum ZoneCategory {
    Land,
    Infantry,
    Amphibious,
    Water,
    WaterBeach,
    Fly,
}

/// Category of a movement zone.
pub open spec fn spec_category_of(mz: MovementZone) -> ZoneCategory {
    match mz {
        MovementZone::Normal | MovementZone::Crusher | MovementZone::Destroyer | MovementZone::CrusherAll
        | MovementZone::Subterranean => ZoneCategory::Land,
        MovementZone::Infantry | MovementZone::InfantryDestroyer => ZoneCategory::Infantry,
        MovementZone::Amphibious | MovementZone::AmphibiousCrusher | MovementZone::AmphibiousDestroyer => ZoneCategory::Amphibious,
        MovementZone::Water => ZoneCategory::Water,
        MovementZone::WaterBeach => ZoneCategory::WaterBeach,
        MovementZone::Fly => ZoneCategory::Fly,
    }
}

/// Movement zone whose passability row stands for a category.
pub open spec fn spec_representative(cat: ZoneCategory) -> MovementZone {
    match cat {
        ZoneCategory::Land => MovementZone::Normal,
        ZoneCategory::Infantry => MovementZone::Infantry,
        ZoneCategory::Amphibious => MovementZone::Amphibious,
        ZoneCategory::Water => MovementZone::Water,
        ZoneCategory::WaterBeach => MovementZone::WaterBeach,
        ZoneCategory::Fly => MovementZone::Fly,
    }
}

/// Storage slot of a category in a zone grid.
pub open spec fn spec_category_index(cat: ZoneCategory) -> int {
    match cat {
        ZoneCategory::Land => 0,
        ZoneCategory::Infantry => 1,
        ZoneCategory::Amphibious => 2,
        ZoneCategory::Water => 3,
        ZoneCategory::WaterBeach => 4,
        ZoneCategory::Fly => 5,
    }
}

impl ZoneCategory {
    /// The category a movement zone's maps are built for.
    pub fn from_movement_zone(mz: MovementZone) -> (r: ZoneCategory)
        ensures
            r == spec_category_of(mz),
    {
        match mz {
            MovementZone::Normal | MovementZone::Crusher | MovementZone::Destroyer | MovementZone::CrusherAll
            | MovementZone::Subterranean => ZoneCategory::Land,
            MovementZone::Infantry | MovementZone::InfantryDestroyer => ZoneCategory::Infantry,
            MovementZone::Amphibious | MovementZone::AmphibiousCrusher | MovementZone::AmphibiousDestroyer => {
                ZoneCategory::Amphibious
            },
            MovementZone::Water => ZoneCategory::Water,
            MovementZone::WaterBeach => ZoneCategory::WaterBeach,
            MovementZone::Fly => ZoneCategory::Fly,
        }
    }

    /// The movement zone whose passability row the category uses.
    pub fn representative_movement_zone(self) -> (r: MovementZone)
        ensures
            r == spec_representative(self),
    {
        match self {
            ZoneCategory::Land => MovementZone::Normal,
            ZoneCategory::Infantry => MovementZone::Infantry,
            ZoneCategory::Amphibious => MovementZone::Amphibious,
            ZoneCategory::Water => MovementZone::Water,
            ZoneCategory::WaterBeach => MovementZone::WaterBeach,
            ZoneCategory::Fly => MovementZone::Fly,
        }
    }

    /// Storage slot of the category.
    pub fn index(self) -> (r: usize)
        ensures
            r == spec_category_index(self),
    {
        match self {
            ZoneCategory::Land => 0,
            ZoneCategory::Infantry => 1,
            ZoneCategory::Amphibious => 2,
            ZoneCategory::Water => 3,
            ZoneCategory::WaterBeach => 4,
            ZoneCategory::Fly => 5,
        }
    }
}

/// Per-category cell-to-zone lookup.
#[derive(Debug)]
pub struct ZoneMap {
    zone_ids: Vec<ZoneId>,
    bridge_zone_ids: Option<Vec<ZoneId>>,
    pub width: u16,
    pub height: u16,
    pub zone_count: u16,
    pub zone_info: Vec<ZoneInfo>,
}

impl ZoneMap {
    /// Ground zone ids, row-major.
    pub closed spec fn spec_zone_ids(self) -> Seq<ZoneId> {
        self.zone_ids@
    }

    /// Width in cells.
    pub closed spec fn spec_width(self) -> u16 {
        self.width
    }

    /// Height in cells.
    pub closed spec fn spec_height(self) -> u16 {
        self.height
    }

    /// Number of zones.
    pub closed spec fn spec_zone_count(self) -> u16 {
        self.zone_count
    }

    /// Per-zone records (zone `z` at index `z - 1`).
    pub closed spec fn spec_zone_info(self) -> Seq<ZoneInfo> {
        self.zone_info@
    }

    /// Bridge-layer zone ids, row-major, when the map has bridges.
    pub closed spec fn spec_bridge_zone_ids(self) -> Option<Seq<ZoneId>> {
        match self.bridge_zone_ids {
            Some(v) => Some(v@),
            None => None,
        }
    }

    /// Zone of `(x, y)` on `layer`: bridge queries read the bridge ids,
    /// every other layer the ground ids; out of range gives `ZONE_INVALID`.
    pub open spec fn spec_zone_at(self, x: u16, y: u16, layer: MovementLayer) -> ZoneId {
        let idx = cell_index(x as int, y as int, self.spec_width() as int);
        if x >= self.spec_width() || y >= self.spec_height() {
            ZONE_INVALID
        } else {
            match layer {
                MovementLayer::Bridge => match self.spec_bridge_zone_ids() {
                    Some(b) => if idx < b.len() {
                        b[idx]
                    } else {
                        ZONE_INVALID
                    },
                    None => ZONE_INVALID,
                },
                _ => if idx < self.spec_zone_ids().len() {
                    self.spec_zone_ids()[idx]
                } else {
                    ZONE_INVALID
                },
            }
        }
    }

    /// Build a zone map from its parts.
    pub fn new(
        zone_ids: Vec<ZoneId>,
        bridge_zone_ids: Option<Vec<ZoneId>>,
        width: u16,
        height: u16,
        zone_count: u16,
        zone_info: Vec<ZoneInfo>,
    ) -> (r: Self)
        ensures
            r.spec_zone_ids() == zone_ids@,
            r.spec_bridge_zone_ids() == (match bridge_zone_ids {
                Some(v) => Some(v@),
                None => None::<Seq<ZoneId>>,
            }),
            r.spec_width() == width,
            r.spec_height() == height,
            r.spec_zone_count() == zone_count,
            r.spec_zone_info() == zone_info@,
    {
        ZoneMap { zone_ids, bridge_zone_ids, width, height, zone_count, zone_info }
    }

    /// Zone id of a cell on a layer.
    pub fn zone_at(&self, x: u16, y: u16, layer: MovementLayer) -> (r: ZoneId)
        ensures
            r == self.spec_zone_at(x, y, layer),
    {
        if x >= self.width || y >= self.height {
            return ZONE_INVALID;
        }
        proof {
            lemma_index_in_bounds(x as int, y as int, self.width as int, self.height as int);
            assert(y as int * self.width as int + x as int <= u32::MAX) by (nonlinear_arith)
                requires
                    y < 65536,
                    x < 65536,
                    self.width < 65536,
                    x < self.width,
            ;
        }
        let idx: u64 = y as u64 * self.width as u64 + x as u64;
        match layer {
            MovementLayer::Bridge => match &self.bridge_zone_ids {
                Some(b) => if idx < b.len() as u64 {
                    b[idx as usize]
                } else {
                    ZONE_INVALID
                },
                None => ZONE_INVALID,
            },
            _ => if idx < self.zone_ids.len() as u64 {
                self.zone_ids[idx as usize]
            } else {
                ZONE_INVALID
            },
        }
    }

    /// Centroid and cell count of a zone (`None` for `ZONE_INVALID` or unknown ids).
    pub fn info_for(&self, zone_id: ZoneId) -> (r: Option<&ZoneInfo>)
        ensures
            match r {
                Some(i) => zone_id != ZONE_INVALID && zone_id - 1 < self.spec_zone_info().len() && *i
                    == self.spec_zone_info()[zone_id - 1],
                None => zone_id == ZONE_INVALID || zone_id - 1 >= self.spec_zone_info().len(),
            },
    {
        if zone_id == ZONE_INVALID {
            return None;
        }
        let i = (zone_id - 1) as usize;
        if i < self.zone_info.len() {
            Some(&self.zone_info[i])
        } else {
            None
        }
    }

    /// Number of zones.
    pub fn count(&self) -> (r: u16)
        ensures
            r == self.spec_zone_count(),
    {
        self.zone_count
    }

    /// Ground zone ids, row-major.
    pub fn zone_ids_slice(&self) -> (r: &[ZoneId])
        ensures
            r@ == self.spec_zone_ids(),
    {
        self.zone_ids.as_slice()
    }

    /// Bridge-layer zone ids, row-major, when the map has bridges.
    pub fn bridge_ids_slice(&self) -> (r: Option<&[ZoneId]>)
        ensures
            match r {
                Some(b) => self.spec_bridge_zone_ids() == Some(b@),
                None => self.spec_bridge_zone_ids() is None,
            },
    {
        match &self.bridge_zone_ids {
            Some(v) => Some(v.as_slice()),
            None => None,
        }
    }

    /// Whether two cells lie in the same valid zone on a layer.
    pub open spec fn spec_same_zone(self, a: (u16, u16), b: (u16, u16), layer: MovementLayer) -> bool {
        self.spec_zone_at(a.0, a.1, layer) != ZONE_INVALID && self.spec_zone_at(a.0, a.1, layer) == self.spec_zone_at(
            b.0,
            b.1,
            layer,
        )
    }

    /// Whether two cells lie in the same valid zone on a layer.
    pub fn same_zone(&self, a: (u16, u16), b: (u16, u16), layer: MovementLayer) -> (r: bool)
        ensures
            r == self.spec_same_zone(a, b, layer),
    {
        let za = self.zone_at(a.0, a.1, layer);
        let zb = self.zone_at(b.0, b.1, layer);
        za != ZONE_INVALID && za == zb
    }
}

/// Zone adjacency graph: for each zone id (index 0 unused), the sorted
/// list of zones it borders.
#[derive(Debug)]
pub struct ZoneAdjacency {
    pub neighbors: Vec<Vec<ZoneId>>,
}

/// Whether a list is strictly increasing.
pub open spec fn sorted_ids(s: Seq<ZoneId>) -> bool {
    forall|i: int, j: int| 0 <= i < j < s.len() ==> s[i] < s[j]
}

impl ZoneAdjacency {
    /// Neighbor list of zone `z` (empty for `ZONE_INVALID` and unknown zones).
    pub open spec fn spec_neighbors(self, z: ZoneId) -> Seq<ZoneId> {
        if z == ZONE_INVALID || z >= self.neighbors@.len() {
            Seq::empty()
        } else {
            self.neighbors@[z as int]@
        }
    }

    /// Build from neighbor lists.
    pub fn new(neighbors: Vec<Vec<ZoneId>>) -> (r: Self)
        ensures
            r.neighbors@ == neighbors@,
    {
        ZoneAdjacency { neighbors }
    }

    /// Whether zone `b` is listed next to zone `a`. The lists are searched
    /// by bisection: a found zone is always listed, and on a sorted list
    /// every listed zone is found.
    pub fn are_adjacent(&self, a: ZoneId, b: ZoneId) -> (r: bool)
        ensures
            r ==> b != ZONE_INVALID && self.spec_neighbors(a).contains(b),
            b != ZONE_INVALID && sorted_ids(self.spec_neighbors(a)) ==> (r == self.spec_neighbors(a).contains(b)),
    {
        if a == ZONE_INVALID || b == ZONE_INVALID {
            return false;
        }
        let idx = a as usize;
        if idx >= self.neighbors.len() {
            return false;
        }
        let list = &self.neighbors[idx];
        let mut lo: usize = 0;
        let mut hi: usize = list.len();
        while lo < hi
            invariant
                hi <= list@.len(),
                lo <= hi,
                b != ZONE_INVALID,
                list@ == self.spec_neighbors(a),
                sorted_ids(list@) ==> forall|k: int| 0 <= k < lo ==> #[trigger] list@[k] < b,
                sorted_ids(list@) ==> forall|k: int| hi <= k < list@.len() ==> #[trigger] list@[k] > b,
            decreases hi - lo,
        {
            let mid = lo + (hi - lo) / 2;
            let v = list[mid];
            if v == b {
                proof {
                    assert(list@[mid as int] == b);
                    assert(self.spec_neighbors(a)[mid as int] == b);
                    assert(self.spec_neighbors(a).contains(b));
                }
                return true;
            } else if v < b {
                lo = mid + 1;
            } else {
                hi = mid;
            }
        }
        false
    }

    /// The zones listed next to `z`.
    pub fn neighbors_of(&self, z: ZoneId) -> (r: &[ZoneId])
        ensures
            r@ == self.spec_neighbors(z),
    {
        if z == ZONE_INVALID || z as usize >= self.neighbors.len() {
            let e: &[ZoneId] = &[];
            proof {
                assert(e@ =~= Seq::<ZoneId>::empty());
            }
            return e;
        }
        self.neighbors[z as usize].as_slice()
    }
}

/// Speed type whose cost grid a category's zones use.
pub open spec fn spec_category_speed_type(cat: ZoneCategory) -> SpeedType {
    match cat {
        ZoneCategory::Land => SpeedType::Track,
        ZoneCategory::Infantry => SpeedType::Foot,
        ZoneCategory::Amphibious => SpeedType::Amphibious,
        ZoneCategory::Water => SpeedType::Float,
        ZoneCategory::WaterBeach => SpeedType::FloatBeach,
        ZoneCategory::Fly => SpeedType::Winged,
    }
}

impl ZoneCategory {
    /// Speed type whose cost grid the category's zones use.
    pub fn speed_type(self) -> (r: SpeedType)
        ensures
            r == spec_category_speed_type(self),
    {
        match self {
            ZoneCategory::Land => SpeedType::Track,
            ZoneCategory::Infantry => SpeedType::Foot,
            ZoneCategory::Amphibious => SpeedType::Amphibious,
            ZoneCategory::Water => SpeedType::Float,
            ZoneCategory::WaterBeach => SpeedType::FloatBeach,
            ZoneCategory::Fly => SpeedType::Winged,
        }
    }
}

/// The category stored in slot `i` (slots 0 to 5).
pub open spec fn spec_category_at(i: int) -> ZoneCategory {
    if i == 0 {
        ZoneCategory::Land
    } else if i == 1 {
        ZoneCategory::Infantry
    } else if i == 2 {
        ZoneCategory::Amphibious
    } else if i == 3 {
        ZoneCategory::Water
    } else if i == 4 {
        ZoneCategory::WaterBeach
    } else {
        ZoneCategory::Fly
    }
}

pub(crate) fn category_at(i: usize) -> (r: ZoneCategory)
    requires
        i < 6,
    ensures
        r == spec_category_at(i as int),
        spec_category_index(r) == i,
{
    if i == 0 {
        ZoneCategory::Land
    } else if i == 1 {
        ZoneCategory::Infantry
    } else if i == 2 {
        ZoneCategory::Amphibious
    } else if i == 3 {
        ZoneCategory::Water
    } else if i == 4 {
        ZoneCategory::WaterBeach
    } else {
        ZoneCategory::Fly
    }
}

/// The cost grid of a category's speed type, if given.
pub open spec fn category_cost<'a>(costs: Map<u8, TerrainCostGrid>, cat: ZoneCategory) -> Option<&'a TerrainCostGrid> {
    let k = speed_type_index(spec_category_speed_type(cat)) as u8;
    if costs.contains_key(k) {
        Some(&costs[k])
    } else {
        None
    }
}

/// Zone maps, adjacency graphs and super zones of all categories.
#[derive(Debug)]
pub struct ZoneGrid {
    maps: Vec<Option<ZoneMap>>,
    adjacency: Vec<Option<ZoneAdjacency>>,
    super_zones: Vec<Option<SuperZoneMap>>,
    pub width: u16,
    pub height: u16,
}

impl ZoneGrid {
    /// Width in cells.
    pub closed spec fn spec_width(self) -> u16 {
        self.width
    }

    /// Height in cells.
    pub closed spec fn spec_height(self) -> u16 {
        self.height
    }

    /// One slot per category.
    pub closed spec fn spec_slots_ok(self) -> bool {
        &&& self.maps@.len() == 6
        &&& self.adjacency@.len() == 6
        &&& self.super_zones@.len() == 6
    }

    /// Zone map of a category, if built.
    pub closed spec fn spec_map(self, cat: ZoneCategory) -> Option<ZoneMap> {
        let i = spec_category_index(cat);
        if i < self.maps@.len() {
            self.maps@[i]
        } else {
            None
        }
    }

    /// Adjacency graph of a category, if built.
    pub closed spec fn spec_adjacency(self, cat: ZoneCategory) -> Option<ZoneAdjacency> {
        let i = spec_category_index(cat);
        if i < self.adjacency@.len() {
            self.adjacency@[i]
        } else {
            None
        }
    }

    /// Super zones of a category, if built.
    pub closed spec fn spec_super(self, cat: ZoneCategory) -> Option<SuperZoneMap> {
        let i = spec_category_index(cat);
        if i < self.super_zones@.len() {
            self.super_zones@[i]
        } else {
            None
        }
    }

    /// The zone data of a built category: its map and adjacency as built
    /// from the grids, and super zones that join neighboring zones.
    pub open spec fn category_ok(
        self,
        cat: ZoneCategory,
        grid: &PathGrid,
        cost: Option<&TerrainCostGrid>,
        terrain: Option<&ResolvedTerrainGrid>,
    ) -> bool {
        &&& self.spec_map(cat) is Some
        &&& self.spec_adjacency(cat) is Some
        &&& self.spec_super(cat) is Some
        &&& zone_map_built(
            (self.spec_map(cat)->0, self.spec_adjacency(cat)->0),
            grid,
            cost,
            terrain,
            cat,
            self.spec_width() as int,
            self.spec_height() as int,
        )
        &&& super_joins(self.spec_super(cat)->0, self.spec_adjacency(cat)->0, self.spec_map(cat)->0.spec_zone_count() as int)
    }

    /// Build zone maps for the ground and water categories from the
    /// walkability grid and the cost grids keyed by speed type index.
    pub fn build(path_grid: &PathGrid, terrain_costs: &BTreeMap<u8, TerrainCostGrid>, width: u16, height: u16) -> (r: Self)
        requires
            forall|cat: ZoneCategory|
                cat != ZoneCategory::Fly ==> #[trigger] zone_ids_fit(
                    path_grid,
                    category_cost(terrain_costs@, cat),
                    None,
                    cat,
                    width as int,
                    height as int,
                ),
        ensures
            r.spec_width() == width,
            r.spec_height() == height,
            forall|cat: ZoneCategory|
                cat != ZoneCategory::Fly ==> #[trigger] r.category_ok(cat, path_grid, category_cost(terrain_costs@, cat), None),
            r.spec_map(ZoneCategory::Fly) is None,
            r.wf(),
    {
        Self::build_with_terrain(path_grid, terrain_costs, None, width, height)
    }

    /// Build zone maps using resolved terrain passability when available.
    pub fn build_with_terrain(
        path_grid: &PathGrid,
        terrain_costs: &BTreeMap<u8, TerrainCostGrid>,
        resolved_terrain: Option<&ResolvedTerrainGrid>,
        width: u16,
        height: u16,
    ) -> (r: Self)
        requires
            forall|cat: ZoneCategory|
                cat != ZoneCategory::Fly ==> #[trigger] zone_ids_fit(
                    path_grid,
                    category_cost(terrain_costs@, cat),
                    resolved_terrain,
                    cat,
                    width as int,
                    height as int,
                ),
        ensures
            r.spec_width() == width,
            r.spec_height() == height,
            forall|cat: ZoneCategory|
                cat != ZoneCategory::Fly ==> #[trigger] r.category_ok(
                    cat,
                    path_grid,
                    category_cost(terrain_costs@, cat),
                    resolved_terrain,
                ),
            r.spec_map(ZoneCategory::Fly) is None,
            r.wf(),
    {
        proof {
            lemma_u8_keys_ordered();
        }
        let mut maps: Vec<Option<ZoneMap>> = Vec::new();
        let mut adjacency: Vec<Option<ZoneAdjacency>> = Vec::new();
        let mut super_zones: Vec<Option<SuperZoneMap>> = Vec::new();
        let mut i: usize = 0;
        while i < 5
            invariant
                i <= 5,
                maps@.len() == i,
                adjacency@.len() == i,
                super_zones@.len() == i,
                forall|cat: ZoneCategory|
                    cat != ZoneCategory::Fly ==> #[trigger] zone_ids_fit(
                        path_grid,
                        category_cost(terrain_costs@, cat),
                        resolved_terrain,
                        cat,
                        width as int,
                        height as int,
                    ),
                u8_keys_ordered(),
                forall|j: int|
                    0 <= j < i ==> {
                        let cat = spec_category_at(j);
                        &&& (#[trigger] maps@[j]) is Some
                        &&& adjacency@[j] is Some
                        &&& super_zones@[j] is Some
                        &&& zone_map_built(
                            (maps@[j]->0, adjacency@[j]->0),
                            path_grid,
                            category_cost(terrain_costs@, cat),
                            resolved_terrain,
                            cat,
                            width as int,
                            height as int,
                        )
                        &&& super_joins(super_zones@[j]->0, adjacency@[j]->0, maps@[j]->0.spec_zone_count() as int)
                    },
            decreases 5 - i,
        {
            let cat = category_at(i);
            let st = cat.speed_type();
            let cost_grid = terrain_costs.get(&st.index());
            proof {
                assert(cost_grid == category_cost(terrain_costs@, cat));
            }
            let (zone_map, adj) = build_zone_map_with_terrain(path_grid, cost_grid, resolved_terrain, cat, width, height);
            proof {
                lemma_built_neighbors_within(zone_map, adj, path_grid, cost_grid, resolved_terrain, cat, width as int, height as int);
            }
            let sz = SuperZoneMap::from_adjacency(&adj, zone_map.zone_count);
            maps.push(Some(zone_map));
            adjacency.push(Some(adj));
            super_zones.push(Some(sz));
            i = i + 1;
        }
        maps.push(None);
        adjacency.push(None);
        super_zones.push(None);
        let r = ZoneGrid { maps, adjacency, super_zones, width, height };
        proof {
            assert forall|cat: ZoneCategory|
                cat != ZoneCategory::Fly implies #[trigger] r.category_ok(
                cat,
                path_grid,
                category_cost(terrain_costs@, cat),
                resolved_terrain,
            ) by {
                let j = spec_category_index(cat);
                assert(spec_category_at(j) == cat);
                assert(maps@[j] is Some);
            }
        }
        r
    }

    /// Consistency of the stored categories: slots for all six categories,
    /// maps sized to the grid with zones up to their count, adjacency lists
    /// and super zones over those zones; flyers have no zones.
    pub open spec fn wf(self) -> bool {
        &&& self.spec_slots_ok()
        &&& self.spec_map(ZoneCategory::Fly) is None
        &&& forall|cat: ZoneCategory|
            cat != ZoneCategory::Fly ==> #[trigger] self.spec_map(cat) is Some ==> category_consistent(
                self.spec_map(cat)->0,
                self.spec_adjacency(cat),
                self.spec_super(cat),
                self.spec_width() as int,
                self.spec_height() as int,
            )
    }

    /// Grid width.
    pub fn grid_width(&self) -> (r: u16)
        ensures
            r == self.spec_width(),
    {
        self.width
    }

    /// Grid height.
    pub fn grid_height(&self) -> (r: u16)
        ensures
            r == self.spec_height(),
    {
        self.height
    }

    /// Replace the zone data of a category.
    pub fn set_category(&mut self, cat: ZoneCategory, map: ZoneMap, adj: ZoneAdjacency, sz: SuperZoneMap)
        requires
            old(self).spec_slots_ok(),
        ensures
            final(self).spec_slots_ok(),
            final(self).spec_width() == old(self).spec_width(),
            final(self).spec_height() == old(self).spec_height(),
            final(self).spec_map(cat) == Some(map),
            final(self).spec_adjacency(cat) == Some(adj),
            final(self).spec_super(cat) == Some(sz),
            forall|c: ZoneCategory|
                c != cat ==> #[trigger] final(self).spec_map(c) == old(self).spec_map(c) && final(self).spec_adjacency(c)
                    == old(self).spec_adjacency(c) && final(self).spec_super(c) == old(self).spec_super(c),
    {
        let i = cat.index();
        self.maps.set(i, Some(map));
        self.adjacency.set(i, Some(adj));
        self.super_zones.set(i, Some(sz));
    }

    /// Zone map of a category.
    pub fn map_for(&self, cat: ZoneCategory) -> (r: Option<&ZoneMap>)
        ensures
            r == match self.spec_map(cat) {
                Some(m) => Some(&m),
                None => None::<&ZoneMap>,
            },
    {
        let i = cat.index();
        if i < self.maps.len() {
            match &self.maps[i] {
                Some(m) => Some(m),
                None => None,
            }
        } else {
            None
        }
    }

    /// Adjacency graph of a category.
    pub fn adjacency_for(&self, cat: ZoneCategory) -> (r: Option<&ZoneAdjacency>)
        ensures
            r == match self.spec_adjacency(cat) {
                Some(a) => Some(&a),
                None => None::<&ZoneAdjacency>,
            },
    {
        let i = cat.index();
        if i < self.adjacency.len() {
            match &self.adjacency[i] {
                Some(a) => Some(a),
                None => None,
            }
        } else {
            None
        }
    }

    /// Super zones of a category.
    fn super_for(&self, cat: ZoneCategory) -> (r: Option<&SuperZoneMap>)
        ensures
            r == match self.spec_super(cat) {
                Some(a) => Some(&a),
                None => None::<&SuperZoneMap>,
            },
    {
        let i = cat.index();
        if i < self.super_zones.len() {
            match &self.super_zones[i] {
                Some(a) => Some(a),
                None => None,
            }
        } else {
            None
        }
    }

    /// Whether a unit of the category could reach `to` from `from`, judged by
    /// zones: flyers and categories without zone data always can; cells of
    /// no zone never; cells of one zone, or of zones in one group, can.
    pub open spec fn spec_can_reach(
        self,
        cat: ZoneCategory,
        from: (u16, u16),
        from_layer: MovementLayer,
        to: (u16, u16),
        to_layer: MovementLayer,
    ) -> bool {
        if cat == ZoneCategory::Fly {
            true
        } else {
            match self.spec_map(cat) {
                None => true,
                Some(m) => {
                    let za = m.spec_zone_at(from.0, from.1, from_layer);
                    let zb = m.spec_zone_at(to.0, to.1, to_layer);
                    if za == ZONE_INVALID || zb == ZONE_INVALID {
                        false
                    } else if za == zb {
                        true
                    } else {
                        match self.spec_super(cat) {
                            Some(sz) => sz.spec_connected(za, zb),
                            None => match self.spec_adjacency(cat) {
                                Some(adj) => za <= m.spec_zone_count() && spec_graph_connected(adj, za, zb),
                                None => false,
                            },
                        }
                    }
                },
            }
        }
    }

    /// Reachability check by zones (see `spec_can_reach`).
    pub fn can_reach(
        &self,
        cat: ZoneCategory,
        from: (u16, u16),
        from_layer: MovementLayer,
        to: (u16, u16),
        to_layer: MovementLayer,
    ) -> (r: bool)
        requires
            self.spec_super(cat) is None ==> match (self.spec_map(cat), self.spec_adjacency(cat)) {
                (Some(m), Some(adj)) => neighbors_within(adj, m.spec_zone_count() as int),
                _ => true,
            },
        ensures
            r == self.spec_can_reach(cat, from, from_layer, to, to_layer),
    {
        if cat == ZoneCategory::Fly {
            return true;
        }
        let zone_map = match self.map_for(cat) {
            None => {
                return true;
            },
            Some(m) => m,
        };
        let za = zone_map.zone_at(from.0, from.1, from_layer);
        let zb = zone_map.zone_at(to.0, to.1, to_layer);
        if za == ZONE_INVALID || zb == ZONE_INVALID {
            return false;
        }
        if za == zb {
            return true;
        }
        if let Some(sz) = self.super_for(cat) {
            return sz.are_connected(za, zb);
        }
        match self.adjacency_for(cat) {
            Some(adj) => za <= zone_map.zone_count && zone_graph_connected(adj, za, zb, zone_map.zone_count),
            None => false,
        }
    }
}

/// Super zones join every zone `1..=count` with each of its valid neighbors,
/// and two zones share a label exactly when a walk through the adjacency
/// lists joins them.
pub open spec fn super_joins(sz: SuperZoneMap, adj: ZoneAdjacency, count: int) -> bool {
    &&& sz.spec_labels().len() == count + 1
    &&& forall|z: ZoneId, k: int|
        1 <= z <= count && 0 <= k < adj.spec_neighbors(z).len() && adj.spec_neighbors(z)[k] != ZONE_INVALID
            ==> #[trigger] sz.spec_connected(z, adj.spec_neighbors(z)[k])
    &&& forall|a: int, b: int|
        0 <= a <= count && 0 <= b <= count ==> (sz.spec_labels()[a] == sz.spec_labels()[b] <==> #[trigger] zone_linked(
            adj,
            count,
            a,
            b,
        ))
}

/// A built zone map's adjacency names only its own zones.
proof fn lemma_built_neighbors_within(
    m: ZoneMap,
    adj: ZoneAdjacency,
    grid: &PathGrid,
    cost: Option<&TerrainCostGrid>,
    terrain: Option<&ResolvedTerrainGrid>,
    cat: ZoneCategory,
    w: int,
    h: int,
)
    requires
        zone_map_built((m, adj), grid, cost, terrain, cat, w, h),
    ensures
        neighbors_within(adj, m.spec_zone_count() as int),
{
    assert(adjacency_ok(adj.neighbors@, m.spec_zone_count() as int));
    assert forall|z: ZoneId, k: int|
        1 <= z <= m.spec_zone_count() && 0 <= k < adj.spec_neighbors(z).len() implies #[trigger] adj.spec_neighbors(z)[k]
        <= m.spec_zone_count() by {
        assert(adj.neighbors@[z as int]@[k] <= m.spec_zone_count());
    }
}

/// Whether some walk through the zone graph leads from `a` to `b`.
pub open spec fn spec_graph_connected(adj: ZoneAdjacency, a: ZoneId, b: ZoneId) -> bool {
    exists|c: Seq<ZoneId>| #[trigger] is_zone_chain(adj, c) && c[0] == a && c[c.len() - 1] == b
}

/// Number of unvisited entries among the first `k`.
pub open spec fn unvisited_before(v: Seq<bool>, k: int) -> int
    decreases k,
{
    if k <= 0 {
        0
    } else {
        unvisited_before(v, k - 1) + if v[k - 1] {
            0int
        } else {
            1int
        }
    }
}

proof fn lemma_unvisited_bounds(v: Seq<bool>, k: int)
    requires
        0 <= k <= v.len(),
    ensures
        0 <= unvisited_before(v, k) <= k,
    decreases k,
{
    if k > 0 {
        lemma_unvisited_bounds(v, k - 1);
    }
}

proof fn lemma_unvisited_mark(v: Seq<bool>, i: int, k: int)
    requires
        0 <= i < v.len(),
        !v[i],
        0 <= k <= v.len(),
    ensures
        unvisited_before(v.update(i, true), k) == unvisited_before(v, k) - (if i < k {
            1int
        } else {
            0int
        }),
    decreases k,
{
    if k > 0 {
        lemma_unvisited_mark(v, i, k - 1);
    }
}

/// Extending a walk by a listed neighbor gives a walk.
proof fn lemma_chain_push(adj: ZoneAdjacency, c: Seq<ZoneId>, nb: ZoneId)
    requires
        is_zone_chain(adj, c),
        adj.spec_neighbors(c[c.len() - 1]).contains(nb),
    ensures
        is_zone_chain(adj, c.push(nb)),
        c.push(nb)[0] == c[0],
        c.push(nb)[c.len() as int] == nb,
{
    let d = c.push(nb);
    assert forall|i: int| 0 <= i < d.len() - 1 implies adj.spec_neighbors(d[i]).contains(#[trigger] d[i + 1]) by {
        if i < c.len() - 1 {
            assert(d[i] == c[i] && d[i + 1] == c[i + 1]);
        }
    }
}

/// Walks from a set closed under neighbors stay in it.
proof fn lemma_chain_stays(adj: ZoneAdjacency, visited: Seq<bool>, max: int, c: Seq<ZoneId>)
    requires
        is_zone_chain(adj, c),
        visited.len() == max + 1,
        c[0] <= max,
        visited[c[0] as int],
        forall|z: int, k: int|
            0 <= z <= max && visited[z] && 0 <= k < adj.spec_neighbors(z as ZoneId).len() ==> #[trigger] adj.spec_neighbors(
                z as ZoneId,
            )[k] <= max && visited[adj.spec_neighbors(z as ZoneId)[k] as int],
        max <= u16::MAX,
    ensures
        c[c.len() - 1] <= max,
        visited[c[c.len() - 1] as int],
    decreases c.len(),
{
    if c.len() > 1 {
        let d = c.drop_last();
        assert forall|i: int| 0 <= i < d.len() - 1 implies adj.spec_neighbors(d[i]).contains(#[trigger] d[i + 1]) by {
            assert(d[i + 1] == c[i + 1]);
        }
        lemma_chain_stays(adj, visited, max, d);
        let p = c[c.len() - 2];
        assert(adj.spec_neighbors(c[c.len() - 2]).contains(c[(c.len() - 2) + 1]));
        let k = choose|k: int| 0 <= k < adj.spec_neighbors(p).len() && adj.spec_neighbors(p)[k] == c[c.len() - 1];
        assert(adj.spec_neighbors(p as int as ZoneId)[k] <= max);
    }
}

/// Breadth-first search of the zone graph: whether a walk leads from
/// `start` to `goal`.
pub fn zone_graph_connected(adj: &ZoneAdjacency, start: ZoneId, goal: ZoneId, max_zones: u16) -> (r: bool)
    requires
        start <= max_zones,
        neighbors_within(*adj, max_zones as int),
        forall|k: int| 0 <= k < adj.spec_neighbors(ZONE_INVALID).len() ==> #[trigger] adj.spec_neighbors(ZONE_INVALID)[k] <= max_zones,
    ensures
        r == spec_graph_connected(*adj, start, goal),
{
    let ghost max = max_zones as int;
    if start == goal {
        proof {
            let c = seq![start];
            assert(is_zone_chain(*adj, c));
        }
        return true;
    }
    let mut visited: Vec<bool> = Vec::new();
    let mut k: usize = 0;
    while k <= max_zones as usize
        invariant
            k <= max + 1,
            max == max_zones as int,
            visited@.len() == k,
            forall|j: int| 0 <= j < k ==> !#[trigger] visited@[j],
        decreases max + 1 - k,
    {
        visited.push(false);
        k = k + 1;
    }
    proof {
        lemma_unvisited_mark(visited@, start as int, visited@.len() as int);
    }
    visited.set(start as usize, true);
    let mut queue: Vec<ZoneId> = Vec::new();
    queue.push(start);
    proof {
        assert forall|v: int| 0 <= v <= max && #[trigger] visited@[v] implies exists|c: Seq<ZoneId>|
            #[trigger] is_zone_chain(*adj, c) && c[0] == start && c[c.len() - 1] == v by {
            let c = seq![start];
            assert(is_zone_chain(*adj, c));
        }
        assert forall|z: int, k: int|
            0 <= z <= max && visited@[z] && !queue@.contains(z as ZoneId) && 0 <= k < adj.spec_neighbors(z as ZoneId).len()
                implies #[trigger] adj.spec_neighbors(z as ZoneId)[k] <= max && visited@[adj.spec_neighbors(z as ZoneId)[k] as int] by {
            assert(z == start as int);
            assert(queue@[0] == start);
        }
    }
    while queue.len() > 0
        invariant
            max == max_zones as int,
            visited@.len() == max + 1,
            start <= max,
            start != goal,
            visited@[start as int],
            neighbors_within(*adj, max),
            forall|k: int| 0 <= k < adj.spec_neighbors(ZONE_INVALID).len() ==> #[trigger] adj.spec_neighbors(ZONE_INVALID)[k] <= max_zones,
            goal <= max ==> !visited@[goal as int],
            forall|k: int| 0 <= k < queue@.len() ==> #[trigger] queue@[k] <= max && visited@[queue@[k] as int],
            forall|v: int| 0 <= v <= max && #[trigger] visited@[v] ==> exists|c: Seq<ZoneId>|
                #[trigger] is_zone_chain(*adj, c) && c[0] == start && c[c.len() - 1] == v,
            forall|z: int, k: int|
                0 <= z <= max && visited@[z] && !queue@.contains(z as ZoneId) && 0 <= k < adj.spec_neighbors(z as ZoneId).len()
                    ==> #[trigger] adj.spec_neighbors(z as ZoneId)[k] <= max && visited@[adj.spec_neighbors(z as ZoneId)[k] as int],
        decreases 2 * unvisited_before(visited@, visited@.len() as int) + queue@.len(),
    {
        let ghost vb = visited@;
        let ghost qb = queue@;
        let z = queue.pop().unwrap();
        proof {
            assert(qb =~= queue@.push(z));
            lemma_unvisited_bounds(visited@, visited@.len() as int);
        }
        let list = adj.neighbors_of(z);
        let ghost popped = queue@;
        let mut t: usize = 0;
        while t < list.len()
            invariant
                max == max_zones as int,
                visited@.len() == max + 1,
                start <= max,
                start != goal,
                z <= max,
                visited@[z as int],
                visited@[start as int],
                list@ == adj.spec_neighbors(z),
                t <= list@.len(),
                neighbors_within(*adj, max),
                forall|k: int| 0 <= k < adj.spec_neighbors(ZONE_INVALID).len() ==> #[trigger] adj.spec_neighbors(ZONE_INVALID)[k] <= max_zones,
                goal <= max ==> !visited@[goal as int],
                queue@.len() >= popped.len(),
                forall|k: int| 0 <= k < popped.len() ==> #[trigger] queue@[k] == popped[k],
                forall|k: int| 0 <= k < queue@.len() ==> #[trigger] queue@[k] <= max && visited@[queue@[k] as int],
                forall|v: int| 0 <= v <= max && #[trigger] visited@[v] ==> exists|c: Seq<ZoneId>|
                    #[trigger] is_zone_chain(*adj, c) && c[0] == start && c[c.len() - 1] == v,
                forall|y: int, k: int|
                    0 <= y <= max && visited@[y] && !queue@.contains(y as ZoneId) && y != z && 0 <= k < adj.spec_neighbors(
                        y as ZoneId,
                    ).len() ==> #[trigger] adj.spec_neighbors(y as ZoneId)[k] <= max && visited@[adj.spec_neighbors(y as ZoneId)[k] as int],
                forall|k: int| 0 <= k < t ==> #[trigger] list@[k] <= max && visited@[list@[k] as int],
                vb.len() == max + 1,
                forall|v: int| 0 <= v < vb.len() && vb[v] ==> #[trigger] visited@[v],
                2 * unvisited_before(visited@, visited@.len() as int) + queue@.len() <= 2 * unvisited_before(vb, vb.len() as int)
                    + qb.len() - 1,
            decreases list@.len() - t,
        {
            let nb = list[t];
            proof {
                if z == ZONE_INVALID {
                    assert(adj.spec_neighbors(ZONE_INVALID)[t as int] <= max_zones);
                } else {
                    assert(adj.spec_neighbors(z)[t as int] <= max_zones);
                }
                assert(list@[t as int] == nb);
                assert(adj.spec_neighbors(z).contains(nb));
            }
            if nb == goal {
                proof {
                    let c = choose|c: Seq<ZoneId>| #[trigger] is_zone_chain(*adj, c) && c[0] == start && c[c.len() - 1] == z;
                    lemma_chain_push(*adj, c, nb);
                    assert(is_zone_chain(*adj, c.push(nb)));
                }
                return true;
            }
            if !visited[nb as usize] {
                let ghost vm = visited@;
                let ghost qm = queue@;
                proof {
                    lemma_unvisited_mark(visited@, nb as int, visited@.len() as int);
                    let c = choose|c: Seq<ZoneId>| #[trigger] is_zone_chain(*adj, c) && c[0] == start && c[c.len() - 1] == z;
                    lemma_chain_push(*adj, c, nb);
                }
                visited.set(nb as usize, true);
                queue.push(nb);
                proof {
                    assert forall|v: int| 0 <= v <= max && #[trigger] visited@[v] implies exists|c: Seq<ZoneId>|
                        #[trigger] is_zone_chain(*adj, c) && c[0] == start && c[c.len() - 1] == v by {
                        if v == nb as int {
                            let c = choose|c: Seq<ZoneId>| #[trigger] is_zone_chain(*adj, c) && c[0] == start && c[c.len() - 1] == z;
                            lemma_chain_push(*adj, c, nb);
                            assert(is_zone_chain(*adj, c.push(nb)) && c.push(nb)[0] == start && c.push(nb)[c.push(nb).len() - 1] == v);
                        } else {
                            assert(vm[v]);
                        }
                    }
                    assert forall|k: int| 0 <= k < queue@.len() implies #[trigger] queue@[k] <= max && visited@[queue@[k] as int] by {
                        if k < qm.len() {
                            assert(queue@[k] == qm[k]);
                        }
                    }
                    assert forall|y: int, k: int|
                        0 <= y <= max && visited@[y] && !queue@.contains(y as ZoneId) && y != z && 0 <= k < adj.spec_neighbors(
                            y as ZoneId,
                        ).len() implies #[trigger] adj.spec_neighbors(y as ZoneId)[k] <= max && visited@[adj.spec_neighbors(y as ZoneId)[k] as int] by {
                        if y == nb as int {
                            assert(queue@[queue@.len() - 1] == nb);
                        } else {
                            assert(vm[y]);
                            if qm.contains(y as ZoneId) {
                                let j = choose|j: int| 0 <= j < qm.len() && qm[j] == y as ZoneId;
                                assert(queue@[j] == qm[j]);
                            }
                        }
                    }
                    assert forall|k: int| 0 <= k < popped.len() implies #[trigger] queue@[k] == popped[k] by {
                        assert(queue@[k] == qm[k]);
                    }
                    assert forall|v: int| 0 <= v < vb.len() && vb[v] implies #[trigger] visited@[v] by {
                        assert(vb.len() == vm.len());
                        assert(vm[v]);
                        if v != nb as int {
                            assert(visited@[v] == vm[v]);
                        }
                    }
                }
            }
            t = t + 1;
        }
        proof {
            assert forall|y: int, k: int|
                0 <= y <= max && visited@[y] && !queue@.contains(y as ZoneId) && 0 <= k < adj.spec_neighbors(y as ZoneId).len()
                    implies #[trigger] adj.spec_neighbors(y as ZoneId)[k] <= max && visited@[adj.spec_neighbors(y as ZoneId)[k] as int] by {
                if y == z as int {
                    assert(list@[k] == adj.spec_neighbors(y as ZoneId)[k]);
                } else if popped.contains(y as ZoneId) {
                    let j = choose|j: int| 0 <= j < popped.len() && popped[j] == y as ZoneId;
                    assert(queue@[j] == popped[j]);
                }
            }
            lemma_unvisited_bounds(visited@, visited@.len() as int);
        }
    }
    proof {
        if spec_graph_connected(*adj, start, goal) {
            let c = choose|c: Seq<ZoneId>| #[trigger] is_zone_chain(*adj, c) && c[0] == start && c[c.len() - 1] == goal;
            assert forall|z: int, k: int|
                0 <= z <= max && visited@[z] && 0 <= k < adj.spec_neighbors(z as ZoneId).len() implies #[trigger] adj.spec_neighbors(
                z as ZoneId,
            )[k] <= max && visited@[adj.spec_neighbors(z as ZoneId)[k] as int] by {
                assert(!queue@.contains(z as ZoneId));
            }
            lemma_chain_stays(*adj, visited@, max, c);
        }
    }
    false
}

/// A stored category: ids sized to the grid and within the zone count, its
/// adjacency present and listing only those zones, super zones present.
pub open spec fn category_consistent(
    m: ZoneMap,
    adj: Option<ZoneAdjacency>,
    sz: Option<SuperZoneMap>,
    w: int,
    h: int,
) -> bool {
    &&& m.spec_width() == w
    &&& m.spec_height() == h
    &&& m.spec_zone_ids().len() == w * h
    &&& forall|i: int| 0 <= i < m.spec_zone_ids().len() ==> #[trigger] m.spec_zone_ids()[i] <= m.spec_zone_count()
    &&& match m.spec_bridge_zone_ids() {
        Some(b) => b.len() == w * h && forall|i: int| 0 <= i < b.len() ==> #[trigger] b[i] <= m.spec_zone_count(),
        None => true,
    }
    &&& adj is Some
    &&& neighbors_within(adj->0, m.spec_zone_count() as int)
    &&& sz is Some
}

/// Sharing a zone does not depend on the order of the two cells, and a cell
/// shares a zone with itself exactly when it lies in a zone.
pub proof fn law_same_zone_symmetric(m: ZoneMap, a: (u16, u16), b: (u16, u16), layer: MovementLayer)
    ensures
        m.spec_same_zone(a, b, layer) == m.spec_same_zone(b, a, layer),
        m.spec_same_zone(a, a, layer) == (m.spec_zone_at(a.0, a.1, layer) != ZONE_INVALID),
{
}

/// A cell can reach itself on its own layer unless it lies in no zone of a
/// category that has zone data; flyers always can.
pub proof fn law_can_reach_self(g: ZoneGrid, cat: ZoneCategory, c: (u16, u16), layer: MovementLayer)
    ensures
        g.spec_can_reach(cat, c, layer, c, layer) == (cat == ZoneCategory::Fly || g.spec_map(cat) is None
            || g.spec_map(cat)->0.spec_zone_at(c.0, c.1, layer) != ZONE_INVALID),
{
}

/// For a built category, two cells lying in zones can reach each other
/// exactly when a walk through the zone adjacency lists joins their zones.
pub proof fn law_can_reach_iff_zone_walk(
    g: ZoneGrid,
    cat: ZoneCategory,
    grid: &PathGrid,
    cost: Option<&TerrainCostGrid>,
    terrain: Option<&ResolvedTerrainGrid>,
    from: (u16, u16),
    from_layer: MovementLayer,
    to: (u16, u16),
    to_layer: MovementLayer,
)
    requires
        cat != ZoneCategory::Fly,
        g.category_ok(cat, grid, cost, terrain),
        g.spec_map(cat)->0.spec_zone_at(from.0, from.1, from_layer) != ZONE_INVALID,
        g.spec_map(cat)->0.spec_zone_at(to.0, to.1, to_layer) != ZONE_INVALID,
        g.spec_map(cat)->0.spec_zone_at(from.0, from.1, from_layer) <= g.spec_map(cat)->0.spec_zone_count(),
        g.spec_map(cat)->0.spec_zone_at(to.0, to.1, to_layer) <= g.spec_map(cat)->0.spec_zone_count(),
    ensures
        g.spec_can_reach(cat, from, from_layer, to, to_layer) <==> zone_linked(
            g.spec_adjacency(cat)->0,
            g.spec_map(cat)->0.spec_zone_count() as int,
            g.spec_map(cat)->0.spec_zone_at(from.0, from.1, from_layer) as int,
            g.spec_map(cat)->0.spec_zone_at(to.0, to.1, to_layer) as int,
        ),
{
    let m = g.spec_map(cat)->0;
    let adj = g.spec_adjacency(cat)->0;
    let count = m.spec_zone_count() as int;
    let za = m.spec_zone_at(from.0, from.1, from_layer) as int;
    let zb = m.spec_zone_at(to.0, to.1, to_layer) as int;
    assert(zone_linked(adj, count, za, zb) <==> g.spec_super(cat)->0.spec_labels()[za] == g.spec_super(cat)->0.spec_labels()[zb]);
    if za == zb {
        assert(crate::pathfinding::zone_hierarchy::seen_chain(adj, count + 1, 0, seq![za]));
    }
}

} // verus!
