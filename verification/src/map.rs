//! Map data consumed by the simulation: raw map cells, tileset classes and
//! the resolved per-cell terrain grid.

use crate::rules::{SpeedCostProfile, TerrainClass};
use vstd::prelude::*;

verus! {

/// A raw map cell: position, tile index (negative = no tile) and height.
#[derive(Debug, Clone, Copy, PartialEq, Eq, Structural)]
pub struct MapCell {
    pub rx: u16,
    pub ry: u16,
    pub tile_index: i32,
    pub sub_tile: u8,
    pub z: u8,
}

/// Category of a map entity.
#[derive(Debug, Clone, Copy, PartialEq, Eq, Structural)]
pub enum EntityCategory {
    Unit,
    Infantry,
    Aircraft,
    Structure,
}

/// Fully resolved terrain facts for one cell.
#[derive(Debug, Clone, Copy)]
pub struct ResolvedTerrainCell {
    pub rx: u16,
    pub ry: u16,
    pub source_tile_index: i32,
    pub source_sub_tile: u8,
    pub final_tile_index: i32,
    pub final_sub_tile: u8,
    pub level: u8,
    pub filled_clear: bool,
    pub tileset_index: Option<u16>,
    pub land_type: u8,
    pub slope_type: u8,
    pub template_height: u8,
    pub render_offset_x: i32,
    pub render_offset_y: i32,
    pub terrain_class: TerrainClass,
    pub speed_costs: SpeedCostProfile,
    pub is_water: bool,
    pub is_cliff_like: bool,
    pub is_cliff_redraw: bool,
    pub variant: u8,
    pub is_rough: bool,
    pub is_road: bool,
    pub has_ramp: bool,
    pub canonical_ramp: Option<u8>,
    pub ground_walk_blocked: bool,
    pub terrain_object_blocks: bool,
    pub overlay_blocks: bool,
    pub zone_type: u8,
    pub base_ground_walk_blocked: bool,
    pub base_build_blocked: bool,
    pub build_blocked: bool,
    pub has_bridge_deck: bool,
    pub bridge_walkable: bool,
    pub bridge_transition: bool,
    pub bridge_deck_level: u8,
    pub bridge_layer: Option<u8>,
    pub radar_left: [u8; 3],
    pub radar_right: [u8; 3],
}

/// Row-major grid of resolved terrain cells.
pub struct ResolvedTerrainGrid {
    width: u16,
    height: u16,
    cells: Vec<ResolvedTerrainCell>,
}

impl ResolvedTerrainGrid {
    #[verifier::type_invariant]
    spec fn wf(self) -> bool {
        self.cells@.len() == self.width as int * self.height as int
    }

    /// Grid width.
    pub closed spec fn spec_width(self) -> u16 {
        self.width
    }

    /// Grid height.
    pub closed spec fn spec_height(self) -> u16 {
        self.height
    }

    /// The cells in row-major order.
    pub closed spec fn spec_cells(self) -> Seq<ResolvedTerrainCell> {
        self.cells@
    }

    /// The cell at `(x, y)`, or `None` out of bounds.
    pub open spec fn spec_cell(self, x: u16, y: u16) -> Option<ResolvedTerrainCell> {
        if x < self.spec_width() && y < self.spec_height() {
            Some(self.spec_cells()[y as int * self.spec_width() as int + x as int])
        } else {
            None
        }
    }

    /// Build a grid from `width * height` cells in row-major order.
    pub fn from_cells(width: u16, height: u16, cells: Vec<ResolvedTerrainCell>) -> (r: Self)
        requires
            cells@.len() == width as int * height as int,
        ensures
            r.spec_width() == width,
            r.spec_height() == height,
            r.spec_cells() == cells@,
    {
        ResolvedTerrainGrid { width, height, cells }
    }

    /// Grid width.
    pub fn width(&self) -> (r: u16)
        ensures
            r == self.spec_width(),
    {
        self.width
    }

    /// Grid height.
    pub fn height(&self) -> (r: u16)
        ensures
            r == self.spec_height(),
    {
        self.height
    }

    /// The number of cells.
    pub fn len(&self) -> (r: usize)
        ensures
            r == self.spec_cells().len(),
            r == self.spec_width() as int * self.spec_height() as int,
    {
        proof {
            use_type_invariant(self);
        }
        self.cells.len()
    }

    /// The cell at a row-major index.
    pub fn cell_at_index(&self, idx: usize) -> (r: &ResolvedTerrainCell)
        requires
            idx < self.spec_cells().len(),
        ensures
            *r == self.spec_cells()[idx as int],
    {
        &self.cells[idx]
    }

    /// The cell at `(x, y)`; `None` out of bounds.
    pub fn cell(&self, x: u16, y: u16) -> (r: Option<&ResolvedTerrainCell>)
        ensures
            match r {
                Some(c) => self.spec_cell(x, y) == Some(*c),
                None => self.spec_cell(x, y) is None,
            },
    {
        proof {
            use_type_invariant(self);
        }
        let n = self.cells.len();
        if x < self.width && y < self.height {
            proof {
                crate::grid_index::lemma_index_in_bounds(x as int, y as int, self.width as int, self.height as int);
            }
            let idx = y as usize * self.width as usize + x as usize;
            Some(&self.cells[idx])
        } else {
            None
        }
    }
}

/// Theater classification of one tile: water, cliff and its set name.
#[derive(Debug)]
pub struct TileInfo {
    pub is_water: bool,
    pub is_cliff: bool,
    pub set_name: Option<String>,
}

/// Per-tile classification of a theater, indexed by tile id.
pub struct TilesetLookup {
    pub tiles: Vec<TileInfo>,
}

impl TilesetLookup {
    /// Whether tile `id` is water (unknown tiles are not).
    pub open spec fn spec_is_water(self, id: u16) -> bool {
        id < self.tiles@.len() && self.tiles@[id as int].is_water
    }

    /// Whether tile `id` is a cliff (unknown tiles are not).
    pub open spec fn spec_is_cliff(self, id: u16) -> bool {
        id < self.tiles@.len() && self.tiles@[id as int].is_cliff
    }

    /// The set name of tile `id`, as bytes.
    pub open spec fn spec_set_name(self, id: u16) -> Option<Seq<u8>> {
        if id < self.tiles@.len() {
            match self.tiles@[id as int].set_name {
                Some(n) => Some(vstd::utf8::encode_utf8(n@)),
                None => None,
            }
        } else {
            None
        }
    }

    /// Whether tile `id` is water.
    pub fn is_water(&self, id: u16) -> (r: bool)
        ensures
            r == self.spec_is_water(id),
    {
        if (id as usize) < self.tiles.len() {
            self.tiles[id as usize].is_water
        } else {
            false
        }
    }

    /// Whether tile `id` is a cliff.
    pub fn is_cliff(&self, id: u16) -> (r: bool)
        ensures
            r == self.spec_is_cliff(id),
    {
        if (id as usize) < self.tiles.len() {
            self.tiles[id as usize].is_cliff
        } else {
            false
        }
    }

    /// The set name bytes of tile `id`.
    pub fn set_name(&self, id: u16) -> (r: Option<&[u8]>)
        ensures
            match r {
                Some(b) => self.spec_set_name(id) == Some(b@),
                None => self.spec_set_name(id) is None,
            },
    {
        if (id as usize) < self.tiles.len() {
            match &self.tiles[id as usize].set_name {
                Some(n) => Some(n.as_str().as_bytes()),
                None => None,
            }
        } else {
            None
        }
    }
}

/// Tile id of a map cell: the "no tile" marker 0xFFFF becomes tile 0.
pub open spec fn spec_tile_id(c: MapCell) -> u16 {
    if c.tile_index == 0xFFFF {
        0
    } else {
        c.tile_index as u16
    }
}

/// Tile id of a map cell.
pub fn tile_id_of(c: &MapCell) -> (r: u16)
    ensures
        r == spec_tile_id(*c),
{
    if c.tile_index == 0xFFFF {
        0
    } else {
        c.tile_index as u16
    }
}

/// Whether a lookup (if any) marks a tile as water.
pub open spec fn lookup_is_water(l: Option<&TilesetLookup>, id: u16) -> bool {
    match l {
        Some(t) => t.spec_is_water(id),
        None => false,
    }
}

/// Whether a lookup (if any) marks a tile as cliff.
pub open spec fn lookup_is_cliff(l: Option<&TilesetLookup>, id: u16) -> bool {
    match l {
        Some(t) => t.spec_is_cliff(id),
        None => false,
    }
}

} // verus!
