//! Walkability grid for path search: per-cell ground and bridge walkability,
//! bridge transitions and height levels.

use crate::grid_index::{
    cell_index, chebyshev, lemma_index_decompose, lemma_index_in_bounds, opt_set_contains, opt_set_has,
};
use std::collections::BTreeSet;
use crate::bridge_state::BridgeRuntimeState;
use crate::map::{
    lookup_is_cliff, spec_tile_id, tile_id_of, MapCell, ResolvedTerrainCell, ResolvedTerrainGrid,
    TilesetLookup,
};
use crate::movement::MovementLayer;
use crate::pathfinding::foundation::{parse_foundation, spec_parse_foundation};
use vstd::string::StringSliceAdditionalSpecFns;
use vstd::prelude::*;

verus! {

/// Per-cell walkability and bridge metadata.
#[derive(Debug, Clone, Copy, PartialEq, Eq, Structural)]
pub struct PathCell {
    pub ground_walkable: bool,
    pub bridge_walkable: bool,
    pub transition: bool,
    pub ground_level: u8,
    pub bridge_deck_level: u8,
}

/// Deck level of a cell that has a walkable bridge.
pub open spec fn spec_bridge_deck_level_if_any(c: PathCell) -> Option<u8> {
    if c.bridge_walkable {
        Some(c.bridge_deck_level)
    } else {
        None
    }
}

/// The height a unit on `layer` has in this cell.
pub open spec fn spec_effective_z(c: PathCell, layer: MovementLayer) -> u8 {
    match layer {
        MovementLayer::Bridge => if c.bridge_walkable {
            c.bridge_deck_level
        } else {
            c.ground_level
        },
        _ => c.ground_level,
    }
}

impl PathCell {
    /// Whether units can switch layers in this cell.
    pub fn is_bridge_transition_cell(&self) -> (r: bool)
        ensures
            r == self.transition,
    {
        self.transition
    }

    /// Whether the cell has a walkable bridge deck above its ground.
    pub fn is_elevated_bridge_cell(&self) -> (r: bool)
        ensures
            r == (self.bridge_walkable && self.bridge_deck_level > self.ground_level),
    {
        match self.bridge_deck_level_if_any() {
            Some(deck) => deck > self.ground_level,
            None => false,
        }
    }

    /// The bridge deck level when the bridge is walkable.
    pub fn bridge_deck_level_if_any(&self) -> (r: Option<u8>)
        ensures
            r == spec_bridge_deck_level_if_any(*self),
    {
        if self.bridge_walkable {
            Some(self.bridge_deck_level)
        } else {
            None
        }
    }

    /// The cell's height as seen from a movement layer.
    pub fn effective_cell_z_for_layer(&self, layer: MovementLayer) -> (r: u8)
        ensures
            r == spec_effective_z(*self, layer),
    {
        match layer {
            MovementLayer::Bridge => match self.bridge_deck_level_if_any() {
                Some(d) => d,
                None => self.ground_level,
            },
            MovementLayer::Ground | MovementLayer::Air | MovementLayer::Underground => {
                self.ground_level
            },
        }
    }

    /// Whether a ground unit can step up onto the bridge layer here.
    pub fn can_enter_bridge_layer_from_ground(&self) -> (r: bool)
        ensures
            r == (self.bridge_walkable && self.transition),
    {
        self.bridge_walkable && self.is_bridge_transition_cell()
    }
}

/// Walkable ground cell without bridge, level 0.
pub open spec fn default_walkable_cell() -> PathCell {
    PathCell {
        ground_walkable: true,
        bridge_walkable: false,
        transition: false,
        ground_level: 0,
        bridge_deck_level: 0,
    }
}

/// Blocked cell without bridge, level 0.
pub open spec fn default_blocked_cell() -> PathCell {
    PathCell {
        ground_walkable: false,
        bridge_walkable: false,
        transition: false,
        ground_level: 0,
        bridge_deck_level: 0,
    }
}

/// A blocked cell without bridge, level 0.
pub fn blocked_cell() -> (r: PathCell)
    ensures
        r == default_blocked_cell(),
{
    PathCell {
        ground_walkable: false,
        bridge_walkable: false,
        transition: false,
        ground_level: 0,
        bridge_deck_level: 0,
    }
}

/// What a ground walkability query reports after `set_blocked`: the marked
/// cell (inside the grid) reports the opposite of `blocked`, and every other
/// cell reports what it did before.
pub proof fn law_set_blocked_read_back(
    before: PathGrid,
    after: PathGrid,
    x: u16,
    y: u16,
    blocked: bool,
    qx: u16,
    qy: u16,
)
    requires
        after.spec_width() == before.spec_width(),
        after.spec_height() == before.spec_height(),
        after.spec_cells() == before.cells_after_set_blocked(x, y, blocked),
        before.spec_cells().len() == before.spec_width() as int * before.spec_height() as int,
    ensures
        before.in_bounds(x as int, y as int) ==> after.spec_walkable(x, y) == !blocked,
        (qx, qy) != (x, y) ==> after.spec_walkable(qx, qy) == before.spec_walkable(qx, qy),
{
    let w = before.spec_width() as int;
    let h = before.spec_height() as int;
    if before.in_bounds(x as int, y as int) {
        lemma_index_in_bounds(x as int, y as int, w, h);
        if (qx, qy) != (x, y) && before.in_bounds(qx as int, qy as int) {
            lemma_index_in_bounds(qx as int, qy as int, w, h);
            crate::grid_index::lemma_index_coords(x as int, y as int, w);
            crate::grid_index::lemma_index_coords(qx as int, qy as int, w);
            assert(cell_index(qx as int, qy as int, w) != cell_index(x as int, y as int, w));
        }
    }
}

/// Unified walkability grid, row-major.
#[derive(Debug)]
pub struct PathGrid {
    cells: Vec<PathCell>,
    width: u16,
    height: u16,
}

/// A step of a layered path.
#[derive(Debug, Clone, Copy, PartialEq, Eq, Structural)]
pub struct LayeredPathStep {
    pub rx: u16,
    pub ry: u16,
    pub layer: MovementLayer,
}

impl Clone for PathGrid {
    fn clone(&self) -> (r: Self)
        ensures
            r.spec_width() == self.spec_width(),
            r.spec_height() == self.spec_height(),
            r.spec_cells() == self.spec_cells(),
    {
        proof {
            use_type_invariant(self);
        }
        let cells = self.cells.clone();
        proof {
            assert(cells@ =~= self.cells@);
        }
        PathGrid { cells, width: self.width, height: self.height }
    }
}

impl PathGrid {
    #[verifier::type_invariant]
    spec fn wf(self) -> bool {
        self.cells@.len() == self.width as int * self.height as int
    }

    /// Grid width.
    pub closed spec fn spec_width(self) -> u16 {
        self.width
    }

    /// Grid height.
    pub closed spec fn spec_height(self) -> u16 {
        self.height
    }

    /// All cells, row-major.
    pub closed spec fn spec_cells(self) -> Seq<PathCell> {
        self.cells@
    }

    /// Whether `(x, y)` lies inside the grid.
    pub open spec fn in_bounds(self, x: int, y: int) -> bool {
        0 <= x < self.spec_width() && 0 <= y < self.spec_height()
    }

    /// The cell at `(x, y)`; `None` out of bounds.
    pub open spec fn spec_cell(self, x: u16, y: u16) -> Option<PathCell> {
        if x < self.spec_width() && y < self.spec_height() {
            Some(self.spec_cells()[cell_index(x as int, y as int, self.spec_width() as int)])
        } else {
            None
        }
    }

    /// The cell at `(x, y)`, or a blocked cell out of bounds.
    pub open spec fn cell_or_blocked(self, x: u16, y: u16) -> PathCell {
        match self.spec_cell(x, y) {
            Some(c) => c,
            None => default_blocked_cell(),
        }
    }

    /// Ground walkability (out of bounds is not walkable).
    pub open spec fn spec_walkable(self, x: u16, y: u16) -> bool {
        match self.spec_cell(x, y) {
            Some(c) => c.ground_walkable,
            None => false,
        }
    }

    /// Walkability on a layer (air and underground never).
    pub open spec fn spec_walkable_on_layer(self, x: u16, y: u16, layer: MovementLayer) -> bool {
        match self.spec_cell(x, y) {
            Some(c) => match layer {
                MovementLayer::Ground => c.ground_walkable,
                MovementLayer::Bridge => c.bridge_walkable,
                _ => false,
            },
            None => false,
        }
    }

    /// Create a grid whose cells are all ground-walkable, without bridges, at level 0.
    pub fn new(width: u16, height: u16) -> (r: Self)
        requires
            width as int * height as int <= usize::MAX,
        ensures
            r.spec_width() == width,
            r.spec_height() == height,
            r.spec_cells().len() == width as int * height as int,
            forall|i: int| 0 <= i < r.spec_cells().len() ==> r.spec_cells()[i] == default_walkable_cell(),
    {
        let size = width as usize * height as usize;
        let c = PathCell {
            ground_walkable: true,
            bridge_walkable: false,
            transition: false,
            ground_level: 0,
            bridge_deck_level: 0,
        };
        let cells = vec![c; size];
        PathGrid { cells, width, height }
    }

    /// Build a grid from `width * height` row-major cells.
    pub fn from_cells(cells: Vec<PathCell>, width: u16, height: u16) -> (r: Self)
        requires
            cells@.len() == width as int * height as int,
        ensures
            r.spec_width() == width,
            r.spec_height() == height,
            r.spec_cells() == cells@,
    {
        PathGrid { cells, width, height }
    }

    /// Grid width.
    pub fn width(&self) -> (r: u16)
        ensures
            r == self.spec_width(),
    {
        self.width
    }

    /// Grid height.
    pub fn height(&self) -> (r: u16)
        ensures
            r == self.spec_height(),
    {
        self.height
    }

    /// The grid holds exactly `width * height` cells.
    pub fn len(&self) -> (r: usize)
        ensures
            r == self.spec_cells().len(),
            r == self.spec_width() as int * self.spec_height() as int,
    {
        proof {
            use_type_invariant(self);
        }
        self.cells.len()
    }

    /// Row-major index of an in-bounds cell.
    fn index_of(&self, x: u16, y: u16) -> (r: usize)
        requires
            x < self.spec_width(),
            y < self.spec_height(),
        ensures
            r == cell_index(x as int, y as int, self.spec_width() as int),
            r < self.spec_cells().len(),
        no_unwind
    {
        proof {
            use_type_invariant(self);
            lemma_index_in_bounds(x as int, y as int, self.width as int, self.height as int);
        }
        // The stored length (a usize) bounds every in-grid index.
        let _stored = self.cells.len();
        y as usize * self.width as usize + x as usize
    }

    /// The cells after marking `(x, y)` blocked or unblocked on the ground
    /// layer; out of bounds nothing changes.
    pub open spec fn cells_after_set_blocked(self, x: u16, y: u16, blocked: bool) -> Seq<PathCell> {
        if self.in_bounds(x as int, y as int) {
            self.spec_cells().update(
                cell_index(x as int, y as int, self.spec_width() as int),
                PathCell {
                    ground_walkable: !blocked,
                    ..self.spec_cells()[cell_index(x as int, y as int, self.spec_width() as int)]
                },
            )
        } else {
            self.spec_cells()
        }
    }

    /// Mark a cell as blocked or unblocked on the ground layer; out-of-bounds
    /// coordinates leave the grid unchanged.
    pub fn set_blocked(&mut self, x: u16, y: u16, blocked: bool)
        ensures
            final(self).spec_width() == old(self).spec_width(),
            final(self).spec_height() == old(self).spec_height(),
            final(self).spec_cells().len() == old(self).spec_cells().len(),
            final(self).spec_cells() == old(self).cells_after_set_blocked(x, y, blocked),
        no_unwind
    {
        proof {
            use_type_invariant(&*self);
        }
        if x < self.width && y < self.height {
            let idx = self.index_of(x, y);
            self.cells[idx].ground_walkable = !blocked;
        }
    }

    /// Ground walkability; out of bounds is impassable.
    pub fn is_walkable(&self, x: u16, y: u16) -> (r: bool)
        ensures
            r == self.spec_walkable(x, y),
    {
        if x >= self.width || y >= self.height {
            return false;
        }
        let idx = self.index_of(x, y);
        self.cells[idx].ground_walkable
    }

    /// The cell at `(x, y)`, or `None` out of bounds.
    pub fn cell(&self, x: u16, y: u16) -> (r: Option<&PathCell>)
        ensures
            match r {
                Some(c) => self.spec_cell(x, y) == Some(*c),
                None => self.spec_cell(x, y) is None,
            },
    {
        if x >= self.width || y >= self.height {
            return None;
        }
        let idx = self.index_of(x, y);
        Some(&self.cells[idx])
    }

    /// The cell at `(x, y)`, or a blocked level-0 cell out of bounds.
    pub fn cell_or_blocked_exec(&self, x: u16, y: u16) -> (r: PathCell)
        ensures
            r == self.cell_or_blocked(x, y),
    {
        match self.cell(x, y) {
            Some(c) => *c,
            None => blocked_cell(),
        }
    }

    /// Walkability on a given layer; air and underground are never walkable here.
    pub fn is_walkable_on_layer(&self, x: u16, y: u16, layer: MovementLayer) -> (r: bool)
        ensures
            r == self.spec_walkable_on_layer(x, y, layer),
    {
        match self.cell(x, y) {
            None => false,
            Some(cell) => match layer {
                MovementLayer::Ground => cell.ground_walkable,
                MovementLayer::Bridge => cell.bridge_walkable,
                MovementLayer::Air | MovementLayer::Underground => false,
            },
        }
    }

    /// Walkable on the ground or the bridge layer.
    pub fn is_any_layer_walkable(&self, x: u16, y: u16) -> (r: bool)
        ensures
            r == (self.spec_walkable(x, y) || self.spec_walkable_on_layer(x, y, MovementLayer::Bridge)),
    {
        if self.is_walkable(x, y) {
            return true;
        }
        self.is_walkable_on_layer(x, y, MovementLayer::Bridge)
    }

    /// Whether the cell is a bridge transition point.
    pub fn is_transition(&self, x: u16, y: u16) -> (r: bool)
        ensures
            r == (self.spec_cell(x, y) is Some && self.spec_cell(x, y)->0.transition),
    {
        match self.cell(x, y) {
            Some(c) => c.is_bridge_transition_cell(),
            None => false,
        }
    }

    /// The walkable bridge deck level at `(x, y)`, if any.
    pub fn bridge_deck_level(&self, x: u16, y: u16) -> (r: Option<u8>)
        ensures
            r == match self.spec_cell(x, y) {
                Some(c) => spec_bridge_deck_level_if_any(c),
                None => None,
            },
    {
        match self.cell(x, y) {
            Some(c) => c.bridge_deck_level_if_any(),
            None => None,
        }
    }

    /// Whether a ground unit can step onto the bridge layer at `(x, y)`.
    pub fn can_enter_bridge_layer_from_ground(&self, x: u16, y: u16) -> (r: bool)
        ensures
            r == match self.spec_cell(x, y) {
                Some(c) => c.bridge_walkable && c.transition,
                None => false,
            },
    {
        match self.cell(x, y) {
            Some(c) => c.can_enter_bridge_layer_from_ground(),
            None => false,
        }
    }
}


impl PathGrid {
    /// Whether `c` is an acceptable stopping cell: walkable (on the ground,
    /// or on either layer when `any_layer`) and not entity-blocked unless it
    /// is the allowed cell.
    pub open spec fn acceptable(
        self,
        c: (u16, u16),
        blocks: Option<&BTreeSet<(u16, u16)>>,
        allow: Option<(u16, u16)>,
        any_layer: bool,
    ) -> bool {
        &&& if any_layer {
            self.spec_walkable(c.0, c.1) || self.spec_walkable_on_layer(c.0, c.1, MovementLayer::Bridge)
        } else {
            self.spec_walkable(c.0, c.1)
        }
        &&& (allow == Some(c) || !opt_set_has(blocks, c))
    }

    fn check_acceptable(
        &self,
        cx: i32,
        cy: i32,
        blocks: Option<&BTreeSet<(u16, u16)>>,
        allow: Option<(u16, u16)>,
        any_layer: bool,
    ) -> (r: bool)
        ensures
            r == (0 <= cx < self.spec_width() && 0 <= cy < self.spec_height()
                && self.acceptable((cx as u16, cy as u16), blocks, allow, any_layer)),
    {
        if cx < 0 || cy < 0 || cx >= self.width as i32 || cy >= self.height as i32 {
            return false;
        }
        let c = (cx as u16, cy as u16);
        let walk = if any_layer {
            self.is_any_layer_walkable(c.0, c.1)
        } else {
            self.is_walkable(c.0, c.1)
        };
        if !walk {
            return false;
        }
        let allowed = match allow {
            Some(a) => a.0 == c.0 && a.1 == c.1,
            None => false,
        };
        allowed || !opt_set_contains(blocks, c)
    }

    /// Ring search shared by the two nearest-cell queries.
    fn ring_search(
        &self,
        x: u16,
        y: u16,
        max_radius: u16,
        blocks: Option<&BTreeSet<(u16, u16)>>,
        allow: Option<(u16, u16)>,
        any_layer: bool,
    ) -> (r: Option<(u16, u16)>)
        ensures
            match r {
                Some(c) => {
                    &&& self.acceptable(c, blocks, allow, any_layer)
                    &&& chebyshev(c.0 as int, c.1 as int, x as int, y as int) <= max_radius
                    &&& forall|cx: u16, cy: u16|
                        #[trigger] self.acceptable((cx, cy), blocks, allow, any_layer) ==> chebyshev(
                            cx as int,
                            cy as int,
                            x as int,
                            y as int,
                        ) >= chebyshev(c.0 as int, c.1 as int, x as int, y as int)
                },
                None => forall|cx: u16, cy: u16|
                    #[trigger] self.acceptable((cx, cy), blocks, allow, any_layer) ==> chebyshev(
                        cx as int,
                        cy as int,
                        x as int,
                        y as int,
                    ) > max_radius,
            },
    {
        if self.check_acceptable(x as i32, y as i32, blocks, allow, any_layer) {
            return Some((x, y));
        }
        if max_radius == 0 {
            return None;
        }
        let mut radius: u16 = 1;
        while radius <= max_radius
            invariant
                1 <= radius <= max_radius,
                forall|cx: u16, cy: u16|
                    #[trigger] self.acceptable((cx, cy), blocks, allow, any_layer) ==> chebyshev(
                        cx as int,
                        cy as int,
                        x as int,
                        y as int,
                    ) >= radius,
            decreases max_radius as int - radius,
        {
            let r = radius as i32;
            let mut d: i32 = -r;
            while d <= r
                invariant
                    r == radius as i32,
                    1 <= radius <= max_radius,
                    -r <= d <= r + 1,
                    forall|cx: u16, cy: u16|
                        #[trigger] self.acceptable((cx, cy), blocks, allow, any_layer) ==> chebyshev(
                            cx as int,
                            cy as int,
                            x as int,
                            y as int,
                        ) >= radius,
                    forall|cx: u16, cy: u16|
                        #[trigger] self.acceptable((cx, cy), blocks, allow, any_layer) && chebyshev(
                            cx as int,
                            cy as int,
                            x as int,
                            y as int,
                        ) == radius ==> {
                            &&& (cy as int == y as int - r ==> cx as int - x as int >= d)
                            &&& (cy as int == y as int + r ==> cx as int - x as int >= d)
                            &&& (cx as int == x as int - r ==> cy as int - y as int >= d)
                            &&& (cx as int == x as int + r ==> cy as int - y as int >= d)
                        },
                decreases r + 1 - d,
            {
                let x0 = x as i32 + d;
                let y0 = y as i32 - r;
                if self.check_acceptable(x0, y0, blocks, allow, any_layer) {
                    return Some((x0 as u16, y0 as u16));
                }
                let x1 = x as i32 + d;
                let y1 = y as i32 + r;
                if self.check_acceptable(x1, y1, blocks, allow, any_layer) {
                    return Some((x1 as u16, y1 as u16));
                }
                let x2 = x as i32 - r;
                let y2 = y as i32 + d;
                if self.check_acceptable(x2, y2, blocks, allow, any_layer) {
                    return Some((x2 as u16, y2 as u16));
                }
                let x3 = x as i32 + r;
                let y3 = y as i32 + d;
                if self.check_acceptable(x3, y3, blocks, allow, any_layer) {
                    return Some((x3 as u16, y3 as u16));
                }
                d = d + 1;
            }
            assert forall|cx: u16, cy: u16|
                #[trigger] self.acceptable((cx, cy), blocks, allow, any_layer) implies chebyshev(
                    cx as int,
                    cy as int,
                    x as int,
                    y as int,
                ) > radius by {
                let dx = cx as int - x as int;
                let dy = cy as int - y as int;
                if chebyshev(cx as int, cy as int, x as int, y as int) == radius {
                    if dy == -(r as int) || dy == r as int {
                        assert(dx >= d);
                    } else {
                        assert(dy >= d);
                    }
                }
            }
            if radius == max_radius {
                return None;
            }
            radius = radius + 1;
        }
        None
    }

    /// Nearest ground-walkable, non-blocked cell to `(x, y)` within
    /// `max_radius`, searching in expanding square rings.
    pub fn nearest_walkable(
        &self,
        x: u16,
        y: u16,
        max_radius: u16,
        entity_blocks: Option<&BTreeSet<(u16, u16)>>,
        allow: Option<(u16, u16)>,
    ) -> (r: Option<(u16, u16)>)
        ensures
            match r {
                Some(c) => {
                    &&& self.acceptable(c, entity_blocks, allow, false)
                    &&& chebyshev(c.0 as int, c.1 as int, x as int, y as int) <= max_radius
                    &&& forall|cx: u16, cy: u16|
                        #[trigger] self.acceptable((cx, cy), entity_blocks, allow, false) ==> chebyshev(
                            cx as int,
                            cy as int,
                            x as int,
                            y as int,
                        ) >= chebyshev(c.0 as int, c.1 as int, x as int, y as int)
                },
                None => forall|cx: u16, cy: u16|
                    #[trigger] self.acceptable((cx, cy), entity_blocks, allow, false) ==> chebyshev(
                        cx as int,
                        cy as int,
                        x as int,
                        y as int,
                    ) > max_radius,
            },
    {
        self.ring_search(x, y, max_radius, entity_blocks, allow, false)
    }

    /// Nearest cell walkable on either layer and not blocked, within `max_radius`.
    pub fn nearest_walkable_any_layer(
        &self,
        x: u16,
        y: u16,
        max_radius: u16,
        entity_blocks: Option<&BTreeSet<(u16, u16)>>,
        allow: Option<(u16, u16)>,
    ) -> (r: Option<(u16, u16)>)
        ensures
            match r {
                Some(c) => {
                    &&& self.acceptable(c, entity_blocks, allow, true)
                    &&& chebyshev(c.0 as int, c.1 as int, x as int, y as int) <= max_radius
                    &&& forall|cx: u16, cy: u16|
                        #[trigger] self.acceptable((cx, cy), entity_blocks, allow, true) ==> chebyshev(
                            cx as int,
                            cy as int,
                            x as int,
                            y as int,
                        ) >= chebyshev(c.0 as int, c.1 as int, x as int, y as int)
                },
                None => forall|cx: u16, cy: u16|
                    #[trigger] self.acceptable((cx, cy), entity_blocks, allow, true) ==> chebyshev(
                        cx as int,
                        cy as int,
                        x as int,
                        y as int,
                    ) > max_radius,
            },
    {
        self.ring_search(x, y, max_radius, entity_blocks, allow, true)
    }
}

/// Whether a standing bridge deck is recorded at the cell (no runtime state:
/// every deck stands).
pub open spec fn deck_intact(cell: ResolvedTerrainCell, bs: Option<&BridgeRuntimeState>) -> bool {
    match bs {
        Some(st) => st.spec_is_bridge_walkable(cell.rx, cell.ry),
        None => true,
    }
}

/// The path cell derived from a resolved terrain cell and optional bridge state.
pub open spec fn spec_path_cell_of(cell: ResolvedTerrainCell, bs: Option<&BridgeRuntimeState>) -> PathCell {
    PathCell {
        ground_walkable: if cell.overlay_blocks || cell.terrain_object_blocks {
            false
        } else if cell.has_bridge_deck {
            if deck_intact(cell, bs) {
                true
            } else {
                !cell.is_cliff_like && !cell.ground_walk_blocked
            }
        } else if cell.is_cliff_like {
            false
        } else {
            !cell.ground_walk_blocked || cell.is_water
        },
        bridge_walkable: match bs {
            Some(st) => st.spec_is_bridge_walkable(cell.rx, cell.ry),
            None => cell.bridge_walkable,
        },
        transition: match bs {
            Some(st) => cell.bridge_transition && (!cell.has_bridge_deck || st.spec_is_bridge_walkable(
                cell.rx,
                cell.ry,
            )),
            None => cell.bridge_transition,
        },
        ground_level: cell.level,
        bridge_deck_level: match bs {
            Some(st) => match st.spec_cell(cell.rx, cell.ry) {
                Some(rt) => rt.deck_level,
                None => cell.bridge_deck_level,
            },
            None => cell.bridge_deck_level,
        },
    }
}

/// Compute the path cell of one resolved terrain cell.
pub fn path_cell_of(cell: &ResolvedTerrainCell, bs: Option<&BridgeRuntimeState>) -> (r: PathCell)
    ensures
        r == spec_path_cell_of(*cell, bs),
{
    let intact = match bs {
        Some(st) => st.is_bridge_walkable(cell.rx, cell.ry),
        None => true,
    };
    let ground_walkable = if cell.overlay_blocks || cell.terrain_object_blocks {
        false
    } else if cell.has_bridge_deck {
        if intact {
            true
        } else {
            !cell.is_cliff_like && !cell.ground_walk_blocked
        }
    } else if cell.is_cliff_like {
        false
    } else {
        !cell.ground_walk_blocked || cell.is_water
    };
    let bridge_walkable = match bs {
        Some(st) => st.is_bridge_walkable(cell.rx, cell.ry),
        None => cell.bridge_walkable,
    };
    let transition = match bs {
        Some(st) => cell.bridge_transition && (!cell.has_bridge_deck || st.is_bridge_walkable(
            cell.rx,
            cell.ry,
        )),
        None => cell.bridge_transition,
    };
    let bridge_deck_level = match bs {
        Some(st) => match st.cell(cell.rx, cell.ry) {
            Some(rt) => rt.deck_level,
            None => cell.bridge_deck_level,
        },
        None => cell.bridge_deck_level,
    };
    PathCell {
        ground_walkable,
        bridge_walkable,
        transition,
        ground_level: cell.level,
        bridge_deck_level,
    }
}

/// Index a map cell marks walkable in `from_map_data`: it has a tile, lies
/// inside the map and is not a cliff.
pub open spec fn map_cell_target(c: MapCell, lookup: Option<&TilesetLookup>, w: u16, h: u16) -> Option<int> {
    if c.tile_index >= 0 && c.rx < w && c.ry < h && !lookup_is_cliff(lookup, spec_tile_id(c)) {
        Some(cell_index(c.rx as int, c.ry as int, w as int))
    } else {
        None
    }
}

/// Row-major coordinates of the cells that differ among the first `n` cells.
pub open spec fn diff_list(a: Seq<PathCell>, b: Seq<PathCell>, w: int, n: int) -> Seq<(u16, u16)>
    decreases n,
{
    if n <= 0 {
        Seq::empty()
    } else {
        let prev = diff_list(a, b, w, n - 1);
        if a[n - 1] != b[n - 1] {
            prev.push((((n - 1) % w) as u16, ((n - 1) / w) as u16))
        } else {
            prev
        }
    }
}

/// Whether `(x, y)` is covered by a `fw` x `fh` footprint at `(rx, ry)`,
/// coordinates wrapping at 16 bits.
pub open spec fn in_footprint(x: int, y: int, rx: u16, ry: u16, fw: u16, fh: u16) -> bool {
    (x - rx) % 65536 < fw && (y - ry) % 65536 < fh
}

impl PathGrid {
    /// Build a walkability grid from map cells: every cell starts blocked;
    /// cells that carry a tile, lie inside the map and are not cliffs become
    /// ground-walkable. No bridge data is set.
    pub fn from_map_data(cells: &[MapCell], lookup: Option<&TilesetLookup>, map_width: u16, map_height: u16) -> (r: Self)
        requires
            map_width as int * map_height as int <= usize::MAX,
        ensures
            r.spec_width() == map_width,
            r.spec_height() == map_height,
            forall|i: int|
                0 <= i < r.spec_cells().len() ==> #[trigger] r.spec_cells()[i] == (PathCell {
                    ground_walkable: exists|k: int|
                        0 <= k < cells@.len() && map_cell_target(#[trigger] cells@[k], lookup, map_width, map_height)
                            == Some(i),
                    ..default_blocked_cell()
                }),
    {
        let size = map_width as usize * map_height as usize;
        let mut out: Vec<PathCell> = vec![blocked_cell(); size];
        let mut k: usize = 0;
        while k < cells.len()
            invariant
                k <= cells@.len(),
                size == map_width as int * map_height as int,
                out@.len() == size,
                forall|i: int|
                    0 <= i < size ==> #[trigger] out@[i] == (PathCell {
                        ground_walkable: exists|j: int|
                            0 <= j < k && map_cell_target(#[trigger] cells@[j], lookup, map_width, map_height)
                                == Some(i),
                        ..default_blocked_cell()
                    }),
            decreases cells@.len() - k,
        {
            let c = cells[k];
            if c.tile_index >= 0 && c.rx < map_width && c.ry < map_height {
                let tile_id = tile_id_of(&c);
                let is_cliff = match lookup {
                    Some(l) => l.is_cliff(tile_id),
                    None => false,
                };
                if !is_cliff {
                    proof {
                        lemma_index_in_bounds(c.rx as int, c.ry as int, map_width as int, map_height as int);
                    }
                    let idx = c.ry as usize * map_width as usize + c.rx as usize;
                    let mut cell = out[idx];
                    cell.ground_walkable = true;
                    out.set(idx, cell);
                }
            }
            proof {
                assert forall|i: int| 0 <= i < size implies #[trigger] out@[i] == (PathCell {
                    ground_walkable: exists|j: int|
                        0 <= j < k + 1 && map_cell_target(#[trigger] cells@[j], lookup, map_width, map_height)
                            == Some(i),
                    ..default_blocked_cell()
                }) by {
                    if map_cell_target(cells@[k as int], lookup, map_width, map_height) == Some(i) {
                        assert(0 <= k < k + 1);
                    }
                }
            }
            k = k + 1;
        }
        PathGrid { cells: out, width: map_width, height: map_height }
    }

    /// Build from resolved terrain without bridge runtime state.
    pub fn from_resolved_terrain(terrain: &ResolvedTerrainGrid) -> (r: Self)
        ensures
            r.spec_width() == terrain.spec_width(),
            r.spec_height() == terrain.spec_height(),
            r.spec_cells().len() == terrain.spec_cells().len(),
            forall|i: int|
                0 <= i < r.spec_cells().len() ==> #[trigger] r.spec_cells()[i] == spec_path_cell_of(
                    terrain.spec_cells()[i],
                    None,
                ),
    {
        Self::from_resolved_terrain_with_bridges(terrain, None)
    }

    /// Build from resolved terrain with optional bridge runtime state: cell
    /// `i` of the grid is derived from terrain cell `i` by `spec_path_cell_of`.
    pub fn from_resolved_terrain_with_bridges(
        terrain: &ResolvedTerrainGrid,
        bridge_state: Option<&BridgeRuntimeState>,
    ) -> (r: Self)
        ensures
            r.spec_width() == terrain.spec_width(),
            r.spec_height() == terrain.spec_height(),
            r.spec_cells().len() == terrain.spec_cells().len(),
            forall|i: int|
                0 <= i < r.spec_cells().len() ==> #[trigger] r.spec_cells()[i] == spec_path_cell_of(
                    terrain.spec_cells()[i],
                    bridge_state,
                ),
    {
        let n = terrain.len();
        let mut out: Vec<PathCell> = Vec::new();
        let mut i: usize = 0;
        while i < n
            invariant
                i <= n,
                n == terrain.spec_cells().len(),
                out@.len() == i,
                forall|j: int|
                    0 <= j < i ==> #[trigger] out@[j] == spec_path_cell_of(terrain.spec_cells()[j], bridge_state),
            decreases n - i,
        {
            let c = terrain.cell_at_index(i);
            out.push(path_cell_of(c, bridge_state));
            i = i + 1;
        }
        PathGrid { cells: out, width: terrain.width(), height: terrain.height() }
    }

    /// Coordinates of the cells whose path data differ between two grids of
    /// equal size, in row-major order; `None` when the sizes differ.
    pub fn diff_cells(&self, other: &PathGrid) -> (r: Option<Vec<(u16, u16)>>)
        ensures
            (self.spec_width() != other.spec_width() || self.spec_height() != other.spec_height()) <==> r is None,
            r matches Some(v) ==> v@ == diff_list(
                self.spec_cells(),
                other.spec_cells(),
                self.spec_width() as int,
                self.spec_cells().len() as int,
            ),
    {
        if self.width != other.width || self.height != other.height {
            return None;
        }
        let n = self.len();
        // Both lengths are usize values equal to the cell count.
        let _other_len = other.len();
        let w = self.width as usize;
        let mut changed: Vec<(u16, u16)> = Vec::new();
        let mut idx: usize = 0;
        while idx < n
            invariant
                idx <= n,
                n == self.spec_cells().len(),
                n == other.spec_cells().len(),
                n == self.spec_width() as int * self.spec_height() as int,
                w == self.spec_width(),
                changed@ == diff_list(self.spec_cells(), other.spec_cells(), w as int, idx as int),
            decreases n - idx,
        {
            proof {
                lemma_index_decompose(idx as int, w as int, self.spec_height() as int);
            }
            if self.cells[idx] != other.cells[idx] {
                changed.push(((idx % w) as u16, (idx / w) as u16));
            }
            idx = idx + 1;
        }
        Some(changed)
    }

    /// Block the ground layer under a building footprint whose size is parsed
    /// from `foundation`; cells wrap at 16 bits and out-of-bounds cells are
    /// skipped. Bridge decks are unaffected.
    pub fn block_building_footprint(&mut self, cell_rx: u16, cell_ry: u16, foundation: &str)
        ensures
            final(self).spec_width() == old(self).spec_width(),
            final(self).spec_height() == old(self).spec_height(),
            final(self).spec_cells().len() == old(self).spec_cells().len(),
            forall|x: u16, y: u16|
                #![trigger final(self).spec_cell(x, y)]
                old(self).in_bounds(x as int, y as int) ==> final(self).spec_cell(x, y) == Some(
                    if in_footprint(
                        x as int,
                        y as int,
                        cell_rx,
                        cell_ry,
                        spec_parse_foundation(foundation.spec_bytes()).0,
                        spec_parse_foundation(foundation.spec_bytes()).1,
                    ) {
                        PathCell { ground_walkable: false, ..old(self).spec_cell(x, y)->0 }
                    } else {
                        old(self).spec_cell(x, y)->0
                    },
                ),
    {
        let (fw, fh) = parse_foundation(foundation);
        let ghost old_self = *self;
        proof {
            use_type_invariant(&*self);
        }
        let mut dy: u16 = 0;
        while dy < fh
            invariant
                0 <= dy <= fh,
                self.spec_width() == old_self.spec_width(),
                self.spec_height() == old_self.spec_height(),
                self.spec_cells().len() == old_self.spec_cells().len(),
                old_self.spec_cells().len() == old_self.spec_width() as int * old_self.spec_height() as int,
                forall|x: u16, y: u16|
                    #![trigger self.spec_cell(x, y)]
                    old_self.in_bounds(x as int, y as int) ==> self.spec_cell(x, y) == Some(
                        if in_footprint(x as int, y as int, cell_rx, cell_ry, fw, dy) {
                            PathCell { ground_walkable: false, ..old_self.spec_cell(x, y)->0 }
                        } else {
                            old_self.spec_cell(x, y)->0
                        },
                    ),
            decreases fh - dy,
        {
            let mut dx: u16 = 0;
            while dx < fw
                invariant
                    0 <= dx <= fw,
                    0 <= dy < fh,
                    self.spec_width() == old_self.spec_width(),
                    self.spec_height() == old_self.spec_height(),
                    self.spec_cells().len() == old_self.spec_cells().len(),
                    old_self.spec_cells().len() == old_self.spec_width() as int * old_self.spec_height() as int,
                    forall|x: u16, y: u16|
                        #![trigger self.spec_cell(x, y)]
                        old_self.in_bounds(x as int, y as int) ==> self.spec_cell(x, y) == Some(
                            if in_footprint(x as int, y as int, cell_rx, cell_ry, fw, dy) || ((y - cell_ry)
                                % 65536 == dy && (x - cell_rx) % 65536 < dx) {
                                PathCell { ground_walkable: false, ..old_self.spec_cell(x, y)->0 }
                            } else {
                                old_self.spec_cell(x, y)->0
                            },
                        ),
                decreases fw - dx,
            {
                let bx = cell_rx.wrapping_add(dx);
                let by = cell_ry.wrapping_add(dy);
                let ghost before = *self;
                self.set_blocked(bx, by, true);
                proof {
                    assert((bx - cell_rx) % 65536 == dx);
                    assert((by - cell_ry) % 65536 == dy);
                    assert forall|x: u16, y: u16|
                        #![trigger self.spec_cell(x, y)]
                        old_self.in_bounds(x as int, y as int) implies self.spec_cell(x, y) == Some(
                            if in_footprint(x as int, y as int, cell_rx, cell_ry, fw, dy) || ((y - cell_ry)
                                % 65536 == dy && (x - cell_rx) % 65536 < dx + 1) {
                                PathCell { ground_walkable: false, ..old_self.spec_cell(x, y)->0 }
                            } else {
                                old_self.spec_cell(x, y)->0
                            },
                        ) by {
                        let wid = before.spec_width() as int;
                        lemma_index_in_bounds(x as int, y as int, wid, before.spec_height() as int);
                        if x == bx && y == by {
                        } else {
                            if before.in_bounds(bx as int, by as int) {
                                lemma_index_in_bounds(bx as int, by as int, wid, before.spec_height() as int);
                                lemma_distinct_indices(x as int, y as int, bx as int, by as int, wid);
                            }
                            assert(before.spec_cell(x, y) == self.spec_cell(x, y));
                            if (y - cell_ry) % 65536 == dy && (x - cell_rx) % 65536 == dx {
                                assert(x == bx);
                                assert(y == by);
                            }
                        }
                    }
                }
                dx = dx + 1;
            }
            dy = dy + 1;
        }
    }
}

/// Distinct in-row coordinates have distinct row-major indices.
proof fn lemma_distinct_indices(x1: int, y1: int, x2: int, y2: int, w: int)
    requires
        0 <= x1 < w,
        0 <= x2 < w,
        0 <= y1,
        0 <= y2,
        x1 != x2 || y1 != y2,
    ensures
        y1 * w + x1 != y2 * w + x2,
{
    if y1 == y2 {
    } else if y1 < y2 {
        assert(y1 * w + w <= y2 * w) by (nonlinear_arith)
            requires
                y1 < y2,
                0 < w,
        ;
    } else {
        assert(y2 * w + w <= y1 * w) by (nonlinear_arith)
            requires
                y2 < y1,
                0 < w,
        ;
    }
}

} // verus!
