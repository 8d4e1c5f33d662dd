//! Runtime state of destructible bridges: each bridge deck cell belongs to a
//! bridge group with shared health; a destroyed group's decks stop being
//! walkable.

use crate::grid_index::{cell_index, lemma_index_decompose, lemma_index_in_bounds};
use crate::map::{ResolvedTerrainCell, ResolvedTerrainGrid};
use crate::pathfinding::zone_build::{
    fill_all, label_at, labels_below, labels_closed, lemma_unlabeled_members_bounds, members_labeled, rule_member, FloodRule,
};
use vstd::prelude::*;

verus! {

/// Runtime record of one bridge deck cell.
#[derive(Debug, Clone, Copy, PartialEq, Eq, Structural)]
pub struct BridgeCellRuntime {
    pub deck_level: u8,
    pub group: usize,
}

/// Damage dealt to the bridge deck at a cell.
#[derive(Debug, Clone, Copy, PartialEq, Eq, Structural)]
pub struct BridgeDamageEvent {
    pub rx: u16,
    pub ry: u16,
    pub damage: u16,
}

/// Cells whose decks were destroyed by one damage event.
#[derive(Debug)]
pub struct BridgeChange {
    pub destroyed_cells: Vec<(u16, u16)>,
}

/// Bridge decks of a map, grouped into bridges with shared health.
pub struct BridgeRuntimeState {
    width: u16,
    height: u16,
    cells: Vec<Option<BridgeCellRuntime>>,
    health: Vec<u16>,
    destroyed: Vec<bool>,
    destroyable: bool,
}

impl BridgeRuntimeState {
    #[verifier::type_invariant]
    spec fn wf(self) -> bool {
        &&& self.cells@.len() == self.width as int * self.height as int
        &&& self.health@.len() == self.destroyed@.len()
        &&& forall|i: int|
            0 <= i < self.cells@.len() && (#[trigger] self.cells@[i]) is Some ==> self.cells@[i]->0.group
                < self.health@.len()
    }

    /// Grid width.
    pub closed spec fn spec_width(self) -> u16 {
        self.width
    }

    /// Grid height.
    pub closed spec fn spec_height(self) -> u16 {
        self.height
    }

    /// The deck record at `(x, y)`, if the cell has a bridge deck.
    pub closed spec fn spec_cell(self, x: u16, y: u16) -> Option<BridgeCellRuntime> {
        if x < self.width && y < self.height {
            self.cells@[cell_index(x as int, y as int, self.width as int)]
        } else {
            None
        }
    }

    /// Whether `(x, y)` has a deck of group `g`.
    pub open spec fn spec_in_group(self, x: u16, y: u16, g: usize) -> bool {
        self.spec_cell(x, y) is Some && self.spec_cell(x, y)->0.group == g
    }

    /// Whether the group has been destroyed.
    pub closed spec fn spec_group_destroyed(self, g: usize) -> bool {
        g < self.destroyed@.len() && self.destroyed@[g as int]
    }

    /// Remaining health of a group.
    pub closed spec fn spec_group_health(self, g: usize) -> u16 {
        if g < self.health@.len() {
            self.health@[g as int]
        } else {
            0
        }
    }

    /// Number of groups.
    pub closed spec fn spec_group_count(self) -> nat {
        self.health@.len()
    }

    /// Whether bridges can be destroyed at all.
    pub closed spec fn spec_destroyable(self) -> bool {
        self.destroyable
    }

    /// A deck cell is walkable while its group stands.
    pub open spec fn spec_is_bridge_walkable(self, x: u16, y: u16) -> bool {
        match self.spec_cell(x, y) {
            Some(c) => !self.spec_group_destroyed(c.group),
            None => false,
        }
    }

    /// The deck record at `(x, y)`.
    pub fn cell(&self, x: u16, y: u16) -> (r: Option<&BridgeCellRuntime>)
        ensures
            match r {
                Some(c) => self.spec_cell(x, y) == Some(*c) && c.group < self.spec_group_count(),
                None => self.spec_cell(x, y) is None,
            },
    {
        proof {
            use_type_invariant(self);
        }
        // The stored length (a usize) bounds every in-grid index.
        let _stored = self.cells.len();
        if x < self.width && y < self.height {
            proof {
                lemma_index_in_bounds(x as int, y as int, self.width as int, self.height as int);
            }
            let idx = y as usize * self.width as usize + x as usize;
            match &self.cells[idx] {
                Some(c) => Some(c),
                None => None,
            }
        } else {
            None
        }
    }

    /// Whether the bridge deck at `(x, y)` exists and stands.
    pub fn is_bridge_walkable(&self, x: u16, y: u16) -> (r: bool)
        ensures
            r == self.spec_is_bridge_walkable(x, y),
    {
        proof {
            use_type_invariant(self);
        }
        match self.cell(x, y) {
            Some(c) => {
                // The stored length (a usize) bounds every in-grid index.
                let _stored = self.destroyed.len();
                !self.destroyed[c.group]
            },
            None => false,
        }
    }
}

/// Link rule of bridge groups: neighboring deck cells.
pub open spec fn deck_rule<'a>(terrain: &'a ResolvedTerrainGrid) -> FloodRule<'a> {
    FloodRule::Deck { terrain }
}

impl BridgeRuntimeState {
    /// Group the deck cells of the terrain into bridges (deck cells joined
    /// through neighboring deck cells), each starting with `strength` health.
    pub fn from_resolved_terrain(terrain: &ResolvedTerrainGrid, destroyable: bool, strength: u16) -> (r: Self)
        requires
            terrain.spec_width() as int * terrain.spec_height() as int <= 65534,
        ensures
            r.spec_width() == terrain.spec_width(),
            r.spec_height() == terrain.spec_height(),
            r.spec_destroyable() == destroyable,
            forall|x: u16, y: u16|
                x < r.spec_width() && y < r.spec_height() ==> (#[trigger] r.spec_cell(x, y) is Some <==> rule_member(
                    deck_rule(terrain),
                    r.spec_width() as int,
                    x,
                    y,
                )),
            forall|x: u16, y: u16|
                #[trigger] r.spec_cell(x, y) is Some ==> r.spec_cell(x, y)->0.deck_level == terrain.spec_cell(x, y)->0.bridge_deck_level
                    && !r.spec_group_destroyed(r.spec_cell(x, y)->0.group) && r.spec_group_health(r.spec_cell(x, y)->0.group) == strength,
            forall|ax: u16, ay: u16, bx: u16, by: u16|
                crate::pathfinding::zone_build::flood_allowed(
                    deck_rule(terrain),
                    r.spec_width() as int,
                    r.spec_height() as int,
                    ax,
                    ay,
                    bx,
                    by,
                ) ==> #[trigger] r.spec_cell(ax, ay)->0.group == #[trigger] r.spec_cell(bx, by)->0.group,
    {
        let width = terrain.width();
        let height = terrain.height();
        let ghost w = width as int;
        let ghost h = height as int;
        let total = width as usize * height as usize;
        let mut labels: Vec<u16> = Vec::new();
        let mut k: usize = 0;
        while k < total
            invariant
                k <= total,
                labels@.len() == k,
                forall|j: int| 0 <= j < k ==> #[trigger] labels@[j] == 0,
            decreases total - k,
        {
            labels.push(0);
            k = k + 1;
        }
        let rule = FloodRule::Deck { terrain };
        proof {
            assert forall|cx: u16, cy: u16, nx: u16, ny: u16|
                #[trigger] crate::pathfinding::zone_build::flood_allowed(rule, w, h, cx, cy, nx, ny) && label_at(labels@, w, cx, cy)
                    != 0 implies label_at(labels@, w, nx, ny) == label_at(labels@, w, cx, cy) by {
                lemma_index_in_bounds(cx as int, cy as int, w, h);
            }
            lemma_unlabeled_members_bounds(labels@, rule, w, w * h, 0);
        }
        let next = fill_all(&rule, &mut labels, width, height, 1);
        let groups = (next - 1) as usize;
        let mut health: Vec<u16> = Vec::new();
        let mut destroyed: Vec<bool> = Vec::new();
        let mut g: usize = 0;
        while g < groups
            invariant
                g <= groups,
                health@.len() == g,
                destroyed@.len() == g,
                forall|j: int| 0 <= j < g ==> #[trigger] health@[j] == strength && !destroyed@[j],
            decreases groups - g,
        {
            health.push(strength);
            destroyed.push(false);
            g = g + 1;
        }
        let tl = terrain.len();
        proof {
            assert(terrain.spec_cells().len() == total);
        }
        let mut cells: Vec<Option<BridgeCellRuntime>> = Vec::new();
        let mut i: usize = 0;
        while i < total
            invariant
                i <= total,
                total == w * h,
                w == width as int,
                h == height as int,
                labels@.len() == total,
                cells@.len() == i,
                labels_below(labels@, next as int),
                groups == next - 1,
                forall|j: int|
                    0 <= j < i ==> (#[trigger] cells@[j] is Some <==> labels@[j] != 0) && (cells@[j] matches Some(c)
                        ==> c.group == labels@[j] - 1 && c.deck_level == terrain.spec_cells()[j].bridge_deck_level),
                terrain.spec_cells().len() == total,
            decreases total - i,
        {
            let l = labels[i];
            if l != 0 {
                let c = terrain.cell_at_index(i);
                cells.push(Some(BridgeCellRuntime { deck_level: c.bridge_deck_level, group: (l - 1) as usize }));
            } else {
                cells.push(None);
            }
            i = i + 1;
        }
        let r = BridgeRuntimeState { width, height, cells, health, destroyed, destroyable };
        proof {
            assert forall|x: u16, y: u16|
                x < r.spec_width() && y < r.spec_height() implies (#[trigger] r.spec_cell(x, y) is Some <==> rule_member(
                rule,
                w,
                x,
                y,
            )) by {
                lemma_index_in_bounds(x as int, y as int, w, h);
                crate::grid_index::lemma_index_coords(x as int, y as int, w);
            }
            assert forall|x: u16, y: u16|
                #[trigger] r.spec_cell(x, y) is Some implies r.spec_cell(x, y)->0.deck_level == terrain.spec_cell(x, y)->0.bridge_deck_level
                    && !r.spec_group_destroyed(r.spec_cell(x, y)->0.group) && r.spec_group_health(r.spec_cell(x, y)->0.group) == strength by {
                lemma_index_in_bounds(x as int, y as int, w, h);
                let idx = cell_index(x as int, y as int, w);
                assert(cells@[idx] is Some);
                assert(labels@[idx] < next);
                let g = cells@[idx]->0.group;
                assert(g == labels@[idx] - 1);
                assert(health@[g as int] == strength);
                assert(!destroyed@[g as int]);
            }
            assert forall|ax: u16, ay: u16, bx: u16, by: u16|
                crate::pathfinding::zone_build::flood_allowed(rule, w, h, ax, ay, bx, by) implies #[trigger] r.spec_cell(
                ax,
                ay,
            )->0.group == #[trigger] r.spec_cell(bx, by)->0.group by {
                lemma_index_in_bounds(ax as int, ay as int, w, h);
                lemma_index_in_bounds(bx as int, by as int, w, h);
                crate::grid_index::lemma_index_coords(ax as int, ay as int, w);
                crate::grid_index::lemma_index_coords(bx as int, by as int, w);
                assert(label_at(labels@, w, ax, ay) != 0);
            }
        }
        r
    }

    /// Deal damage to the bridge at a cell: the bridge's health drops (not
    /// below 0); at 0 the bridge is destroyed and all its deck cells are
    /// returned. Nothing happens when bridges cannot be destroyed, the cell
    /// has no deck, or its bridge is already destroyed.
    pub fn apply_damage(&mut self, event: BridgeDamageEvent) -> (r: Option<BridgeChange>)
        ensures
            final(self).spec_width() == old(self).spec_width(),
            final(self).spec_height() == old(self).spec_height(),
            final(self).spec_destroyable() == old(self).spec_destroyable(),
            forall|x: u16, y: u16| #[trigger] final(self).spec_cell(x, y) == old(self).spec_cell(x, y),
            final(self).spec_group_count() == old(self).spec_group_count(),
            match old(self).spec_cell(event.rx, event.ry) {
                Some(c) if old(self).spec_destroyable() && !old(self).spec_group_destroyed(c.group) => {
                    let hp = if old(self).spec_group_health(c.group) > event.damage {
                        old(self).spec_group_health(c.group) - event.damage
                    } else {
                        0
                    };
                    &&& final(self).spec_group_health(c.group) == hp
                    &&& forall|g: usize| g != c.group ==> #[trigger] final(self).spec_group_health(g) == old(self).spec_group_health(g)
                        && final(self).spec_group_destroyed(g) == old(self).spec_group_destroyed(g)
                    &&& final(self).spec_group_destroyed(c.group) == (hp == 0)
                    &&& (hp == 0) == r is Some
                    &&& r matches Some(ch) ==> forall|x: u16, y: u16|
                        #[trigger] ch.destroyed_cells@.contains((x, y)) <==> old(self).spec_in_group(x, y, c.group)
                },
                _ => r is None && *final(self) == *old(self),
            },
    {
        proof {
            use_type_invariant(&*self);
        }
        if !self.destroyable {
            return None;
        }
        let group = match self.cell(event.rx, event.ry) {
            None => {
                return None;
            },
            Some(c) => c.group,
        };
        if self.destroyed[group] {
            return None;
        }
        let hp = self.health[group];
        let new_hp = if hp > event.damage {
            hp - event.damage
        } else {
            0
        };
        let ghost before = *self;
        self.health[group] = new_hp;
        proof {
            assert(self.health@ == before.health@.update(group as int, new_hp));
            assert(self.cells@ == before.cells@);
            assert(self.destroyed@ == before.destroyed@);
        }
        if new_hp > 0 {
            proof {
                assert forall|x: u16, y: u16| #[trigger] self.spec_cell(x, y) == before.spec_cell(x, y) by {
                }
                assert forall|g: usize| g != group implies #[trigger] self.spec_group_health(g) == before.spec_group_health(g)
                    && self.spec_group_destroyed(g) == before.spec_group_destroyed(g) by {
                }
            }
            return None;
        }
        let ghost mid = *self;
        self.destroyed[group] = true;
        proof {
            assert(self.destroyed@ == mid.destroyed@.update(group as int, true));
            assert(self.cells@ == before.cells@);
            assert forall|x: u16, y: u16| #[trigger] self.spec_cell(x, y) == before.spec_cell(x, y) by {
            }
            assert forall|g: usize| g != group implies #[trigger] self.spec_group_health(g) == before.spec_group_health(g)
                && self.spec_group_destroyed(g) == before.spec_group_destroyed(g) by {
            }
        }
        let mut out: Vec<(u16, u16)> = Vec::new();
        let mut y: u16 = 0;
        let width = self.width;
        let height = self.height;
        while y < height
            invariant
                width == self.spec_width(),
                height == self.spec_height(),
                y <= height,
                forall|cx: u16, cy: u16|
                    #[trigger] out@.contains((cx, cy)) <==> (cy < y && self.spec_in_group(cx, cy, group)),
            decreases height - y,
        {
            let mut x: u16 = 0;
            while x < width
                invariant
                    width == self.spec_width(),
                    height == self.spec_height(),
                    y < height,
                    x <= width,
                    forall|cx: u16, cy: u16|
                        #[trigger] out@.contains((cx, cy)) <==> ((cy < y || (cy == y && cx < x)) && self.spec_in_group(cx, cy, group)),
                decreases width - x,
            {
                let hit = match self.cell(x, y) {
                    Some(c) => c.group == group,
                    None => false,
                };
                let ghost before = out@;
                if hit {
                    out.push((x, y));
                }
                proof {
                    assert forall|cx: u16, cy: u16|
                        #[trigger] out@.contains((cx, cy)) <==> ((cy < y || (cy == y && cx < x + 1)) && self.spec_in_group(cx, cy, group)) by {
                        if out@.contains((cx, cy)) && !before.contains((cx, cy)) {
                            assert(out@[out@.len() - 1] == (x, y));
                        }
                        if before.contains((cx, cy)) {
                            let k = choose|k: int| 0 <= k < before.len() && before[k] == (cx, cy);
                            assert(out@[k] == (cx, cy));
                        }
                        if cx == x && cy == y && hit {
                            assert(out@[out@.len() - 1] == (x, y));
                        }
                    }
                }
                x = x + 1;
            }
            y = y + 1;
        }
        Some(BridgeChange { destroyed_cells: out })
    }
}

} // verus!
