//! Cell entry classification: the eight outcomes a unit can meet when it
//! tries to step into a cell.
//!
//! The check runs in two phases. `check_terrain` looks at terrain, this
//! tick's reservations and whether anybody stands in the cell;
//! `classify_occupied_cell` then looks at the occupants themselves
//! (crushability, alliance, whether they are moving).

use std::collections::{BTreeMap, BTreeSet};

use super::path_grid::PathGrid;
use super::terrain_cost::TerrainCostGrid;
use crate::map::EntityCategory;
use crate::movement::{movement_layer_code, MovementLayer};
use crate::rules::{LocomotorKind, MovementZone};
use vstd::prelude::*;

verus! {

/// Who stands in a cell: vehicles and structures (`blockers`) and infantry
/// with the sub-cell each one occupies.
#[derive(Debug, Clone, PartialEq, Eq, Default)]
pub struct CellOccupancy {
    pub blockers: Vec<u64>,
    pub infantry: Vec<(u64, u8)>,
}

/// Occupancy of every cell that has occupants.
pub type OccupancyMap = BTreeMap<(u16, u16), CellOccupancy>;

/// What the second phase needs to know about an occupant.
#[derive(Debug, Clone, Copy, PartialEq, Eq, Structural)]
pub struct OccupantInfo {
    /// Owning house.
    pub owner: u32,
    /// Whether it currently has a movement target.
    pub moving: bool,
    /// Whether a crushing mover may run it over.
    pub crushable: bool,
}

/// Result of checking whether a unit can enter a target cell.
#[derive(Debug, Clone, PartialEq, Eq)]
pub enum CellEntryResult {
    /// The cell is passable: enter freely.
    Clear,
    /// Every occupant can be crushed: crush them and enter.
    Crushable { victims: Vec<u64> },
    /// Blocked by a moving friendly unit: wait, then search again.
    TemporaryBlock { blocker_id: u64 },
    /// Bridge ramp transition: enter with an elevation change.
    BridgeRamp,
    /// A friendly stationary unit stands there: try to make it scatter, or wait.
    OccupiedFriendly { blocker_id: u64 },
    /// An enemy stands there: attack it while waiting.
    OccupiedEnemy { blocker_id: u64 },
    /// Cliff or steep elevation change: search again or stop.
    Cliff,
    /// Terrain impassable: give up.
    Impassable,
}

/// Mathematical form of a cell entry result.
pub enum EntryOutcome {
    Clear,
    Crushable(Seq<u64>),
    TemporaryBlock(u64),
    BridgeRamp,
    OccupiedFriendly(u64),
    OccupiedEnemy(u64),
    Cliff,
    Impassable,
}

impl View for CellEntryResult {
    type V = EntryOutcome;

    open spec fn view(&self) -> EntryOutcome {
        match self {
            CellEntryResult::Clear => EntryOutcome::Clear,
            CellEntryResult::Crushable { victims } => EntryOutcome::Crushable(victims@),
            CellEntryResult::TemporaryBlock { blocker_id } => EntryOutcome::TemporaryBlock(*blocker_id),
            CellEntryResult::BridgeRamp => EntryOutcome::BridgeRamp,
            CellEntryResult::OccupiedFriendly { blocker_id } => EntryOutcome::OccupiedFriendly(*blocker_id),
            CellEntryResult::OccupiedEnemy { blocker_id } => EntryOutcome::OccupiedEnemy(*blocker_id),
            CellEntryResult::Cliff => EntryOutcome::Cliff,
            CellEntryResult::Impassable => EntryOutcome::Impassable,
        }
    }
}

/// Result of the first phase of the check.
#[derive(Debug, Clone, Copy, PartialEq, Eq, Structural)]
pub enum TerrainCheckResult {
    /// Terrain passable and the cell free (or a sub-cell free for infantry).
    Clear,
    /// Terrain impassable for this unit.
    Impassable,
    /// Another mover reserved the cell this tick.
    Reserved,
    /// The cell has occupants; the second phase decides.
    NeedsBlockerCheck,
}

// ---------------------------------------------------------------------------
// Sub-cells
// ---------------------------------------------------------------------------

/// Whether an infantry list uses sub-cell `s`.
pub open spec fn sub_cell_taken(infantry: Seq<(u64, u8)>, s: u8) -> bool {
    exists|i: int| 0 <= i < infantry.len() && (#[trigger] infantry[i]).1 == s
}

/// Whether sub-cell `s` is free in a cell: no infantry uses it and it is not
/// among the reserved ones.
pub open spec fn sub_cell_free(occ: Option<CellOccupancy>, reserved: Option<Seq<u8>>, s: u8) -> bool {
    &&& match occ {
        Some(o) => !sub_cell_taken(o.infantry@, s),
        None => true,
    }
    &&& match reserved {
        Some(r) => !r.contains(s),
        None => true,
    }
}

/// The sub-cell an infantry unit would take: none when a vehicle or
/// structure stands there, else the first free one of 2, 3 and 4.
pub open spec fn spec_free_sub_cell(occ: Option<CellOccupancy>, reserved: Option<Seq<u8>>) -> Option<u8> {
    if occ is Some && occ->0.blockers@.len() > 0 {
        None
    } else if sub_cell_free(occ, reserved, 2) {
        Some(2u8)
    } else if sub_cell_free(occ, reserved, 3) {
        Some(3u8)
    } else if sub_cell_free(occ, reserved, 4) {
        Some(4u8)
    } else {
        None
    }
}

/// The view of an optional slice.
pub open spec fn opt_slice_view(s: Option<&[u8]>) -> Option<Seq<u8>> {
    match s {
        Some(v) => Some(v@),
        None => None,
    }
}

/// The view of an optional occupancy reference.
pub open spec fn opt_occ(o: Option<&CellOccupancy>) -> Option<CellOccupancy> {
    match o {
        Some(c) => Some(*c),
        None => None,
    }
}

/// Whether an infantry list uses sub-cell `s`.
fn infantry_uses(infantry: &Vec<(u64, u8)>, s: u8) -> (r: bool)
    ensures
        r == sub_cell_taken(infantry@, s),
{
    let mut i: usize = 0;
    while i < infantry.len()
        invariant
            i <= infantry.len(),
            forall|j: int| 0 <= j < i ==> (#[trigger] infantry@[j]).1 != s,
        decreases infantry.len() - i,
    {
        if infantry[i].1 == s {
            proof {
                assert(infantry@[i as int].1 == s);
            }
            return true;
        }
        i = i + 1;
    }
    false
}

/// Whether a slice holds `s`.
fn slice_has(v: &[u8], s: u8) -> (r: bool)
    ensures
        r == v@.contains(s),
{
    let mut i: usize = 0;
    while i < v.len()
        invariant
            i <= v.len(),
            forall|j: int| 0 <= j < i ==> v@[j] != s,
        decreases v.len() - i,
    {
        if v[i] == s {
            proof {
                assert(v@[i as int] == s);
            }
            return true;
        }
        i = i + 1;
    }
    false
}

/// Whether sub-cell `s` is free.
fn is_sub_cell_free(occ: Option<&CellOccupancy>, reserved: Option<&[u8]>, s: u8) -> (r: bool)
    ensures
        r == sub_cell_free(opt_occ(occ), opt_slice_view(reserved), s),
{
    let taken = match occ {
        Some(o) => infantry_uses(&o.infantry, s),
        None => false,
    };
    let held = match reserved {
        Some(v) => slice_has(v, s),
        None => false,
    };
    !taken && !held
}

/// The sub-cell an infantry unit entering the cell would take, given the
/// sub-cells already reserved there this tick.
pub fn allocate_sub_cell_with_reserved(occ: Option<&CellOccupancy>, reserved: Option<&[u8]>) -> (r: Option<u8>)
    ensures
        r == spec_free_sub_cell(opt_occ(occ), opt_slice_view(reserved)),
{
    if let Some(o) = occ {
        if o.blockers.len() > 0 {
            return None;
        }
    }
    if is_sub_cell_free(occ, reserved, 2) {
        Some(2)
    } else if is_sub_cell_free(occ, reserved, 3) {
        Some(3)
    } else if is_sub_cell_free(occ, reserved, 4) {
        Some(4)
    } else {
        None
    }
}

// ---------------------------------------------------------------------------
// Phase 1: terrain and occupancy presence
// ---------------------------------------------------------------------------

/// Terrain walkability of the target cell on the target layer.
pub open spec fn spec_terrain_walkable(
    target: (u16, u16),
    layer: MovementLayer,
    path_grid: Option<&PathGrid>,
    layered_grid: Option<&PathGrid>,
    cost_grid: Option<&TerrainCostGrid>,
) -> bool {
    let (x, y) = target;
    match layer {
        MovementLayer::Ground => {
            &&& (path_grid is None || path_grid->0.spec_walkable(x, y))
            &&& (cost_grid is None || cost_grid->0.spec_cost_at(x, y) > 0)
        },
        MovementLayer::Bridge => layered_grid is Some && layered_grid->0.spec_walkable_on_layer(
            x,
            y,
            MovementLayer::Bridge,
        ),
        _ => true,
    }
}

/// The occupancy of `target`, if the map lists it.
pub open spec fn occ_at(occ_map: Map<(u16, u16), CellOccupancy>, target: (u16, u16)) -> Option<CellOccupancy> {
    if occ_map.contains_key(target) {
        Some(occ_map[target])
    } else {
        None
    }
}

/// Outcome of the first phase: impassable terrain first, then a reservation
/// on this layer, then occupancy (infantry need a free sub-cell, other
/// units an empty cell).
pub open spec fn spec_check_terrain(
    target: (u16, u16),
    layer: MovementLayer,
    category: EntityCategory,
    walkable: bool,
    reserved: Set<(u8, u16, u16)>,
    occ_map: Map<(u16, u16), CellOccupancy>,
    reserved_sub_cells: Option<Seq<u8>>,
) -> TerrainCheckResult {
    let occ = occ_at(occ_map, target);
    if !walkable {
        TerrainCheckResult::Impassable
    } else if reserved.contains((movement_layer_code(layer), target.0, target.1)) {
        TerrainCheckResult::Reserved
    } else if category == EntityCategory::Infantry {
        if spec_free_sub_cell(occ, reserved_sub_cells) is Some {
            TerrainCheckResult::Clear
        } else {
            TerrainCheckResult::NeedsBlockerCheck
        }
    } else {
        match occ {
            None => TerrainCheckResult::Clear,
            Some(o) => if o.blockers@.len() == 0 && o.infantry@.len() == 0 {
                TerrainCheckResult::Clear
            } else {
                TerrainCheckResult::NeedsBlockerCheck
            },
        }
    }
}

/// First phase of the entry check: terrain walkability, this tick's
/// reservations (keyed by layer code and cell) and occupancy.
pub fn check_terrain(
    target: (u16, u16),
    target_layer: MovementLayer,
    mover_category: EntityCategory,
    path_grid: Option<&PathGrid>,
    layered_grid: Option<&PathGrid>,
    cost_grid: Option<&TerrainCostGrid>,
    reserved_destinations: &BTreeSet<(u8, u16, u16)>,
    occ_map: &OccupancyMap,
    reserved_sub_cells: Option<&[u8]>,
) -> (r: TerrainCheckResult)
    ensures
        r == spec_check_terrain(
            target,
            target_layer,
            mover_category,
            spec_terrain_walkable(target, target_layer, path_grid, layered_grid, cost_grid),
            reserved_destinations@,
            occ_map@,
            opt_slice_view(reserved_sub_cells),
        ),
{
    let (nx, ny) = target;
    let terrain_walkable = match target_layer {
        MovementLayer::Ground => {
            let grid_ok = match path_grid {
                Some(g) => g.is_walkable(nx, ny),
                None => true,
            };
            let cost_ok = match cost_grid {
                Some(cg) => cg.cost_at(nx, ny) > 0,
                None => true,
            };
            grid_ok && cost_ok
        },
        MovementLayer::Bridge => match layered_grid {
            Some(g) => g.is_walkable_on_layer(nx, ny, MovementLayer::Bridge),
            None => false,
        },
        MovementLayer::Air | MovementLayer::Underground => true,
    };
    if !terrain_walkable {
        return TerrainCheckResult::Impassable;
    }
    proof {
        crate::keys::lemma_layer_cell_keys_ordered();
        crate::keys::lemma_pair_keys_ordered();
    }
    let key = (target_layer.code(), nx, ny);
    if reserved_destinations.contains(&key) {
        return TerrainCheckResult::Reserved;
    }
    let occ = occ_map.get(&target);
    proof {
        assert(opt_occ(occ) == occ_at(occ_map@, target));
    }
    if mover_category == EntityCategory::Infantry {
        let sub = allocate_sub_cell_with_reserved(occ, reserved_sub_cells);
        if sub.is_some() {
            return TerrainCheckResult::Clear;
        }
        return TerrainCheckResult::NeedsBlockerCheck;
    }
    match occ {
        None => TerrainCheckResult::Clear,
        Some(o) => {
            if o.blockers.len() == 0 && o.infantry.len() == 0 {
                TerrainCheckResult::Clear
            } else {
                TerrainCheckResult::NeedsBlockerCheck
            }
        },
    }
}

// ---------------------------------------------------------------------------
// Phase 2: occupant classification
// ---------------------------------------------------------------------------

/// Whether houses `a` and `b` are friendly: the same house, or allied in
/// either direction.
pub open spec fn spec_friendly(alliances: Set<(u32, u32)>, a: u32, b: u32) -> bool {
    a == b || alliances.contains((a, b)) || alliances.contains((b, a))
}

/// Movement zones that crush infantry and crushable units.
pub open spec fn spec_is_crusher_zone(mz: MovementZone) -> bool {
    mz == MovementZone::Crusher || mz == MovementZone::AmphibiousCrusher || mz == MovementZone::CrusherAll
}

/// Ids of the infantry in a list other than the mover, in list order.
pub open spec fn other_infantry(infantry: Seq<(u64, u8)>, mover: u64) -> Seq<u64>
    decreases infantry.len(),
{
    if infantry.len() == 0 {
        Seq::empty()
    } else {
        let rest = other_infantry(infantry.drop_last(), mover);
        if infantry.last().0 == mover {
            rest
        } else {
            rest.push(infantry.last().0)
        }
    }
}

/// The occupants of `target` the mover would have to deal with: vehicles and
/// structures first, then infantry other than the mover.
pub open spec fn spec_occupants(occ_map: Map<(u16, u16), CellOccupancy>, target: (u16, u16), mover: u64) -> Seq<u64> {
    match occ_at(occ_map, target) {
        Some(o) => o.blockers@ + other_infantry(o.infantry@, mover),
        None => Seq::empty(),
    }
}

/// Whether the mover may crush occupant `id`: it is known, crushable, not
/// friendly, and the mover is a crusher.
pub open spec fn spec_is_victim(
    id: u64,
    mover_zone: MovementZone,
    omni_crusher: bool,
    mover_owner: u32,
    occupants: Map<u64, OccupantInfo>,
    alliances: Set<(u32, u32)>,
) -> bool {
    &&& occupants.contains_key(id)
    &&& occupants[id].crushable
    &&& !spec_friendly(alliances, mover_owner, occupants[id].owner)
    &&& (spec_is_crusher_zone(mover_zone) || omni_crusher)
}

/// Classification before locomotor overrides: crush when every occupant is
/// a victim; otherwise the primary (first) occupant decides.
pub open spec fn spec_classify(
    occ: Seq<u64>,
    mover_zone: MovementZone,
    omni_crusher: bool,
    mover_owner: u32,
    occupants: Map<u64, OccupantInfo>,
    alliances: Set<(u32, u32)>,
) -> EntryOutcome {
    if occ.len() > 0 && forall|i: int|
        0 <= i < occ.len() ==> #[trigger] spec_is_victim(occ[i], mover_zone, omni_crusher, mover_owner, occupants, alliances) {
        EntryOutcome::Crushable(occ)
    } else if occ.len() == 0 || !occupants.contains_key(occ[0]) {
        EntryOutcome::Impassable
    } else if !spec_friendly(alliances, mover_owner, occupants[occ[0]].owner) {
        EntryOutcome::OccupiedEnemy(occ[0])
    } else if occupants[occ[0]].moving {
        EntryOutcome::TemporaryBlock(occ[0])
    } else {
        EntryOutcome::OccupiedFriendly(occ[0])
    }
}

/// Jump jets treat every outcome but `Impassable` as `Clear`.
pub open spec fn spec_override(r: EntryOutcome, locomotor: LocomotorKind) -> EntryOutcome {
    if locomotor == LocomotorKind::Jumpjet && !(r is Impassable) {
        EntryOutcome::Clear
    } else {
        r
    }
}

/// Whether two houses are friendly.
fn houses_friendly(alliances: &BTreeSet<(u32, u32)>, a: u32, b: u32) -> (r: bool)
    ensures
        r == spec_friendly(alliances@, a, b),
{
    if a == b {
        return true;
    }
    proof {
        crate::keys::lemma_u32_pair_keys_ordered();
    }
    alliances.contains(&(a, b)) || alliances.contains(&(b, a))
}

/// The occupants of the target cell, vehicles and structures first.
fn collect_occupants(target: (u16, u16), mover_id: u64, occ_map: &OccupancyMap) -> (r: Vec<u64>)
    ensures
        r@ == spec_occupants(occ_map@, target, mover_id),
{
    proof {
        crate::keys::lemma_pair_keys_ordered();
    }
    let mut out: Vec<u64> = Vec::new();
    match occ_map.get(&target) {
        None => {
            proof {
                assert(occ_at(occ_map@, target) is None);
            }
            out
        },
        Some(o) => {
            let mut i: usize = 0;
            while i < o.blockers.len()
                invariant
                    i <= o.blockers.len(),
                    out@ == o.blockers@.take(i as int),
                decreases o.blockers.len() - i,
            {
                out.push(o.blockers[i]);
                i = i + 1;
                proof {
                    assert(out@ =~= o.blockers@.take(i as int));
                }
            }
            proof {
                assert(o.blockers@.take(o.blockers.len() as int) =~= o.blockers@);
            }
            let mut j: usize = 0;
            while j < o.infantry.len()
                invariant
                    j <= o.infantry.len(),
                    out@ == o.blockers@ + other_infantry(o.infantry@.take(j as int), mover_id),
                decreases o.infantry.len() - j,
            {
                let (id, _sub) = o.infantry[j];
                proof {
                    assert(o.infantry@.take(j + 1).drop_last() =~= o.infantry@.take(j as int));
                    assert(o.infantry@.take(j + 1).last() == o.infantry@[j as int]);
                }
                if id != mover_id {
                    out.push(id);
                }
                j = j + 1;
                proof {
                    assert(out@ =~= o.blockers@ + other_infantry(o.infantry@.take(j as int), mover_id));
                }
            }
            proof {
                assert(o.infantry@.take(o.infantry.len() as int) =~= o.infantry@);
                assert(occ_at(occ_map@, target) == Some(*o));
            }
            out
        },
    }
}

/// Whether the mover may crush occupant `id`.
fn is_victim(
    id: u64,
    mover_zone: MovementZone,
    omni_crusher: bool,
    mover_owner: u32,
    occupants: &BTreeMap<u64, OccupantInfo>,
    alliances: &BTreeSet<(u32, u32)>,
) -> (r: bool)
    ensures
        r == spec_is_victim(id, mover_zone, omni_crusher, mover_owner, occupants@, alliances@),
{
    proof {
        crate::keys::lemma_u64_keys_ordered();
    }
    let crusher = match mover_zone {
        MovementZone::Crusher | MovementZone::AmphibiousCrusher | MovementZone::CrusherAll => true,
        _ => false,
    };
    if !(crusher || omni_crusher) {
        return false;
    }
    match occupants.get(&id) {
        None => false,
        Some(info) => info.crushable && !houses_friendly(alliances, mover_owner, info.owner),
    }
}

/// Second phase of the entry check, for a cell the first phase found
/// occupied. Occupants are crushed when all of them can be; otherwise the
/// primary occupant (the first vehicle or structure, else the first other
/// infantry) is classified as enemy, moving friend or stationary friend.
/// An unknown or missing occupant makes the cell impassable. Jump jets then
/// treat every outcome but `Impassable` as `Clear`.
pub fn classify_occupied_cell(
    target: (u16, u16),
    mover_id: u64,
    mover_zone: MovementZone,
    mover_omni_crusher: bool,
    mover_owner: u32,
    mover_locomotor: LocomotorKind,
    occ_map: &OccupancyMap,
    occupants: &BTreeMap<u64, OccupantInfo>,
    alliances: &BTreeSet<(u32, u32)>,
) -> (r: CellEntryResult)
    ensures
        r@ == spec_override(
            spec_classify(
                spec_occupants(occ_map@, target, mover_id),
                mover_zone,
                mover_omni_crusher,
                mover_owner,
                occupants@,
                alliances@,
            ),
            mover_locomotor,
        ),
{
    let occ = collect_occupants(target, mover_id, occ_map);
    let ghost s = occ@;
    let mut all_victims = occ.len() > 0;
    let mut i: usize = 0;
    while i < occ.len()
        invariant
            i <= occ.len(),
            occ@ == s,
            all_victims <==> (s.len() > 0 && forall|j: int|
                0 <= j < i ==> #[trigger] spec_is_victim(s[j], mover_zone, mover_omni_crusher, mover_owner, occupants@, alliances@)),
        decreases occ.len() - i,
    {
        if !is_victim(occ[i], mover_zone, mover_omni_crusher, mover_owner, occupants, alliances) {
            all_victims = false;
        }
        i = i + 1;
    }
    if all_victims {
        return apply_overrides(CellEntryResult::Crushable { victims: occ }, mover_locomotor);
    }
    let blocker = find_primary_blocker(target, mover_id, occ_map);
    let bid = match blocker {
        None => {
            return apply_overrides(CellEntryResult::Impassable, mover_locomotor);
        },
        Some(b) => b,
    };
    let result = classify_blocker(bid, mover_owner, occupants, alliances);
    apply_overrides(result, mover_locomotor)
}

/// The primary occupant of a cell: its first vehicle or structure, else its
/// first infantry other than the mover.
fn find_primary_blocker(target: (u16, u16), mover_id: u64, occ_map: &OccupancyMap) -> (r: Option<u64>)
    ensures
        spec_occupants(occ_map@, target, mover_id).len() == 0 ==> r is None,
        spec_occupants(occ_map@, target, mover_id).len() > 0 ==> r == Some(spec_occupants(occ_map@, target, mover_id)[0]),
{
    let occ = collect_occupants(target, mover_id, occ_map);
    if occ.len() == 0 {
        None
    } else {
        Some(occ[0])
    }
}

/// Classify one occupant as enemy, moving friend or stationary friend; an
/// unknown occupant makes the cell impassable.
fn classify_blocker(
    blocker_id: u64,
    mover_owner: u32,
    occupants: &BTreeMap<u64, OccupantInfo>,
    alliances: &BTreeSet<(u32, u32)>,
) -> (r: CellEntryResult)
    ensures
        r@ == if !occupants@.contains_key(blocker_id) {
            EntryOutcome::Impassable
        } else if !spec_friendly(alliances@, mover_owner, occupants@[blocker_id].owner) {
            EntryOutcome::OccupiedEnemy(blocker_id)
        } else if occupants@[blocker_id].moving {
            EntryOutcome::TemporaryBlock(blocker_id)
        } else {
            EntryOutcome::OccupiedFriendly(blocker_id)
        },
{
    proof {
        crate::keys::lemma_u64_keys_ordered();
    }
    match occupants.get(&blocker_id) {
        None => CellEntryResult::Impassable,
        Some(info) => {
            if !houses_friendly(alliances, mover_owner, info.owner) {
                CellEntryResult::OccupiedEnemy { blocker_id }
            } else if info.moving {
                CellEntryResult::TemporaryBlock { blocker_id }
            } else {
                CellEntryResult::OccupiedFriendly { blocker_id }
            }
        },
    }
}

/// Apply locomotor overrides: a jump jet treats every outcome but
/// `Impassable` as `Clear`; other locomotors keep the outcome.
pub fn apply_overrides(result: CellEntryResult, locomotor: LocomotorKind) -> (r: CellEntryResult)
    ensures
        r@ == spec_override(result@, locomotor),
{
    let is_impassable = match result {
        CellEntryResult::Impassable => true,
        _ => false,
    };
    let is_jumpjet = match locomotor {
        LocomotorKind::Jumpjet => true,
        _ => false,
    };
    if is_jumpjet && !is_impassable {
        return CellEntryResult::Clear;
    }
    result
}

/// A jump jet either enters the cell or gives up: after its override every
/// outcome is `Clear` or `Impassable`.
pub proof fn law_jumpjet_enters_or_gives_up(r: EntryOutcome)
    ensures
        spec_override(r, LocomotorKind::Jumpjet) is Clear || spec_override(r, LocomotorKind::Jumpjet) is Impassable,
{
}

/// Applying the locomotor override a second time changes nothing.
pub proof fn law_override_idempotent(r: EntryOutcome, locomotor: LocomotorKind)
    ensures
        spec_override(spec_override(r, locomotor), locomotor) == spec_override(r, locomotor),
{
}

/// A cell whose terrain the mover cannot walk is reported impassable
/// whatever stands in it and whatever is reserved.
pub proof fn law_unwalkable_terrain_is_impassable(
    target: (u16, u16),
    layer: MovementLayer,
    category: EntityCategory,
    reserved: Set<(u8, u16, u16)>,
    occ_map: Map<(u16, u16), CellOccupancy>,
    reserved_sub_cells: Option<Seq<u8>>,
)
    ensures
        spec_check_terrain(target, layer, category, false, reserved, occ_map, reserved_sub_cells)
            == TerrainCheckResult::Impassable,
{
}

/// The sub-cell an infantry unit takes is one of 2, 3 and 4 that no
/// infantry there uses and none reserved; it is the first such one; none is
/// given where a vehicle or structure stands; and an empty cell with
/// nothing reserved gives sub-cell 2.
pub proof fn law_free_sub_cell_is_first_unused(occ: Option<CellOccupancy>, reserved: Option<Seq<u8>>)
    ensures
        spec_free_sub_cell(occ, reserved) matches Some(s) ==> {
            &&& 2 <= s <= 4
            &&& !(occ matches Some(o) && exists|i: int| 0 <= i < o.infantry@.len() && (#[trigger] o.infantry@[i]).1 == s)
            &&& !(reserved matches Some(r) && r.contains(s))
            &&& forall|t: u8| 2 <= t < s ==> !sub_cell_free(occ, reserved, t)
        },
        (occ matches Some(o) && o.blockers@.len() > 0) ==> spec_free_sub_cell(occ, reserved) is None,
        occ is None && reserved is None ==> spec_free_sub_cell(occ, reserved) == Some(2u8),
        (spec_free_sub_cell(occ, reserved) is None && !(occ matches Some(o) && o.blockers@.len() > 0)) ==> forall|t: u8|
            2 <= t <= 4 ==> !sub_cell_free(occ, reserved, t),
{
}

} // verus!
