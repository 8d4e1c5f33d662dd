//! Cell entry checks: terrain, reservations, occupancy and locomotor overrides.

use std::collections::{BTreeMap, BTreeSet};
use vera20k::map::EntityCategory;
use vera20k::movement::MovementLayer;
use vera20k::pathfinding::cell_entry::{
    apply_overrides, check_terrain, CellEntryResult, CellOccupancy, OccupancyMap,
    TerrainCheckResult,
};
use vera20k::pathfinding::path_grid::PathGrid;
use vera20k::rules::LocomotorKind;


fn empty_occ() -> OccupancyMap {
    BTreeMap::new()
}

#[test]
fn test_clear_empty_cell() {
    let result = check_terrain(
        (5, 5),
        MovementLayer::Ground,
        EntityCategory::Unit,
        None,
        None,
        None,
        &BTreeSet::new(),
        &empty_occ(),
        None,
    );
    assert_eq!(result, TerrainCheckResult::Clear);
}

#[test]
fn test_impassable_blocked_grid() {
    let mut grid = PathGrid::new(10, 10);
    grid.set_blocked(5, 5, true);
    let result = check_terrain(
        (5, 5),
        MovementLayer::Ground,
        EntityCategory::Unit,
        Some(&grid),
        None,
        None,
        &BTreeSet::new(),
        &empty_occ(),
        None,
    );
    assert_eq!(result, TerrainCheckResult::Impassable);
}

#[test]
fn test_reserved_cell() {
    let mut reserved = BTreeSet::new();
    reserved.insert((MovementLayer::Ground.code(), 5, 5));
    let result = check_terrain(
        (5, 5),
        MovementLayer::Ground,
        EntityCategory::Unit,
        None,
        None,
        None,
        &reserved,
        &empty_occ(),
        None,
    );
    assert_eq!(result, TerrainCheckResult::Reserved);
}

#[test]
fn test_vehicle_occupied_needs_check() {
    let mut occ = empty_occ();
    occ.insert(
        (5, 5),
        CellOccupancy {
            blockers: vec![42],
            infantry: vec![],
        },
    );
    let result = check_terrain(
        (5, 5),
        MovementLayer::Ground,
        EntityCategory::Unit,
        None,
        None,
        None,
        &BTreeSet::new(),
        &occ,
        None,
    );
    assert_eq!(result, TerrainCheckResult::NeedsBlockerCheck);
}

#[test]
fn test_infantry_subcell_available() {
    let mut occ = empty_occ();
    occ.insert(
        (5, 5),
        CellOccupancy {
            blockers: vec![],
            infantry: vec![(10, 2)], // 1 infantry, sub-cell 2
        },
    );
    let result = check_terrain(
        (5, 5),
        MovementLayer::Ground,
        EntityCategory::Infantry,
        None,
        None,
        None,
        &BTreeSet::new(),
        &occ,
        None,
    );
    assert_eq!(result, TerrainCheckResult::Clear);
}

#[test]
fn test_infantry_cell_full() {
    let mut occ = empty_occ();
    occ.insert(
        (5, 5),
        CellOccupancy {
            blockers: vec![],
            infantry: vec![(10, 2), (11, 3), (12, 4)],
        },
    );
    let result = check_terrain(
        (5, 5),
        MovementLayer::Ground,
        EntityCategory::Infantry,
        None,
        None,
        None,
        &BTreeSet::new(),
        &occ,
        None,
    );
    assert_eq!(result, TerrainCheckResult::NeedsBlockerCheck);
}

#[test]
fn test_jumpjet_override_clears_non_impassable() {
    let result = apply_overrides(
        CellEntryResult::OccupiedEnemy { blocker_id: 1 },
        LocomotorKind::Jumpjet,
    );
    assert_eq!(result, CellEntryResult::Clear);
}

#[test]
fn test_jumpjet_keeps_impassable() {
    let result = apply_overrides(CellEntryResult::Impassable, LocomotorKind::Jumpjet);
    assert_eq!(result, CellEntryResult::Impassable);
}

#[test]
fn test_non_jumpjet_no_override() {
    let result = apply_overrides(
        CellEntryResult::OccupiedEnemy { blocker_id: 1 },
        LocomotorKind::Drive,
    );
    assert_eq!(result, CellEntryResult::OccupiedEnemy { blocker_id: 1 });
}
