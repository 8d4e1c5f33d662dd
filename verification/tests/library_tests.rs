//! Occupant classification, sub-cells, smoothing, drift correction, speed
//! modifiers, fixed-point literals, superweapon charging and display texts.

use std::collections::{BTreeMap, BTreeSet};
use vera20k::fixed_math::SimFixed;
use vera20k::map::{EntityCategory, ResolvedTerrainCell, ResolvedTerrainGrid};
use vera20k::movement::MovementLayer;
use vera20k::pathfinding::astar::truncate_path;
use vera20k::pathfinding::cell_entry::{
    allocate_sub_cell_with_reserved, apply_overrides, check_terrain, classify_occupied_cell,
    CellEntryResult, CellOccupancy, OccupancyMap, OccupantInfo, TerrainCheckResult,
};
use vera20k::pathfinding::passability::{passability_value, PASS_IMPASSABLE, PASS_OK};
use vera20k::pathfinding::path_grid::{PathCell, PathGrid};
use vera20k::pathfinding::path_smooth::{
    optimize_layered_path, optimize_path, smooth_layered_path, smooth_path,
};
use vera20k::pathfinding::terrain_speed::{
    compute_cell_speed_modifier, crowd_speed_factor, OccupancyGrid, TerrainSpeedConfig,
};
use vera20k::pathfinding::zone_build::build_zone_map;
use vera20k::pathfinding::zone_map::ZoneCategory;
use vera20k::production::{
    foundation_dimensions,
    disabled_reason_text, BuildDisabledReason, BuildQueueState, BuildingPlacementError,
    ProductionCategory,
};
use vera20k::radar::RadarEventType;
use vera20k::rules::{LocomotorKind, MovementZone, SpeedCostProfile, SpeedType, TerrainClass};
use vera20k::superweapon::instance::SuperWeaponInstance;
use vera20k::production::sell::garrison_exits;
use vera20k::production::tech::{build_disabled_reason, build_options_for_owner, BuildCandidate, BuildFacts};

fn occupied_cell(blockers: Vec<u64>, infantry: Vec<(u64, u8)>) -> OccupancyMap {
    let mut occ: OccupancyMap = BTreeMap::new();
    occ.insert((5, 5), CellOccupancy { blockers, infantry });
    occ
}

fn info(owner: u32, moving: bool, crushable: bool) -> OccupantInfo {
    OccupantInfo { owner, moving, crushable }
}

#[test]
fn classify_enemy_blocker() {
    let occ = occupied_cell(vec![42], vec![]);
    let mut occupants = BTreeMap::new();
    occupants.insert(42u64, info(2, false, false));
    let r = classify_occupied_cell(
        (5, 5), 1, MovementZone::Normal, false, 1, LocomotorKind::Drive, &occ, &occupants,
        &BTreeSet::new(),
    );
    assert_eq!(r, CellEntryResult::OccupiedEnemy { blocker_id: 42 });
}

#[test]
fn classify_allied_moving_blocker_is_temporary() {
    let occ = occupied_cell(vec![42], vec![]);
    let mut occupants = BTreeMap::new();
    occupants.insert(42u64, info(2, true, false));
    let mut alliances = BTreeSet::new();
    alliances.insert((2u32, 1u32));
    let r = classify_occupied_cell(
        (5, 5), 1, MovementZone::Normal, false, 1, LocomotorKind::Drive, &occ, &occupants,
        &alliances,
    );
    assert_eq!(r, CellEntryResult::TemporaryBlock { blocker_id: 42 });
}

#[test]
fn classify_own_stationary_infantry_is_friendly() {
    let occ = occupied_cell(vec![], vec![(1, 2), (7, 3)]);
    let mut occupants = BTreeMap::new();
    occupants.insert(7u64, info(1, false, true));
    let r = classify_occupied_cell(
        (5, 5), 1, MovementZone::Normal, false, 1, LocomotorKind::Walk, &occ, &occupants,
        &BTreeSet::new(),
    );
    assert_eq!(r, CellEntryResult::OccupiedFriendly { blocker_id: 7 });
}

#[test]
fn classify_crusher_runs_over_enemy_infantry() {
    let occ = occupied_cell(vec![], vec![(7, 2), (8, 3)]);
    let mut occupants = BTreeMap::new();
    occupants.insert(7u64, info(2, false, true));
    occupants.insert(8u64, info(2, true, true));
    let r = classify_occupied_cell(
        (5, 5), 1, MovementZone::Crusher, false, 1, LocomotorKind::Drive, &occ, &occupants,
        &BTreeSet::new(),
    );
    assert_eq!(r, CellEntryResult::Crushable { victims: vec![7, 8] });
    let not_crusher = classify_occupied_cell(
        (5, 5), 1, MovementZone::Normal, false, 1, LocomotorKind::Drive, &occ, &occupants,
        &BTreeSet::new(),
    );
    assert_eq!(not_crusher, CellEntryResult::OccupiedEnemy { blocker_id: 7 });
}

#[test]
fn classify_unknown_or_missing_occupant_is_impassable() {
    let occ = occupied_cell(vec![99], vec![]);
    let r = classify_occupied_cell(
        (5, 5), 1, MovementZone::Normal, false, 1, LocomotorKind::Drive, &occ, &BTreeMap::new(),
        &BTreeSet::new(),
    );
    assert_eq!(r, CellEntryResult::Impassable);
    let empty: OccupancyMap = BTreeMap::new();
    let r2 = classify_occupied_cell(
        (5, 5), 1, MovementZone::Normal, false, 1, LocomotorKind::Jumpjet, &empty,
        &BTreeMap::new(), &BTreeSet::new(),
    );
    assert_eq!(r2, CellEntryResult::Impassable);
}

#[test]
fn jumpjet_clears_enemy_occupied_cell() {
    let occ = occupied_cell(vec![42], vec![]);
    let mut occupants = BTreeMap::new();
    occupants.insert(42u64, info(2, false, false));
    let r = classify_occupied_cell(
        (5, 5), 1, MovementZone::Normal, false, 1, LocomotorKind::Jumpjet, &occ, &occupants,
        &BTreeSet::new(),
    );
    assert_eq!(r, CellEntryResult::Clear);
    let twice = apply_overrides(apply_overrides(r.clone(), LocomotorKind::Jumpjet), LocomotorKind::Jumpjet);
    assert_eq!(twice, r);
}

#[test]
fn sub_cell_allocation_skips_taken_and_reserved() {
    assert_eq!(allocate_sub_cell_with_reserved(None, None), Some(2));
    let occ = CellOccupancy { blockers: vec![], infantry: vec![(10, 2)] };
    assert_eq!(allocate_sub_cell_with_reserved(Some(&occ), None), Some(3));
    let reserved: [u8; 1] = [3];
    assert_eq!(allocate_sub_cell_with_reserved(Some(&occ), Some(&reserved)), Some(4));
    let vehicle = CellOccupancy { blockers: vec![5], infantry: vec![] };
    assert_eq!(allocate_sub_cell_with_reserved(Some(&vehicle), None), None);
}

#[test]
fn check_terrain_bridge_needs_layered_grid_and_air_is_free() {
    let empty: OccupancyMap = BTreeMap::new();
    let bridge = check_terrain(
        (1, 1), MovementLayer::Bridge, EntityCategory::Unit, None, None, None, &BTreeSet::new(),
        &empty, None,
    );
    assert_eq!(bridge, TerrainCheckResult::Impassable);
    let mut grid = PathGrid::new(4, 4);
    grid.set_blocked(1, 1, true);
    let air = check_terrain(
        (1, 1), MovementLayer::Air, EntityCategory::Aircraft, Some(&grid), None, None,
        &BTreeSet::new(), &empty, None,
    );
    assert_eq!(air, TerrainCheckResult::Clear);
}

#[test]
fn smooth_path_straightens_walkable_diagonal_zigzag() {
    let path = vec![(0, 1), (1, 0), (2, 1)];
    let open = |_x: u16, _y: u16| true;
    assert_eq!(smooth_path(path.clone(), &open), vec![(0, 1), (1, 1), (2, 1)]);
    let closed = |x: u16, y: u16| !(x == 1 && y == 1);
    assert_eq!(smooth_path(path.clone(), &closed), path);
    let cardinal = vec![(0, 0), (1, 0), (1, 1)];
    assert_eq!(smooth_path(cardinal.clone(), &open), vec![(0, 0), (1, 1)]);
    let short = vec![(0, 0), (1, 1)];
    assert_eq!(smooth_path(short.clone(), &open), short);
}

#[test]
fn smooth_path_turns_north_then_east_into_one_diagonal_step() {
    let path = vec![(0, 1), (0, 0), (1, 0)];
    let open = |_x: u16, _y: u16| true;
    assert_eq!(smooth_path(path.clone(), &open), vec![(0, 1), (1, 0)]);
    // A blocked corner beside the diagonal keeps the turn.
    let corner = |x: u16, y: u16| !(x == 1 && y == 1);
    assert_eq!(smooth_path(path.clone(), &corner), path);
    // A longer staircase collapses step by step.
    let stairs = vec![(0, 0), (1, 0), (1, 1), (2, 1), (2, 2)];
    assert_eq!(smooth_path(stairs, &open), vec![(0, 0), (1, 1), (2, 2)]);
}

#[test]
fn smooth_layered_path_drops_the_layer_of_a_dropped_cell() {
    let path = vec![(0, 1), (0, 0), (1, 0), (2, 0)];
    let layers = vec![MovementLayer::Ground, MovementLayer::Ground, MovementLayer::Ground, MovementLayer::Bridge];
    let open = |_x: u16, _y: u16, _l: MovementLayer| true;
    let (p, l) = smooth_layered_path(path, layers, &open);
    assert_eq!(p, vec![(0, 1), (1, 0), (2, 0)]);
    assert_eq!(l, vec![MovementLayer::Ground, MovementLayer::Ground, MovementLayer::Bridge]);
}

#[test]
fn smooth_layered_path_leaves_layer_changes_alone() {
    let path = vec![(0, 1), (1, 0), (2, 1)];
    let open = |_x: u16, _y: u16, _l: MovementLayer| true;
    let mixed = vec![MovementLayer::Ground, MovementLayer::Bridge, MovementLayer::Bridge];
    let (p, l) = smooth_layered_path(path.clone(), mixed.clone(), &open);
    assert_eq!(p, path);
    assert_eq!(l, mixed);
    let same = vec![MovementLayer::Ground; 3];
    let (p2, _) = smooth_layered_path(path, same, &open);
    assert_eq!(p2, vec![(0, 1), (1, 1), (2, 1)]);
}

#[test]
fn optimize_path_returns_path_unchanged() {
    let path = vec![(0, 0), (1, 1), (2, 1), (3, 2), (3, 3), (4, 4)];
    let open = |_x: u16, _y: u16| true;
    assert_eq!(optimize_path(path.clone(), &open), path);
}

#[test]
fn optimize_layered_path_drops_repeated_junction_cell() {
    let path = vec![(0, 0), (1, 0), (1, 0), (2, 0)];
    let layers = vec![
        MovementLayer::Ground,
        MovementLayer::Ground,
        MovementLayer::Bridge,
        MovementLayer::Bridge,
    ];
    let open = |_x: u16, _y: u16, _l: MovementLayer| true;
    let (p, l) = optimize_layered_path(path, layers, &open);
    assert_eq!(p, vec![(0, 0), (1, 0), (2, 0)]);
    assert_eq!(l, vec![MovementLayer::Ground, MovementLayer::Ground, MovementLayer::Bridge]);
}

fn flat_cell(rx: u16, ry: u16, level: u8) -> ResolvedTerrainCell {
    ResolvedTerrainCell {
        rx,
        ry,
        source_tile_index: 0,
        source_sub_tile: 0,
        final_tile_index: 0,
        final_sub_tile: 0,
        level,
        filled_clear: false,
        tileset_index: Some(0),
        land_type: 0,
        slope_type: 0,
        template_height: 0,
        render_offset_x: 0,
        render_offset_y: 0,
        terrain_class: TerrainClass::Clear,
        speed_costs: SpeedCostProfile { track: Some(100), ..SpeedCostProfile::default() },
        is_water: false,
        is_cliff_like: false,
        is_cliff_redraw: false,
        variant: 0,
        is_rough: false,
        is_road: false,
        has_ramp: false,
        canonical_ramp: None,
        ground_walk_blocked: false,
        terrain_object_blocks: false,
        overlay_blocks: false,
        zone_type: 0,
        base_ground_walk_blocked: false,
        base_build_blocked: false,
        build_blocked: false,
        has_bridge_deck: false,
        bridge_walkable: false,
        bridge_transition: false,
        bridge_deck_level: 0,
        bridge_layer: None,
        radar_left: [0, 0, 0],
        radar_right: [0, 0, 0],
    }
}

#[test]
fn speed_modifier_combines_terrain_slope_and_crowd() {
    let terrain = ResolvedTerrainGrid::from_cells(
        2,
        1,
        vec![flat_cell(0, 0, 0), flat_cell(1, 0, 1)],
    );
    let config = TerrainSpeedConfig::default();
    let empty = OccupancyGrid::new();
    let flat = compute_cell_speed_modifier(
        SpeedType::Track, LocomotorKind::Drive, (0, 0), (0, 0), &terrain, &empty, &config,
    );
    assert_eq!(flat, SimFixed::one());
    let uphill = compute_cell_speed_modifier(
        SpeedType::Track, LocomotorKind::Drive, (0, 0), (1, 0), &terrain, &empty, &config,
    );
    assert_eq!(uphill, SimFixed::lit("0.6"));
    let hover = compute_cell_speed_modifier(
        SpeedType::Track, LocomotorKind::Hover, (0, 0), (1, 0), &terrain, &empty, &config,
    );
    assert_eq!(hover, SimFixed::one());
    let mut crowd = OccupancyGrid::new();
    for (x, y) in [(4, 5), (6, 5), (5, 4), (5, 6)] {
        crowd.mark_occupied(x, y);
    }
    assert_eq!(crowd_speed_factor((5, 5), &crowd, &config), SimFixed::lit("0.7"));
    let slow = TerrainSpeedConfig::from_general(SimFixed::lit("0.1"), SimFixed::lit("1.5"));
    let clamped = compute_cell_speed_modifier(
        SpeedType::Track, LocomotorKind::Drive, (0, 0), (1, 0), &terrain, &empty, &slow,
    );
    assert_eq!(clamped, SimFixed::lit("0.3"));
}

#[test]
fn fixed_point_literals_round_to_nearest() {
    assert_eq!(SimFixed::lit("2").to_raw(), 131072);
    assert_eq!(SimFixed::lit("0.5"), SimFixed::half());
    assert_eq!(SimFixed::lit("1.2").to_raw(), 78643);
    assert_eq!(SimFixed::lit("0.6").to_raw(), 39322);
    assert_eq!(SimFixed::from_int(3).to_raw(), 196608);
}

#[test]
fn radar_ping_colors() {
    assert_eq!(RadarEventType::Combat.color(), [255, 255, 255]);
    assert_eq!(RadarEventType::Dropzone.color(), [0, 255, 255]);
    assert_eq!(RadarEventType::EnemyObjectSensed.color(), [255, 255, 0]);
}

#[test]
fn superweapon_suspend_keeps_remaining_charge() {
    let mut sw = SuperWeaponInstance::new(3, 1);
    assert!(!sw.is_active);
    sw.activate(100, 10);
    assert_eq!(sw.charge_start_tick, 10);
    sw.suspend(40);
    assert!(sw.is_suspended);
    assert_eq!(sw.charge_duration, 70);
    assert_eq!(sw.charge_start_tick, -1);
    sw.suspend(60);
    assert_eq!(sw.charge_duration, 70);
    sw.resume(50);
    assert!(!sw.is_suspended);
    assert_eq!(sw.charge_start_tick, 50);
    assert_eq!(sw.charge_duration, 70);
    sw.suspend(200);
    assert_eq!(sw.charge_duration, 0);
    sw.reset_after_fire(90, 300);
    assert_eq!((sw.charge_start_tick, sw.charge_duration), (300, 90));
    sw.deactivate();
    assert!(!sw.is_active && sw.charge_start_tick == -1);
}

#[test]
fn production_display_texts() {
    assert_eq!(BuildQueueState::Paused.label(), "Paused");
    assert_eq!(ProductionCategory::Aircraft.label(), "Aircraft");
    assert_eq!(BuildingPlacementError::OutOfBuildArea.label(), "Outside build radius");
    assert_eq!(
        disabled_reason_text(&BuildDisabledReason::MissingPrerequisite("GAWEAP".to_string())),
        "Missing prerequisite: GAWEAP"
    );
    assert_eq!(disabled_reason_text(&BuildDisabledReason::NoFactory), "No production building");
}

#[test]
fn truncation_twice_equals_once() {
    let path: Vec<(u16, u16)> = (0..10).map(|i| (i as u16, 0)).collect();
    let once = truncate_path(path, 4);
    let twice = truncate_path(once.clone(), 4);
    assert_eq!(once.len(), 5);
    assert_eq!(once, twice);
}

#[test]
fn same_zone_is_symmetric_on_a_split_grid() {
    let mut grid = PathGrid::new(5, 1);
    grid.set_blocked(2, 0, true);
    let (zm, _adj) = build_zone_map(&grid, None, ZoneCategory::Land, 5, 1);
    assert!(zm.same_zone((0, 0), (1, 0), MovementLayer::Ground));
    assert!(zm.same_zone((1, 0), (0, 0), MovementLayer::Ground));
    assert!(!zm.same_zone((0, 0), (4, 0), MovementLayer::Ground));
    assert!(!zm.same_zone((4, 0), (0, 0), MovementLayer::Ground));
    assert!(!zm.same_zone((2, 0), (2, 0), MovementLayer::Ground));
}

#[test]
fn zone_adjacency_lookup_is_two_way() {
    let mut grid = PathGrid::new(5, 1);
    grid.set_blocked(2, 0, true);
    let (_zm, adj) = build_zone_map(&grid, None, ZoneCategory::Land, 5, 1);
    assert!(!adj.are_adjacent(1, 2));
    let open = PathGrid::new(3, 2);
    let (zm2, adj2) = build_zone_map(&open, None, ZoneCategory::Land, 3, 2);
    assert_eq!(zm2.count(), 1);
    assert!(adj2.neighbors_of(1).is_empty());
    let manual = vera20k::pathfinding::zone_map::ZoneAdjacency::new(vec![vec![], vec![2], vec![1]]);
    assert!(manual.are_adjacent(1, 2));
    assert!(manual.are_adjacent(2, 1));
    assert!(!manual.are_adjacent(1, 1));
}

#[test]
fn corridor_search_stays_inside_allowed_zones() {
    let mut grid = PathGrid::new(5, 3);
    for y in 0..2u16 {
        grid.set_blocked(2, y, true);
    }
    let (zm, _adj) = build_zone_map(&grid, None, ZoneCategory::Land, 5, 3);
    let zone = zm.zone_at(0, 0, MovementLayer::Ground);
    let mut allowed = BTreeSet::new();
    allowed.insert(zone);
    let path = vera20k::pathfinding::astar::find_path_with_costs_corridor(
        &grid, (0, 0), (4, 0), None, None, &zm, &allowed, None, None, None,
    );
    let path = path.expect("single-zone corridor covers the detour");
    assert_eq!(path.first(), Some(&(0, 0)));
    assert_eq!(path.last(), Some(&(4, 0)));
    assert!(path.iter().all(|&(x, y)| !(x == 2 && y < 2)));
    let empty_allowed: BTreeSet<u16> = BTreeSet::new();
    let none = vera20k::pathfinding::astar::find_path_with_costs_corridor(
        &grid, (0, 0), (4, 0), None, None, &zm, &empty_allowed, None, None, None,
    );
    assert!(none.is_none());
}

#[test]
fn layered_zoned_search_on_open_ground() {
    let grid = PathGrid::new(6, 2);
    let zg = vera20k::pathfinding::zone_map::ZoneGrid::build(&grid, &BTreeMap::new(), 6, 2);
    let path = vera20k::pathfinding::zone_search::find_layered_path_zoned(
        &grid, None, None, (0, 0), MovementLayer::Ground, (5, 1), Some(&zg), ZoneCategory::Land, None,
    )
    .expect("open ground is reachable");
    assert_eq!(path.first().map(|s| (s.rx, s.ry)), Some((0, 0)));
    assert_eq!(path.last().map(|s| (s.rx, s.ry)), Some((5, 1)));
    assert!(path.iter().all(|s| s.layer == MovementLayer::Ground));
}

#[test]
fn passability_values_and_out_of_range() {
    assert_eq!(passability_value(9, 7), PASS_OK);
    assert_eq!(passability_value(13, 0), PASS_IMPASSABLE);
    assert_eq!(passability_value(0, 8), PASS_IMPASSABLE);
}

#[test]
fn nearest_walkable_on_any_layer_finds_bridge_deck() {
    let blocked = PathCell {
        ground_walkable: false,
        bridge_walkable: false,
        transition: false,
        ground_level: 0,
        bridge_deck_level: 0,
    };
    let deck = PathCell { bridge_walkable: true, bridge_deck_level: 4, ..blocked };
    let grid = PathGrid::from_cells(vec![blocked, deck, blocked], 3, 1);
    assert_eq!(grid.nearest_walkable(0, 0, 2, None, None), None);
    assert_eq!(grid.nearest_walkable_any_layer(0, 0, 2, None, None), Some((1, 0)));
}

#[test]
fn foundation_dimensions_reads_first_two_parts() {
    assert_eq!(foundation_dimensions("2x2"), (2, 2));
    assert_eq!(foundation_dimensions("4x3"), (4, 3));
    assert_eq!(foundation_dimensions(" 3 x 2 "), (3, 2));
    assert_eq!(foundation_dimensions("3x2x9"), (3, 2));
    assert_eq!(foundation_dimensions("4"), (4, 1));
    assert_eq!(foundation_dimensions("x5"), (1, 5));
    assert_eq!(foundation_dimensions("+2x2"), (2, 2));
}

#[test]
fn foundation_dimensions_falls_back_to_one() {
    assert_eq!(foundation_dimensions(""), (1, 1));
    assert_eq!(foundation_dimensions("0x0"), (1, 1));
    assert_eq!(foundation_dimensions("abc"), (1, 1));
    assert_eq!(foundation_dimensions("-2x3"), (1, 3));
    assert_eq!(foundation_dimensions("70000x2"), (1, 2));
}

#[test]
fn foundation_dimensions_trims_unicode_whitespace() {
    assert_eq!(foundation_dimensions("\t2\u{a0}x\u{3000}3\u{2009}"), (2, 3));
    assert_eq!(foundation_dimensions("\u{1680}5x\u{85}6\r\n"), (5, 6));
}

#[test]
fn superweapon_charges_until_ready() {
    let mut sw = SuperWeaponInstance::new(7, 1);
    sw.activate(100, 1000);
    sw.tick_charge(false, true, 1050);
    assert!(!sw.is_ready);
    sw.tick_charge(false, true, 1100);
    assert!(sw.is_ready);
    assert_eq!(sw.ready_tick, 1100);
    // A ready weapon stays as it is.
    let before = sw;
    sw.tick_charge(true, true, 1200);
    assert_eq!(sw, before);
}

#[test]
fn superweapon_low_power_suspends_and_power_resumes() {
    let mut sw = SuperWeaponInstance::new(7, 1);
    sw.activate(100, 1000);
    sw.tick_charge(true, true, 1040);
    assert!(sw.is_suspended);
    assert_eq!(sw.charge_duration, 60);
    assert_eq!(sw.charge_start_tick, -1);
    // Still suspended: no progress.
    sw.tick_charge(true, true, 2000);
    assert!(sw.is_suspended && !sw.is_ready);
    // Power back at 3000: 60 ticks to go.
    sw.tick_charge(false, true, 3000);
    assert!(!sw.is_suspended);
    assert_eq!(sw.charge_start_tick, 3000);
    sw.tick_charge(false, true, 3060);
    assert!(sw.is_ready);
}

#[test]
fn superweapon_without_power_need_ignores_low_power() {
    let mut sw = SuperWeaponInstance::new(7, 1);
    sw.activate(10, 0);
    sw.tick_charge(true, false, 5);
    assert!(!sw.is_suspended);
    sw.tick_charge(true, false, 10);
    assert!(sw.is_ready);
    // Inactive weapons never charge.
    let mut off = SuperWeaponInstance::new(8, 1);
    off.tick_charge(false, true, 99);
    assert!(!off.is_ready);
}


#[test]
fn garrison_exits_places_last_passenger_first_and_kills_the_overflow() {
    let exits = vec![(1, 1), (2, 2), (3, 3)];
    let occupied = vec![(2, 2)];
    let passengers = vec![10u64, 20, 30];
    assert_eq!(
        garrison_exits(&exits, &occupied, &passengers),
        vec![(30, Some((1, 1))), (20, Some((3, 3))), (10, None)]
    );
    assert_eq!(garrison_exits(&exits, &occupied, &Vec::new()), Vec::new());
}

fn open_facts() -> BuildFacts {
    BuildFacts {
        tech_level: 1,
        strict: true,
        owner_allowed: true,
        required_house_ok: true,
        forbidden_house: false,
        requires_stolen_tech: false,
        override_satisfied: false,
        missing_prerequisite: None,
        has_factory: true,
        build_limit: 0,
        owned_and_queued: 0,
        cost: 500,
        credits: 1000,
    }
}

#[test]
fn build_disabled_reason_reports_the_first_failing_check() {
    assert_eq!(build_disabled_reason(open_facts()), None);
    let mut f = open_facts();
    f.tech_level = 11;
    f.owner_allowed = false;
    assert_eq!(build_disabled_reason(f), Some(BuildDisabledReason::UnbuildableTechLevel));
    let mut f = open_facts();
    f.owner_allowed = false;
    f.has_factory = false;
    assert_eq!(build_disabled_reason(f), Some(BuildDisabledReason::WrongOwner));
    let mut f = open_facts();
    f.missing_prerequisite = Some("GAPOWR".to_string());
    f.has_factory = false;
    assert_eq!(
        build_disabled_reason(f),
        Some(BuildDisabledReason::MissingPrerequisite("GAPOWR".to_string()))
    );
    let mut f = open_facts();
    f.missing_prerequisite = Some("GAPOWR".to_string());
    f.override_satisfied = true;
    f.has_factory = false;
    assert_eq!(build_disabled_reason(f), Some(BuildDisabledReason::NoFactory));
    let mut f = open_facts();
    f.build_limit = -2;
    f.owned_and_queued = 2;
    assert_eq!(build_disabled_reason(f), Some(BuildDisabledReason::AtBuildLimit));
    let mut f = open_facts();
    f.credits = 499;
    assert_eq!(build_disabled_reason(f), Some(BuildDisabledReason::InsufficientCredits));
    let mut f = open_facts();
    f.strict = false;
    f.owner_allowed = false;
    f.has_factory = false;
    assert_eq!(build_disabled_reason(f), None);
    let mut f = open_facts();
    f.cost = 0;
    assert_eq!(build_disabled_reason(f), Some(BuildDisabledReason::InsufficientCredits));
}

fn candidate(
    type_id: u32,
    category: ProductionCategory,
    key: Option<u32>,
    house_match: bool,
    facts: BuildFacts,
) -> BuildCandidate {
    BuildCandidate {
        type_id,
        display_name: format!("T{}", type_id),
        object_category: 0,
        queue_category: category,
        sidebar_key: key,
        required_house_match: house_match,
        owner_specificity: 65535,
        facts,
    }
}

#[test]
fn build_options_sorts_hides_and_merges_variants() {
    let mut poor = open_facts();
    poor.credits = 10;
    let mut locked = open_facts();
    locked.missing_prerequisite = Some("NAWEAP".to_string());
    let cands = vec![
        candidate(1, ProductionCategory::Infantry, Some(7), false, open_facts()),
        candidate(2, ProductionCategory::Building, None, false, poor),
        candidate(3, ProductionCategory::Vehicle, Some(8), false, locked),
        candidate(4, ProductionCategory::Infantry, Some(7), true, open_facts()),
        candidate(5, ProductionCategory::Infantry, Some(9), false, open_facts()),
    ];
    let r = build_options_for_owner(cands);
    let ids: Vec<u32> = r.iter().map(|o| o.type_id).collect();
    // Buildings first; the hidden vehicle is dropped; type 4 replaces its
    // look-alike 1 (a required-house match ranks higher) in 1's place.
    assert_eq!(ids, vec![2, 4, 5]);
    assert!(!r[0].enabled);
    assert_eq!(r[0].reason, Some(BuildDisabledReason::InsufficientCredits));
    assert!(r[1].enabled && r[1].reason.is_none());
    assert_eq!(r[1].display_name, "T4");
    assert_eq!(r[2].cost, 500);
}
