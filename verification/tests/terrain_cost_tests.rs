//! Terrain cost classification and cost grids built from resolved terrain.

use vera20k::map::{ResolvedTerrainCell, ResolvedTerrainGrid};
use vera20k::pathfinding::passability::LandType;
use vera20k::pathfinding::terrain_cost::{
    classify_terrain_cost, TerrainCostGrid, COST_BLOCKED, COST_NORMAL, COST_ROUGH,
};
use vera20k::rules::{SpeedCostProfile, SpeedType, TerrainClass};

#[test]
fn test_track_on_water_is_blocked() {
    let cost = classify_terrain_cost(SpeedType::Track, true, false, false, false);
    assert_eq!(cost, COST_BLOCKED);
}

#[test]
fn test_track_on_road_is_normal() {
    let cost = classify_terrain_cost(SpeedType::Track, false, false, false, true);
    assert_eq!(cost, COST_NORMAL);
}

#[test]
fn test_track_on_rough_is_slow() {
    let cost = classify_terrain_cost(SpeedType::Track, false, false, true, false);
    assert_eq!(cost, COST_ROUGH);
}

#[test]
fn test_float_on_water_is_passable() {
    let cost = classify_terrain_cost(SpeedType::Float, true, false, false, false);
    assert_eq!(cost, COST_NORMAL);
}

#[test]
fn test_winged_ignores_terrain() {
    assert_eq!(
        classify_terrain_cost(SpeedType::Winged, true, true, true, false),
        COST_NORMAL
    );
}

#[test]
fn test_foot_on_rough_is_less_penalized() {
    let foot = classify_terrain_cost(SpeedType::Foot, false, false, true, false);
    let track = classify_terrain_cost(SpeedType::Track, false, false, true, false);
    assert!(
        foot > track,
        "Infantry handle rough terrain better than vehicles"
    );
}

#[test]
fn test_wheel_on_rough_is_most_penalized() {
    let wheel = classify_terrain_cost(SpeedType::Wheel, false, false, true, false);
    let track = classify_terrain_cost(SpeedType::Track, false, false, true, false);
    assert!(
        wheel < track,
        "Wheeled vehicles suffer more on rough terrain"
    );
}

#[test]
fn test_from_resolved_terrain_uses_resolved_surface_classes() {
    let terrain = ResolvedTerrainGrid::from_cells(
        2,
        2,
        vec![
            ResolvedTerrainCell {
                is_road: true,
                land_type: LandType::Road.as_index(),
                speed_costs: SpeedCostProfile {
                    track: Some(120),
                    ..SpeedCostProfile::default()
                },
                ..make_resolved_cell(0, 0)
            },
            ResolvedTerrainCell {
                is_rough: true,
                land_type: LandType::Rough.as_index(),
                speed_costs: SpeedCostProfile {
                    track: Some(75),
                    wheel: Some(60),
                    foot: Some(90),
                    ..SpeedCostProfile::default()
                },
                ..make_resolved_cell(1, 0)
            },
            ResolvedTerrainCell {
                is_water: true,
                land_type: LandType::Water.as_index(),
                ground_walk_blocked: true,
                speed_costs: SpeedCostProfile {
                    track: Some(0),
                    hover: Some(100),
                    ..SpeedCostProfile::default()
                },
                ..make_resolved_cell(0, 1)
            },
            ResolvedTerrainCell {
                is_cliff_like: true,
                land_type: LandType::Rock.as_index(),
                ground_walk_blocked: true,
                ..make_resolved_cell(1, 1)
            },
        ],
    );
    let track = TerrainCostGrid::from_resolved_terrain(&terrain, SpeedType::Track);
    let hover = TerrainCostGrid::from_resolved_terrain(&terrain, SpeedType::Hover);
    // Road cell uses INI speed cost (Track=120) — no road bonus in A*.
    assert_eq!(track.cost_at(0, 0), 120);
    assert_eq!(track.cost_at(1, 0), COST_ROUGH);
    assert_eq!(track.cost_at(0, 1), COST_BLOCKED);
    assert_eq!(hover.cost_at(0, 1), COST_NORMAL);
    assert_eq!(hover.cost_at(1, 1), COST_BLOCKED);
}

fn make_resolved_cell(rx: u16, ry: u16) -> ResolvedTerrainCell {
    ResolvedTerrainCell {
        rx,
        ry,
        source_tile_index: 0,
        source_sub_tile: 0,
        final_tile_index: 0,
        final_sub_tile: 0,
        level: 0,
        filled_clear: false,
        tileset_index: Some(0),
        land_type: 0,
        slope_type: 0,
        template_height: 0,
        render_offset_x: 0,
        render_offset_y: 0,
        terrain_class: TerrainClass::Clear,
        speed_costs: SpeedCostProfile::default(),
        is_water: false,
        is_cliff_like: false,
        is_cliff_redraw: false,
        variant: 0,
        is_rough: false,
        is_road: false,
        has_ramp: false,
        canonical_ramp: None,
        ground_walk_blocked: false,
        terrain_object_blocks: false,
        overlay_blocks: false,
        zone_type: 0,
        base_ground_walk_blocked: false,
        base_build_blocked: false,
        build_blocked: false,
        has_bridge_deck: false,
        bridge_walkable: false,
        bridge_transition: false,
        bridge_deck_level: 0,
        bridge_layer: None,
        radar_left: [0, 0, 0],
        radar_right: [0, 0, 0],
    }
}
