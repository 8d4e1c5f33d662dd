//! Passability matrix rows, speed-type layers and land-type mapping.

use vera20k::pathfinding::passability::{
    is_passable_for_speed_type, is_passable_for_zone, tmp_terrain_to_land_type,
    zone_layer_for_movement_zone, zone_layer_for_speed_type, LandType, PASSABILITY_MATRIX,
    PASS_BLOCKED, PASS_OK, ZONE_LAYER_COUNT,
};
use vera20k::rules::{MovementZone, SpeedType};

#[test]
fn clear_passable_for_all_ground() {
    // Terrain type 0 (Clear) should be passable for all non-water zone layers.
    for layer in 0..10 {
        assert_eq!(
            PASSABILITY_MATRIX[layer][0], PASS_OK,
            "Zone layer {} should pass on Clear terrain",
            layer
        );
    }
}

#[test]
fn rock_blocked_except_subterranean_and_fly() {
    // Rock terrain maps to the Impassable zone type.
    // Subterranean (row 6) and Fly (row 9) can enter; all others blocked.
    for layer in 0..ZONE_LAYER_COUNT {
        let expected = if layer == 6 || layer == 9 {
            PASS_OK
        } else {
            PASS_BLOCKED
        };
        assert_eq!(
            PASSABILITY_MATRIX[layer][7], expected,
            "Zone layer {} on Rock terrain",
            layer
        );
    }
}

#[test]
fn water_only_for_ships() {
    // Zone 10 (ships) should only pass on water (col 4).
    let row = PASSABILITY_MATRIX[10];
    assert_eq!(row[4], PASS_OK);
    assert_eq!(row[0], PASS_BLOCKED); // clear = blocked for ships
    assert_eq!(row[1], PASS_BLOCKED); // road = blocked
}

#[test]
fn amphibious_destroyer_passes_land_and_water() {
    // Zone 3 (AmphibiousDestroyer) passes clear, road, rough, beach, water.
    // Tiberium is an Impassable zone type — blocked for AmphibiousDestroyer.
    let row = PASSABILITY_MATRIX[3];
    assert_eq!(row[0], PASS_OK); // clear
    assert_eq!(row[1], PASS_OK); // road
    assert_eq!(row[2], PASS_OK); // rough
    assert_eq!(row[3], PASS_OK); // beach
    assert_eq!(row[4], PASS_OK); // water
    assert_eq!(row[5], PASS_BLOCKED); // tiberium = impassable zone type
    assert_eq!(row[6], PASS_OK); // railroad = ground terrain
}

#[test]
fn wheel_restricted() {
    // Zone 1 (Crusher/wheel) passes clear, road, rough, railroad — all Ground-type.
    let row = PASSABILITY_MATRIX[1];
    assert_eq!(row[0], PASS_OK); // clear
    assert_eq!(row[1], PASS_OK); // road
    assert_eq!(row[2], PASS_OK); // rough = ground
}

#[test]
fn speed_type_foot_uses_zone_2() {
    assert_eq!(zone_layer_for_speed_type(SpeedType::Foot), 2);
    assert!(is_passable_for_speed_type(0, SpeedType::Foot)); // clear
    assert!(is_passable_for_speed_type(2, SpeedType::Foot)); // rough
    assert!(!is_passable_for_speed_type(4, SpeedType::Foot)); // water
}

#[test]
fn speed_type_float_uses_zone_9() {
    assert_eq!(zone_layer_for_speed_type(SpeedType::Float), 9);
    assert!(is_passable_for_speed_type(0, SpeedType::Float)); // clear
    assert!(is_passable_for_speed_type(4, SpeedType::Float)); // water
    // Rock maps to Impassable ZoneType — Fly/hover CAN enter (row 9 col 6 = 1).
    assert!(is_passable_for_speed_type(7, SpeedType::Float)); // rock passable for hover
}

#[test]
fn movement_zone_water_is_zone_10() {
    assert_eq!(zone_layer_for_movement_zone(MovementZone::Water), 10);
    assert!(!is_passable_for_zone(0, MovementZone::Water)); // clear blocked
    assert!(is_passable_for_zone(4, MovementZone::Water)); // water OK
}

#[test]
fn movement_zone_is_direct_index() {
    // MovementZone IS the passability matrix row index
    assert_eq!(zone_layer_for_movement_zone(MovementZone::Normal), 0);
    assert_eq!(zone_layer_for_movement_zone(MovementZone::Crusher), 1);
    assert_eq!(zone_layer_for_movement_zone(MovementZone::Destroyer), 2);
    assert_eq!(
        zone_layer_for_movement_zone(MovementZone::AmphibiousDestroyer),
        3
    );
    assert_eq!(
        zone_layer_for_movement_zone(MovementZone::AmphibiousCrusher),
        4
    );
    assert_eq!(zone_layer_for_movement_zone(MovementZone::Amphibious), 5);
    assert_eq!(zone_layer_for_movement_zone(MovementZone::Subterranean), 6);
    assert_eq!(zone_layer_for_movement_zone(MovementZone::Infantry), 7);
    assert_eq!(
        zone_layer_for_movement_zone(MovementZone::InfantryDestroyer),
        8
    );
    assert_eq!(zone_layer_for_movement_zone(MovementZone::Fly), 9);
    assert_eq!(zone_layer_for_movement_zone(MovementZone::CrusherAll), 12);
}

#[test]
fn out_of_range_land_type_impassable() {
    assert!(!is_passable_for_speed_type(8, SpeedType::Foot));
    assert!(!is_passable_for_speed_type(255, SpeedType::Float));
}

// -- LandType mapping tests --

#[test]
fn tmp_clear_variants_map_to_clear() {
    for byte in [0, 1, 2, 3, 4, 13] {
        assert_eq!(
            tmp_terrain_to_land_type(byte),
            LandType::Clear,
            "TMP byte {}",
            byte
        );
    }
}

#[test]
fn tmp_water_maps_to_water() {
    assert_eq!(tmp_terrain_to_land_type(9), LandType::Water);
}

#[test]
fn tmp_beach_maps_to_beach() {
    assert_eq!(tmp_terrain_to_land_type(10), LandType::Beach);
}

#[test]
fn tmp_road_variants_map_to_road() {
    assert_eq!(tmp_terrain_to_land_type(11), LandType::Road);
    assert_eq!(tmp_terrain_to_land_type(12), LandType::Road);
}

#[test]
fn tmp_rough_maps_to_rough() {
    assert_eq!(tmp_terrain_to_land_type(14), LandType::Rough);
}

#[test]
fn tmp_rock_and_cliff_map_to_rock() {
    assert_eq!(tmp_terrain_to_land_type(7), LandType::Rock);
    assert_eq!(tmp_terrain_to_land_type(8), LandType::Rock);
    assert_eq!(tmp_terrain_to_land_type(15), LandType::Rock);
}

#[test]
fn tmp_tunnel_and_railroad_map_to_railroad() {
    assert_eq!(tmp_terrain_to_land_type(5), LandType::Railroad);
    assert_eq!(tmp_terrain_to_land_type(6), LandType::Railroad);
}

#[test]
fn tmp_unknown_bytes_default_to_clear() {
    for byte in 16..=255u8 {
        assert_eq!(
            tmp_terrain_to_land_type(byte),
            LandType::Clear,
            "TMP byte {}",
            byte
        );
    }
}

#[test]
fn land_type_as_index_matches_repr() {
    assert_eq!(LandType::Clear.as_index(), 0);
    assert_eq!(LandType::Road.as_index(), 1);
    assert_eq!(LandType::Rough.as_index(), 2);
    assert_eq!(LandType::Beach.as_index(), 3);
    assert_eq!(LandType::Water.as_index(), 4);
    assert_eq!(LandType::Tiberium.as_index(), 5);
    assert_eq!(LandType::Railroad.as_index(), 6);
    assert_eq!(LandType::Rock.as_index(), 7);
}

#[test]
fn mapped_land_types_work_with_passability_matrix() {
    // Water cells (TMP byte 9 → LandType::Water = 4) should be passable for ships.
    let water = tmp_terrain_to_land_type(9);
    assert!(is_passable_for_speed_type(
        water.as_index(),
        SpeedType::Float
    ));
    assert!(!is_passable_for_speed_type(
        water.as_index(),
        SpeedType::Track
    ));

    // Road cells (TMP byte 11 → LandType::Road = 1) should be passable for wheels.
    let road = tmp_terrain_to_land_type(11);
    assert!(is_passable_for_speed_type(
        road.as_index(),
        SpeedType::Wheel
    ));

    // Beach cells (TMP byte 10 → LandType::Beach = 3) should be passable for amphibious.
    let beach = tmp_terrain_to_land_type(10);
    assert!(is_passable_for_speed_type(
        beach.as_index(),
        SpeedType::Amphibious
    ));
    assert!(!is_passable_for_speed_type(
        beach.as_index(),
        SpeedType::Track
    ));

    // Rock (TMP byte 7 → LandType::Rock = 7) maps to Impassable ZoneType.
    // Hover/Fly (row 9) CAN enter, but ground units cannot.
    let rock = tmp_terrain_to_land_type(7);
    assert!(is_passable_for_speed_type(
        rock.as_index(),
        SpeedType::Float // Float → row 9 (hover) → passable on Impassable terrain
    ));
    assert!(!is_passable_for_speed_type(
        rock.as_index(),
        SpeedType::Track // Track → row 2 → blocked on Impassable terrain
    ));
}
