//! Radar availability: a powered radar building gives its owner a minimap.

use std::collections::BTreeMap;

use vera20k::fixed_math::SimFixed;
use vera20k::power_system::{tick_power_states, PowerEntity, PowerState};
use vera20k::radar::has_radar_for_owner;

const AMERICANS: u32 = 1;

/// `GARADR`: radar, power -40; `GAPOWR`: power plant, power 200.
fn spawn_building(store: &mut Vec<PowerEntity>, id: u64, owner: u32, type_id: &str) {
    let (power, powered, radar) = match type_id {
        "GARADR" => (-40, true, true),
        "GAPOWR" => (200, false, false),
        _ => (0, false, false),
    };
    store.push(PowerEntity {
        stable_id: id,
        owner,
        is_structure: true,
        under_construction: false,
        hp: 100,
        max_hp: 100,
        power,
        powered,
        radar,
    });
}

#[test]
fn no_radar_without_building() {
    let store: Vec<PowerEntity> = Vec::new();
    let states: BTreeMap<u32, PowerState> = BTreeMap::new();
    // The owner was never registered with the simulation.
    assert!(!has_radar_for_owner(&store, &states, None));
    assert!(!has_radar_for_owner(&store, &states, Some(AMERICANS)));
}

#[test]
fn radar_with_powered_building() {
    let mut store: Vec<PowerEntity> = Vec::new();
    let mut states: BTreeMap<u32, PowerState> = BTreeMap::new();
    // Spawn power plant (Power=200)
    spawn_building(&mut store, 1, AMERICANS, "GAPOWR");
    // Spawn radar building (Power=-40)
    spawn_building(&mut store, 2, AMERICANS, "GARADR");
    // Tick power states so cached state reflects the buildings.
    tick_power_states(&mut states, &mut store, 16, SimFixed::lit("1.0"));
    assert!(has_radar_for_owner(&store, &states, Some(AMERICANS)));
}

#[test]
fn no_radar_when_low_power() {
    let mut store: Vec<PowerEntity> = Vec::new();
    let mut states: BTreeMap<u32, PowerState> = BTreeMap::new();
    // Only radar building, no power plant — drained > produced
    spawn_building(&mut store, 1, AMERICANS, "GARADR");
    // Tick power states so low-power is detected.
    tick_power_states(&mut states, &mut store, 16, SimFixed::lit("1.0"));
    assert!(!has_radar_for_owner(&store, &states, Some(AMERICANS)));
}
