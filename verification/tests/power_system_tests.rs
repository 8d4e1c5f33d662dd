//! Per-player power totals, low power, blackouts and degradation.

use std::collections::BTreeMap;

use vera20k::fixed_math::SimFixed;
use vera20k::power_system::{
    damage_delay_ms, has_active_radar, is_building_powered, recalculate_power_for_owner,
    tick_power_states, trigger_spy_blackout, PowerEntity, PowerEvent, PowerState,
};

const ALLIES: u32 = 1;
const SOVIET: u32 = 2;

/// Power settings of the building types these tests use: rated power,
/// whether low power shuts the type down, and whether it is a radar.
fn type_settings(type_ref: &str) -> (i32, bool, bool) {
    match type_ref {
        "GAPOWR" => (200, false, false),
        "NAPOWR" => (150, false, false),
        "TESLA" => (-75, true, false),
        "GAPILE" => (-10, true, false),
        "GAAIRC" => (-50, true, true),
        _ => (0, false, false),
    }
}

fn make_building(id: u64, type_ref: &str, owner: u32, hp: u16, max_hp: u16) -> PowerEntity {
    let (power, powered, radar) = type_settings(type_ref);
    PowerEntity {
        stable_id: id,
        owner,
        is_structure: true,
        under_construction: false,
        hp,
        max_hp,
        power,
        powered,
        radar,
    }
}

/// `DamageDelay=1.0` minute.
fn damage_delay() -> SimFixed {
    SimFixed::lit("1.0")
}

#[test]
fn test_health_scaled_output() {
    // Power plant at 50% HP should produce 50% output.
    // Barracks at any health always drains full amount.
    let store = vec![
        make_building(1, "GAPOWR", ALLIES, 300, 600),
        make_building(2, "GAPILE", ALLIES, 50, 500),
    ];
    let mut state = PowerState::default();
    recalculate_power_for_owner(&mut state, &store, ALLIES);

    assert_eq!(state.total_output, 100, "200 * 300/600 = 100");
    assert_eq!(state.total_drain, 10, "|-10| = 10");
    assert!(!state.is_low_power, "100 >= 10");
}

#[test]
fn test_full_health_full_output() {
    let store = vec![make_building(1, "GAPOWR", ALLIES, 600, 600)];
    let mut state = PowerState::default();
    recalculate_power_for_owner(&mut state, &store, ALLIES);

    assert_eq!(state.total_output, 200);
    assert_eq!(state.total_drain, 0);
    assert!(!state.is_low_power);
}

#[test]
fn test_low_power_detection() {
    let store = vec![
        // Small power plant at low health.
        make_building(1, "NAPOWR", SOVIET, 40, 400),
        // Tesla Coil drains 75.
        make_building(2, "TESLA", SOVIET, 400, 400),
    ];
    let mut state = PowerState::default();
    recalculate_power_for_owner(&mut state, &store, SOVIET);

    assert_eq!(state.total_output, 15, "150 * 40/400 = 15");
    assert_eq!(state.total_drain, 75);
    assert!(state.is_low_power, "15 < 75");
}

#[test]
fn test_drain_always_full_regardless_of_health() {
    // Tesla Coil at 1 HP still drains full 75.
    let store = vec![make_building(1, "TESLA", SOVIET, 1, 400)];
    let mut state = PowerState::default();
    recalculate_power_for_owner(&mut state, &store, SOVIET);

    assert_eq!(state.total_drain, 75, "drain is always full rated value");
}

#[test]
fn test_spy_blackout_forces_zero_output() {
    let store = vec![
        make_building(1, "GAPOWR", ALLIES, 600, 600),
        make_building(2, "GAPILE", ALLIES, 500, 500),
    ];
    let mut state = PowerState::default();
    state.power_blackout_remaining = 100;
    recalculate_power_for_owner(&mut state, &store, ALLIES);

    assert_eq!(state.total_output, 0, "blackout forces output to 0");
    assert_eq!(state.total_drain, 10);
    assert!(state.is_low_power, "0 < 10 during blackout");
}

#[test]
fn test_spy_blackout_timer_decrements() {
    let mut store = vec![make_building(1, "GAPOWR", ALLIES, 600, 600)];
    let mut states: BTreeMap<u32, PowerState> = BTreeMap::new();
    trigger_spy_blackout(&mut states, ALLIES, 5);

    // Tick 5 times — each tick decrements by 1.
    for _ in 0..5 {
        tick_power_states(&mut states, &mut store, 16, damage_delay());
    }

    let state = states.get(&ALLIES).expect("state should exist");
    assert_eq!(state.power_blackout_remaining, 0, "timer should reach 0");
    assert!(!state.is_low_power, "power restored after blackout");
}

#[test]
fn test_power_transition_events() {
    // Start with just a tesla coil (drain=75, output=0) → immediate low power.
    let mut store = vec![make_building(1, "TESLA", SOVIET, 400, 400)];
    let mut states: BTreeMap<u32, PowerState> = BTreeMap::new();

    let events = tick_power_states(&mut states, &mut store, 16, damage_delay());
    assert!(
        events.contains(&PowerEvent::EnteredLowPower { owner: SOVIET }),
        "should detect entering low power"
    );

    // Add a power plant → should restore power.
    store.push(make_building(2, "NAPOWR", SOVIET, 400, 400));
    let events = tick_power_states(&mut states, &mut store, 16, damage_delay());
    assert!(
        events.contains(&PowerEvent::PowerRestored { owner: SOVIET }),
        "should detect power restored"
    );
}

#[test]
fn test_is_building_powered_for_generator() {
    // Power plant (positive Power=) is never deactivated.
    let plant = make_building(1, "GAPOWR", ALLIES, 600, 600);
    let mut states: BTreeMap<u32, PowerState> = BTreeMap::new();
    states.insert(
        ALLIES,
        PowerState {
            is_low_power: true,
            ..PowerState::default()
        },
    );

    assert!(
        is_building_powered(&states, &plant),
        "generators are never deactivated"
    );
}

#[test]
fn test_is_building_powered_for_consumer_during_low_power() {
    let tesla = make_building(1, "TESLA", SOVIET, 400, 400);
    let mut states: BTreeMap<u32, PowerState> = BTreeMap::new();
    states.insert(
        SOVIET,
        PowerState {
            is_low_power: true,
            ..PowerState::default()
        },
    );

    assert!(
        !is_building_powered(&states, &tesla),
        "Powered=yes consumer deactivated during low power"
    );
}

#[test]
fn test_is_building_powered_for_consumer_during_surplus() {
    let tesla = make_building(1, "TESLA", SOVIET, 400, 400);
    let mut states: BTreeMap<u32, PowerState> = BTreeMap::new();
    states.insert(
        SOVIET,
        PowerState {
            is_low_power: false,
            ..PowerState::default()
        },
    );

    assert!(
        is_building_powered(&states, &tesla),
        "consumer active during power surplus"
    );
}

#[test]
fn test_degradation_damage() {
    // Tesla coil (Powered=yes, Power=-75) with no power plant → low power.
    let mut store = vec![make_building(1, "TESLA", SOVIET, 100, 400)];
    let mut states: BTreeMap<u32, PowerState> = BTreeMap::new();

    // DamageDelay=1.0 minute = 60_000 ms. Tick at 16ms per tick.
    // Need 60_000/16 = 3750 ticks to trigger degradation.
    for _ in 0..3750 {
        tick_power_states(&mut states, &mut store, 16, damage_delay());
    }

    let entity = store.iter().find(|e| e.stable_id == 1).expect("entity should exist");
    assert!(
        entity.hp < 100,
        "degradation should have reduced HP from 100, got {}",
        entity.hp
    );
}

#[test]
fn test_building_under_construction_excluded() {
    let mut plant = make_building(1, "GAPOWR", ALLIES, 600, 600);
    plant.under_construction = true;
    let store = vec![plant];

    let mut state = PowerState::default();
    recalculate_power_for_owner(&mut state, &store, ALLIES);

    assert_eq!(
        state.total_output, 0,
        "building under construction produces no power"
    );
}

#[test]
fn test_has_active_radar_with_power() {
    let mut store = vec![
        make_building(1, "GAAIRC", ALLIES, 600, 600),
        make_building(2, "GAPOWR", ALLIES, 600, 600),
    ];
    let mut states: BTreeMap<u32, PowerState> = BTreeMap::new();
    tick_power_states(&mut states, &mut store, 16, damage_delay());

    assert!(
        has_active_radar(&store, &states, ALLIES),
        "radar should be active with sufficient power"
    );

    // Remove the power plant → low power → radar disabled.
    store.retain(|e| e.stable_id != 2);
    tick_power_states(&mut states, &mut store, 16, damage_delay());

    assert!(
        !has_active_radar(&store, &states, ALLIES),
        "radar should be disabled during low power"
    );
}

#[test]
fn damage_delay_in_milliseconds() {
    assert_eq!(damage_delay_ms(SimFixed::lit("1.0")), 60_000);
    assert_eq!(damage_delay_ms(SimFixed::lit("0.5")), 30_000);
    // A delay under a second still waits one millisecond.
    assert_eq!(damage_delay_ms(SimFixed::lit("0.001")), 1);
    assert_eq!(damage_delay_ms(SimFixed { raw: -65536 }), 1);
}

#[test]
fn blackout_tick_counts_down_and_accumulates_degradation() {
    let mut store = vec![make_building(1, "TESLA", SOVIET, 100, 400)];
    let mut states: BTreeMap<u32, PowerState> = BTreeMap::new();
    trigger_spy_blackout(&mut states, SOVIET, 3);
    tick_power_states(&mut states, &mut store, 16, damage_delay());
    let st = states.get(&SOVIET).expect("state should exist");
    assert_eq!(st.power_blackout_remaining, 2);
    assert!(st.is_low_power);
    assert_eq!(st.degradation_accum_ms, 16);
    assert_eq!(store[0].hp, 100);
}

#[test]
fn degradation_spares_generators_and_other_owners() {
    let mut store = vec![
        make_building(1, "TESLA", SOVIET, 100, 400),
        make_building(2, "GAPILE", ALLIES, 100, 500),
        make_building(3, "GAPOWR", ALLIES, 600, 600),
    ];
    let mut states: BTreeMap<u32, PowerState> = BTreeMap::new();
    // A tiny delay makes every low-power tick deal damage.
    let quick = SimFixed { raw: 0 };
    let events = tick_power_states(&mut states, &mut store, 16, quick);
    assert_eq!(events, vec![PowerEvent::EnteredLowPower { owner: SOVIET }]);
    assert_eq!(store[0].hp, 99);
    assert_eq!(store[1].hp, 100);
    assert_eq!(store[2].hp, 600);
    let st = states.get(&SOVIET).expect("state should exist");
    assert_eq!(st.degradation_accum_ms, 15);
}

#[test]
fn events_come_in_owner_order() {
    let mut store = vec![
        make_building(1, "TESLA", 7, 400, 400),
        make_building(2, "TESLA", 3, 400, 400),
        make_building(3, "GAPOWR", 5, 600, 600),
    ];
    let mut states: BTreeMap<u32, PowerState> = BTreeMap::new();
    let events = tick_power_states(&mut states, &mut store, 16, damage_delay());
    assert_eq!(
        events,
        vec![
            PowerEvent::EnteredLowPower { owner: 3 },
            PowerEvent::EnteredLowPower { owner: 7 },
        ]
    );
    assert_eq!(states.len(), 3);
    assert_eq!(states.get(&5).map(|s| s.total_output), Some(200));
}
