//! Land-class speed multipliers, crowd slowdown and default speed settings.

use vera20k::fixed_math::SimFixed;
use vera20k::pathfinding::terrain_speed::{crowd_speed_factor, OccupancyGrid, TerrainSpeedConfig};
use vera20k::rules::{SpeedCostProfile, SpeedType};

#[test]
fn speed_multiplier_for_normal_terrain() {
    let profile = SpeedCostProfile {
        foot: Some(100),
        track: Some(100),
        ..Default::default()
    };
    assert_eq!(profile.speed_multiplier_for(SpeedType::Foot), SimFixed::one());
}

#[test]
fn speed_multiplier_for_rough_terrain() {
    let profile = SpeedCostProfile {
        track: Some(75),
        ..Default::default()
    };
    let mult = profile.speed_multiplier_for(SpeedType::Track);
    assert_eq!(mult, SimFixed::lit("0.75"));
}

#[test]
fn speed_multiplier_zero_boosted_to_half() {
    let profile = SpeedCostProfile {
        foot: Some(0),
        ..Default::default()
    };
    assert_eq!(profile.speed_multiplier_for(SpeedType::Foot), SimFixed::half());
}

#[test]
fn speed_multiplier_none_defaults_to_one() {
    let profile = SpeedCostProfile::default();
    assert_eq!(profile.speed_multiplier_for(SpeedType::Foot), SimFixed::one());
}

#[test]
fn crowd_below_threshold_no_slowdown() {
    let config = TerrainSpeedConfig::default();
    let occupancy = OccupancyGrid::new();
    let factor = crowd_speed_factor((5, 5), &occupancy, &config);
    assert_eq!(factor, SimFixed::one());
}

#[test]
fn default_config_values() {
    let config = TerrainSpeedConfig::default();
    assert_eq!(config.slope_climb, SimFixed::lit("0.6"));
    assert_eq!(config.slope_descend, SimFixed::lit("1.2"));
    assert_eq!(config.crowd_density_threshold, 3);
}
