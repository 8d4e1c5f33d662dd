//! Simulation core of an isometric real-time strategy engine: terrain
//! passability, path search, zone connectivity and related game rules.

pub mod bridge_state;
pub mod fixed_math;
pub mod grid_index;
pub mod keys;
pub mod map;
pub mod movement;
pub mod pathfinding;
pub mod power_system;
pub mod production;
pub mod radar;
pub mod rules;
pub mod slave_miner;
pub mod superweapon;
pub mod trigger_runtime;
