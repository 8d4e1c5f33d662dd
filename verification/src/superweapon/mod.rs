//! Superweapons: charging, readiness and suspension on low power, and the
//! lightning storm.

pub mod cell_grid;
pub mod instance;
pub mod lightning_storm;
