//! Path search, zone connectivity, terrain costs and path smoothing.

pub mod passability;
pub mod path_grid;
pub mod foundation;
pub mod terrain_cost;
pub mod zone_map;
pub mod zone_build;
pub mod zone_hierarchy;
pub mod zone_incremental;
pub mod zone_search;
pub mod open_set;
pub mod astar;
pub mod cell_entry;
pub mod terrain_speed;
pub mod path_smooth;
