//! Cell passability matrix: 13 movement-zone rows by 8 land-type columns.
//!
//! A cell's land type (0-7) selects the column; a mover's zone layer selects
//! the row. Entries are 1 = passable, 2 = blocked, 3 = impassable.

use crate::rules::{movement_zone_row, MovementZone, SpeedType};
use vstd::prelude::*;

verus! {

/// Passable entry.
pub const PASS_OK: u8 = 1;

/// Blocked entry (e.g. occupied).
pub const PASS_BLOCKED: u8 = 2;

/// Always impassable entry.
pub const PASS_IMPASSABLE: u8 = 3;

/// Number of zone layers (rows).
pub const ZONE_LAYER_COUNT: usize = 13;

/// Number of land types (columns).
pub const TERRAIN_TYPE_COUNT: usize = 8;

/// The eight land-type columns of the passability matrix.
#[derive(Debug, Clone, Copy, PartialEq, Eq, Structural, Hash)]
pub enum LandType {
    Clear,
    Road,
    Rough,
    Beach,
    Water,
    Tiberium,
    Railroad,
    Rock,
}

/// Column index of a land type.
pub open spec fn land_type_index(lt: LandType) -> u8 {
    match lt {
        LandType::Clear => 0,
        LandType::Road => 1,
        LandType::Rough => 2,
        LandType::Beach => 3,
        LandType::Water => 4,
        LandType::Tiberium => 5,
        LandType::Railroad => 6,
        LandType::Rock => 7,
    }
}

impl LandType {
    /// The column index of this land type in the passability matrix.
    pub fn as_index(self) -> (r: u8)
        ensures
            r == land_type_index(self),
    {
        match self {
            LandType::Clear => 0,
            LandType::Road => 1,
            LandType::Rough => 2,
            LandType::Beach => 3,
            LandType::Water => 4,
            LandType::Tiberium => 5,
            LandType::Railroad => 6,
            LandType::Rock => 7,
        }
    }
}

/// Land type of a raw tile terrain byte (0-15); unknown bytes are Clear.
pub open spec fn spec_land_type_of_tile_byte(b: u8) -> LandType {
    if b <= 4 || b == 13 {
        LandType::Clear
    } else if b == 5 || b == 6 {
        LandType::Railroad
    } else if b == 7 || b == 8 || b == 15 {
        LandType::Rock
    } else if b == 9 {
        LandType::Water
    } else if b == 10 {
        LandType::Beach
    } else if b == 11 || b == 12 {
        LandType::Road
    } else if b == 14 {
        LandType::Rough
    } else {
        LandType::Clear
    }
}

/// Map a raw tile terrain byte to its passability column.
pub fn tmp_terrain_to_land_type(tmp_terrain_type: u8) -> (r: LandType)
    ensures
        r == spec_land_type_of_tile_byte(tmp_terrain_type),
{
    match tmp_terrain_type {
        0..=4 | 13 => LandType::Clear,
        5 | 6 => LandType::Railroad,
        7 | 8 => LandType::Rock,
        9 => LandType::Water,
        10 => LandType::Beach,
        11 | 12 => LandType::Road,
        14 => LandType::Rough,
        15 => LandType::Rock,
        _ => LandType::Clear,
    }
}

/// The passability matrix (rows = zone layers, columns = land types).
pub const PASSABILITY_MATRIX: [[u8; TERRAIN_TYPE_COUNT]; ZONE_LAYER_COUNT] = [
    [1, 2, 1, 2, 2, 2, 1, 2],
    [1, 1, 1, 2, 2, 2, 1, 2],
    [1, 1, 1, 2, 2, 2, 1, 2],
    [1, 1, 1, 1, 1, 2, 1, 2],
    [1, 1, 1, 1, 1, 2, 1, 2],
    [1, 2, 1, 1, 1, 2, 1, 2],
    [1, 1, 1, 2, 2, 1, 1, 1],
    [1, 2, 1, 2, 2, 2, 1, 2],
    [1, 1, 1, 2, 2, 2, 1, 2],
    [1, 1, 1, 1, 1, 1, 1, 1],
    [2, 2, 2, 2, 1, 2, 2, 2],
    [2, 2, 2, 1, 1, 2, 2, 2],
    [1, 1, 1, 2, 2, 2, 1, 2],
];

/// Matrix entry at `(layer, col)`, for in-range indices.
pub open spec fn matrix_entry(layer: int, col: int) -> u8 {
    PASSABILITY_MATRIX@[layer]@[col]
}

/// Zone layer of a speed type.
pub open spec fn spec_zone_layer_for_speed_type(st: SpeedType) -> int {
    match st {
        SpeedType::Foot => 2,
        SpeedType::Track => 2,
        SpeedType::Wheel => 1,
        SpeedType::Float => 9,
        SpeedType::FloatBeach => 4,
        SpeedType::Hover => 9,
        SpeedType::Amphibious => 3,
        SpeedType::Winged => 9,
    }
}

/// Map a speed type to its zone layer (row of the matrix).
pub fn zone_layer_for_speed_type(speed_type: SpeedType) -> (r: usize)
    ensures
        r == spec_zone_layer_for_speed_type(speed_type),
        r < ZONE_LAYER_COUNT,
{
    match speed_type {
        SpeedType::Foot => 2,
        SpeedType::Track => 2,
        SpeedType::Wheel => 1,
        SpeedType::Float => 9,
        SpeedType::FloatBeach => 4,
        SpeedType::Hover => 9,
        SpeedType::Amphibious => 3,
        SpeedType::Winged => 9,
    }
}

/// Map a movement zone to its zone layer: the zone's own row.
pub fn zone_layer_for_movement_zone(mz: MovementZone) -> (r: usize)
    ensures
        r == movement_zone_row(mz),
        r < ZONE_LAYER_COUNT,
{
    mz.row()
}

/// Whether `land_type` is passable for a speed type (out-of-range columns are not).
pub open spec fn spec_passable_for_speed_type(land_type: u8, st: SpeedType) -> bool {
    land_type < 8 && matrix_entry(spec_zone_layer_for_speed_type(st), land_type as int) == PASS_OK
}

/// Whether `land_type` is passable for a movement zone (out-of-range columns are not).
pub open spec fn spec_passable_for_zone(land_type: u8, mz: MovementZone) -> bool {
    land_type < 8 && matrix_entry(movement_zone_row(mz), land_type as int) == PASS_OK
}

/// Check whether a land type is passable for a speed type.
pub fn is_passable_for_speed_type(land_type: u8, speed_type: SpeedType) -> (r: bool)
    ensures
        r == spec_passable_for_speed_type(land_type, speed_type),
{
    if land_type as usize >= TERRAIN_TYPE_COUNT {
        return false;
    }
    let layer = zone_layer_for_speed_type(speed_type);
    PASSABILITY_MATRIX[layer][land_type as usize] == PASS_OK
}

/// Check whether a land type is passable for a movement zone.
pub fn is_passable_for_zone(land_type: u8, mz: MovementZone) -> (r: bool)
    ensures
        r == spec_passable_for_zone(land_type, mz),
{
    if land_type as usize >= TERRAIN_TYPE_COUNT {
        return false;
    }
    let layer = zone_layer_for_movement_zone(mz);
    PASSABILITY_MATRIX[layer][land_type as usize] == PASS_OK
}

/// The raw matrix value; out-of-range inputs give `PASS_IMPASSABLE`.
pub fn passability_value(zone_layer: usize, land_type: u8) -> (r: u8)
    ensures
        zone_layer < 13 && land_type < 8 ==> r == matrix_entry(zone_layer as int, land_type as int),
        !(zone_layer < 13 && land_type < 8) ==> r == PASS_IMPASSABLE,
{
    if zone_layer >= ZONE_LAYER_COUNT || land_type as usize >= TERRAIN_TYPE_COUNT {
        return PASS_IMPASSABLE;
    }
    PASSABILITY_MATRIX[zone_layer][land_type as usize]
}

/// Flying movers pass every land type.
pub proof fn lemma_fly_row_all_passable(land_type: u8)
    requires
        land_type < 8,
    ensures
        spec_passable_for_zone(land_type, MovementZone::Fly),
{
}

} // verus!
