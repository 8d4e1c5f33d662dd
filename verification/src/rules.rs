//! Movement rules shared by the simulation: movement zones, speed types,
//! locomotors and the per-land-type speed percentages read from the rules.

use crate::fixed_math::{SimFixed, ONE_RAW};
use vstd::prelude::*;

verus! {

/// The 13 movement zones. The discriminant order is the passability row.
#[derive(Debug, Clone, Copy, PartialEq, Eq, Structural)]
pub enum MovementZone {
    Normal,
    Crusher,
    Destroyer,
    AmphibiousDestroyer,
    AmphibiousCrusher,
    Amphibious,
    Subterranean,
    Infantry,
    InfantryDestroyer,
    Fly,
    Water,
    WaterBeach,
    CrusherAll,
}

/// Row index of a movement zone.
pub open spec fn movement_zone_row(mz: MovementZone) -> int {
    match mz {
        MovementZone::Normal => 0,
        MovementZone::Crusher => 1,
        MovementZone::Destroyer => 2,
        MovementZone::AmphibiousDestroyer => 3,
        MovementZone::AmphibiousCrusher => 4,
        MovementZone::Amphibious => 5,
        MovementZone::Subterranean => 6,
        MovementZone::Infantry => 7,
        MovementZone::InfantryDestroyer => 8,
        MovementZone::Fly => 9,
        MovementZone::Water => 10,
        MovementZone::WaterBeach => 11,
        MovementZone::CrusherAll => 12,
    }
}

impl MovementZone {
    /// The zone's row in the passability tables (0..=12).
    pub fn row(self) -> (r: usize)
        ensures
            r == movement_zone_row(self),
            r < 13,
    {
        match self {
            MovementZone::Normal => 0,
            MovementZone::Crusher => 1,
            MovementZone::Destroyer => 2,
            MovementZone::AmphibiousDestroyer => 3,
            MovementZone::AmphibiousCrusher => 4,
            MovementZone::Amphibious => 5,
            MovementZone::Subterranean => 6,
            MovementZone::Infantry => 7,
            MovementZone::InfantryDestroyer => 8,
            MovementZone::Fly => 9,
            MovementZone::Water => 10,
            MovementZone::WaterBeach => 11,
            MovementZone::CrusherAll => 12,
        }
    }

    /// Ships: movers that travel on water surfaces only.
    pub open spec fn spec_is_water_mover(self) -> bool {
        self == MovementZone::Water || self == MovementZone::WaterBeach
    }

    /// Whether this zone belongs to a ship.
    pub fn is_water_mover(self) -> (r: bool)
        ensures
            r == self.spec_is_water_mover(),
    {
        match self {
            MovementZone::Water | MovementZone::WaterBeach => true,
            _ => false,
        }
    }
}

/// The 8 speed types of the locomotion rules.
#[derive(Debug, Clone, Copy, PartialEq, Eq, Structural)]
pub enum SpeedType {
    Foot,
    Track,
    Wheel,
    Float,
    FloatBeach,
    Hover,
    Amphibious,
    Winged,
}

/// Index of a speed type, used as a map key.
pub open spec fn speed_type_index(st: SpeedType) -> int {
    match st {
        SpeedType::Foot => 0,
        SpeedType::Track => 1,
        SpeedType::Wheel => 2,
        SpeedType::Float => 3,
        SpeedType::FloatBeach => 4,
        SpeedType::Hover => 5,
        SpeedType::Amphibious => 6,
        SpeedType::Winged => 7,
    }
}

impl SpeedType {
    /// A small integer key for this speed type.
    pub fn index(self) -> (r: u8)
        ensures
            r == speed_type_index(self),
    {
        match self {
            SpeedType::Foot => 0,
            SpeedType::Track => 1,
            SpeedType::Wheel => 2,
            SpeedType::Float => 3,
            SpeedType::FloatBeach => 4,
            SpeedType::Hover => 5,
            SpeedType::Amphibious => 6,
            SpeedType::Winged => 7,
        }
    }
}

/// Locomotor kinds.
#[derive(Debug, Clone, Copy, PartialEq, Eq, Structural)]
pub enum LocomotorKind {
    Drive,
    Hover,
    Tunnel,
    Walk,
    Droppod,
    Fly,
    Teleport,
    Mech,
    Ship,
    Jumpjet,
    Rocket,
}

/// Land classes of the terrain rules.
#[derive(Debug, Clone, Copy, PartialEq, Eq, Structural)]
pub enum TerrainClass {
    Clear,
    Road,
    Rough,
    Beach,
    Water,
    Tiberium,
    Railroad,
    Rock,
    Cliff,
}

/// Speed percentages per speed type for one land class (`None` = not given).
#[derive(Debug, Clone, Copy, PartialEq, Eq, Structural)]
pub struct SpeedCostProfile {
    pub foot: Option<u8>,
    pub track: Option<u8>,
    pub wheel: Option<u8>,
    pub float: Option<u8>,
    pub amphibious: Option<u8>,
    pub hover: Option<u8>,
    pub float_beach: Option<u8>,
}

impl SpeedCostProfile {
    /// The percentage given for a speed type, if any.
    pub open spec fn spec_cost_for(self, st: SpeedType) -> Option<u8> {
        match st {
            SpeedType::Foot => self.foot,
            SpeedType::Track => self.track,
            SpeedType::Wheel => self.wheel,
            SpeedType::Float => self.float,
            SpeedType::FloatBeach => self.float_beach,
            SpeedType::Hover => self.hover,
            SpeedType::Amphibious => self.amphibious,
            SpeedType::Winged => None,
        }
    }

    /// The percentage given for a speed type; winged movers have none.
    pub fn cost_for_speed_type(&self, st: SpeedType) -> (r: Option<u8>)
        ensures
            r == self.spec_cost_for(st),
    {
        match st {
            SpeedType::Foot => self.foot,
            SpeedType::Track => self.track,
            SpeedType::Wheel => self.wheel,
            SpeedType::Float => self.float,
            SpeedType::FloatBeach => self.float_beach,
            SpeedType::Hover => self.hover,
            SpeedType::Amphibious => self.amphibious,
            SpeedType::Winged => None,
        }
    }

    /// Speed multiplier of this land class for a speed type: a given 0% is
    /// raised to 50% so that passable terrain never stops a unit, a missing
    /// percentage means 100%, any other percentage `p` gives `p / 100`.
    pub open spec fn spec_speed_multiplier(self, st: SpeedType) -> int {
        match self.spec_cost_for(st) {
            Some(p) => if p == 0 {
                ONE_RAW / 2
            } else {
                (p as int * ONE_RAW) / 100
            },
            None => ONE_RAW as int,
        }
    }

    /// Speed multiplier of this land class for a speed type.
    pub fn speed_multiplier_for(&self, st: SpeedType) -> (r: SimFixed)
        ensures
            r.raw == self.spec_speed_multiplier(st),
    {
        match self.cost_for_speed_type(st) {
            Some(p) => {
                if p == 0 {
                    SimFixed::half()
                } else {
                    SimFixed { raw: (p as i64 * ONE_RAW) / 100 }
                }
            },
            None => SimFixed::one(),
        }
    }

    /// A profile that gives no percentage for any speed type.
    pub fn empty() -> (r: SpeedCostProfile)
        ensures
            r.foot is None && r.track is None && r.wheel is None && r.float is None
                && r.amphibious is None && r.hover is None && r.float_beach is None,
    {
        SpeedCostProfile {
            foot: None,
            track: None,
            wheel: None,
            float: None,
            amphibious: None,
            hover: None,
            float_beach: None,
        }
    }
}

impl Default for SpeedCostProfile {
    fn default() -> (r: SpeedCostProfile)
        ensures
            r.foot is None && r.track is None && r.wheel is None && r.float is None
                && r.amphibious is None && r.hover is None && r.float_beach is None,
    {
        SpeedCostProfile::empty()
    }
}

} // verus!
