//! Radar: whether a player's minimap works, and the kinds of minimap pings
//! with their colours.

use std::collections::BTreeMap;
use vstd::prelude::*;
use crate::power_system::{has_active_radar, PowerEntity, PowerState};

verus! {

/// Kind of a radar event; decides the ping colour and the announcement.
#[derive(Debug, Clone, Copy, PartialEq, Eq, Hash, Structural)]
pub enum RadarEventType {
    /// A unit took or dealt damage.
    Combat,
    /// Construction complete, unit ready and the like.
    Noncombat,
    /// Airborne drop zone.
    Dropzone,
    /// The player's own base is under attack.
    BaseUnderAttack,
    /// The player's harvester is under attack.
    MinerUnderAttack,
    /// An enemy was sighted for the first time.
    EnemyObjectSensed,
}

/// Ping colour of an event kind: white for combat and base attacks, cyan for
/// drop zones, yellow for the rest.
pub open spec fn spec_event_color(t: RadarEventType) -> [u8; 3] {
    match t {
        RadarEventType::Combat => [255u8, 255u8, 255u8],
        RadarEventType::Noncombat => [255u8, 255u8, 0u8],
        RadarEventType::Dropzone => [0u8, 255u8, 255u8],
        RadarEventType::BaseUnderAttack => [255u8, 255u8, 255u8],
        RadarEventType::MinerUnderAttack => [255u8, 255u8, 0u8],
        RadarEventType::EnemyObjectSensed => [255u8, 255u8, 0u8],
    }
}

impl RadarEventType {
    /// Base RGB colour of the ping.
    pub fn color(self) -> (r: [u8; 3])
        ensures
            r@ == spec_event_color(self)@,
    {
        match self {
            RadarEventType::Combat => [255, 255, 255],
            RadarEventType::Noncombat => [255, 255, 0],
            RadarEventType::Dropzone => [0, 255, 255],
            RadarEventType::BaseUnderAttack => [255, 255, 255],
            RadarEventType::MinerUnderAttack => [255, 255, 0],
            RadarEventType::EnemyObjectSensed => [255, 255, 0],
        }
    }
}

/// Whether `owner` has a working radar: a finished structure of theirs that
/// provides radar (a radar or a spy satellite) and is not shut down by low
/// power. An owner that was never registered (`None`) has none.
pub fn has_radar_for_owner(
    entities: &Vec<PowerEntity>,
    power_states: &BTreeMap<u32, PowerState>,
    owner: Option<u32>,
) -> (r: bool)
    ensures
        r == match owner {
            Some(o) => exists|i: int|
                0 <= i < entities@.len() && crate::power_system::active_radar(power_states@, #[trigger] entities@[i], o),
            None => false,
        },
{
    match owner {
        Some(o) => has_active_radar(entities, power_states, o),
        None => false,
    }
}

} // verus!
