//! Movement layers: the ground, bridge decks, the air and underground.

use vstd::prelude::*;

verus! {

/// The layer a unit moves on.
#[derive(Debug, Clone, Copy, PartialEq, Eq, Structural)]
pub enum MovementLayer {
    Ground,
    Bridge,
    Air,
    Underground,
}

/// Integer code of a movement layer (used in ordered keys).
pub open spec fn movement_layer_code(l: MovementLayer) -> u8 {
    match l {
        MovementLayer::Ground => 0,
        MovementLayer::Bridge => 1,
        MovementLayer::Air => 2,
        MovementLayer::Underground => 3,
    }
}

impl MovementLayer {
    /// The integer code of this layer, for use inside ordered keys.
    pub fn code(self) -> (r: u8)
        ensures
            r == movement_layer_code(self),
    {
        match self {
            MovementLayer::Ground => 0,
            MovementLayer::Bridge => 1,
            MovementLayer::Air => 2,
            MovementLayer::Underground => 3,
        }
    }
}

} // verus!
