//! Production vocabulary: build queue categories and states, placement
//! errors and the reasons an item cannot be built, with their texts.

use vstd::prelude::*;
use vstd::string::StringExecFns;

pub use crate::pathfinding::foundation::foundation_dimensions;

pub mod queue;
pub mod sell;
pub mod spawn;
pub mod tech;

verus! {

/// Sidebar queue / category of a build option.
#[derive(Debug, Clone, Copy, PartialEq, Eq, PartialOrd, Ord, Hash, Structural)]
pub enum ProductionCategory {
    Building,
    Defense,
    Infantry,
    Vehicle,
    Aircraft,
}

/// State of a queued build item.
#[derive(Debug, Clone, Copy, PartialEq, Eq, Hash, Structural)]
pub enum BuildQueueState {
    Queued,
    Building,
    Paused,
    Done,
}

/// Why a ready building cannot be placed.
#[derive(Debug, Clone, Copy, PartialEq, Eq, Structural)]
pub enum BuildingPlacementError {
    NotReady,
    NotBuilding,
    BlockedTerrain,
    OverlapsStructure,
    OutOfBuildArea,
}

/// Why an item cannot currently be built.
#[derive(Debug, Clone, PartialEq, Eq)]
pub enum BuildDisabledReason {
    UnbuildableTechLevel,
    WrongOwner,
    WrongHouse,
    ForbiddenHouse,
    RequiresStolenTech,
    MissingPrerequisite(String),
    NoFactory,
    AtBuildLimit,
    InsufficientCredits,
    PlacementModeUnavailable,
}

/// Text of a placement error.
pub open spec fn placement_error_text(e: BuildingPlacementError) -> Seq<char> {
    match e {
        BuildingPlacementError::NotReady => "Not ready for placement"@,
        BuildingPlacementError::NotBuilding => "Not a building"@,
        BuildingPlacementError::BlockedTerrain => "Blocked terrain"@,
        BuildingPlacementError::OverlapsStructure => "Overlaps structure"@,
        BuildingPlacementError::OutOfBuildArea => "Outside build radius"@,
    }
}

/// Text of a queue state.
pub open spec fn queue_state_text(s: BuildQueueState) -> Seq<char> {
    match s {
        BuildQueueState::Queued => "Queued"@,
        BuildQueueState::Building => "Building"@,
        BuildQueueState::Paused => "Paused"@,
        BuildQueueState::Done => "Done"@,
    }
}

/// Text of a production category.
pub open spec fn category_text(c: ProductionCategory) -> Seq<char> {
    match c {
        ProductionCategory::Building => "Building"@,
        ProductionCategory::Defense => "Defense"@,
        ProductionCategory::Infantry => "Infantry"@,
        ProductionCategory::Vehicle => "Vehicle"@,
        ProductionCategory::Aircraft => "Aircraft"@,
    }
}

/// Text shown for a reason an item cannot be built.
pub open spec fn disabled_text(r: BuildDisabledReason) -> Seq<char> {
    match r {
        BuildDisabledReason::UnbuildableTechLevel => "Unbuildable (TechLevel)"@,
        BuildDisabledReason::WrongOwner => "Wrong owner"@,
        BuildDisabledReason::WrongHouse => "Wrong house"@,
        BuildDisabledReason::ForbiddenHouse => "Forbidden for this house"@,
        BuildDisabledReason::RequiresStolenTech => "Requires stolen tech (spy infiltration)"@,
        BuildDisabledReason::MissingPrerequisite(p) => "Missing prerequisite: "@ + p@,
        BuildDisabledReason::NoFactory => "No production building"@,
        BuildDisabledReason::AtBuildLimit => "Build limit reached"@,
        BuildDisabledReason::InsufficientCredits => "Insufficient credits"@,
        BuildDisabledReason::PlacementModeUnavailable => "Building placement not implemented yet"@,
    }
}

impl BuildingPlacementError {
    /// Display text of the error.
    pub fn label(&self) -> (r: &'static str)
        ensures
            r@ == placement_error_text(*self),
    {
        match self {
            BuildingPlacementError::NotReady => "Not ready for placement",
            BuildingPlacementError::NotBuilding => "Not a building",
            BuildingPlacementError::BlockedTerrain => "Blocked terrain",
            BuildingPlacementError::OverlapsStructure => "Overlaps structure",
            BuildingPlacementError::OutOfBuildArea => "Outside build radius",
        }
    }
}

impl BuildQueueState {
    /// Display text of the state.
    pub fn label(self) -> (r: &'static str)
        ensures
            r@ == queue_state_text(self),
    {
        match self {
            BuildQueueState::Queued => "Queued",
            BuildQueueState::Building => "Building",
            BuildQueueState::Paused => "Paused",
            BuildQueueState::Done => "Done",
        }
    }
}

impl ProductionCategory {
    /// Display text of the category.
    pub fn label(self) -> (r: &'static str)
        ensures
            r@ == category_text(self),
    {
        match self {
            ProductionCategory::Building => "Building",
            ProductionCategory::Defense => "Defense",
            ProductionCategory::Infantry => "Infantry",
            ProductionCategory::Vehicle => "Vehicle",
            ProductionCategory::Aircraft => "Aircraft",
        }
    }
}

/// Text shown for a reason an item cannot be built; a missing
/// prerequisite is named.
pub fn disabled_reason_text(reason: &BuildDisabledReason) -> (r: String)
    ensures
        r@ == disabled_text(*reason),
{
    match reason {
        BuildDisabledReason::UnbuildableTechLevel => String::from_str("Unbuildable (TechLevel)"),
        BuildDisabledReason::WrongOwner => String::from_str("Wrong owner"),
        BuildDisabledReason::WrongHouse => String::from_str("Wrong house"),
        BuildDisabledReason::ForbiddenHouse => String::from_str("Forbidden for this house"),
        BuildDisabledReason::RequiresStolenTech => String::from_str("Requires stolen tech (spy infiltration)"),
        BuildDisabledReason::MissingPrerequisite(p) => {
            let mut t = String::from_str("Missing prerequisite: ");
            t.append(p.as_str());
            t
        },
        BuildDisabledReason::NoFactory => String::from_str("No production building"),
        BuildDisabledReason::AtBuildLimit => String::from_str("Build limit reached"),
        BuildDisabledReason::InsufficientCredits => String::from_str("Insufficient credits"),
        BuildDisabledReason::PlacementModeUnavailable => String::from_str("Building placement not implemented yet"),
    }
}

} // verus!
