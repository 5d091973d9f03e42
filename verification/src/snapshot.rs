//! The presentation-safe read model consumed by the Cottage client.

use vstd::prelude::*;

use crate::clock::TimeOfDay;
use crate::content::FloorDefinition;
use crate::content::SmartObjectDefinition;
use crate::content::TilePosition;
use crate::identity::DefinitionId;
use crate::identity::PlayerTaskId;
use crate::identity::SimId;

verus! {

/// The small, immutable read model consumed by the Cottage client.
#[derive(Clone, Debug, Eq, PartialEq)]
pub struct CottageSnapshot {
    pub tick: u64,
    pub time_of_day: TimeOfDay,
    /// Whether the household has learned whose corner seat it is. Nothing in
    /// the runner teaches them yet.
    pub household_knows_pargeter_custom: bool,
    pub floors: Vec<FloorDefinition>,
    pub objects: Vec<SmartObjectDefinition>,
    pub residents: Vec<ClientResidentSnapshot>,
}

/// A resident's presentation-safe state.
#[derive(Clone, Debug, Eq, PartialEq)]
pub struct ClientResidentSnapshot {
    pub id: SimId,
    pub definition_id: DefinitionId,
    pub display_name: String,
    pub position: TilePosition,
    /// The current authoritative scalar need, when the resident owns one.
    pub toilet_need: Option<u8>,
    /// The autonomous intention currently selected by the simulation.
    pub autonomous_intention: Option<ClientIntention>,
    /// The resident's ordered player task queue, head first. Each entry is
    /// individually cancellable by its stable id.
    pub player_tasks: Vec<ClientPlayerTaskSnapshot>,
    /// What the resident last perceived. Nothing in the runner sets it yet.
    pub recent_perception: Option<ClientPerception>,
    /// Whether the resident is committed to the quiz. Nothing in the runner
    /// sets it yet.
    pub attending_quiz: bool,
}

/// Presentation-safe names for the narrow set of autonomous intentions.
#[derive(Clone, Copy, Debug, Eq, PartialEq, Structural)]
pub enum ClientIntention {
    Toilet,
}

/// Presentation-safe names for what a resident can perceive.
#[derive(Clone, Copy, Debug, Eq, PartialEq, Structural)]
pub enum ClientPerception {
    TookPargeterSeat,
    WitnessedPargeterSeat,
}

/// Presentation-safe state of player work that is still in progress.
#[derive(Clone, Copy, Debug, Eq, PartialEq, Structural)]
pub struct ClientPlayerTaskSnapshot {
    pub id: PlayerTaskId,
    pub state: ClientPlayerTaskState,
}

#[derive(Clone, Copy, Debug, Eq, PartialEq, Structural)]
pub enum ClientPlayerTaskState {
    Queued,
    Active,
    Paused,
}

} // verus!
