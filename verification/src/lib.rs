//! Authoritative, deterministic village simulation with machine-checked
//! contracts, and the presentation rules of its client.
//!
//! [`village::Village`] is the village as a mathematical state: every rule that
//! changes it is a function from one state to the next. [`Simulation`] is
//! proved to compute exactly these functions. [`upkeep`] shows what is true of
//! the village at every moment, and the law modules state what it promises as
//! a whole.

pub mod arbitration;
pub mod arrival;
pub mod arrival_laws;
pub mod camera;
pub mod card;
pub mod choice_laws;
pub mod client_laws;
pub mod clock;
pub mod content;
pub mod driver;
pub mod duration_laws;
pub mod events;
pub mod feed;
pub mod fifo_laws;
pub mod grant_laws;
pub mod ground;
pub mod identity;
pub mod laws;
pub mod listing;
pub mod movement_laws;
pub mod need_laws;
pub mod opening_laws;
pub mod ord_map;
pub mod order_laws;
pub mod orders;
pub mod presentation;
pub mod receipt_laws;
pub mod replay_laws;
pub mod route;
pub mod simulation;
pub mod snapshot;
pub mod snapshot_laws;
pub mod state;
pub mod step_laws;
pub mod text;
pub mod turn_laws;
pub mod upkeep;
pub mod use_laws;
pub mod village;

pub use clock::TimeOfDay;
pub use clock::TICKS_PER_IN_WORLD_MINUTE;
pub use clock::TICK_DURATION_MS;
pub use content::Capability;
pub use content::ConductAsset;
pub use content::ConductMethodDefinition;
pub use content::ContentError;
pub use content::FloorDefinition;
pub use content::MapAsset;
pub use content::NeedDefinition;
pub use content::NeedKind;
pub use content::ObjectAffordanceDefinition;
pub use content::ObjectSlotDefinition;
pub use content::ObjectsAsset;
pub use content::PeopleAsset;
pub use content::PersonDefinition;
pub use content::PlanAsset;
pub use content::PortalDefinition;
pub use content::ResidentPlacement;
pub use content::ScenarioContent;
pub use content::ScenarioDefinition;
pub use content::SmartObjectDefinition;
pub use content::TilePosition;
pub use events::PlayerCommand;
pub use events::PlayerCommandRejection;
pub use events::WorldEvent;
pub use events::WorldEventKind;
pub use identity::DefinitionId;
pub use identity::PlayerTaskId;
pub use identity::SimId;
pub use simulation::Simulation;
pub use snapshot::ClientIntention;
pub use snapshot::ClientPerception;
pub use snapshot::ClientPlayerTaskSnapshot;
pub use snapshot::ClientPlayerTaskState;
pub use snapshot::ClientResidentSnapshot;
pub use snapshot::CottageSnapshot;
