//! The records a simulation keeps about residents, orders and work in flight.

use vstd::prelude::*;

use crate::arbitration::ActionBand;
use crate::content::Capability;
use crate::content::TilePosition;
use crate::identity::DefinitionId;
use crate::identity::PlayerTaskId;

verus! {

/// A spawned resident.
#[derive(Debug)]
pub struct Resident {
    pub definition_id: DefinitionId,
    pub display_name: String,
    pub position: TilePosition,
}

/// One durable order held in a resident's player task queue. Only the queue
/// head is dispatched into the execution engine at a time.
#[derive(Debug)]
pub struct QueuedPlayerTask {
    pub task: PlayerTaskId,
    pub order: QueuedOrder,
}

#[derive(Debug)]
pub enum QueuedOrder {
    GoTo { destination: TilePosition, priority: i32 },
    UseToilet { object: DefinitionId, affordance: DefinitionId, priority: i32 },
}

/// A navigation task in flight.
#[derive(Debug)]
pub struct GoToState {
    pub destination: TilePosition,
    pub path: Vec<TilePosition>,
    pub next_step: usize,
    pub traversal: Option<PortalTraversal>,
    pub priority: i64,
    pub band: ActionBand,
    pub request_age: u64,
    pub player_task: Option<PlayerTaskId>,
}

/// A portal being crossed.
#[derive(Debug)]
pub struct PortalTraversal {
    pub portal: DefinitionId,
    pub destination: TilePosition,
    pub ticks_remaining: u8,
}

/// An object affordance being executed.
#[derive(Debug)]
pub struct ActiveObjectUse {
    pub object: DefinitionId,
    pub affordance: DefinitionId,
    pub slot: DefinitionId,
    pub capability: Capability,
    pub ticks_remaining: u8,
    pub player_task: Option<PlayerTaskId>,
}

/// A resident's toilet need.
#[derive(Clone, Copy, Debug)]
pub struct ToiletNeedState {
    pub value: u8,
    pub decay_per_tick: u8,
    pub activate_at: u8,
    pub retain_above: u8,
    pub recovery: u8,
    pub urgent_at: Option<u8>,
}

impl ToiletNeedState {
    /// Whether the need has an urgent threshold at all.
    pub open spec fn escalates(self) -> bool {
        self.urgent_at is Some
    }

    /// Whether the need has reached its urgent threshold.
    pub open spec fn is_urgent(self) -> bool {
        self.urgent_at is Some && self.value >= self.urgent_at->0
    }
}

/// A resident's conduct-resolved toilet plan.
#[derive(Debug)]
pub struct ToiletPlan {
    pub object: DefinitionId,
    pub affordance: DefinitionId,
    pub priority: i64,
}

/// How far a player order has come.
#[derive(Clone, Copy, Debug, Eq, PartialEq, Structural)]
pub enum PlayerTaskState {
    Queued,
    Active,
    /// Preempted by an urgent need; the order stays at its resident's queue
    /// head and resumes once the need is satisfied.
    Paused,
    Completed,
    Cancelled,
}

impl PlayerTaskState {
    /// Whether the order is still in progress.
    pub open spec fn is_live(self) -> bool {
        self is Queued || self is Active || self is Paused
    }

    /// Whether the order is still in progress.
    pub fn still_live(&self) -> (r: bool)
        ensures
            r == self.is_live(),
    {
        match self {
            PlayerTaskState::Queued => true,
            PlayerTaskState::Active => true,
            PlayerTaskState::Paused => true,
            PlayerTaskState::Completed => false,
            PlayerTaskState::Cancelled => false,
        }
    }
}

/// A navigation task with its path as a sequence.
pub ghost struct GoToView {
    pub destination: TilePosition,
    pub path: Seq<TilePosition>,
    pub next_step: int,
    pub traversal: Option<PortalTraversal>,
    pub priority: i64,
    pub band: ActionBand,
    pub request_age: u64,
    pub player_task: Option<PlayerTaskId>,
}

impl GoToView {
    /// The tile the task approaches next.
    pub open spec fn target(self) -> Option<TilePosition> {
        if 0 <= self.next_step < self.path.len() {
            Some(self.path[self.next_step])
        } else {
            None
        }
    }

    /// The tile the task is committed to: the far end of the portal it is
    /// inside, or else the tile it approaches next.
    pub open spec fn ahead(self) -> Option<TilePosition> {
        match self.traversal {
            Some(traversal) => Some(traversal.destination),
            None => self.target(),
        }
    }
}

impl View for GoToState {
    type V = GoToView;

    open spec fn view(&self) -> GoToView {
        GoToView {
            destination: self.destination,
            path: self.path@,
            next_step: self.next_step as int,
            traversal: self.traversal,
            priority: self.priority,
            band: self.band,
            request_age: self.request_age,
            player_task: self.player_task,
        }
    }
}

impl GoToState {
    /// The tile the task approaches next.
    pub fn target_tile(&self) -> (r: Option<TilePosition>)
        ensures
            r == self@.target(),
    {
        if self.next_step < self.path.len() {
            Some(self.path[self.next_step])
        } else {
            None
        }
    }

    /// The tile the task is committed to.
    pub fn tile_ahead(&self) -> (r: Option<TilePosition>)
        ensures
            r == self@.ahead(),
    {
        match &self.traversal {
            Some(traversal) => Some(traversal.destination),
            None => self.target_tile(),
        }
    }
}

impl View for Resident {
    type V = Resident;

    open spec fn view(&self) -> Resident {
        *self
    }
}

impl View for ActiveObjectUse {
    type V = ActiveObjectUse;

    open spec fn view(&self) -> ActiveObjectUse {
        *self
    }
}

impl View for ToiletNeedState {
    type V = ToiletNeedState;

    open spec fn view(&self) -> ToiletNeedState {
        *self
    }
}

impl View for ToiletPlan {
    type V = ToiletPlan;

    open spec fn view(&self) -> ToiletPlan {
        *self
    }
}

impl View for PlayerTaskState {
    type V = PlayerTaskState;

    open spec fn view(&self) -> PlayerTaskState {
        *self
    }
}

impl ToiletPlan {
    /// A copy of the plan.
    pub fn copied(&self) -> (r: ToiletPlan)
        ensures
            r == *self,
    {
        ToiletPlan {
            object: self.object.clone(),
            affordance: self.affordance.clone(),
            priority: self.priority,
        }
    }
}

impl QueuedOrder {
    /// A copy of the order.
    pub fn copied(&self) -> (r: QueuedOrder)
        ensures
            r == *self,
    {
        match self {
            QueuedOrder::GoTo { destination, priority } => QueuedOrder::GoTo {
                destination: *destination,
                priority: *priority,
            },
            QueuedOrder::UseToilet { object, affordance, priority } => QueuedOrder::UseToilet {
                object: object.clone(),
                affordance: affordance.clone(),
                priority: *priority,
            },
        }
    }
}

impl QueuedPlayerTask {
    /// A copy of the queued task.
    pub fn copied(&self) -> (r: QueuedPlayerTask)
        ensures
            r == *self,
    {
        QueuedPlayerTask { task: self.task, order: self.order.copied() }
    }
}

} // verus!
