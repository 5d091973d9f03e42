//! The village as a mathematical state, and every rule that changes it.
//!
//! `Village` is what a running simulation stands for. Each rule is a function
//! from one state to the next; the executable simulation is proved to compute
//! exactly these functions.

use vstd::prelude::*;

use crate::arbitration::ActionBand;
use crate::arbitration::MovementClaim;
use crate::arbitration::UseRequest;
use crate::clock::time_at_minute;
use crate::clock::TimeOfDay;
use crate::clock::TICKS_PER_IN_WORLD_MINUTE;
use crate::content::Capability;
use crate::content::MapAsset;
use crate::content::ObjectAffordanceDefinition;
use crate::content::SmartObjectDefinition;
use crate::content::TilePosition;
use crate::events::draw_key;
use crate::events::mixed;
use crate::events::PlayerCommand;
use crate::events::PlayerCommandRejection;
use crate::events::WorldEvent;
use crate::events::WorldEventKind;
use crate::identity::DefinitionId;
use crate::identity::PlayerTaskId;
use crate::identity::SimId;
use crate::listing::first_where;
use crate::ord_map::in_order;
use crate::route::Journey;
use crate::snapshot::ClientIntention;
use crate::snapshot::ClientPlayerTaskSnapshot;
use crate::snapshot::ClientPlayerTaskState;
use crate::snapshot::ClientResidentSnapshot;
use crate::snapshot::CottageSnapshot;
use crate::state::ActiveObjectUse;
use crate::state::GoToView;
use crate::state::PlayerTaskState;
use crate::state::PortalTraversal;
use crate::state::QueuedOrder;
use crate::state::QueuedPlayerTask;
use crate::state::Resident;
use crate::state::ToiletNeedState;
use crate::state::ToiletPlan;

verus! {

/// Everything the village is at one moment.
#[verifier::ext_equal]
pub ghost struct Village {
    pub seed: u64,
    pub tick: u64,
    pub start_minute_of_day: u32,
    pub residents: Map<SimId, Resident>,
    pub map: MapAsset,
    pub objects: Map<Seq<char>, SmartObjectDefinition>,
    /// Which resident holds a tile.
    pub occupancy: Map<TilePosition, SimId>,
    /// Which resident is inside a portal.
    pub portal_occupancy: Map<Seq<char>, SimId>,
    pub go_to: Map<SimId, GoToView>,
    pub use_requests: Seq<UseRequest>,
    pub active_object_uses: Map<SimId, ActiveObjectUse>,
    pub toilet_needs: Map<SimId, ToiletNeedState>,
    pub autonomous_toilet_plans: Map<SimId, ToiletPlan>,
    pub autonomous_toilet_intentions: Set<SimId>,
    pub urgent_toilet_intentions: Set<SimId>,
    pub inbox: Seq<PlayerCommand>,
    pub player_tasks: Map<PlayerTaskId, PlayerTaskState>,
    pub player_task_queue: Map<SimId, Seq<QueuedPlayerTask>>,
    pub object_slot_claims: Map<(Seq<char>, Seq<char>), SimId>,
    pub capability_claims: Map<(SimId, Capability), Seq<char>>,
    /// Every event ever published, in order.
    pub ledger: Seq<WorldEvent>,
    /// The ledger window that the current tick ingests.
    pub ingest_from: int,
    pub ingest_to: int,
}

// ---------------------------------------------------------------------------
// Predicates for looking things up.
// ---------------------------------------------------------------------------

/// The affordances with a given name.
pub open spec fn affords(id: Seq<char>) -> spec_fn(ObjectAffordanceDefinition) -> bool {
    |affordance: ObjectAffordanceDefinition| affordance.id@ == id
}

/// The queued orders with a given id.
pub open spec fn is_order(task: PlayerTaskId) -> spec_fn(QueuedPlayerTask) -> bool {
    |queued: QueuedPlayerTask| queued.task == task
}

/// The queued orders with any other id.
pub open spec fn is_other_order(task: PlayerTaskId) -> spec_fn(QueuedPlayerTask) -> bool {
    |queued: QueuedPlayerTask| queued.task != task
}

/// Whether a queue holds an order.
pub open spec fn queues_order(queue: Seq<QueuedPlayerTask>, task: PlayerTaskId) -> bool {
    exists|i: int| 0 <= i < queue.len() && (#[trigger] queue[i]).task == task
}

/// The residents whose queue holds an order.
pub open spec fn holds_order(
    queues: Map<SimId, Seq<QueuedPlayerTask>>,
    task: PlayerTaskId,
) -> spec_fn(SimId) -> bool {
    |resident: SimId| queues_order(queues[resident], task)
}

/// The first request that satisfies `p` is dropped.
pub open spec fn without_first(
    requests: Seq<UseRequest>,
    p: spec_fn(UseRequest) -> bool,
) -> Seq<UseRequest>
    decreases requests.len(),
{
    if requests.len() == 0 {
        requests
    } else if p(requests[0]) {
        requests.drop_first()
    } else {
        seq![requests[0]] + without_first(requests.drop_first(), p)
    }
}

/// Where the first match stands at `i`, that member is dropped.
pub proof fn lemma_without_first_at(
    requests: Seq<UseRequest>,
    p: spec_fn(UseRequest) -> bool,
    i: int,
)
    requires
        0 <= i < requests.len(),
        p(requests[i]),
        forall|j: int| 0 <= j < i ==> !p(#[trigger] requests[j]),
    ensures
        without_first(requests, p) == requests.remove(i),
    decreases requests.len(),
{
    if i > 0 {
        assert(!p(requests[0]));
        let rest = requests.drop_first();
        assert forall|j: int| 0 <= j < i - 1 implies !p(#[trigger] rest[j]) by {
            assert(rest[j] == requests[j + 1]);
        }
        lemma_without_first_at(rest, p, i - 1);
        assert(seq![requests[0]] + rest.remove(i - 1) =~= requests.remove(i));
    } else {
        assert(requests.drop_first() =~= requests.remove(0));
    }
}

/// Where nothing matches, nothing is dropped.
pub proof fn lemma_without_first_none(requests: Seq<UseRequest>, p: spec_fn(UseRequest) -> bool)
    requires
        forall|j: int| 0 <= j < requests.len() ==> !p(#[trigger] requests[j]),
    ensures
        without_first(requests, p) == requests,
    decreases requests.len(),
{
    if requests.len() > 0 {
        assert(!p(requests[0]));
        let rest = requests.drop_first();
        assert forall|j: int| 0 <= j < rest.len() implies !p(#[trigger] rest[j]) by {
            assert(rest[j] == requests[j + 1]);
        }
        lemma_without_first_none(rest, p);
        assert(seq![requests[0]] + rest =~= requests);
    }
}

/// The requests a resident made for a player order.
pub open spec fn player_request_of(resident: SimId) -> spec_fn(UseRequest) -> bool {
    |request: UseRequest| request.resident == resident && request.player_task is Some
}

/// The requests made for one player order.
pub open spec fn request_for(task: PlayerTaskId) -> spec_fn(UseRequest) -> bool {
    |request: UseRequest| request.player_task == Some(task)
}

/// `u8` subtraction that stops at zero.
pub open spec fn less(a: u8, b: u8) -> u8 {
    if a < b {
        0
    } else {
        (a - b) as u8
    }
}

/// `u8` addition that stops at the largest value.
pub open spec fn more(a: u8, b: u8) -> u8 {
    if a + b > u8::MAX {
        u8::MAX
    } else {
        (a + b) as u8
    }
}

/// At least one.
pub open spec fn at_least_one(n: u8) -> u8 {
    if n == 0 {
        1
    } else {
        n
    }
}

/// Requests in the order they are served; earlier requests keep their place
/// among equals.
pub open spec fn ranked(requests: Seq<UseRequest>) -> Seq<UseRequest>
    decreases requests.len(),
{
    if requests.len() == 0 {
        requests
    } else {
        place(ranked(requests.drop_last()), requests.last())
    }
}

/// A request placed behind every request that it does not outrank.
pub open spec fn place(served: Seq<UseRequest>, request: UseRequest) -> Seq<UseRequest>
    decreases served.len(),
{
    if served.len() > 0 && request.standing().outranks(served.last().standing()) {
        place(served.drop_last(), request).push(served.last())
    } else {
        served.push(request)
    }
}

// ---------------------------------------------------------------------------
// What can be read off a village.
// ---------------------------------------------------------------------------

impl Village {
    /// Where a resident stands.
    pub open spec fn position_of(self, resident: SimId) -> Option<TilePosition> {
        if self.residents.contains_key(resident) {
            Some(self.residents[resident].position)
        } else {
            None
        }
    }

    /// The events published by the preceding tick.
    pub open spec fn ingested(self) -> Seq<WorldEvent> {
        self.ledger.subrange(self.ingest_from, self.ingest_to)
    }

    /// The events published since the current tick began.
    pub open spec fn pending(self) -> Seq<WorldEvent> {
        self.ledger.subrange(self.ingest_to, self.ledger.len() as int)
    }

    /// Whether a resident waits for an object.
    pub open spec fn has_request(self, resident: SimId) -> bool {
        exists|i: int|
            0 <= i < self.use_requests.len() && (#[trigger] self.use_requests[i]).resident
                == resident
    }

    /// An affordance of a loaded object.
    pub open spec fn affordance(self, object: Seq<char>, affordance: Seq<char>) -> Option<
        ObjectAffordanceDefinition,
    > {
        if self.objects.contains_key(object) {
            first_where(self.objects[object].affordances@, affords(affordance))
        } else {
            None
        }
    }

    /// Whether a resident's conduct resolved to this object and affordance.
    pub open spec fn is_toilet_target(
        self,
        resident: SimId,
        object: Seq<char>,
        affordance: Seq<char>,
    ) -> bool {
        &&& self.autonomous_toilet_plans.contains_key(resident)
        &&& self.autonomous_toilet_plans[resident].object@ == object
        &&& self.autonomous_toilet_plans[resident].affordance@ == affordance
    }

    /// Whether a resident's walk was ordered as `task`.
    pub open spec fn walks_for(self, resident: SimId, task: PlayerTaskId) -> bool {
        self.go_to.contains_key(resident) && self.go_to[resident].player_task == Some(task)
    }

    /// Whether a resident's object use was ordered as `task`.
    pub open spec fn uses_for(self, resident: SimId, task: PlayerTaskId) -> bool {
        self.active_object_uses.contains_key(resident)
            && self.active_object_uses[resident].player_task == Some(task)
    }

    /// Whether some request was ordered as `task`.
    pub open spec fn requests_for(self, task: PlayerTaskId) -> bool {
        exists|i: int|
            0 <= i < self.use_requests.len() && (#[trigger] self.use_requests[i]).player_task
                == Some(task)
    }

    /// Whether an order is in execution.
    pub open spec fn is_dispatched(self, resident: SimId, task: PlayerTaskId) -> bool {
        self.walks_for(resident, task) || self.uses_for(resident, task) || self.requests_for(task)
    }

    /// Whether nothing is in execution for a resident.
    pub open spec fn slot_free(self, resident: SimId) -> bool {
        &&& !self.go_to.contains_key(resident)
        &&& !self.active_object_uses.contains_key(resident)
        &&& !self.has_request(resident)
    }

    /// Whether a resident has player orders.
    pub open spec fn has_queue(self, resident: SimId) -> bool {
        self.player_task_queue.contains_key(resident) && self.player_task_queue[resident].len() > 0
    }

    /// The resident whose queue holds an order: the lowest `SimId`.
    pub open spec fn order_holder(self, task: PlayerTaskId) -> Option<SimId> {
        first_where(
            in_order::<SimId>(self.player_task_queue.dom()),
            holds_order(self.player_task_queue, task),
        )
    }

    /// What an order in a resident's queue asks for.
    pub open spec fn order_in_queue(self, resident: SimId, task: PlayerTaskId) -> QueuedOrder {
        (first_where(self.player_task_queue[resident], is_order(task))->0).order
    }

    /// Whether a resident is already walking to, requesting or using the
    /// object of a plan.
    pub open spec fn engaged_with(self, resident: SimId, plan: ToiletPlan) -> bool {
        ||| self.go_to.contains_key(resident) && self.objects.contains_key(plan.object@)
            && self.go_to[resident].destination == self.objects[plan.object@].position
        ||| self.active_object_uses.contains_key(resident)
            && self.active_object_uses[resident].object@ == plan.object@
            && self.active_object_uses[resident].affordance@ == plan.affordance@
        ||| exists|i: int|
            0 <= i < self.use_requests.len() && (#[trigger] self.use_requests[i]).resident
                == resident && self.use_requests[i].object@ == plan.object@
                && self.use_requests[i].affordance@ == plan.affordance@
    }
}

// ---------------------------------------------------------------------------
// What a client is shown.
// ---------------------------------------------------------------------------

impl Village {
    /// The in-world time of day: the authored start, one minute later for
    /// each tick.
    pub open spec fn time_of_day(self) -> TimeOfDay {
        time_at_minute(self.start_minute_of_day + self.tick / TICKS_PER_IN_WORLD_MINUTE)
    }

    /// The residents and who they are, in `SimId` order.
    pub open spec fn resident_list(self) -> Seq<(SimId, DefinitionId)> {
        in_order::<SimId>(self.residents.dom()).map_values(
            |resident: SimId| (resident, self.residents[resident].definition_id),
        )
    }

    /// A resident's need.
    pub open spec fn need_of(self, resident: SimId) -> Option<u8> {
        if self.toilet_needs.contains_key(resident) {
            Some(self.toilet_needs[resident].value)
        } else {
            None
        }
    }

    /// A resident's need is set.
    pub open spec fn with_need(self, resident: SimId, value: u8) -> Village {
        if self.toilet_needs.contains_key(resident) {
            Village {
                toilet_needs: self.toilet_needs.insert(
                    resident,
                    ToiletNeedState { value, ..self.toilet_needs[resident] },
                ),
                ..self
            }
        } else {
            self
        }
    }

    /// How a client is shown an order that is still in progress.
    pub open spec fn shown_task(self, task: PlayerTaskId) -> Option<ClientPlayerTaskSnapshot> {
        if !self.player_tasks.contains_key(task) {
            None
        } else {
            match self.player_tasks[task] {
                PlayerTaskState::Queued => Some(
                    ClientPlayerTaskSnapshot { id: task, state: ClientPlayerTaskState::Queued },
                ),
                PlayerTaskState::Active => Some(
                    ClientPlayerTaskSnapshot { id: task, state: ClientPlayerTaskState::Active },
                ),
                PlayerTaskState::Paused => Some(
                    ClientPlayerTaskSnapshot { id: task, state: ClientPlayerTaskState::Paused },
                ),
                PlayerTaskState::Completed => None,
                PlayerTaskState::Cancelled => None,
            }
        }
    }

    /// How a client is shown a queue, head first.
    pub open spec fn shown_of(self, queue: Seq<QueuedPlayerTask>) -> Seq<ClientPlayerTaskSnapshot>
        decreases queue.len(),
    {
        if queue.len() == 0 {
            Seq::empty()
        } else {
            match self.shown_task(queue.last().task) {
                Some(shown) => self.shown_of(queue.drop_last()).push(shown),
                None => self.shown_of(queue.drop_last()),
            }
        }
    }

    /// How a client is shown a resident's queue.
    pub open spec fn shown_tasks(self, resident: SimId) -> Seq<ClientPlayerTaskSnapshot> {
        if self.player_task_queue.contains_key(resident) {
            self.shown_of(self.player_task_queue[resident])
        } else {
            Seq::empty()
        }
    }

    /// Whether a snapshot shows a resident as it is.
    pub open spec fn shows_resident(self, id: SimId, shown: ClientResidentSnapshot) -> bool {
        &&& shown.id == id
        &&& shown.definition_id == self.residents[id].definition_id
        &&& shown.display_name == self.residents[id].display_name
        &&& shown.position == self.residents[id].position
        &&& shown.toilet_need == self.need_of(id)
        &&& shown.autonomous_intention == if self.autonomous_toilet_intentions.contains(id) {
            Some(ClientIntention::Toilet)
        } else {
            None
        }
        &&& shown.player_tasks@ == self.shown_tasks(id)
        &&& shown.recent_perception is None
        &&& !shown.attending_quiz
    }

    /// Whether a snapshot shows the village as it is: floors as authored,
    /// objects by name and residents by `SimId`.
    pub open spec fn shows(self, shown: CottageSnapshot) -> bool {
        let names = in_order::<DefinitionId>(self.objects.dom());
        let ids = in_order::<SimId>(self.residents.dom());
        &&& shown.tick == self.tick
        &&& shown.time_of_day == self.time_of_day()
        &&& !shown.household_knows_pargeter_custom
        &&& shown.floors@.len() == self.map.floors@.len()
        &&& forall|i: int|
            0 <= i < shown.floors@.len() ==> (#[trigger] shown.floors@[i]).reads_as(
                self.map.floors@[i],
            )
        &&& shown.objects@.len() == names.len()
        &&& forall|i: int|
            0 <= i < shown.objects@.len() ==> (#[trigger] shown.objects@[i]).reads_as(
                self.objects[names[i]],
            )
        &&& shown.residents@.len() == ids.len()
        &&& forall|i: int|
            0 <= i < shown.residents@.len() ==> self.shows_resident(
                ids[i],
                #[trigger] shown.residents@[i],
            )
    }
}

// ---------------------------------------------------------------------------
// What holds of every village.
// ---------------------------------------------------------------------------

impl Village {
    /// What every rule relies on: only residents walk, a resident inside a
    /// portal has a tile to come out on, every need has a plan, every plan
    /// names a loaded object and its affordance, and the ingested window lies
    /// inside the ledger.
    pub open spec fn sound(self) -> bool {
        &&& forall|resident: SimId| #[trigger]
            self.go_to.contains_key(resident) ==> self.residents.contains_key(resident)
                && self.go_to[resident].next_step >= 0 && (self.go_to[resident].traversal is Some
                ==> self.go_to[resident].target() is Some)
        &&& forall|resident: SimId| #[trigger]
            self.toilet_needs.contains_key(resident) ==> self.autonomous_toilet_plans.contains_key(
                resident,
            )
        &&& forall|resident: SimId| #[trigger]
            self.autonomous_toilet_plans.contains_key(resident) ==> self.affordance(
                self.autonomous_toilet_plans[resident].object@,
                self.autonomous_toilet_plans[resident].affordance@,
            ) is Some
        &&& 0 <= self.ingest_from <= self.ingest_to <= self.ledger.len()
    }

    /// A longer ledger keeps a village sound, as does any change to the orders,
    /// the requests, the claims or the tiles.
    pub proof fn lemma_sound_frame(self, next: Village)
        requires
            self.sound(),
            next.residents.dom() == self.residents.dom(),
            next.objects == self.objects,
            next.go_to == self.go_to,
            next.toilet_needs.dom() == self.toilet_needs.dom(),
            next.autonomous_toilet_plans == self.autonomous_toilet_plans,
            next.ingest_from == self.ingest_from,
            next.ingest_to == self.ingest_to,
            next.ledger.len() >= self.ledger.len(),
        ensures
            next.sound(),
    {
    }
}

// ---------------------------------------------------------------------------
// Publishing events.
// ---------------------------------------------------------------------------

impl Village {
    /// An event is published at the current tick.
    pub open spec fn emit(self, kind: WorldEventKind) -> Village {
        Village { ledger: self.ledger.push(WorldEvent { tick: self.tick, kind }), ..self }
    }

    /// A command is refused.
    pub open spec fn reject(self, task: PlayerTaskId, reason: PlayerCommandRejection) -> Village {
        self.emit(WorldEventKind::PlayerCommandRejected { task, reason })
    }
}

// ---------------------------------------------------------------------------
// Planning and starting work.
// ---------------------------------------------------------------------------

impl Village {
    /// The route over static map geometry.
    pub open spec fn static_route(self, origin: TilePosition, destination: TilePosition) -> Option<
        Seq<TilePosition>,
    > {
        Journey { map: self.map, closed: Set::empty(), origin, destination }.route()
    }

    /// Whether another resident is about to enter a tile.
    pub open spec fn is_next_target(self, tile: TilePosition, resident: SimId) -> bool {
        exists|other: SimId| #[trigger]
            self.go_to.contains_key(other) && other != resident && self.approaches(other, tile)
    }

    /// Whether a walking resident's next tile is `tile`.
    pub open spec fn approaches(self, resident: SimId, tile: TilePosition) -> bool {
        self.go_to[resident].ahead() == Some(tile)
    }

    /// The tiles a rerouting resident keeps out of: those held by others, and
    /// those that others are about to enter.
    pub open spec fn kept_clear(self, resident: SimId) -> Set<TilePosition> {
        Set::new(
            |tile: TilePosition|
                (self.occupancy.contains_key(tile) && self.occupancy[tile] != resident)
                    || self.is_next_target(tile, resident),
        )
    }

    /// The live route around other residents.
    pub open spec fn live_route(
        self,
        resident: SimId,
        origin: TilePosition,
        destination: TilePosition,
    ) -> Option<Seq<TilePosition>> {
        if self.occupancy.contains_key(destination) && self.occupancy[destination] != resident {
            None
        } else {
            Journey {
                map: self.map,
                closed: self.kept_clear(resident),
                origin,
                destination,
            }.route()
        }
    }

    /// A resident sets out; the walk replaces any walk in flight.
    pub open spec fn set_out(
        self,
        resident: SimId,
        destination: TilePosition,
        priority: i64,
        band: ActionBand,
        player_task: Option<PlayerTaskId>,
    ) -> Village {
        match self.position_of(resident) {
            Some(origin) => Village {
                go_to: self.go_to.insert(
                    resident,
                    GoToView {
                        destination,
                        path: match self.static_route(origin, destination) {
                            Some(path) => path,
                            None => Seq::empty(),
                        },
                        next_step: 1,
                        traversal: None,
                        priority,
                        band,
                        request_age: self.tick,
                        player_task,
                    },
                ),
                ..self
            },
            None => self,
        }
    }

    /// Setting out keeps a village sound.
    pub proof fn lemma_set_out_sound(
        self,
        resident: SimId,
        destination: TilePosition,
        priority: i64,
        band: ActionBand,
        player_task: Option<PlayerTaskId>,
    )
        requires
            self.sound(),
        ensures
            self.set_out(resident, destination, priority, band, player_task).sound(),
    {
    }

    /// Whether a resident may ask for an object affordance.
    pub open spec fn may_request(
        self,
        resident: SimId,
        object: Seq<char>,
        affordance: Seq<char>,
    ) -> bool {
        &&& self.residents.contains_key(resident)
        &&& !self.active_object_uses.contains_key(resident)
        &&& !self.has_request(resident)
        &&& self.affordance(object, affordance) is Some
    }

    /// A resident asks for an object affordance. Nothing is claimed yet.
    pub open spec fn request(self, request: UseRequest) -> Village {
        if self.may_request(request.resident, request.object@, request.affordance@) {
            Village { use_requests: self.use_requests.push(request), ..self }
        } else {
            self
        }
    }
}

// ---------------------------------------------------------------------------
// Player orders.
// ---------------------------------------------------------------------------

impl Village {
    /// A queue without one order; a queue left empty is dropped.
    pub open spec fn unqueue(self, resident: SimId, task: PlayerTaskId) -> Village {
        if self.player_task_queue.contains_key(resident) {
            let left = self.player_task_queue[resident].filter(is_other_order(task));
            Village {
                player_task_queue: if left.len() == 0 {
                    self.player_task_queue.remove(resident)
                } else {
                    self.player_task_queue.insert(resident, left)
                },
                ..self
            }
        } else {
            self
        }
    }

    /// An order changes state.
    pub open spec fn mark(self, task: PlayerTaskId, state: PlayerTaskState) -> Village {
        Village { player_tasks: self.player_tasks.insert(task, state), ..self }
    }

    /// An order reaches a terminal state and leaves its queue.
    pub open spec fn finish(
        self,
        resident: SimId,
        task: PlayerTaskId,
        state: PlayerTaskState,
    ) -> Village {
        self.mark(task, state).unqueue(resident, task)
    }

    /// A walk or use that was ordered finishes its order.
    pub open spec fn finish_if_ordered(
        self,
        resident: SimId,
        task: Option<PlayerTaskId>,
        state: PlayerTaskState,
    ) -> Village {
        match task {
            Some(task) => self.finish(resident, task, state),
            None => self,
        }
    }

    /// An order joins the end of a resident's queue and is acknowledged.
    pub open spec fn enqueue(self, resident: SimId, queued: QueuedPlayerTask) -> Village {
        let queue = if self.player_task_queue.contains_key(resident) {
            self.player_task_queue[resident]
        } else {
            Seq::empty()
        };
        Village {
            player_task_queue: self.player_task_queue.insert(resident, queue.push(queued)),
            ..self.mark(queued.task, PlayerTaskState::Queued)
        }.emit(WorldEventKind::PlayerCommandAccepted { task: queued.task })
    }

    /// A command waits in the inbox for the next tick.
    pub open spec fn submit(self, command: PlayerCommand) -> Village {
        Village { inbox: self.inbox.push(command), ..self }
    }

    /// A movement order is validated.
    pub open spec fn ingest_go_to(
        self,
        task: PlayerTaskId,
        resident: SimId,
        destination: TilePosition,
        priority: i32,
    ) -> Village {
        if self.player_tasks.contains_key(task) {
            self.reject(task, PlayerCommandRejection::DuplicateTask)
        } else if !self.residents.contains_key(resident) {
            self.reject(task, PlayerCommandRejection::UnknownResident)
        } else if !self.map.spec_is_walkable(destination) {
            self.reject(task, PlayerCommandRejection::InvalidMoveTarget)
        } else {
            self.enqueue(
                resident,
                QueuedPlayerTask { task, order: QueuedOrder::GoTo { destination, priority } },
            )
        }
    }

    /// A toilet order is validated: it must name the resident's own
    /// conduct-resolved target.
    pub open spec fn ingest_use_toilet(
        self,
        task: PlayerTaskId,
        resident: SimId,
        object: DefinitionId,
        affordance: DefinitionId,
        priority: i32,
    ) -> Village {
        if self.player_tasks.contains_key(task) {
            self.reject(task, PlayerCommandRejection::DuplicateTask)
        } else if !self.residents.contains_key(resident) {
            self.reject(task, PlayerCommandRejection::UnknownResident)
        } else if !self.is_toilet_target(resident, object@, affordance@) {
            self.reject(task, PlayerCommandRejection::InvalidUseTarget)
        } else {
            self.enqueue(
                resident,
                QueuedPlayerTask {
                    task,
                    order: QueuedOrder::UseToilet { object, affordance, priority },
                },
            )
        }
    }

    /// An active use ends and gives back what it claimed.
    pub open spec fn release(self, resident: SimId) -> Village {
        let active = self.active_object_uses[resident];
        Village {
            active_object_uses: self.active_object_uses.remove(resident),
            object_slot_claims: self.object_slot_claims.remove((active.object@, active.slot@)),
            capability_claims: self.capability_claims.remove((resident, active.capability)),
            ..self
        }
    }

    /// A walk ends where it is.
    pub open spec fn halt(self, resident: SimId) -> Village {
        Village { go_to: self.go_to.remove(resident), ..self }
    }

    /// Halting keeps a village sound.
    pub proof fn lemma_halt_sound(self, resident: SimId)
        requires
            self.sound(),
        ensures
            self.halt(resident).sound(),
    {
    }

    /// An order held by a resident is withdrawn, wherever it has got to.
    pub open spec fn withdraw(
        self,
        resident: SimId,
        task: PlayerTaskId,
        order: QueuedOrder,
    ) -> Village {
        if self.walks_for(resident, task) {
            self.halt(resident).finish(resident, task, PlayerTaskState::Cancelled).emit(
                WorldEventKind::GoToCancelled {
                    task,
                    resident,
                    destination: self.go_to[resident].destination,
                },
            )
        } else if self.uses_for(resident, task) {
            self.release(resident).finish(resident, task, PlayerTaskState::Cancelled).emit(
                WorldEventKind::TaskCancelled {
                    task,
                    resident,
                    object: self.active_object_uses[resident].object,
                    affordance: self.active_object_uses[resident].affordance,
                },
            )
        } else if self.requests_for(task) {
            let request = first_where(self.use_requests, request_for(task))->0;
            Village {
                use_requests: without_first(self.use_requests, request_for(task)),
                ..self
            }.finish(resident, task, PlayerTaskState::Cancelled).emit(
                WorldEventKind::TaskCancelled {
                    task,
                    resident,
                    object: request.object,
                    affordance: request.affordance,
                },
            )
        } else {
            self.finish(resident, task, PlayerTaskState::Cancelled).emit(
                match order {
                    QueuedOrder::GoTo { destination, .. } => WorldEventKind::GoToCancelled {
                        task,
                        resident,
                        destination,
                    },
                    QueuedOrder::UseToilet { object, affordance, .. } =>
                        WorldEventKind::TaskCancelled { task, resident, object, affordance },
                },
            )
        }
    }

    /// A cancellation is validated and carried out.
    pub open spec fn ingest_cancel(self, task: PlayerTaskId) -> Village {
        if !self.player_tasks.contains_key(task) {
            self.reject(task, PlayerCommandRejection::UnknownTask)
        } else if !self.player_tasks[task].is_live() {
            self.reject(task, PlayerCommandRejection::TaskNotCancellable)
        } else {
            match self.order_holder(task) {
                None => self.reject(task, PlayerCommandRejection::UnknownTask),
                Some(resident) => self.emit(
                    WorldEventKind::PlayerCommandAccepted { task },
                ).withdraw(
                    resident,
                    task,
                    self.order_in_queue(resident, task),
                ),
            }
        }
    }

    /// One command is ingested.
    pub open spec fn ingest(self, command: PlayerCommand) -> Village {
        match command {
            PlayerCommand::QueueGoTo { task, resident, destination, priority } => self.ingest_go_to(
                task,
                resident,
                destination,
                priority,
            ),
            PlayerCommand::QueueUseToilet { task, resident, object, affordance, priority } =>
                self.ingest_use_toilet(task, resident, object, affordance, priority),
            PlayerCommand::CancelPlayerTask { task } => self.ingest_cancel(task),
        }
    }

    /// Commands are ingested in turn.
    pub open spec fn ingest_all(self, commands: Seq<PlayerCommand>) -> Village
        decreases commands.len(),
    {
        if commands.len() == 0 {
            self
        } else {
            self.ingest_all(commands.drop_last()).ingest(commands.last())
        }
    }

    /// The head of a resident's queue enters execution where the resident is
    /// free and not owned by an urgent need.
    pub open spec fn dispatch(self, resident: SimId) -> Village {
        if self.urgent_toilet_intentions.contains(resident) || !self.has_queue(resident) {
            self
        } else {
            let head = self.player_task_queue[resident][0];
            if self.is_dispatched(resident, head.task) || !self.slot_free(resident) {
                self
            } else {
                match head.order {
                    QueuedOrder::GoTo { destination, priority } => {
                        if self.residents.contains_key(resident) {
                            self.set_out(
                                resident,
                                destination,
                                priority as i64,
                                ActionBand::Player,
                                Some(head.task),
                            ).mark(head.task, PlayerTaskState::Active)
                        } else {
                            self
                        }
                    },
                    QueuedOrder::UseToilet { object, affordance, priority } => {
                        if self.may_request(resident, object@, affordance@) {
                            self.request(
                                UseRequest {
                                    resident,
                                    object,
                                    affordance,
                                    priority: priority as i64,
                                    band: ActionBand::Player,
                                    request_age: self.tick,
                                    player_task: Some(head.task),
                                },
                            ).mark(head.task, PlayerTaskState::Queued)
                        } else {
                            self
                        }
                    },
                }
            }
        }
    }

    /// Queues are dispatched in turn.
    pub open spec fn dispatch_all(self, residents: Seq<SimId>) -> Village
        decreases residents.len(),
    {
        if residents.len() == 0 {
            self
        } else {
            self.dispatch_all(residents.drop_last()).dispatch(residents.last())
        }
    }
}

// ---------------------------------------------------------------------------
// Needs.
// ---------------------------------------------------------------------------

/// A need one tick later.
pub open spec fn aged(need: ToiletNeedState) -> ToiletNeedState {
    ToiletNeedState { value: more(need.value, need.decay_per_tick), ..need }
}

impl Village {
    /// Every need grows by its decay.
    pub open spec fn age_needs(self) -> Village {
        Village {
            toilet_needs: self.toilet_needs.map_values(|need: ToiletNeedState| aged(need)),
            ..self
        }
    }

    /// Whether an intention survives or begins: hysteresis between the
    /// activation and retention thresholds.
    pub open spec fn intends(self, resident: SimId) -> bool {
        let need = self.toilet_needs[resident];
        if self.autonomous_toilet_intentions.contains(resident) {
            need.value > need.retain_above
        } else {
            need.value >= need.activate_at
        }
    }

    /// Whether a selected intention is urgent: it escalates at its urgent
    /// threshold, where it has one, and relaxes at its retention threshold.
    pub open spec fn urges(self, resident: SimId) -> bool {
        let need = self.toilet_needs[resident];
        if need.is_urgent() {
            true
        } else if need.value <= need.retain_above {
            false
        } else {
            self.urgent_toilet_intentions.contains(resident)
        }
    }

    /// The player order that holds a resident's execution slot is paused at
    /// its safe boundary; it stays at its queue head.
    pub open spec fn pause_player_order(self, resident: SimId) -> Village {
        if self.go_to.contains_key(resident) && self.go_to[resident].player_task is Some {
            self.halt(resident).mark(
                self.go_to[resident].player_task->0,
                PlayerTaskState::Paused,
            )
        } else if self.active_object_uses.contains_key(resident)
            && self.active_object_uses[resident].player_task is Some {
            self.release(resident).mark(
                self.active_object_uses[resident].player_task->0,
                PlayerTaskState::Paused,
            )
        } else {
            match first_where(self.use_requests, player_request_of(resident)) {
                Some(request) => Village {
                    use_requests: without_first(self.use_requests, player_request_of(resident)),
                    ..self
                }.mark(request.player_task->0, PlayerTaskState::Paused),
                None => self,
            }
        }
    }

    /// The two-phase toilet plan is driven: first reach the object's tile,
    /// then enter the ordinary request path.
    pub open spec fn drive(self, resident: SimId, plan: ToiletPlan, band: ActionBand) -> Village {
        let destination = self.objects[plan.object@].position;
        if self.position_of(resident) != Some(destination) {
            if self.go_to.contains_key(resident) {
                self
            } else {
                self.set_out(resident, destination, plan.priority, band, None)
            }
        } else {
            self.request(
                UseRequest {
                    resident,
                    object: plan.object,
                    affordance: plan.affordance,
                    priority: plan.priority,
                    band,
                    request_age: self.tick,
                    player_task: None,
                },
            )
        }
    }

    /// A resident's intention is selected, urgent or not.
    pub open spec fn minded(self, resident: SimId) -> Village {
        Village {
            autonomous_toilet_intentions: self.autonomous_toilet_intentions.insert(resident),
            urgent_toilet_intentions: if self.urges(resident) {
                self.urgent_toilet_intentions.insert(resident)
            } else {
                self.urgent_toilet_intentions.remove(resident)
            },
            ..self
        }
    }

    /// One resident's autonomy: select or drop the intention, and act on it.
    pub open spec fn choose_plan(self, resident: SimId) -> Village {
        let plan = self.autonomous_toilet_plans[resident];
        if !self.intends(resident) {
            if self.autonomous_toilet_intentions.contains(resident) {
                Village {
                    autonomous_toilet_intentions: self.autonomous_toilet_intentions.remove(
                        resident,
                    ),
                    urgent_toilet_intentions: self.urgent_toilet_intentions.remove(resident),
                    ..self
                }
            } else {
                self
            }
        } else {
            let minded = self.minded(resident);
            if self.urges(resident) {
                if minded.engaged_with(resident, plan) {
                    minded.drive(resident, plan, ActionBand::Urgent)
                } else {
                    minded.pause_player_order(resident).drive(resident, plan, ActionBand::Urgent)
                }
            } else if minded.has_queue(resident) || !minded.slot_free(resident) {
                minded
            } else {
                minded.drive(resident, plan, ActionBand::Autonomous)
            }
        }
    }

    /// Residents choose in turn.
    pub open spec fn choose_all(self, residents: Seq<SimId>) -> Village
        decreases residents.len(),
    {
        if residents.len() == 0 {
            self
        } else {
            self.choose_all(residents.drop_last()).choose_plan(residents.last())
        }
    }

    /// Every resident with a need chooses.
    pub open spec fn choose_everyone(self) -> Village {
        self.choose_all(in_order::<SimId>(self.toilet_needs.dom()))
    }
}

// ---------------------------------------------------------------------------
// Movement.
// ---------------------------------------------------------------------------

/// Whether claim `w` takes the tile that claim `i` is on: it is on the same
/// tile, is claim `i` or outranks it, and nothing on that tile outranks it.
pub open spec fn takes_tile(claims: Seq<Option<MovementClaim>>, i: int, w: int) -> bool {
    &&& 0 <= w < claims.len()
    &&& claims[w] is Some
    &&& claims[w]->0.target == claims[i]->0.target
    &&& w == i || claims[w]->0.standing().outranks(claims[i]->0.standing())
    &&& forall|k: int|
        0 <= k < claims.len() && (#[trigger] claims[k]) is Some && claims[k]->0.target
            == claims[i]->0.target ==> !claims[k]->0.standing().outranks(claims[w]->0.standing())
}

impl Village {
    /// A resident's live claim on the tile it approaches: none while it is
    /// inside a portal, or where the tile or the portal to it is taken.
    pub open spec fn claim(self, resident: SimId) -> Option<MovementClaim> {
        let walk = self.go_to[resident];
        match (walk.traversal, self.position_of(resident), walk.target()) {
            (None, Some(origin), Some(target)) => {
                let portal = self.map.spec_portal_between(origin, target);
                if self.occupancy.contains_key(target) || (portal is Some
                    && self.portal_occupancy.contains_key(portal->0.id@)) {
                    None
                } else {
                    Some(
                        MovementClaim {
                            resident,
                            target,
                            priority: walk.priority,
                            band: walk.band,
                            request_age: walk.request_age,
                        },
                    )
                }
            },
            _ => None,
        }
    }

    /// Whether one resident's claim takes the tile that another claims too.
    pub open spec fn claims_over(self, winner: SimId, loser: SimId) -> bool {
        &&& self.go_to.contains_key(winner)
        &&& self.claim(winner) is Some
        &&& self.claim(loser) is Some
        &&& self.claim(winner)->0.target == self.claim(loser)->0.target
        &&& self.claim(winner)->0.standing().outranks(self.claim(loser)->0.standing())
    }

    /// Whether a resident's claim wins its tile: nobody claims over it.
    pub open spec fn approved(self, resident: SimId) -> bool {
        self.claim(resident) is Some && forall|other: SimId| !#[trigger]
            self.claims_over(other, resident)
    }

    /// The resident that takes a tile from an unsuccessful claimant.
    pub open spec fn winner_over(self, resident: SimId) -> SimId {
        choose|winner: SimId| #[trigger]
            self.go_to.contains_key(winner) && self.approved(winner) && self.claims_over(
                winner,
                resident,
            )
    }

    /// A resident changes tile.
    pub open spec fn relocate(
        self,
        resident: SimId,
        origin: TilePosition,
        destination: TilePosition,
    ) -> Village {
        Village {
            occupancy: self.occupancy.remove(origin).insert(destination, resident),
            residents: self.residents.insert(
                resident,
                Resident { position: destination, ..self.residents[resident] },
            ),
            ..self
        }
    }

    /// A walk goes on.
    pub open spec fn keep_walking(self, resident: SimId, walk: GoToView) -> Village {
        Village { go_to: self.go_to.insert(resident, walk), ..self }
    }

    /// A walk's request is dated.
    pub open spec fn with_request_age(self, resident: SimId, request_age: u64) -> Village {
        if self.go_to.contains_key(resident) {
            self.keep_walking(resident, GoToView { request_age, ..self.go_to[resident] })
        } else {
            self
        }
    }

    /// A walk that goes on keeps a village sound.
    pub proof fn lemma_keep_walking_sound(self, resident: SimId, walk: GoToView)
        requires
            self.sound(),
            self.residents.contains_key(resident),
            walk.next_step >= 0,
            walk.traversal is Some ==> walk.target() is Some,
        ensures
            self.keep_walking(resident, walk).sound(),
    {
    }

    /// A walk reaches its destination.
    pub open spec fn arrive(self, resident: SimId, walk: GoToView) -> Village {
        self.finish_if_ordered(resident, walk.player_task, PlayerTaskState::Completed).emit(
            WorldEventKind::GoToArrived { resident, destination: walk.destination },
        )
    }

    /// A walk cannot reach its destination.
    pub open spec fn give_up(self, resident: SimId, walk: GoToView) -> Village {
        self.finish_if_ordered(resident, walk.player_task, PlayerTaskState::Completed).emit(
            WorldEventKind::GoToFailed { resident, destination: walk.destination },
        )
    }

    /// A walk waits for another resident.
    pub open spec fn wait_for(
        self,
        resident: SimId,
        blocked_by: SimId,
        position: TilePosition,
    ) -> Village {
        self.emit(WorldEventKind::GoToWaited { resident, blocked_by, position })
    }

    /// After a step, a walk arrives or goes on.
    pub open spec fn arrive_or_continue(self, resident: SimId, walk: GoToView) -> Village {
        if self.position_of(resident) == Some(walk.destination) {
            self.arrive(resident, walk)
        } else {
            self.keep_walking(resident, walk)
        }
    }

    /// A resident inside a portal comes a tick closer to its far end.
    pub open spec fn cross(
        self,
        resident: SimId,
        walk: GoToView,
        traversal: PortalTraversal,
    ) -> Village {
        let left = less(traversal.ticks_remaining, 1);
        if left == 0 {
            Village {
                portal_occupancy: self.portal_occupancy.remove(traversal.portal@),
                ..self
            }.relocate(
                resident,
                self.residents[resident].position,
                traversal.destination,
            ).arrive_or_continue(
                resident,
                GoToView { traversal: None, next_step: walk.next_step + 1, ..walk },
            )
        } else {
            self.keep_walking(
                resident,
                GoToView {
                    traversal: Some(PortalTraversal { ticks_remaining: left, ..traversal }),
                    ..walk
                },
            )
        }
    }

    /// A resident whose next tile is held reroutes around others, or waits.
    pub open spec fn go_around(
        self,
        resident: SimId,
        walk: GoToView,
        next: TilePosition,
    ) -> Village {
        match self.live_route(resident, self.residents[resident].position, walk.destination) {
            Some(path) => self.keep_walking(resident, GoToView { path, next_step: 1, ..walk }),
            None => self.wait_for(resident, self.occupancy[next], next).keep_walking(
                resident,
                walk,
            ),
        }
    }

    /// A resident takes the next step: into a free portal, or onto a free tile.
    pub open spec fn step(self, resident: SimId, walk: GoToView, next: TilePosition) -> Village {
        let origin = self.residents[resident].position;
        match self.map.spec_portal_between(origin, next) {
            Some(portal) => {
                if self.portal_occupancy.contains_key(portal.id@) {
                    self.wait_for(resident, self.portal_occupancy[portal.id@], next).keep_walking(
                        resident,
                        walk,
                    )
                } else {
                    Village {
                        portal_occupancy: self.portal_occupancy.insert(portal.id@, resident),
                        ..self
                    }.keep_walking(
                        resident,
                        GoToView {
                            traversal: Some(
                                PortalTraversal {
                                    portal: portal.id,
                                    destination: next,
                                    ticks_remaining: at_least_one(portal.traversal_ticks),
                                },
                            ),
                            ..walk
                        },
                    )
                }
            },
            None => self.relocate(resident, origin, next).arrive_or_continue(
                resident,
                GoToView { next_step: walk.next_step + 1, ..walk },
            ),
        }
    }

    /// One resident's walk advances by one tick.
    pub open spec fn walk(self, resident: SimId) -> Village {
        if !self.go_to.contains_key(resident) {
            self
        } else {
            let walk = self.go_to[resident];
            let halted = self.halt(resident);
            let origin = self.residents[resident].position;
            match walk.traversal {
                Some(traversal) => halted.cross(resident, walk, traversal),
                None => {
                    if walk.path.len() == 0 {
                        halted.give_up(resident, walk)
                    } else if origin == walk.destination {
                        halted.arrive(resident, walk)
                    } else {
                        match walk.target() {
                            None => halted.give_up(resident, walk),
                            Some(next) => {
                                if self.occupancy.contains_key(next) {
                                    halted.go_around(resident, walk, next)
                                } else {
                                    halted.step(resident, walk, next)
                                }
                            },
                        }
                    }
                },
            }
        }
    }

    /// Residents walk in turn.
    pub open spec fn walk_all(self, residents: Seq<SimId>) -> Village
        decreases residents.len(),
    {
        if residents.len() == 0 {
            self
        } else {
            self.walk_all(residents.drop_last()).walk(residents.last())
        }
    }

    /// Residents without an approved claim follow in turn: one that lost its
    /// tile in `before` waits for the winner, any other walks.
    pub open spec fn follow_all(self, before: Village, residents: Seq<SimId>) -> Village
        decreases residents.len(),
    {
        if residents.len() == 0 {
            self
        } else {
            self.follow_all(before, residents.drop_last()).follow(before, residents.last())
        }
    }

    /// One resident without an approved claim follows.
    pub open spec fn follow(self, before: Village, resident: SimId) -> Village {
        match before.claim(resident) {
            Some(claim) => self.wait_for(resident, before.winner_over(resident), claim.target),
            None => self.walk(resident),
        }
    }

    /// What an unsuccessful claimant waits for: the winner, and the tile.
    pub open spec fn wait_of(self, resident: SimId) -> Option<(SimId, TilePosition)> {
        match self.claim(resident) {
            Some(claim) => Some((self.winner_over(resident), claim.target)),
            None => None,
        }
    }

    /// Whether `residents` holds every walking resident and no other.
    pub open spec fn lists_walkers(self, residents: Seq<SimId>) -> bool {
        &&& residents.no_duplicates()
        &&& forall|resident: SimId|
            self.go_to.contains_key(resident) <==> residents.contains(resident)
    }

    /// The claim that takes a tile is the approved one, and every other claim
    /// on that tile waits for it.
    pub proof fn lemma_best_claim(
        self,
        residents: Seq<SimId>,
        claims: Seq<Option<MovementClaim>>,
        i: int,
        w: int,
    )
        requires
            self.lists_walkers(residents),
            claims.len() == residents.len(),
            forall|j: int| 0 <= j < residents.len() ==> #[trigger] claims[j] == self.claim(
                residents[j],
            ),
            0 <= i < residents.len(),
            claims[i] is Some,
            takes_tile(claims, i, w),
        ensures
            w == i <==> self.approved(residents[i]),
            w != i ==> self.winner_over(residents[i]) == residents[w],
    {
        let target = claims[i]->0.target;
        assert(claims[w] == self.claim(residents[w]));
        assert(claims[i] == self.claim(residents[i]));
        assert forall|other: SimId| !#[trigger] self.claims_over(other, residents[w]) by {
            if self.claims_over(other, residents[w]) {
                assert(residents.contains(other));
                let k = residents.index_of(other);
                assert(residents[k] == other);
                assert(claims[k] == self.claim(residents[k]));
            }
        }
        assert(self.approved(residents[w]));
        if w != i {
            assert(residents.contains(residents[w]));
            assert(self.claims_over(residents[w], residents[i]));
            let winner = self.winner_over(residents[i]);
            assert(self.go_to.contains_key(winner) && self.approved(winner) && self.claims_over(
                winner,
                residents[i],
            ));
            if winner != residents[w] {
                assert(self.claims_over(winner, residents[w]) || self.claims_over(
                    residents[w],
                    winner,
                ));
            }
        }
    }

    /// The residents whose claims win.
    pub open spec fn goes_first(self) -> spec_fn(SimId) -> bool {
        |resident: SimId| self.approved(resident)
    }

    /// The residents whose claims do not win, or who make none.
    pub open spec fn goes_later(self) -> spec_fn(SimId) -> bool {
        |resident: SimId| !self.approved(resident)
    }

    /// The walking residents whose claims win, in `SimId` order.
    pub open spec fn approved_walkers(self) -> Seq<SimId> {
        in_order::<SimId>(self.go_to.dom()).filter(self.goes_first())
    }

    /// The other walking residents, in `SimId` order.
    pub open spec fn other_walkers(self) -> Seq<SimId> {
        in_order::<SimId>(self.go_to.dom()).filter(self.goes_later())
    }

    /// Every walk advances: approved claims first, then everyone else.
    pub open spec fn walk_everyone(self) -> Village {
        self.walk_all(self.approved_walkers()).follow_all(self, self.other_walkers())
    }
}

// ---------------------------------------------------------------------------
// Object use.
// ---------------------------------------------------------------------------

impl Village {
    /// A completed use of a resident's own toilet target recovers the need.
    pub open spec fn recover(self, resident: SimId) -> Village {
        if self.toilet_needs.contains_key(resident) {
            let need = self.toilet_needs[resident];
            let value = less(need.value, need.recovery);
            Village {
                toilet_needs: self.toilet_needs.insert(
                    resident,
                    ToiletNeedState { value, ..need },
                ),
                ..self
            }.emit(WorldEventKind::ToiletNeedRecovered { resident, value })
        } else {
            self
        }
    }

    /// An active use comes a tick closer to completion, or completes.
    pub open spec fn progress(self, resident: SimId) -> Village {
        let active = self.active_object_uses[resident];
        let left = less(active.ticks_remaining, 1);
        if left == 0 {
            let done = self.release(resident).finish_if_ordered(
                resident,
                active.player_task,
                PlayerTaskState::Completed,
            ).emit(
                WorldEventKind::ObjectUseCompleted {
                    resident,
                    object: active.object,
                    affordance: active.affordance,
                },
            );
            if self.is_toilet_target(resident, active.object@, active.affordance@) {
                done.recover(resident)
            } else {
                done
            }
        } else {
            Village {
                active_object_uses: self.active_object_uses.insert(
                    resident,
                    ActiveObjectUse { ticks_remaining: left, ..active },
                ),
                ..self
            }
        }
    }

    /// Active uses progress in turn.
    pub open spec fn progress_all(self, residents: Seq<SimId>) -> Village
        decreases residents.len(),
    {
        if residents.len() == 0 {
            self
        } else {
            self.progress_all(residents.drop_last()).progress(residents.last())
        }
    }

    /// Progress of others leaves a resident's active use as it is.
    pub proof fn lemma_progress_all_spares(self, residents: Seq<SimId>, resident: SimId)
        requires
            !residents.contains(resident),
        ensures
            self.progress_all(residents).active_object_uses.contains_key(resident)
                == self.active_object_uses.contains_key(resident),
            self.progress_all(residents).active_object_uses[resident]
                == self.active_object_uses[resident],
        decreases residents.len(),
    {
        if residents.len() > 0 {
            let rest = residents.drop_last();
            assert forall|i: int| 0 <= i < rest.len() implies rest[i] != resident by {
                assert(residents.contains(residents[i]));
            }
            assert(residents.contains(residents.last()));
            self.lemma_progress_all_spares(rest, resident);
        }
    }

    /// Every active use progresses, in `SimId` order.
    pub open spec fn progress_everyone(self) -> Village {
        self.progress_all(in_order::<SimId>(self.active_object_uses.dom()))
    }

    /// Who keeps a request from being granted: the slot's claimant, or the
    /// resident itself where its capability is in use.
    pub open spec fn blocker(
        self,
        request: UseRequest,
        affordance: ObjectAffordanceDefinition,
    ) -> Option<SimId> {
        if self.object_slot_claims.contains_key((request.object@, affordance.slot@)) {
            Some(self.object_slot_claims[(request.object@, affordance.slot@)])
        } else if self.capability_claims.contains_key((request.resident, affordance.capability)) {
            Some(request.resident)
        } else {
            None
        }
    }

    /// A use begins and claims its slot and capability.
    pub open spec fn started(
        self,
        request: UseRequest,
        affordance: ObjectAffordanceDefinition,
    ) -> Village {
        Village {
            object_slot_claims: self.object_slot_claims.insert(
                (request.object@, affordance.slot@),
                request.resident,
            ),
            capability_claims: self.capability_claims.insert(
                (request.resident, affordance.capability),
                request.object@,
            ),
            active_object_uses: self.active_object_uses.insert(
                request.resident,
                ActiveObjectUse {
                    object: request.object,
                    affordance: request.affordance,
                    slot: affordance.slot,
                    capability: affordance.capability,
                    ticks_remaining: at_least_one(affordance.duration_ticks),
                    player_task: request.player_task,
                },
            ),
            ..self
        }
    }

    /// A request is granted its slot and capability, or waits.
    pub open spec fn grant(self, request: UseRequest) -> Village {
        match self.affordance(request.object@, request.affordance@) {
            None => self,
            Some(affordance) => match self.blocker(request, affordance) {
                Some(blocked_by) => Village {
                    use_requests: self.use_requests.push(request),
                    ..self
                }.emit(
                    WorldEventKind::ObjectUseWaited {
                        resident: request.resident,
                        object: request.object,
                        affordance: request.affordance,
                        blocked_by,
                    },
                ),
                None => {
                    let granted = self.started(request, affordance);
                    (match request.player_task {
                        Some(task) => granted.mark(task, PlayerTaskState::Active),
                        None => granted,
                    }).emit(
                        WorldEventKind::ObjectUseStarted {
                            resident: request.resident,
                            object: request.object,
                            affordance: request.affordance,
                        },
                    )
                },
            },
        }
    }

    /// Requests are served in turn.
    pub open spec fn grant_all(self, requests: Seq<UseRequest>) -> Village
        decreases requests.len(),
    {
        if requests.len() == 0 {
            self
        } else {
            self.grant_all(requests.drop_last()).grant(requests.last())
        }
    }

    /// Active uses progress, then waiting requests are served by rank.
    pub open spec fn use_objects(self) -> Village {
        let progressed = self.progress_everyone();
        Village { use_requests: Seq::empty(), ..progressed }.grant_all(
            ranked(progressed.use_requests),
        )
    }
}

// ---------------------------------------------------------------------------
// One tick.
// ---------------------------------------------------------------------------

impl Village {
    /// A tick begins: what was pending becomes ingested.
    pub open spec fn begin_tick(self) -> Village {
        Village {
            tick: (self.tick + 1) as u64,
            ingest_from: self.ingest_to,
            ingest_to: self.ledger.len() as int,
            ..self
        }
    }

    /// Beginning a tick keeps a village sound.
    pub proof fn lemma_begin_tick_sound(self)
        requires
            self.sound(),
        ensures
            self.begin_tick().sound(),
    {
    }

    /// The inbox is emptied and its commands are ingested.
    pub open spec fn ingest_inbox(self) -> Village {
        Village { inbox: Seq::empty(), ..self }.ingest_all(self.inbox)
    }

    /// Needs grow and residents choose.
    pub open spec fn live(self) -> Village {
        self.age_needs().choose_everyone()
    }

    /// Every queue is dispatched.
    pub open spec fn dispatch_everyone(self) -> Village {
        self.dispatch_all(in_order::<SimId>(self.player_task_queue.dom()))
    }

    /// The tick is marked complete.
    pub open spec fn end_tick(self) -> Village {
        self.emit(
            WorldEventKind::TickCompleted {
                keyed_marker: mixed(draw_key(self.seed, self.tick, self.tick, 0)),
            },
        )
    }

    /// One whole tick.
    pub open spec fn advance(self) -> Village {
        self.begin_tick().ingest_inbox().live().dispatch_everyone().walk_everyone().use_objects()
            .end_tick()
    }
}

} // verus!
