//! What holds of the village at every moment, and why every rule keeps it.

use vstd::prelude::*;

use crate::arbitration::ActionBand;
use crate::arbitration::UseRequest;
use crate::content::Capability;
use crate::content::ObjectAffordanceDefinition;
use crate::content::TilePosition;
use crate::events::draw_key;
use crate::events::mixed;
use crate::events::PlayerCommand;
use crate::events::PlayerCommandRejection;
use crate::events::WorldEventKind;
use crate::identity::DefinitionId;
use crate::identity::PlayerTaskId;
use crate::identity::SimId;
use crate::listing::first_where;
use crate::listing::lemma_first_where;
use crate::listing::lemma_first_where_at;
use crate::ord_map::in_order;
use crate::ord_map::lemma_in_order_lists;
use crate::route::law_route_is_a_walk;
use crate::route::Journey;
use crate::state::GoToView;
use crate::state::PlayerTaskState;
use crate::state::PortalTraversal;
use crate::state::QueuedOrder;
use crate::state::QueuedPlayerTask;
use crate::state::ToiletPlan;
use crate::village::at_least_one;
use crate::village::holds_order;
use crate::village::is_other_order;
use crate::village::lemma_without_first_at;
use crate::village::less;
use crate::village::place;
use crate::village::player_request_of;
use crate::village::queues_order;
use crate::village::ranked;
use crate::village::request_for;
use crate::village::Village;

verus! {

impl Village {
    /// Whether a resident's queue holds an order.
    pub open spec fn holds(self, resident: SimId, task: PlayerTaskId) -> bool {
        self.player_task_queue.contains_key(resident) && queues_order(
            self.player_task_queue[resident],
            task,
        )
    }

    /// Whether an order stands at the head of a resident's queue.
    pub open spec fn leads(self, resident: SimId, task: PlayerTaskId) -> bool {
        self.has_queue(resident) && self.player_task_queue[resident][0].task == task
    }

    /// Whether the head of a resident's queue asks it to walk to a tile.
    pub open spec fn head_walks_to(self, resident: SimId, destination: TilePosition) -> bool {
        match self.player_task_queue[resident][0].order {
            QueuedOrder::GoTo { destination: ordered, .. } => ordered == destination,
            QueuedOrder::UseToilet { .. } => false,
        }
    }

    /// Whether the head of a resident's queue asks it to use an object.
    pub open spec fn head_uses(
        self,
        resident: SimId,
        object: DefinitionId,
        affordance: DefinitionId,
    ) -> bool {
        match self.player_task_queue[resident][0].order {
            QueuedOrder::GoTo { .. } => false,
            QueuedOrder::UseToilet { object: ordered, affordance: way, .. } => ordered == object
                && way == affordance,
        }
    }

    /// Whether a resident's walk is what the head of its queue asks for.
    pub open spec fn leads_walking(self, resident: SimId) -> bool {
        &&& self.leads(resident, self.go_to[resident].player_task->0)
        &&& self.head_walks_to(resident, self.go_to[resident].destination)
    }

    /// Whether a resident's use is what the head of its queue asks for.
    pub open spec fn leads_using(self, resident: SimId) -> bool {
        let active = self.active_object_uses[resident];
        &&& self.leads(resident, active.player_task->0)
        &&& self.head_uses(resident, active.object, active.affordance)
    }

    /// Whether a request is what the head of its resident's queue asks for.
    pub open spec fn leads_asking(self, request: UseRequest) -> bool {
        &&& self.leads(request.resident, request.player_task->0)
        &&& self.head_uses(request.resident, request.object, request.affordance)
    }

    /// Whether an order is still in progress.
    pub open spec fn is_live_order(self, task: PlayerTaskId) -> bool {
        self.player_tasks.contains_key(task) && self.player_tasks[task].is_live()
    }

    /// Whether a resident walks for an order.
    pub open spec fn walks_on_order(self, resident: SimId) -> bool {
        self.go_to.contains_key(resident) && self.go_to[resident].player_task is Some
    }

    /// Whether a resident uses an object for an order.
    pub open spec fn uses_on_order(self, resident: SimId) -> bool {
        self.active_object_uses.contains_key(resident)
            && self.active_object_uses[resident].player_task is Some
    }

    /// Every queue belongs to a resident and is not empty, and every order in
    /// it is in progress.
    pub open spec fn queues_kept(self) -> bool {
        &&& forall|resident: SimId| #[trigger]
            self.player_task_queue.contains_key(resident) ==> self.residents.contains_key(resident)
                && self.player_task_queue[resident].len() > 0
        &&& forall|resident: SimId, i: int|
            #![trigger self.player_task_queue[resident][i]]
            self.player_task_queue.contains_key(resident) && 0 <= i
                < self.player_task_queue[resident].len() ==> self.is_live_order(
                self.player_task_queue[resident][i].task,
            )
    }

    /// No order is queued twice.
    pub open spec fn orders_distinct(self) -> bool {
        forall|r: SimId, i: int, s: SimId, j: int|
            #![trigger self.player_task_queue[r][i], self.player_task_queue[s][j]]
            self.player_task_queue.contains_key(r) && 0 <= i < self.player_task_queue[r].len()
                && self.player_task_queue.contains_key(s) && 0 <= j
                < self.player_task_queue[s].len() && self.player_task_queue[r][i].task
                == self.player_task_queue[s][j].task ==> r == s && i == j
    }

    /// Every order in progress is in some resident's queue.
    pub open spec fn orders_queued(self) -> bool {
        forall|task: PlayerTaskId| #[trigger]
            self.is_live_order(task) ==> exists|resident: SimId| #[trigger]
                self.holds(resident, task)
    }

    /// Every toilet order in a queue is for its resident's own toilet target.
    pub open spec fn orders_on_target(self) -> bool {
        forall|resident: SimId, i: int|
            #![trigger self.player_task_queue[resident][i]]
            self.player_task_queue.contains_key(resident) && 0 <= i
                < self.player_task_queue[resident].len() ==> self.may_queue(
                resident,
                self.player_task_queue[resident][i].order,
            )
    }

    /// Whether an order may join a resident's queue: a toilet order only where
    /// it is for the resident's own toilet target.
    pub open spec fn may_queue(self, resident: SimId, order: QueuedOrder) -> bool {
        match order {
            QueuedOrder::GoTo { .. } => true,
            QueuedOrder::UseToilet { object, affordance, .. } => self.is_toilet_target(
                resident,
                object@,
                affordance@,
            ),
        }
    }

    /// Only queue heads are in execution, one at a time for each resident, and
    /// what is done for an order is what the order asks for.
    pub open spec fn heads_executed(self) -> bool {
        &&& forall|resident: SimId| #[trigger]
            self.walks_on_order(resident) ==> self.leads_walking(resident) && !self.uses_on_order(resident)
        &&& forall|resident: SimId| #[trigger]
            self.uses_on_order(resident) ==> self.leads_using(resident)
        &&& forall|i: int|
            0 <= i < self.use_requests.len() && (#[trigger] self.use_requests[i]).player_task is Some
                ==> self.leads_asking(self.use_requests[i])
                && !self.walks_on_order(self.use_requests[i].resident)
    }

    /// A resident has at most one request, none while it uses an object, and
    /// only for what an object offers.
    pub open spec fn requests_kept(self) -> bool {
        &&& forall|i: int, j: int|
            0 <= i < j < self.use_requests.len() ==> (#[trigger] self.use_requests[i]).resident != (
            #[trigger] self.use_requests[j]).resident
        &&& forall|i: int|
            #![trigger self.use_requests[i]]
            0 <= i < self.use_requests.len() ==> {
                &&& self.residents.contains_key(self.use_requests[i].resident)
                &&& !self.active_object_uses.contains_key(self.use_requests[i].resident)
                &&& self.affordance(
                    self.use_requests[i].object@,
                    self.use_requests[i].affordance@,
                ) is Some
            }
    }

    /// Slots and capabilities are claimed by exactly the uses in execution.
    pub open spec fn claims_kept(self) -> bool {
        &&& forall|resident: SimId| #[trigger]
            self.active_object_uses.contains_key(resident) ==> {
                let active = self.active_object_uses[resident];
                &&& self.residents.contains_key(resident)
                &&& active.ticks_remaining >= 1
                &&& self.object_slot_claims.contains_key((active.object@, active.slot@))
                &&& self.object_slot_claims[(active.object@, active.slot@)] == resident
                &&& self.capability_claims.contains_key((resident, active.capability))
                &&& self.capability_claims[(resident, active.capability)] == active.object@
            }
        &&& forall|key: (Seq<char>, Seq<char>)| #[trigger]
            self.object_slot_claims.contains_key(key) ==> {
                let resident = self.object_slot_claims[key];
                &&& self.active_object_uses.contains_key(resident)
                &&& self.active_object_uses[resident].object@ == key.0
                &&& self.active_object_uses[resident].slot@ == key.1
            }
        &&& forall|key: (SimId, Capability)| #[trigger]
            self.capability_claims.contains_key(key) ==> {
                &&& self.active_object_uses.contains_key(key.0)
                &&& self.active_object_uses[key.0].capability == key.1
            }
    }

    /// A held tile is held by a resident that stands on it.
    pub open spec fn tiles_kept(self) -> bool {
        forall|tile: TilePosition| #[trigger]
            self.occupancy.contains_key(tile) ==> self.position_of(self.occupancy[tile]) == Some(
                tile,
            )
    }

    /// A resident inside a portal is the one that occupies it.
    pub open spec fn portals_kept(self) -> bool {
        forall|resident: SimId|
            #![trigger self.go_to.contains_key(resident)]
            self.go_to.contains_key(resident) && self.go_to[resident].traversal is Some ==> {
                let portal = self.go_to[resident].traversal->0.portal@;
                &&& self.portal_occupancy.contains_key(portal)
                &&& self.portal_occupancy[portal] == resident
            }
    }

    /// Whether a walk is a route that its resident is on: it leads to the
    /// destination one step of the map at a time, and the resident stands on
    /// its tile before the next. Inside a portal, the portal joins these two
    /// tiles.
    pub open spec fn walk_kept(self, resident: SimId, walk: GoToView) -> bool {
        let here = self.residents[resident].position;
        &&& walk.path.len() > 0 ==> {
            &&& 1 <= walk.next_step <= walk.path.len()
            &&& walk.path[walk.next_step - 1] == here
            &&& walk.path.last() == walk.destination
            &&& forall|i: int|
                0 < i < walk.path.len() ==> self.map.steps_to(
                    walk.path[i - 1],
                    #[trigger] walk.path[i],
                )
        }
        &&& match walk.traversal {
            Some(traversal) => {
                &&& walk.target() == Some(traversal.destination)
                &&& traversal.ticks_remaining >= 1
                &&& match self.map.spec_portal_between(here, traversal.destination) {
                    Some(portal) => portal.id == traversal.portal,
                    None => false,
                }
            },
            None => true,
        }
    }

    /// Every walk is a route that its resident is on.
    pub open spec fn walks_kept(self) -> bool {
        forall|resident: SimId| #[trigger]
            self.go_to.contains_key(resident) ==> self.walk_kept(resident, self.go_to[resident])
    }

    /// Only residents with a need intend anything, only an intention is
    /// urgent, and only one that escalates.
    pub open spec fn intentions_kept(self) -> bool {
        &&& forall|resident: SimId| #[trigger]
            self.autonomous_toilet_intentions.contains(resident) ==> self.toilet_needs.contains_key(
                resident,
            )
        &&& forall|resident: SimId| #[trigger]
            self.urgent_toilet_intentions.contains(resident)
                ==> self.autonomous_toilet_intentions.contains(resident)
                && self.toilet_needs[resident].escalates()
    }

    /// Every object is kept under its own name.
    pub open spec fn objects_kept(self) -> bool {
        forall|name: Seq<char>| #[trigger]
            self.objects.contains_key(name) ==> self.objects[name].id@ == name
    }

    /// There are finitely many residents, walks, uses, needs and queues.
    pub open spec fn counted(self) -> bool {
        &&& self.residents.dom().finite()
        &&& self.objects.dom().finite()
        &&& self.go_to.dom().finite()
        &&& self.active_object_uses.dom().finite()
        &&& self.toilet_needs.dom().finite()
        &&& self.player_task_queue.dom().finite()
    }

    /// What is true of a village at every moment.
    pub open spec fn valid(self) -> bool {
        &&& self.sound()
        &&& self.counted()
        &&& self.objects_kept()
        &&& self.queues_kept()
        &&& self.orders_distinct()
        &&& self.orders_queued()
        &&& self.orders_on_target()
        &&& self.heads_executed()
        &&& self.requests_kept()
        &&& self.claims_kept()
        &&& self.tiles_kept()
        &&& self.portals_kept()
        &&& self.walks_kept()
        &&& self.intentions_kept()
    }

    // -- Events, needs and intentions ------------------------------------

    pub(crate) proof fn lemma_emit_valid(self, kind: WorldEventKind)
        requires
            self.valid(),
        ensures
            self.emit(kind).valid(),
    {
        self.lemma_unmoved(self.emit(kind));
    }

    /// Nothing but the ledger, the clock, the inbox, the values of needs and
    /// the intentions has changed.
    pub(crate) proof fn lemma_unmoved(self, next: Village)
        requires
            self.valid(),
            next.sound(),
            next.intentions_kept(),
            next.toilet_needs.dom() == self.toilet_needs.dom(),
            next.autonomous_toilet_plans == self.autonomous_toilet_plans,
            next.map == self.map,
            next.residents == self.residents,
            next.objects == self.objects,
            next.occupancy == self.occupancy,
            next.portal_occupancy == self.portal_occupancy,
            next.go_to == self.go_to,
            next.use_requests == self.use_requests,
            next.active_object_uses == self.active_object_uses,
            next.player_tasks == self.player_tasks,
            next.player_task_queue == self.player_task_queue,
            next.object_slot_claims == self.object_slot_claims,
            next.capability_claims == self.capability_claims,
        ensures
            next.valid(),
    {
        assert forall|task: PlayerTaskId| #[trigger] next.is_live_order(task) implies exists|
            resident: SimId,
        | #[trigger] next.holds(resident, task) by {
            assert(self.is_live_order(task));
            let resident = choose|resident: SimId| #[trigger] self.holds(resident, task);
            assert(next.holds(resident, task));
        }
        assert forall|resident: SimId| #[trigger] next.walks_on_order(resident) implies next.leads_walking(resident) && !next.uses_on_order(resident) by {
            assert(self.walks_on_order(resident));
        }
        assert forall|resident: SimId| #[trigger] next.uses_on_order(resident) implies next.leads_using(resident) by {
            assert(self.uses_on_order(resident));
        }
        assert forall|i: int|
            0 <= i < next.use_requests.len() && (#[trigger] next.use_requests[i]).player_task
                is Some implies next.leads_asking(next.use_requests[i]) && !next.walks_on_order(next.use_requests[i].resident) by {
            assert(self.use_requests[i].player_task is Some);
            assert(!self.walks_on_order(self.use_requests[i].resident));
        }
    }

    // -- Orders -----------------------------------------------------------

    /// An order in progress may take another state in which it is in progress.
    pub(crate) proof fn lemma_mark_valid(self, task: PlayerTaskId, state: PlayerTaskState)
        requires
            self.valid(),
            self.is_live_order(task),
            state.is_live(),
        ensures
            self.mark(task, state).valid(),
    {
        let next = self.mark(task, state);
        self.lemma_sound_frame(next);
        assert forall|t: PlayerTaskId| next.is_live_order(t) <==> self.is_live_order(t) by {}
        assert forall|t: PlayerTaskId| #[trigger] next.is_live_order(t) implies exists|
            resident: SimId,
        | #[trigger] next.holds(resident, t) by {
            assert(self.is_live_order(t));
            let resident = choose|resident: SimId| #[trigger] self.holds(resident, t);
            assert(next.holds(resident, t));
        }
        self.lemma_heads_frame(next);
    }

    /// Where every queue keeps its head and nothing else is put in execution,
    /// only heads are in execution.
    pub(crate) proof fn lemma_heads_frame(self, next: Village)
        requires
            self.heads_executed(),
            forall|resident: SimId, task: PlayerTaskId| #[trigger]
                self.leads(resident, task) && self.is_dispatched(resident, task)
                    ==> next.leads(resident, task) && next.player_task_queue[resident][0]
                    == self.player_task_queue[resident][0],
            next.go_to == self.go_to,
            next.use_requests == self.use_requests,
            next.active_object_uses == self.active_object_uses,
        ensures
            next.heads_executed(),
    {
        assert forall|resident: SimId| #[trigger] next.walks_on_order(resident) implies next.leads_walking(resident) && !next.uses_on_order(resident) by {
            assert(self.walks_on_order(resident));
            assert(self.leads(resident, self.go_to[resident].player_task->0));
            assert(!self.uses_on_order(resident));
        }
        assert forall|resident: SimId| #[trigger] next.uses_on_order(resident) implies next.leads_using(resident) by {
            assert(self.uses_on_order(resident));
            assert(self.leads(resident, self.active_object_uses[resident].player_task->0));
        }
        assert forall|i: int|
            0 <= i < next.use_requests.len() && (#[trigger] next.use_requests[i]).player_task
                is Some implies next.leads_asking(next.use_requests[i]) && !next.walks_on_order(next.use_requests[i].resident) by {
            assert(self.use_requests[i].player_task is Some);
            assert(self.leads_asking(self.use_requests[i]));
            assert(!self.walks_on_order(self.use_requests[i].resident));
        }
    }

    /// An order that is not in execution may end.
    pub(crate) proof fn lemma_finish_valid(self, resident: SimId, task: PlayerTaskId, state: PlayerTaskState)
        requires
            self.valid(),
            self.holds(resident, task),
            !self.is_dispatched(resident, task),
            !state.is_live(),
        ensures
            self.finish(resident, task, state).valid(),
    {
        let next = self.finish(resident, task, state);
        let queue = self.player_task_queue[resident];
        let k = choose|k: int| 0 <= k < queue.len() && (#[trigger] queue[k]).task == task;
        assert(self.player_task_queue[resident][k].task == task);
        assert forall|j: int| 0 <= j < queue.len() && j != k implies (
        #[trigger] queue[j]).task != task by {
            assert(self.player_task_queue[resident][j] == queue[j]);
        }
        lemma_filter_is_remove(queue, k, task);
        let left = queue.remove(k);
        self.lemma_sound_frame(next);
        // Every queued order was queued before, and is another order.
        assert forall|r: SimId, i: int|
            #![trigger next.player_task_queue[r][i]]
            next.player_task_queue.contains_key(r) && 0 <= i < next.player_task_queue[r].len()
                implies {
            let at = if r == resident && i >= k {
                i + 1
            } else {
                i
            };
            &&& self.player_task_queue.contains_key(r)
            &&& 0 <= at < self.player_task_queue[r].len()
            &&& self.player_task_queue[r][at] == next.player_task_queue[r][i]
            &&& next.player_task_queue[r][i].task != task
        } by {
            let at = if r == resident && i >= k {
                i + 1
            } else {
                i
            };
            assert(self.player_task_queue[r][at] == next.player_task_queue[r][i]);
            if r == resident {
                assert(queue[at].task != task);
            } else {
                assert(self.player_task_queue[r][i].task == task ==> r == resident);
            }
        }
        assert(next.queues_kept()) by {
            assert forall|r: SimId, i: int|
                #![trigger next.player_task_queue[r][i]]
                next.player_task_queue.contains_key(r) && 0 <= i < next.player_task_queue[r].len()
                    implies next.is_live_order(next.player_task_queue[r][i].task) by {
                let at = if r == resident && i >= k {
                    i + 1
                } else {
                    i
                };
                assert(self.player_task_queue[r][at] == next.player_task_queue[r][i]);
                assert(self.is_live_order(self.player_task_queue[r][at].task));
            }
        }
        assert(next.orders_distinct()) by {
            assert forall|r: SimId, i: int, q: SimId, j: int|
                #![trigger next.player_task_queue[r][i], next.player_task_queue[q][j]]
                next.player_task_queue.contains_key(r) && 0 <= i < next.player_task_queue[r].len()
                    && next.player_task_queue.contains_key(q) && 0 <= j
                    < next.player_task_queue[q].len() && next.player_task_queue[r][i].task
                    == next.player_task_queue[q][j].task implies r == q && i == j by {
                let at = if r == resident && i >= k {
                    i + 1
                } else {
                    i
                };
                let bt = if q == resident && j >= k {
                    j + 1
                } else {
                    j
                };
                assert(self.player_task_queue[r][at] == next.player_task_queue[r][i]);
                assert(self.player_task_queue[q][bt] == next.player_task_queue[q][j]);
            }
        }
        assert(next.orders_queued()) by {
            assert forall|t: PlayerTaskId| #[trigger] next.is_live_order(t) implies exists|
                r: SimId,
            | #[trigger] next.holds(r, t) by {
                assert(t != task);
                assert(self.is_live_order(t));
                let r = choose|r: SimId| #[trigger] self.holds(r, t);
                let i = choose|i: int|
                    0 <= i < self.player_task_queue[r].len() && (
                    #[trigger] self.player_task_queue[r][i]).task == t;
                if r == resident {
                    assert(i != k);
                    let at = if i > k {
                        i - 1
                    } else {
                        i
                    };
                    assert(left[at] == queue[i]);
                    assert(left.len() > 0);
                    assert(next.player_task_queue[r][at].task == t);
                } else {
                    assert(next.player_task_queue[r][i].task == t);
                }
                assert(next.holds(r, t));
            }
        }
        assert forall|r: SimId, t: PlayerTaskId| #[trigger]
            self.leads(r, t) && self.is_dispatched(r, t) implies next.leads(r, t)
            && next.player_task_queue[r][0] == self.player_task_queue[r][0] by {
            if r == resident {
                assert(t != task);
                assert(k != 0);
                assert(left[0] == queue[0]);
            }
        }
        self.lemma_heads_frame(next);
    }

    /// A new order may join a resident's queue.
    pub(crate) proof fn lemma_enqueue_valid(self, resident: SimId, queued: QueuedPlayerTask)
        requires
            self.valid(),
            self.residents.contains_key(resident),
            !self.player_tasks.contains_key(queued.task),
            self.may_queue(resident, queued.order),
        ensures
            self.enqueue(resident, queued).valid(),
    {
        let next = self.enqueue(resident, queued);
        let was = if self.player_task_queue.contains_key(resident) {
            self.player_task_queue[resident]
        } else {
            Seq::empty()
        };
        self.lemma_sound_frame(next);
        assert(next.player_task_queue[resident] == was.push(queued));
        // Every queued order was queued before, or is the new one.
        assert forall|r: SimId, i: int|
            #![trigger next.player_task_queue[r][i]]
            next.player_task_queue.contains_key(r) && 0 <= i < next.player_task_queue[r].len()
                && !(r == resident && i == was.len()) implies {
            &&& self.player_task_queue.contains_key(r)
            &&& i < self.player_task_queue[r].len()
            &&& self.player_task_queue[r][i] == next.player_task_queue[r][i]
            &&& self.is_live_order(next.player_task_queue[r][i].task)
        } by {
            assert(self.player_task_queue[r][i] == next.player_task_queue[r][i]);
        }
        assert(next.queues_kept());
        assert(next.orders_distinct()) by {
            assert forall|r: SimId, i: int, q: SimId, j: int|
                #![trigger next.player_task_queue[r][i], next.player_task_queue[q][j]]
                next.player_task_queue.contains_key(r) && 0 <= i < next.player_task_queue[r].len()
                    && next.player_task_queue.contains_key(q) && 0 <= j
                    < next.player_task_queue[q].len() && next.player_task_queue[r][i].task
                    == next.player_task_queue[q][j].task implies r == q && i == j by {
                if !(r == resident && i == was.len()) && !(q == resident && j == was.len()) {
                    assert(self.player_task_queue[r][i] == next.player_task_queue[r][i]);
                    assert(self.player_task_queue[q][j] == next.player_task_queue[q][j]);
                }
            }
        }
        assert(next.orders_queued()) by {
            assert forall|t: PlayerTaskId| #[trigger] next.is_live_order(t) implies exists|
                r: SimId,
            | #[trigger] next.holds(r, t) by {
                if t == queued.task {
                    assert(next.player_task_queue[resident][was.len() as int].task == t);
                    assert(next.holds(resident, t));
                } else {
                    assert(self.is_live_order(t));
                    let r = choose|r: SimId| #[trigger] self.holds(r, t);
                    let i = choose|i: int|
                        0 <= i < self.player_task_queue[r].len() && (
                        #[trigger] self.player_task_queue[r][i]).task == t;
                    assert(next.player_task_queue[r][i] == self.player_task_queue[r][i]);
                    assert(next.holds(r, t));
                }
            }
        }
        self.lemma_heads_frame(next);
    }

    // -- Work in execution ------------------------------------------------

    /// Whether a resident may walk for an order, or for none: the order leads
    /// its queue, asks for that walk, and nothing else is in execution for it.
    pub open spec fn may_walk_for(
        self,
        resident: SimId,
        order: Option<PlayerTaskId>,
        destination: TilePosition,
    ) -> bool {
        order is Some ==> {
            &&& self.leads(resident, order->0)
            &&& self.head_walks_to(resident, destination)
            &&& !self.uses_on_order(resident)
            &&& forall|i: int|
                0 <= i < self.use_requests.len() && (#[trigger] self.use_requests[i]).resident
                    == resident ==> self.use_requests[i].player_task is None
        }
    }

    /// A resident may go on walking.
    pub(crate) proof fn lemma_keep_walking_valid(self, resident: SimId, walk: GoToView)
        requires
            self.valid(),
            self.residents.contains_key(resident),
            self.may_walk_for(resident, walk.player_task, walk.destination),
            self.walk_kept(resident, walk),
            walk.next_step >= 0,
            walk.traversal is Some ==> {
                let portal = walk.traversal->0.portal@;
                &&& walk.target() is Some
                &&& self.portal_occupancy.contains_key(portal)
                &&& self.portal_occupancy[portal] == resident
            },
        ensures
            self.keep_walking(resident, walk).valid(),
    {
        let next = self.keep_walking(resident, walk);
        self.lemma_keep_walking_sound(resident, walk);
        assert(next.orders_queued()) by {
            self.lemma_queued_frame(next);
        }
        assert(next.heads_executed()) by {
            assert forall|r: SimId| #[trigger] next.walks_on_order(r) implies next.leads_walking(r) && !next.uses_on_order(r) by {
                if r != resident {
                    assert(self.walks_on_order(r));
                    assert(!self.uses_on_order(r));
                }
            }
            assert forall|r: SimId| #[trigger] next.uses_on_order(r) implies next.leads_using(r) by {
                assert(self.uses_on_order(r));
            }
            assert forall|i: int|
                0 <= i < next.use_requests.len() && (#[trigger] next.use_requests[i]).player_task
                    is Some implies next.leads_asking(next.use_requests[i]) && !next.walks_on_order(next.use_requests[i].resident) by {
                assert(self.use_requests[i].player_task is Some);
                assert(!self.walks_on_order(self.use_requests[i].resident));
            }
        }
    }

    /// The same orders in the same queues stay queued.
    pub(crate) proof fn lemma_queued_frame(self, next: Village)
        requires
            self.orders_queued(),
            next.player_tasks == self.player_tasks,
            next.player_task_queue == self.player_task_queue,
        ensures
            next.orders_queued(),
    {
        assert forall|task: PlayerTaskId| #[trigger] next.is_live_order(task) implies exists|
            resident: SimId,
        | #[trigger] next.holds(resident, task) by {
            assert(self.is_live_order(task));
            let resident = choose|resident: SimId| #[trigger] self.holds(resident, task);
            assert(next.holds(resident, task));
        }
    }

    /// A walk that begins a planned route from where its resident stands is
    /// kept.
    proof fn lemma_route_kept(self, resident: SimId, journey: Journey, walk: GoToView)
        requires
            journey.map == self.map,
            journey.origin == self.residents[resident].position,
            journey.destination == walk.destination,
            journey.route() == Some(walk.path),
            walk.next_step == 1,
            walk.traversal is None,
        ensures
            self.walk_kept(resident, walk),
    {
        law_route_is_a_walk(journey);
        assert forall|i: int| 0 < i < walk.path.len() implies self.map.steps_to(
            walk.path[i - 1],
            #[trigger] walk.path[i],
        ) by {
            assert(journey.steps_to(walk.path[i - 1], walk.path[i]));
        }
    }

    /// A resident may set out.
    pub(crate) proof fn lemma_set_out_valid(
        self,
        resident: SimId,
        destination: TilePosition,
        priority: i64,
        band: ActionBand,
        order: Option<PlayerTaskId>,
    )
        requires
            self.valid(),
            self.may_walk_for(resident, order, destination),
        ensures
            self.set_out(resident, destination, priority, band, order).valid(),
    {
        if self.residents.contains_key(resident) {
            let next = self.set_out(resident, destination, priority, band, order);
            let walk = next.go_to[resident];
            let origin = self.residents[resident].position;
            let journey = Journey { map: self.map, closed: Set::empty(), origin, destination };
            law_route_is_a_walk(journey);
            if journey.route() is Some {
                self.lemma_route_kept(resident, journey, walk);
            }
            self.lemma_keep_walking_valid(resident, walk);
            assert(next =~= self.keep_walking(resident, walk));
        }
    }

    /// A walk may end where it is.
    pub(crate) proof fn lemma_halt_valid(self, resident: SimId)
        requires
            self.valid(),
        ensures
            self.halt(resident).valid(),
    {
        let next = self.halt(resident);
        self.lemma_halt_sound(resident);
        self.lemma_queued_frame(next);
        assert(next.heads_executed()) by {
            assert forall|r: SimId| #[trigger] next.walks_on_order(r) implies next.leads_walking(r) && !next.uses_on_order(r) by {
                assert(self.walks_on_order(r));
                assert(!self.uses_on_order(r));
            }
            assert forall|r: SimId| #[trigger] next.uses_on_order(r) implies next.leads_using(r) by {
                assert(self.uses_on_order(r));
            }
            assert forall|i: int|
                0 <= i < next.use_requests.len() && (#[trigger] next.use_requests[i]).player_task
                    is Some implies next.leads_asking(next.use_requests[i]) && !next.walks_on_order(next.use_requests[i].resident) by {
                assert(self.use_requests[i].player_task is Some);
                assert(!self.walks_on_order(self.use_requests[i].resident));
            }
        }
    }

    /// A resident may ask for what an object offers.
    pub(crate) proof fn lemma_request_valid(self, request: UseRequest)
        requires
            self.valid(),
            request.player_task is Some ==> self.leads_asking(request) && !self.walks_on_order(request.resident),
        ensures
            self.request(request).valid(),
    {
        if self.may_request(request.resident, request.object@, request.affordance@) {
            let next = self.request(request);
            self.lemma_sound_frame(next);
            self.lemma_queued_frame(next);
            assert(next.heads_executed()) by {
                assert forall|r: SimId| #[trigger] next.walks_on_order(r) implies next.leads_walking(r) && !next.uses_on_order(r) by {
                    assert(self.walks_on_order(r));
                    assert(!self.uses_on_order(r));
                }
                assert forall|r: SimId| #[trigger] next.uses_on_order(r) implies next.leads_using(r) by {
                    assert(self.uses_on_order(r));
                }
                assert forall|i: int|
                    0 <= i < next.use_requests.len() && (
                    #[trigger] next.use_requests[i]).player_task is Some implies next.leads_asking(next.use_requests[i]) && !next.walks_on_order(next.use_requests[i].resident) by {
                    if i < self.use_requests.len() {
                        assert(self.use_requests[i] == next.use_requests[i]);
                        assert(self.use_requests[i].player_task is Some);
                    }
                    assert(!self.walks_on_order(next.use_requests[i].resident));
                }
            }
            assert(next.requests_kept()) by {
                assert forall|i: int, j: int| 0 <= i < j < next.use_requests.len() implies (
                #[trigger] next.use_requests[i]).resident != (
                #[trigger] next.use_requests[j]).resident by {
                    assert(self.use_requests[i] == next.use_requests[i]);
                    if j < self.use_requests.len() {
                        assert(self.use_requests[j] == next.use_requests[j]);
                    }
                }
                assert forall|i: int|
                    #![trigger next.use_requests[i]]
                    0 <= i < next.use_requests.len() implies {
                    &&& next.residents.contains_key(next.use_requests[i].resident)
                    &&& !next.active_object_uses.contains_key(next.use_requests[i].resident)
                    &&& next.affordance(
                        next.use_requests[i].object@,
                        next.use_requests[i].affordance@,
                    ) is Some
                } by {
                    if i < self.use_requests.len() {
                        assert(self.use_requests[i] == next.use_requests[i]);
                    }
                }
            }
        }
    }

    /// A request may be dropped.
    pub(crate) proof fn lemma_drop_request_valid(self, k: int)
        requires
            self.valid(),
            0 <= k < self.use_requests.len(),
        ensures
            (Village { use_requests: self.use_requests.remove(k), ..self }).valid(),
    {
        let next = Village { use_requests: self.use_requests.remove(k), ..self };
        self.lemma_sound_frame(next);
        self.lemma_queued_frame(next);
        assert forall|i: int|
            #![trigger next.use_requests[i]]
            0 <= i < next.use_requests.len() implies next.use_requests[i]
            == self.use_requests[if i < k {
            i
        } else {
            i + 1
        }] by {}
        assert(next.heads_executed()) by {
            assert forall|r: SimId| #[trigger] next.walks_on_order(r) implies next.leads_walking(r) && !next.uses_on_order(r) by {
                assert(self.walks_on_order(r));
                assert(!self.uses_on_order(r));
            }
            assert forall|r: SimId| #[trigger] next.uses_on_order(r) implies next.leads_using(r) by {
                assert(self.uses_on_order(r));
            }
            assert forall|i: int|
                0 <= i < next.use_requests.len() && (#[trigger] next.use_requests[i]).player_task
                    is Some implies next.leads_asking(next.use_requests[i]) && !next.walks_on_order(next.use_requests[i].resident) by {
                assert(!self.walks_on_order(next.use_requests[i].resident));
            }
        }
    }

    /// A use may end and give back what it claimed.
    pub(crate) proof fn lemma_release_valid(self, resident: SimId)
        requires
            self.valid(),
            self.active_object_uses.contains_key(resident),
        ensures
            self.release(resident).valid(),
    {
        let next = self.release(resident);
        self.lemma_sound_frame(next);
        self.lemma_queued_frame(next);
        assert(next.heads_executed()) by {
            assert forall|r: SimId| #[trigger] next.walks_on_order(r) implies next.leads_walking(r) && !next.uses_on_order(r) by {
                assert(self.walks_on_order(r));
                assert(!self.uses_on_order(r));
            }
            assert forall|r: SimId| #[trigger] next.uses_on_order(r) implies next.leads_using(r) by {
                assert(self.uses_on_order(r));
            }
            assert forall|i: int|
                0 <= i < next.use_requests.len() && (#[trigger] next.use_requests[i]).player_task
                    is Some implies next.leads_asking(next.use_requests[i]) && !next.walks_on_order(next.use_requests[i].resident) by {
                assert(self.use_requests[i].player_task is Some);
                assert(!self.walks_on_order(self.use_requests[i].resident));
            }
        }
        assert(next.claims_kept()) by {
            let gone = self.active_object_uses[resident];
            assert forall|r: SimId| #[trigger] next.active_object_uses.contains_key(r) implies {
                let active = next.active_object_uses[r];
                &&& next.residents.contains_key(r)
                &&& active.ticks_remaining >= 1
                &&& next.object_slot_claims.contains_key((active.object@, active.slot@))
                &&& next.object_slot_claims[(active.object@, active.slot@)] == r
                &&& next.capability_claims.contains_key((r, active.capability))
                &&& next.capability_claims[(r, active.capability)] == active.object@
            } by {
                assert(self.active_object_uses.contains_key(r));
                assert(self.object_slot_claims[(gone.object@, gone.slot@)] == resident);
            }
            assert forall|key: (Seq<char>, Seq<char>)| #[trigger]
                next.object_slot_claims.contains_key(key) implies {
                let r = next.object_slot_claims[key];
                &&& next.active_object_uses.contains_key(r)
                &&& next.active_object_uses[r].object@ == key.0
                &&& next.active_object_uses[r].slot@ == key.1
            } by {
                assert(self.object_slot_claims.contains_key(key));
                if self.object_slot_claims[key] == resident {
                    assert(key == (gone.object@, gone.slot@));
                }
            }
            assert forall|key: (SimId, Capability)| #[trigger]
                next.capability_claims.contains_key(key) implies {
                &&& next.active_object_uses.contains_key(key.0)
                &&& next.active_object_uses[key.0].capability == key.1
            } by {
                assert(self.capability_claims.contains_key(key));
            }
        }
    }

    // -- Withdrawing and dispatching orders --------------------------------

    /// An order that one resident's queue holds is in no other queue.
    pub(crate) proof fn lemma_one_holder(self, a: SimId, b: SimId, task: PlayerTaskId)
        requires
            self.orders_distinct(),
            self.holds(a, task),
            self.holds(b, task),
        ensures
            a == b,
    {
        let i = choose|i: int|
            0 <= i < self.player_task_queue[a].len() && (
            #[trigger] self.player_task_queue[a][i]).task == task;
        let j = choose|j: int|
            0 <= j < self.player_task_queue[b].len() && (
            #[trigger] self.player_task_queue[b][j]).task == task;
        assert(self.player_task_queue[a][i].task == self.player_task_queue[b][j].task);
    }

    /// A request for an order is made by the resident whose queue holds it.
    pub(crate) proof fn lemma_requester_holds(self, i: int, resident: SimId, task: PlayerTaskId)
        requires
            self.valid(),
            self.holds(resident, task),
            0 <= i < self.use_requests.len(),
            self.use_requests[i].player_task == Some(task),
        ensures
            self.use_requests[i].resident == resident,
            !self.walks_on_order(resident),
            !self.active_object_uses.contains_key(resident),
    {
        let requester = self.use_requests[i].resident;
        assert(self.leads(requester, task));
        assert(self.player_task_queue[requester][0].task == task);
        assert(self.holds(requester, task));
        self.lemma_one_holder(requester, resident, task);
    }

    /// An order that leads a queue is in progress and held there.
    pub(crate) proof fn lemma_leader(self, resident: SimId, task: PlayerTaskId)
        requires
            self.valid(),
            self.leads(resident, task),
        ensures
            self.holds(resident, task),
            self.is_live_order(task),
    {
        assert(self.player_task_queue[resident][0].task == task);
    }

    /// An order may be withdrawn wherever it has got to.
    pub(crate) proof fn lemma_withdraw_valid(self, resident: SimId, task: PlayerTaskId, order: QueuedOrder)
        requires
            self.valid(),
            self.holds(resident, task),
        ensures
            self.withdraw(resident, task, order).valid(),
    {
        let cancelled = PlayerTaskState::Cancelled;
        if self.walks_for(resident, task) {
            let halted = self.halt(resident);
            self.lemma_halt_valid(resident);
            assert(self.walks_on_order(resident));
            assert(!self.uses_on_order(resident));
            assert(!halted.requests_for(task)) by {
                if halted.requests_for(task) {
                    let i = choose|i: int|
                        0 <= i < halted.use_requests.len() && (
                        #[trigger] halted.use_requests[i]).player_task == Some(task);
                    self.lemma_requester_holds(i, resident, task);
                }
            }
            assert(halted.holds(resident, task));
            halted.lemma_finish_valid(resident, task, cancelled);
            let ended = halted.finish(resident, task, cancelled);
            ended.lemma_emit_valid(
                WorldEventKind::GoToCancelled {
                    task,
                    resident,
                    destination: self.go_to[resident].destination,
                },
            );
        } else if self.uses_for(resident, task) {
            let released = self.release(resident);
            self.lemma_release_valid(resident);
            assert(!released.requests_for(task)) by {
                if released.requests_for(task) {
                    let i = choose|i: int|
                        0 <= i < released.use_requests.len() && (
                        #[trigger] released.use_requests[i]).player_task == Some(task);
                    self.lemma_requester_holds(i, resident, task);
                }
            }
            assert(released.holds(resident, task));
            released.lemma_finish_valid(resident, task, cancelled);
            let ended = released.finish(resident, task, cancelled);
            ended.lemma_emit_valid(
                WorldEventKind::TaskCancelled {
                    task,
                    resident,
                    object: self.active_object_uses[resident].object,
                    affordance: self.active_object_uses[resident].affordance,
                },
            );
        } else if self.requests_for(task) {
            let p = request_for(task);
            let k = lemma_first_index(self.use_requests, p);
            lemma_without_first_at(self.use_requests, p, k);
            lemma_first_where_at(self.use_requests, p, k);
            let dropped = Village { use_requests: self.use_requests.remove(k), ..self };
            self.lemma_drop_request_valid(k);
            self.lemma_requester_holds(k, resident, task);
            assert(!dropped.requests_for(task)) by {
                if dropped.requests_for(task) {
                    let i = choose|i: int|
                        0 <= i < dropped.use_requests.len() && (
                        #[trigger] dropped.use_requests[i]).player_task == Some(task);
                    let at = if i < k {
                        i
                    } else {
                        i + 1
                    };
                    assert(self.use_requests[at] == dropped.use_requests[i]);
                    self.lemma_requester_holds(at, resident, task);
                    if at < k {
                        assert(self.use_requests[at].resident != self.use_requests[k].resident);
                    } else {
                        assert(self.use_requests[k].resident != self.use_requests[at].resident);
                    }
                }
            }
            assert(dropped.holds(resident, task));
            dropped.lemma_finish_valid(resident, task, cancelled);
            let ended = dropped.finish(resident, task, cancelled);
            ended.lemma_emit_valid(
                WorldEventKind::TaskCancelled {
                    task,
                    resident,
                    object: self.use_requests[k].object,
                    affordance: self.use_requests[k].affordance,
                },
            );
        } else {
            self.lemma_finish_valid(resident, task, cancelled);
            let ended = self.finish(resident, task, cancelled);
            match order {
                QueuedOrder::GoTo { destination, .. } => {
                    ended.lemma_emit_valid(
                        WorldEventKind::GoToCancelled { task, resident, destination },
                    );
                },
                QueuedOrder::UseToilet { object, affordance, .. } => {
                    ended.lemma_emit_valid(
                        WorldEventKind::TaskCancelled { task, resident, object, affordance },
                    );
                },
            }
        }
    }

    /// The holder of an order is the resident whose queue holds it.
    pub proof fn lemma_order_holder(self, task: PlayerTaskId)
        requires
            self.valid(),
        ensures
            match self.order_holder(task) {
                Some(resident) => self.holds(resident, task),
                None => forall|resident: SimId| !#[trigger] self.holds(resident, task),
            },
    {
        let dom = self.player_task_queue.dom();
        let ids = in_order::<SimId>(dom);
        let p = holds_order(self.player_task_queue, task);
        lemma_in_order_lists::<SimId>(dom);
        lemma_first_where(ids, p);
        match self.order_holder(task) {
            Some(resident) => {
                assert(ids.contains(resident));
                assert(dom.contains(resident));
            },
            None => {
                assert forall|resident: SimId| !#[trigger] self.holds(resident, task) by {
                    if self.player_task_queue.contains_key(resident) {
                        assert(dom.contains(resident));
                        assert(ids.contains(resident));
                        let j = ids.index_of(resident);
                        assert(!p(ids[j]));
                    }
                }
            },
        }
    }

    /// Every command may be ingested.
    pub(crate) proof fn lemma_ingest_valid(self, command: PlayerCommand)
        requires
            self.valid(),
        ensures
            self.ingest(command).valid(),
    {
        match command {
            PlayerCommand::QueueGoTo { task, resident, destination, priority } => {
                let next = self.ingest_go_to(task, resident, destination, priority);
                if self.player_tasks.contains_key(task) {
                    self.lemma_reject_valid(task, PlayerCommandRejection::DuplicateTask);
                } else if !self.residents.contains_key(resident) {
                    self.lemma_reject_valid(task, PlayerCommandRejection::UnknownResident);
                } else if !self.map.spec_is_walkable(destination) {
                    self.lemma_reject_valid(task, PlayerCommandRejection::InvalidMoveTarget);
                } else {
                    let order = QueuedOrder::GoTo { destination, priority };
                    self.lemma_enqueue_valid(resident, QueuedPlayerTask { task, order });
                }
            },
            PlayerCommand::QueueUseToilet { task, resident, object, affordance, priority } => {
                if self.player_tasks.contains_key(task) {
                    self.lemma_reject_valid(task, PlayerCommandRejection::DuplicateTask);
                } else if !self.residents.contains_key(resident) {
                    self.lemma_reject_valid(task, PlayerCommandRejection::UnknownResident);
                } else if !self.is_toilet_target(resident, object@, affordance@) {
                    self.lemma_reject_valid(task, PlayerCommandRejection::InvalidUseTarget);
                } else {
                    let order = QueuedOrder::UseToilet { object, affordance, priority };
                    self.lemma_enqueue_valid(resident, QueuedPlayerTask { task, order });
                }
            },
            PlayerCommand::CancelPlayerTask { task } => {
                self.lemma_order_holder(task);
                if !self.player_tasks.contains_key(task) {
                    self.lemma_reject_valid(task, PlayerCommandRejection::UnknownTask);
                } else if !self.player_tasks[task].is_live() {
                    self.lemma_reject_valid(task, PlayerCommandRejection::TaskNotCancellable);
                } else {
                    match self.order_holder(task) {
                        None => {
                            self.lemma_reject_valid(task, PlayerCommandRejection::UnknownTask);
                        },
                        Some(resident) => {
                            let kind = WorldEventKind::PlayerCommandAccepted { task };
                            self.lemma_emit_valid(kind);
                            assert(self.emit(kind).holds(resident, task));
                            self.emit(kind).lemma_withdraw_valid(
                                resident,
                                task,
                                self.order_in_queue(resident, task),
                            );
                        },
                    }
                }
            },
        }
    }

    pub(crate) proof fn lemma_reject_valid(self, task: PlayerTaskId, reason: PlayerCommandRejection)
        requires
            self.valid(),
        ensures
            self.reject(task, reason).valid(),
    {
        self.lemma_emit_valid(WorldEventKind::PlayerCommandRejected { task, reason });
    }

    pub(crate) proof fn lemma_ingest_all_valid(self, commands: Seq<PlayerCommand>)
        requires
            self.valid(),
        ensures
            self.ingest_all(commands).valid(),
        decreases commands.len(),
    {
        if commands.len() > 0 {
            self.lemma_ingest_all_valid(commands.drop_last());
            self.ingest_all(commands.drop_last()).lemma_ingest_valid(commands.last());
        }
    }

    /// A queue head may be dispatched.
    pub(crate) proof fn lemma_dispatch_valid(self, resident: SimId)
        requires
            self.valid(),
        ensures
            self.dispatch(resident).valid(),
    {
        if !self.urgent_toilet_intentions.contains(resident) && self.has_queue(resident) {
            let head = self.player_task_queue[resident][0];
            if !self.is_dispatched(resident, head.task) && self.slot_free(resident) {
                self.lemma_leader(resident, head.task);
                match head.order {
                    QueuedOrder::GoTo { destination, priority } => {
                        let next = self.set_out(
                            resident,
                            destination,
                            priority as i64,
                            ActionBand::Player,
                            Some(head.task),
                        );
                        self.lemma_set_out_valid(
                            resident,
                            destination,
                            priority as i64,
                            ActionBand::Player,
                            Some(head.task),
                        );
                        assert(next.is_live_order(head.task));
                        next.lemma_mark_valid(head.task, PlayerTaskState::Active);
                    },
                    QueuedOrder::UseToilet { object, affordance, priority } => {
                        let request = UseRequest {
                            resident,
                            object,
                            affordance,
                            priority: priority as i64,
                            band: ActionBand::Player,
                            request_age: self.tick,
                            player_task: Some(head.task),
                        };
                        self.lemma_request_valid(request);
                        let next = self.request(request);
                        assert(next.is_live_order(head.task));
                        next.lemma_mark_valid(head.task, PlayerTaskState::Queued);
                    },
                }
            }
        }
    }

    pub(crate) proof fn lemma_dispatch_all_valid(self, residents: Seq<SimId>)
        requires
            self.valid(),
        ensures
            self.dispatch_all(residents).valid(),
        decreases residents.len(),
    {
        if residents.len() > 0 {
            self.lemma_dispatch_all_valid(residents.drop_last());
            self.dispatch_all(residents.drop_last()).lemma_dispatch_valid(residents.last());
        }
    }

    // -- Needs and intentions ----------------------------------------------

    /// The order in execution may be paused.
    pub(crate) proof fn lemma_pause_valid(self, resident: SimId)
        requires
            self.valid(),
        ensures
            self.pause_player_order(resident).valid(),
    {
        let paused = PlayerTaskState::Paused;
        if self.walks_on_order(resident) {
            let task = self.go_to[resident].player_task->0;
            self.lemma_leader(resident, task);
            self.lemma_halt_valid(resident);
            assert(self.halt(resident).is_live_order(task));
            self.halt(resident).lemma_mark_valid(task, paused);
        } else if self.uses_on_order(resident) {
            let task = self.active_object_uses[resident].player_task->0;
            self.lemma_leader(resident, task);
            self.lemma_release_valid(resident);
            assert(self.release(resident).is_live_order(task));
            self.release(resident).lemma_mark_valid(task, paused);
        } else {
            let p = player_request_of(resident);
            lemma_first_where(self.use_requests, p);
            if first_where(self.use_requests, p) is Some {
                let request = first_where(self.use_requests, p)->0;
                let i = choose|i: int|
                    0 <= i < self.use_requests.len() && self.use_requests[i] == request;
                assert(p(self.use_requests[i]));
                let k = lemma_first_index(self.use_requests, p);
                lemma_without_first_at(self.use_requests, p, k);
                lemma_first_where_at(self.use_requests, p, k);
                let task = self.use_requests[k].player_task->0;
                assert(self.use_requests[k].player_task is Some);
                self.lemma_leader(resident, task);
                self.lemma_drop_request_valid(k);
                let dropped = Village { use_requests: self.use_requests.remove(k), ..self };
                assert(dropped.is_live_order(task));
                dropped.lemma_mark_valid(task, paused);
            }
        }
    }

    /// A plan may be driven.
    pub(crate) proof fn lemma_drive_valid(self, resident: SimId, plan: ToiletPlan, band: ActionBand)
        requires
            self.valid(),
        ensures
            self.drive(resident, plan, band).valid(),
    {
        let destination = self.objects[plan.object@].position;
        self.lemma_set_out_valid(resident, destination, plan.priority, band, None);
        self.lemma_request_valid(
            UseRequest {
                resident,
                object: plan.object,
                affordance: plan.affordance,
                priority: plan.priority,
                band,
                request_age: self.tick,
                player_task: None,
            },
        );
    }

    /// A resident with a need may choose.
    pub(crate) proof fn lemma_choose_plan_valid(self, resident: SimId)
        requires
            self.valid(),
            self.toilet_needs.contains_key(resident),
        ensures
            self.choose_plan(resident).valid(),
            self.choose_plan(resident).toilet_needs == self.toilet_needs,
    {
        let plan = self.autonomous_toilet_plans[resident];
        if !self.intends(resident) {
            let next = self.choose_plan(resident);
            self.lemma_sound_frame(next);
            self.lemma_unmoved(next);
        } else {
            let minded = self.minded(resident);
            self.lemma_sound_frame(minded);
            self.lemma_unmoved(minded);
            if self.urges(resident) {
                if !minded.engaged_with(resident, plan) {
                    minded.lemma_pause_valid(resident);
                    minded.pause_player_order(resident).lemma_drive_valid(
                        resident,
                        plan,
                        ActionBand::Urgent,
                    );
                } else {
                    minded.lemma_drive_valid(resident, plan, ActionBand::Urgent);
                }
            } else {
                minded.lemma_drive_valid(resident, plan, ActionBand::Autonomous);
            }
        }
    }

    pub(crate) proof fn lemma_choose_all_valid(self, residents: Seq<SimId>)
        requires
            self.valid(),
            forall|i: int|
                0 <= i < residents.len() ==> self.toilet_needs.contains_key(#[trigger] residents[i]),
        ensures
            self.choose_all(residents).valid(),
            self.choose_all(residents).toilet_needs == self.toilet_needs,
        decreases residents.len(),
    {
        if residents.len() > 0 {
            let rest = residents.drop_last();
            assert forall|i: int| 0 <= i < rest.len() implies self.toilet_needs.contains_key(
                #[trigger] rest[i],
            ) by {
                assert(rest[i] == residents[i]);
            }
            self.lemma_choose_all_valid(rest);
            assert(self.toilet_needs.contains_key(residents[residents.len() - 1]));
            self.choose_all(rest).lemma_choose_plan_valid(residents.last());
        }
    }

    pub(crate) proof fn lemma_live_valid(self)
        requires
            self.valid(),
        ensures
            self.live().valid(),
    {
        let grown = self.age_needs();
        assert(grown.toilet_needs.dom() =~= self.toilet_needs.dom());
        self.lemma_sound_frame(grown);
        self.lemma_unmoved(grown);
        let ids = in_order::<SimId>(grown.toilet_needs.dom());
        lemma_in_order_lists::<SimId>(grown.toilet_needs.dom());
        assert forall|i: int| 0 <= i < ids.len() implies grown.toilet_needs.contains_key(
            #[trigger] ids[i],
        ) by {
            assert(ids.contains(ids[i]));
        }
        grown.lemma_choose_all_valid(ids);
    }

    // -- Movement ----------------------------------------------------------

    /// Where only tiles, portals and the walk of nobody changes, orders,
    /// requests and claims stand.
    pub(crate) proof fn lemma_moved(self, next: Village)
        requires
            self.valid(),
            next.residents.dom() == self.residents.dom(),
            next.tiles_kept(),
            next.portals_kept(),
            next.walks_kept(),
            next.objects == self.objects,
            next.go_to == self.go_to,
            next.use_requests == self.use_requests,
            next.active_object_uses == self.active_object_uses,
            next.toilet_needs == self.toilet_needs,
            next.autonomous_toilet_plans == self.autonomous_toilet_plans,
            next.autonomous_toilet_intentions == self.autonomous_toilet_intentions,
            next.urgent_toilet_intentions == self.urgent_toilet_intentions,
            next.player_tasks == self.player_tasks,
            next.player_task_queue == self.player_task_queue,
            next.object_slot_claims == self.object_slot_claims,
            next.capability_claims == self.capability_claims,
            next.ledger == self.ledger,
            next.ingest_from == self.ingest_from,
            next.ingest_to == self.ingest_to,
        ensures
            next.valid(),
    {
        self.lemma_sound_frame(next);
        self.lemma_queued_frame(next);
        self.lemma_heads_frame(next);
        assert forall|resident: SimId| #[trigger]
            next.player_task_queue.contains_key(resident) implies next.residents.contains_key(
            resident,
        ) by {
            assert(self.player_task_queue.contains_key(resident));
            assert(self.residents.dom().contains(resident));
        }
        assert(next.requests_kept()) by {
            assert forall|i: int|
                #![trigger next.use_requests[i]]
                0 <= i < next.use_requests.len() implies {
                &&& next.residents.contains_key(next.use_requests[i].resident)
                &&& !next.active_object_uses.contains_key(next.use_requests[i].resident)
                &&& next.affordance(
                    next.use_requests[i].object@,
                    next.use_requests[i].affordance@,
                ) is Some
            } by {
                assert(self.residents.dom().contains(self.use_requests[i].resident));
            }
        }
        assert(next.claims_kept()) by {
            assert forall|r: SimId| #[trigger]
                next.active_object_uses.contains_key(r) implies next.residents.contains_key(r) by {
                assert(self.active_object_uses.contains_key(r));
                assert(self.residents.dom().contains(r));
            }
        }
    }

    /// A resident may change tile.
    pub(crate) proof fn lemma_relocate_valid(
        self,
        resident: SimId,
        origin: TilePosition,
        destination: TilePosition,
    )
        requires
            self.valid(),
            self.position_of(resident) == Some(origin),
            !self.go_to.contains_key(resident),
        ensures
            self.relocate(resident, origin, destination).valid(),
    {
        let next = self.relocate(resident, origin, destination);
        assert(next.residents.dom() =~= self.residents.dom());
        assert forall|tile: TilePosition| #[trigger]
            next.occupancy.contains_key(tile) implies next.position_of(next.occupancy[tile])
            == Some(tile) by {
            if tile != destination {
                assert(self.occupancy.contains_key(tile));
                assert(self.position_of(self.occupancy[tile]) == Some(tile));
            }
        }
        self.lemma_moved(next);
    }

    /// A walk may end with its order.
    pub(crate) proof fn lemma_finish_walk_valid(
        self,
        resident: SimId,
        order: Option<PlayerTaskId>,
        destination: TilePosition,
    )
        requires
            self.valid(),
            self.may_walk_for(resident, order, destination),
            !self.go_to.contains_key(resident),
        ensures
            self.finish_if_ordered(resident, order, PlayerTaskState::Completed).valid(),
    {
        if order is Some {
            let task = order->0;
            self.lemma_leader(resident, task);
            assert(!self.requests_for(task)) by {
                if self.requests_for(task) {
                    let i = choose|i: int|
                        0 <= i < self.use_requests.len() && (
                        #[trigger] self.use_requests[i]).player_task == Some(task);
                    self.lemma_requester_holds(i, resident, task);
                }
            }
            assert(!self.uses_on_order(resident));
            self.lemma_finish_valid(resident, task, PlayerTaskState::Completed);
        }
    }

    pub(crate) proof fn lemma_arrive_or_continue_valid(self, resident: SimId, walk: GoToView)
        requires
            self.valid(),
            self.residents.contains_key(resident),
            self.may_walk_for(resident, walk.player_task, walk.destination),
            !self.go_to.contains_key(resident),
            self.walk_kept(resident, walk),
            walk.traversal is None,
            walk.next_step >= 0,
        ensures
            self.arrive_or_continue(resident, walk).valid(),
    {
        if self.position_of(resident) == Some(walk.destination) {
            self.lemma_arrive_valid(resident, walk);
        } else {
            self.lemma_keep_walking_valid(resident, walk);
        }
    }

    pub(crate) proof fn lemma_arrive_valid(self, resident: SimId, walk: GoToView)
        requires
            self.valid(),
            self.may_walk_for(resident, walk.player_task, walk.destination),
            !self.go_to.contains_key(resident),
        ensures
            self.arrive(resident, walk).valid(),
            self.give_up(resident, walk).valid(),
    {
        let ended = self.finish_if_ordered(resident, walk.player_task, PlayerTaskState::Completed);
        self.lemma_finish_walk_valid(resident, walk.player_task, walk.destination);
        ended.lemma_emit_valid(
            WorldEventKind::GoToArrived { resident, destination: walk.destination },
        );
        ended.lemma_emit_valid(
            WorldEventKind::GoToFailed { resident, destination: walk.destination },
        );
    }

    /// A walking resident may walk for what it walks for.
    pub(crate) proof fn lemma_walker_may_walk(self, resident: SimId)
        requires
            self.valid(),
            self.go_to.contains_key(resident),
        ensures
            self.may_walk_for(
                resident,
                self.go_to[resident].player_task,
                self.go_to[resident].destination,
            ),
    {
        if self.go_to[resident].player_task is Some {
            assert(self.walks_on_order(resident));
            assert forall|i: int|
                0 <= i < self.use_requests.len() && (#[trigger] self.use_requests[i]).resident
                    == resident implies self.use_requests[i].player_task is None by {
                if self.use_requests[i].player_task is Some {
                    assert(!self.walks_on_order(self.use_requests[i].resident));
                }
            }
        }
    }

    /// A resident may take part in a tick of movement.
    pub(crate) proof fn lemma_walk_valid(self, resident: SimId)
        requires
            self.valid(),
        ensures
            self.walk(resident).valid(),
    {
        if self.go_to.contains_key(resident) {
            let walk = self.go_to[resident];
            let halted = self.halt(resident);
            let origin = self.residents[resident].position;
            self.lemma_halt_valid(resident);
            self.lemma_walker_may_walk(resident);
            assert(halted.may_walk_for(resident, walk.player_task, walk.destination)) by {
                if walk.player_task is Some {
                    assert(self.leads(resident, walk.player_task->0));
                    assert(!self.uses_on_order(resident));
                    assert forall|i: int|
                        0 <= i < halted.use_requests.len() && (
                        #[trigger] halted.use_requests[i]).resident
                            == resident implies halted.use_requests[i].player_task is None by {
                        assert(self.use_requests[i].resident == resident);
                    }
                }
            }
            match walk.traversal {
                Some(traversal) => {
                    halted.lemma_cross_valid(resident, walk, traversal);
                },
                None => {
                    halted.lemma_arrive_valid(resident, walk);
                    match walk.target() {
                        None => {},
                        Some(next) => {
                            halted.lemma_go_around_valid(resident, walk, next);
                            halted.lemma_step_valid(resident, walk, next);
                        },
                    }
                },
            }
        }
    }

    /// What lets a resident walk depends on queues, uses and requests alone.
    pub(crate) proof fn lemma_may_walk_frame(
        self,
        next: Village,
        resident: SimId,
        order: Option<PlayerTaskId>,
        destination: TilePosition,
    )
        requires
            self.may_walk_for(resident, order, destination),
            next.player_task_queue == self.player_task_queue,
            next.active_object_uses == self.active_object_uses,
            next.use_requests == self.use_requests,
        ensures
            next.may_walk_for(resident, order, destination),
    {
        if order is Some {
            assert(self.leads(resident, order->0));
            assert(!self.uses_on_order(resident));
        }
    }

    pub(crate) proof fn lemma_cross_valid(self, resident: SimId, walk: GoToView, traversal: PortalTraversal)
        requires
            self.valid(),
            self.residents.contains_key(resident),
            self.may_walk_for(resident, walk.player_task, walk.destination),
            !self.go_to.contains_key(resident),
            walk.traversal == Some(traversal),
            walk.target() is Some,
            self.walk_kept(resident, walk),
            self.portal_occupancy.contains_key(traversal.portal@),
            self.portal_occupancy[traversal.portal@] == resident,
        ensures
            self.cross(resident, walk, traversal).valid(),
    {
        let left = less(traversal.ticks_remaining, 1);
        if left == 0 {
            let out = Village {
                portal_occupancy: self.portal_occupancy.remove(traversal.portal@),
                ..self
            };
            assert(out.portals_kept());
            self.lemma_moved(out);
            let origin = self.residents[resident].position;
            out.lemma_relocate_valid(resident, origin, traversal.destination);
            let there = out.relocate(resident, origin, traversal.destination);
            self.lemma_may_walk_frame(there, resident, walk.player_task, walk.destination);
            there.lemma_arrive_or_continue_valid(
                resident,
                GoToView { traversal: None, next_step: walk.next_step + 1, ..walk },
            );
        } else {
            self.lemma_keep_walking_valid(
                resident,
                GoToView {
                    traversal: Some(PortalTraversal { ticks_remaining: left, ..traversal }),
                    ..walk
                },
            );
        }
    }

    pub(crate) proof fn lemma_go_around_valid(self, resident: SimId, walk: GoToView, next: TilePosition)
        requires
            self.valid(),
            self.residents.contains_key(resident),
            self.may_walk_for(resident, walk.player_task, walk.destination),
            self.walk_kept(resident, walk),
            walk.traversal is None,
            walk.next_step >= 0,
        ensures
            self.go_around(resident, walk, next).valid(),
    {
        match self.live_route(resident, self.residents[resident].position, walk.destination) {
            Some(path) => {
                let journey = Journey {
                    map: self.map,
                    closed: self.kept_clear(resident),
                    origin: self.residents[resident].position,
                    destination: walk.destination,
                };
                self.lemma_route_kept(
                    resident,
                    journey,
                    GoToView { path, next_step: 1, ..walk },
                );
                self.lemma_keep_walking_valid(resident, GoToView { path, next_step: 1, ..walk });
            },
            None => {
                self.lemma_wait_valid(resident, walk, self.occupancy[next], next);
            },
        }
    }

    pub(crate) proof fn lemma_wait_valid(
        self,
        resident: SimId,
        walk: GoToView,
        blocked_by: SimId,
        position: TilePosition,
    )
        requires
            self.valid(),
            self.residents.contains_key(resident),
            self.may_walk_for(resident, walk.player_task, walk.destination),
            self.walk_kept(resident, walk),
            walk.traversal is None,
            walk.next_step >= 0,
        ensures
            self.wait_for(resident, blocked_by, position).keep_walking(resident, walk).valid(),
    {
        let kind = WorldEventKind::GoToWaited { resident, blocked_by, position };
        self.lemma_emit_valid(kind);
        self.lemma_may_walk_frame(
            self.emit(kind),
            resident,
            walk.player_task,
            walk.destination,
        );
        self.emit(kind).lemma_keep_walking_valid(resident, walk);
    }

    pub(crate) proof fn lemma_step_valid(self, resident: SimId, walk: GoToView, next: TilePosition)
        requires
            self.valid(),
            self.residents.contains_key(resident),
            self.may_walk_for(resident, walk.player_task, walk.destination),
            !self.go_to.contains_key(resident),
            self.walk_kept(resident, walk),
            walk.traversal is None,
            walk.target() == Some(next),
        ensures
            self.step(resident, walk, next).valid(),
    {
        let origin = self.residents[resident].position;
        match self.map.spec_portal_between(origin, next) {
            Some(portal) => {
                if self.portal_occupancy.contains_key(portal.id@) {
                    self.lemma_wait_valid(
                        resident,
                        walk,
                        self.portal_occupancy[portal.id@],
                        next,
                    );
                } else {
                    let inside = Village {
                        portal_occupancy: self.portal_occupancy.insert(portal.id@, resident),
                        ..self
                    };
                    assert(inside.portals_kept());
                    self.lemma_moved(inside);
                    self.lemma_may_walk_frame(inside, resident, walk.player_task, walk.destination);
                    inside.lemma_keep_walking_valid(
                        resident,
                        GoToView {
                            traversal: Some(
                                PortalTraversal {
                                    portal: portal.id,
                                    destination: next,
                                    ticks_remaining: at_least_one(portal.traversal_ticks),
                                },
                            ),
                            ..walk
                        },
                    );
                }
            },
            None => {
                self.lemma_relocate_valid(resident, origin, next);
                let there = self.relocate(resident, origin, next);
                self.lemma_may_walk_frame(there, resident, walk.player_task, walk.destination);
                there.lemma_arrive_or_continue_valid(
                    resident,
                    GoToView { next_step: walk.next_step + 1, ..walk },
                );
            },
        }
    }

    pub(crate) proof fn lemma_walk_all_valid(self, residents: Seq<SimId>)
        requires
            self.valid(),
        ensures
            self.walk_all(residents).valid(),
        decreases residents.len(),
    {
        if residents.len() > 0 {
            self.lemma_walk_all_valid(residents.drop_last());
            self.walk_all(residents.drop_last()).lemma_walk_valid(residents.last());
        }
    }

    pub(crate) proof fn lemma_follow_all_valid(self, before: Village, residents: Seq<SimId>)
        requires
            self.valid(),
        ensures
            self.follow_all(before, residents).valid(),
        decreases residents.len(),
    {
        if residents.len() > 0 {
            let rest = residents.drop_last();
            self.lemma_follow_all_valid(before, rest);
            let village = self.follow_all(before, rest);
            let resident = residents.last();
            village.lemma_walk_valid(resident);
            match before.claim(resident) {
                Some(claim) => {
                    village.lemma_emit_valid(
                        WorldEventKind::GoToWaited {
                            resident,
                            blocked_by: before.winner_over(resident),
                            position: claim.target,
                        },
                    );
                },
                None => {},
            }
        }
    }

    // -- Object use --------------------------------------------------------

    pub(crate) proof fn lemma_recover_valid(self, resident: SimId)
        requires
            self.valid(),
        ensures
            self.recover(resident).valid(),
    {
        if self.toilet_needs.contains_key(resident) {
            let next = self.recover(resident);
            assert(next.toilet_needs.dom() =~= self.toilet_needs.dom());
            self.lemma_sound_frame(next);
            self.lemma_unmoved(next);
        }
    }

    pub(crate) proof fn lemma_progress_valid(self, resident: SimId)
        requires
            self.valid(),
            self.active_object_uses.contains_key(resident),
        ensures
            self.progress(resident).valid(),
    {
        let active = self.active_object_uses[resident];
        let left = less(active.ticks_remaining, 1);
        if left == 0 {
            let released = self.release(resident);
            self.lemma_release_valid(resident);
            let done = released.finish_if_ordered(
                resident,
                active.player_task,
                PlayerTaskState::Completed,
            );
            if active.player_task is Some {
                let task = active.player_task->0;
                assert(self.uses_on_order(resident));
                self.lemma_leader(resident, task);
                assert(!released.requests_for(task)) by {
                    if released.requests_for(task) {
                        let i = choose|i: int|
                            0 <= i < released.use_requests.len() && (
                            #[trigger] released.use_requests[i]).player_task == Some(task);
                        self.lemma_requester_holds(i, resident, task);
                    }
                }
                assert(!released.walks_for(resident, task)) by {
                    if released.walks_for(resident, task) {
                        assert(self.walks_on_order(resident));
                    }
                }
                assert(released.holds(resident, task));
                released.lemma_finish_valid(resident, task, PlayerTaskState::Completed);
            }
            let kind = WorldEventKind::ObjectUseCompleted {
                resident,
                object: active.object,
                affordance: active.affordance,
            };
            done.lemma_emit_valid(kind);
            done.emit(kind).lemma_recover_valid(resident);
        } else {
            let next = self.progress(resident);
            self.lemma_sound_frame(next);
            self.lemma_queued_frame(next);
            assert(next.active_object_uses.dom() =~= self.active_object_uses.dom());
            assert(next.heads_executed()) by {
                assert forall|r: SimId| #[trigger] next.walks_on_order(r) implies next.leads_walking(r) && !next.uses_on_order(r) by {
                    assert(self.walks_on_order(r));
                    assert(!self.uses_on_order(r));
                }
                assert forall|r: SimId| #[trigger] next.uses_on_order(r) implies next.leads_using(r) by {
                    assert(self.uses_on_order(r));
                }
                assert forall|i: int|
                    0 <= i < next.use_requests.len() && (
                    #[trigger] next.use_requests[i]).player_task is Some implies next.leads_asking(next.use_requests[i]) && !next.walks_on_order(next.use_requests[i].resident) by {
                    assert(self.use_requests[i].player_task is Some);
                    assert(!self.walks_on_order(self.use_requests[i].resident));
                }
            }
        }
    }

    pub(crate) proof fn lemma_progress_all_valid(self, residents: Seq<SimId>)
        requires
            self.valid(),
            residents.no_duplicates(),
            forall|i: int|
                0 <= i < residents.len() ==> self.active_object_uses.contains_key(
                    #[trigger] residents[i],
                ),
        ensures
            self.progress_all(residents).valid(),
        decreases residents.len(),
    {
        if residents.len() > 0 {
            let rest = residents.drop_last();
            assert forall|i: int| 0 <= i < rest.len() implies self.active_object_uses.contains_key(
                #[trigger] rest[i],
            ) by {
                assert(rest[i] == residents[i]);
            }
            self.lemma_progress_all_valid(rest);
            assert(self.active_object_uses.contains_key(residents[residents.len() - 1]));
            self.lemma_progress_all_spares(rest, residents.last());
            self.progress_all(rest).lemma_progress_valid(residents.last());
        }
    }

    /// The village with other requests pending.
    pub open spec fn pending_requests(self, requests: Seq<UseRequest>) -> Village {
        Village { use_requests: requests, ..self }
    }

    /// A request that was pending may be granted or wait on.
    pub(crate) proof fn lemma_grant_valid(self, request: UseRequest, rest: Seq<UseRequest>)
        requires
            self.pending_requests(self.use_requests + (seq![request] + rest)).valid(),
        ensures
            self.grant(request).pending_requests(self.grant(request).use_requests + rest).valid(),
    {
        let all = self.use_requests + (seq![request] + rest);
        let k = self.use_requests.len() as int;
        let whole = self.pending_requests(all);
        assert(all[k] == request);
        assert(all.remove(k) =~= self.use_requests + rest);
        whole.lemma_drop_request_valid(k);
        let without = self.pending_requests(self.use_requests + rest);
        assert(whole.affordance(request.object@, request.affordance@) is Some);
        let affordance = self.affordance(request.object@, request.affordance@)->0;
        match self.blocker(request, affordance) {
            Some(blocked_by) => {
                let kind = WorldEventKind::ObjectUseWaited {
                    resident: request.resident,
                    object: request.object,
                    affordance: request.affordance,
                    blocked_by,
                };
                whole.lemma_emit_valid(kind);
                let next = self.grant(request);
                assert(next.use_requests + rest =~= all);
                assert(next.pending_requests(next.use_requests + rest) =~= whole.emit(kind));
            },
            None => {
                assert forall|i: int| 0 <= i < without.use_requests.len() implies (
                #[trigger] without.use_requests[i]).resident != request.resident by {
                    let at = if i < k {
                        i
                    } else {
                        i + 1
                    };
                    assert(without.use_requests[i] == all[at]);
                    if at < k {
                        assert(all[at].resident != all[k].resident);
                    } else {
                        assert(all[k].resident != all[at].resident);
                    }
                }
                if request.player_task is Some {
                    assert(all[k].player_task is Some);
                    assert(whole.leads_asking(request));
                    assert(!whole.walks_on_order(request.resident));
                }
                assert(!whole.active_object_uses.contains_key(all[k].resident));
                assert(whole.residents.contains_key(all[k].resident));
                without.lemma_start_use_valid(request, affordance);
                let started = without.started(request, affordance);
                let marked = match request.player_task {
                    Some(task) => started.mark(task, PlayerTaskState::Active),
                    None => started,
                };
                if request.player_task is Some {
                    let task = request.player_task->0;
                    assert(without.leads(request.resident, task));
                    without.lemma_leader(request.resident, task);
                    assert(started.is_live_order(task));
                    started.lemma_mark_valid(task, PlayerTaskState::Active);
                }
                let kind = WorldEventKind::ObjectUseStarted {
                    resident: request.resident,
                    object: request.object,
                    affordance: request.affordance,
                };
                marked.lemma_emit_valid(kind);
                let next = self.grant(request);
                assert(next.pending_requests(next.use_requests + rest) =~= marked.emit(kind));
            },
        }
    }

    /// A use may begin where its slot and capability are free.
    pub(crate) proof fn lemma_start_use_valid(
        self,
        request: UseRequest,
        affordance: ObjectAffordanceDefinition,
    )
        requires
            self.valid(),
            self.residents.contains_key(request.resident),
            !self.active_object_uses.contains_key(request.resident),
            self.blocker(request, affordance) is None,
            forall|i: int|
                0 <= i < self.use_requests.len() ==> (#[trigger] self.use_requests[i]).resident
                    != request.resident,
            request.player_task is Some ==> self.leads_asking(request) && !self.walks_on_order(request.resident),
        ensures
            self.started(request, affordance).valid(),
    {
        let next = self.started(request, affordance);
        let resident = request.resident;
        self.lemma_sound_frame(next);
        self.lemma_queued_frame(next);
        assert(next.heads_executed()) by {
            assert forall|r: SimId| #[trigger] next.walks_on_order(r) implies next.leads_walking(r) && !next.uses_on_order(r) by {
                assert(self.walks_on_order(r));
                assert(!self.uses_on_order(r));
            }
            assert forall|r: SimId| #[trigger] next.uses_on_order(r) implies next.leads_using(r) by {
                if r != resident {
                    assert(self.uses_on_order(r));
                }
            }
            assert forall|i: int|
                0 <= i < next.use_requests.len() && (#[trigger] next.use_requests[i]).player_task
                    is Some implies next.leads_asking(next.use_requests[i]) && !next.walks_on_order(next.use_requests[i].resident) by {
                assert(self.use_requests[i].player_task is Some);
                assert(!self.walks_on_order(self.use_requests[i].resident));
            }
        }
        assert(next.claims_kept()) by {
            let slot_key = (request.object@, affordance.slot@);
            assert forall|r: SimId| #[trigger] next.active_object_uses.contains_key(r) implies {
                let active = next.active_object_uses[r];
                &&& next.residents.contains_key(r)
                &&& active.ticks_remaining >= 1
                &&& next.object_slot_claims.contains_key((active.object@, active.slot@))
                &&& next.object_slot_claims[(active.object@, active.slot@)] == r
                &&& next.capability_claims.contains_key((r, active.capability))
                &&& next.capability_claims[(r, active.capability)] == active.object@
            } by {
                if r != resident {
                    assert(self.active_object_uses.contains_key(r));
                }
            }
            assert forall|key: (Seq<char>, Seq<char>)| #[trigger]
                next.object_slot_claims.contains_key(key) implies {
                let r = next.object_slot_claims[key];
                &&& next.active_object_uses.contains_key(r)
                &&& next.active_object_uses[r].object@ == key.0
                &&& next.active_object_uses[r].slot@ == key.1
            } by {
                if key != slot_key {
                    assert(self.object_slot_claims.contains_key(key));
                }
            }
            assert forall|key: (SimId, Capability)| #[trigger]
                next.capability_claims.contains_key(key) implies {
                &&& next.active_object_uses.contains_key(key.0)
                &&& next.active_object_uses[key.0].capability == key.1
            } by {
                if key != (resident, affordance.capability) {
                    assert(self.capability_claims.contains_key(key));
                }
            }
        }
    }

    pub(crate) proof fn lemma_grant_all_valid(self, requests: Seq<UseRequest>, n: int)
        requires
            self.use_requests.len() == 0,
            self.pending_requests(requests).valid(),
            0 <= n <= requests.len(),
        ensures
            ({
                let served = self.grant_all(requests.take(n));
                served.pending_requests(served.use_requests + requests.skip(n)).valid()
            }),
        decreases n,
    {
        if n == 0 {
            assert(requests.take(0) =~= Seq::<UseRequest>::empty());
            assert(self.use_requests + requests.skip(0) =~= requests);
        } else {
            self.lemma_grant_all_valid(requests, n - 1);
            let served = self.grant_all(requests.take(n - 1));
            assert(requests.take(n).drop_last() =~= requests.take(n - 1));
            assert(requests.take(n).last() == requests[n - 1]);
            assert(seq![requests[n - 1]] + requests.skip(n) =~= requests.skip(n - 1));
            served.lemma_grant_valid(requests[n - 1], requests.skip(n));
        }
    }

    /// Requests may be served in another order.
    pub(crate) proof fn lemma_ranked_valid(self)
        requires
            self.valid(),
        ensures
            self.pending_requests(ranked(self.use_requests)).valid(),
    {
        let next = self.pending_requests(ranked(self.use_requests));
        lemma_ranked_lists(self.use_requests);
        assert forall|i: int|
            #![trigger next.use_requests[i]]
            0 <= i < next.use_requests.len() implies self.use_requests.contains(
            next.use_requests[i],
        ) by {
            assert(next.use_requests.contains(next.use_requests[i]));
        }
        self.lemma_sound_frame(next);
        self.lemma_queued_frame(next);
        assert(next.heads_executed()) by {
            assert forall|r: SimId| #[trigger] next.walks_on_order(r) implies next.leads_walking(r) && !next.uses_on_order(r) by {
                assert(self.walks_on_order(r));
                assert(!self.uses_on_order(r));
            }
            assert forall|r: SimId| #[trigger] next.uses_on_order(r) implies next.leads_using(r) by {
                assert(self.uses_on_order(r));
            }
            assert forall|i: int|
                0 <= i < next.use_requests.len() && (#[trigger] next.use_requests[i]).player_task
                    is Some implies next.leads_asking(next.use_requests[i]) && !next.walks_on_order(next.use_requests[i].resident) by {
                let j = self.use_requests.index_of(next.use_requests[i]);
                assert(self.use_requests[j] == next.use_requests[i]);
                assert(self.use_requests[j].player_task is Some);
                assert(!self.walks_on_order(self.use_requests[j].resident));
            }
        }
        assert(next.requests_kept()) by {
            assert forall|i: int|
                #![trigger next.use_requests[i]]
                0 <= i < next.use_requests.len() implies {
                &&& next.residents.contains_key(next.use_requests[i].resident)
                &&& !next.active_object_uses.contains_key(next.use_requests[i].resident)
                &&& next.affordance(
                    next.use_requests[i].object@,
                    next.use_requests[i].affordance@,
                ) is Some
            } by {
                let j = self.use_requests.index_of(next.use_requests[i]);
                assert(self.use_requests[j] == next.use_requests[i]);
            }
        }
    }

    pub(crate) proof fn lemma_use_objects_valid(self)
        requires
            self.valid(),
        ensures
            self.use_objects().valid(),
    {
        let ids = in_order::<SimId>(self.active_object_uses.dom());
        lemma_in_order_lists::<SimId>(self.active_object_uses.dom());
        assert forall|i: int| 0 <= i < ids.len() implies self.active_object_uses.contains_key(
            #[trigger] ids[i],
        ) by {
            assert(ids.contains(ids[i]));
        }
        self.lemma_progress_all_valid(ids);
        let progressed = self.progress_everyone();
        progressed.lemma_ranked_valid();
        let requests = ranked(progressed.use_requests);
        let start = Village { use_requests: Seq::empty(), ..progressed };
        assert(start.pending_requests(requests) =~= progressed.pending_requests(requests));
        start.lemma_grant_all_valid(requests, requests.len() as int);
        assert(requests.take(requests.len() as int) =~= requests);
        let served = start.grant_all(requests);
        assert(served.use_requests + requests.skip(requests.len() as int) =~= served.use_requests);
        assert(served.pending_requests(served.use_requests) =~= served);
    }

    // -- One tick ----------------------------------------------------------

    /// Whatever is true of a village at every moment is still true a tick
    /// later.
    pub proof fn law_tick_keeps_village_valid(self)
        requires
            self.valid(),
        ensures
            self.advance().valid(),
    {
        let begun = self.begin_tick();
        self.lemma_begin_tick_sound();
        self.lemma_unmoved(begun);
        let emptied = Village { inbox: Seq::empty(), ..begun };
        begun.lemma_sound_frame(emptied);
        begun.lemma_unmoved(emptied);
        emptied.lemma_ingest_all_valid(begun.inbox);
        let ingested = begun.ingest_inbox();
        ingested.lemma_live_valid();
        let lived = ingested.live();
        lived.lemma_dispatch_all_valid(in_order::<SimId>(lived.player_task_queue.dom()));
        let dispatched = lived.dispatch_everyone();
        dispatched.lemma_walk_all_valid(dispatched.approved_walkers());
        dispatched.walk_all(dispatched.approved_walkers()).lemma_follow_all_valid(
            dispatched,
            dispatched.other_walkers(),
        );
        let walked = dispatched.walk_everyone();
        walked.lemma_use_objects_valid();
        let used = walked.use_objects();
        used.lemma_emit_valid(
            WorldEventKind::TickCompleted {
                keyed_marker: mixed(draw_key(used.seed, used.tick, used.tick, 0)),
            },
        );
    }

    /// Submitting a command keeps a village valid.
    pub proof fn law_submitting_keeps_village_valid(self, command: PlayerCommand)
        requires
            self.valid(),
        ensures
            self.submit(command).valid(),
    {
        self.lemma_sound_frame(self.submit(command));
        self.lemma_unmoved(self.submit(command));
    }

    /// Setting a need keeps a village valid.
    pub proof fn law_setting_a_need_keeps_village_valid(self, resident: SimId, value: u8)
        requires
            self.valid(),
        ensures
            self.with_need(resident, value).valid(),
    {
        let needy = self.with_need(resident, value);
        assert(needy.toilet_needs.dom() =~= self.toilet_needs.dom());
        self.lemma_sound_frame(needy);
        self.lemma_unmoved(needy);
    }

    /// Dating a walk's request keeps a village valid.
    pub proof fn law_dating_a_walk_keeps_village_valid(self, resident: SimId, request_age: u64)
        requires
            self.valid(),
        ensures
            self.with_request_age(resident, request_age).valid(),
    {
        if self.go_to.contains_key(resident) {
            self.lemma_walker_may_walk(resident);
            self.lemma_keep_walking_valid(
                resident,
                GoToView { request_age, ..self.go_to[resident] },
            );
        }
    }

    /// Setting out on nobody's order keeps a village valid.
    pub proof fn law_setting_out_keeps_village_valid(
        self,
        resident: SimId,
        destination: TilePosition,
        priority: i64,
        band: ActionBand,
    )
        requires
            self.valid(),
        ensures
            self.set_out(resident, destination, priority, band, None).valid(),
    {
        self.lemma_set_out_valid(resident, destination, priority, band, None);
    }

    /// Asking for an object on nobody's order keeps a village valid.
    pub proof fn law_requesting_keeps_village_valid(self, request: UseRequest)
        requires
            self.valid(),
            request.player_task is None,
        ensures
            self.request(request).valid(),
    {
        self.lemma_request_valid(request);
    }
}

/// Placing a request puts it somewhere among the others.
pub(crate) proof fn lemma_place_inserts(served: Seq<UseRequest>, request: UseRequest) -> (k: int)
    ensures
        0 <= k <= served.len(),
        place(served, request) == served.insert(k, request),
    decreases served.len(),
{
    if served.len() > 0 && request.standing().outranks(served.last().standing()) {
        let k = lemma_place_inserts(served.drop_last(), request);
        assert(served.drop_last().insert(k, request).push(served.last()) =~= served.insert(
            k,
            request,
        ));
        k
    } else {
        let k = served.len() as int;
        assert(served.push(request) =~= served.insert(k, request));
        k
    }
}

/// Ranking lists the same requests, and keeps apart those of different
/// residents.
pub proof fn lemma_ranked_lists(requests: Seq<UseRequest>)
    ensures
        ranked(requests).len() == requests.len(),
        forall|request: UseRequest|
            ranked(requests).contains(request) <==> requests.contains(request),
        (forall|i: int, j: int|
            0 <= i < j < requests.len() ==> (#[trigger] requests[i]).resident != (
            #[trigger] requests[j]).resident) ==> (forall|i: int, j: int|
            0 <= i < j < ranked(requests).len() ==> (#[trigger] ranked(requests)[i]).resident != (
            #[trigger] ranked(requests)[j]).resident),
    decreases requests.len(),
{
    if requests.len() > 0 {
        let rest = requests.drop_last();
        let last = requests.last();
        lemma_ranked_lists(rest);
        let served = ranked(rest);
        let k = lemma_place_inserts(served, last);
        let all = ranked(requests);
        assert(all == served.insert(k, last));
        assert forall|request: UseRequest|
            all.contains(request) <==> requests.contains(request) by {
            if all.contains(request) {
                let i = all.index_of(request);
                if i == k {
                    assert(requests[requests.len() - 1] == request);
                } else {
                    let at = if i < k {
                        i
                    } else {
                        i - 1
                    };
                    assert(served[at] == request);
                    assert(rest.contains(request));
                    let j = rest.index_of(request);
                    assert(requests[j] == request);
                }
            }
            if requests.contains(request) {
                let i = requests.index_of(request);
                if i == requests.len() - 1 {
                    assert(all[k] == request);
                } else {
                    assert(rest[i] == request);
                    assert(rest.contains(request));
                    assert(served.contains(request));
                    let j = served.index_of(request);
                    assert(all[if j < k {
                        j
                    } else {
                        j + 1
                    }] == request);
                }
            }
        }
        if forall|i: int, j: int|
            0 <= i < j < requests.len() ==> (#[trigger] requests[i]).resident != (
            #[trigger] requests[j]).resident {
            assert forall|i: int, j: int| 0 <= i < j < rest.len() implies (
            #[trigger] rest[i]).resident != (#[trigger] rest[j]).resident by {
                assert(rest[i] == requests[i]);
                assert(rest[j] == requests[j]);
            }
            assert forall|i: int| 0 <= i < served.len() implies (
            #[trigger] served[i]).resident != last.resident by {
                assert(served.contains(served[i]));
                assert(rest.contains(served[i]));
                let j = rest.index_of(served[i]);
                assert(requests[j] == served[i]);
                assert(requests[j].resident != requests[requests.len() - 1].resident);
            }
            assert forall|i: int, j: int| 0 <= i < j < all.len() implies (
            #[trigger] all[i]).resident != (#[trigger] all[j]).resident by {
                let at = if i < k {
                    i
                } else {
                    i - 1
                };
                let bt = if j < k {
                    j
                } else {
                    j - 1
                };
                if i != k {
                    assert(all[i] == served[at]);
                }
                if j != k {
                    assert(all[j] == served[bt]);
                }
            }
        }
    }
}

/// Where a request matches, there is a first that matches.
pub(crate) proof fn lemma_first_index(requests: Seq<UseRequest>, p: spec_fn(UseRequest) -> bool) -> (k: int)
    requires
        exists|i: int| 0 <= i < requests.len() && p(#[trigger] requests[i]),
    ensures
        0 <= k < requests.len(),
        p(requests[k]),
        forall|j: int| 0 <= j < k ==> !p(#[trigger] requests[j]),
    decreases requests.len(),
{
    if p(requests[0]) {
        0
    } else {
        let rest = requests.drop_first();
        let i = choose|i: int| 0 <= i < requests.len() && p(#[trigger] requests[i]);
        assert(rest[i - 1] == requests[i]);
        let k = lemma_first_index(rest, p) + 1;
        assert forall|j: int| 0 <= j < k implies !p(#[trigger] requests[j]) by {
            if j > 0 {
                assert(!p(rest[j - 1]));
            }
        }
        assert(requests[k] == rest[k - 1]);
        k
    }
}

/// Where one order of a queue is `task`, the others are what is left without
/// it.
pub(crate) proof fn lemma_filter_is_remove(queue: Seq<QueuedPlayerTask>, k: int, task: PlayerTaskId)
    requires
        0 <= k < queue.len(),
        queue[k].task == task,
        forall|j: int| 0 <= j < queue.len() && j != k ==> (#[trigger] queue[j]).task != task,
    ensures
        queue.filter(is_other_order(task)) == queue.remove(k),
    decreases queue.len(),
{
    reveal(Seq::filter);
    let rest = queue.drop_last();
    if k == queue.len() - 1 {
        lemma_filter_keeps_all(rest, task);
        assert(queue.remove(k) =~= rest);
    } else {
        assert forall|j: int| 0 <= j < rest.len() && j != k implies (
        #[trigger] rest[j]).task != task by {
            assert(rest[j] == queue[j]);
        }
        lemma_filter_is_remove(rest, k, task);
        assert(queue[queue.len() - 1].task != task);
        assert(queue.remove(k) =~= rest.remove(k).push(queue.last()));
    }
}

/// Where no order of a queue is `task`, all of them are left.
pub(crate) proof fn lemma_filter_keeps_all(queue: Seq<QueuedPlayerTask>, task: PlayerTaskId)
    requires
        forall|j: int| 0 <= j < queue.len() ==> (#[trigger] queue[j]).task != task,
    ensures
        queue.filter(is_other_order(task)) == queue,
    decreases queue.len(),
{
    reveal(Seq::filter);
    if queue.len() > 0 {
        let rest = queue.drop_last();
        assert forall|j: int| 0 <= j < rest.len() implies (#[trigger] rest[j]).task != task by {
            assert(rest[j] == queue[j]);
        }
        lemma_filter_keeps_all(rest, task);
        assert(queue[queue.len() - 1].task != task);
        assert(rest.push(queue.last()) =~= queue);
    }
}

} // verus!
