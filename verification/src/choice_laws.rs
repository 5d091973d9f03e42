//! What residents choose to do about their needs.

use vstd::prelude::*;

use crate::arbitration::ActionBand;
use crate::arbitration::UseRequest;
use crate::content::TilePosition;
use crate::identity::PlayerTaskId;
use crate::identity::SimId;
use crate::listing::first_where;
use crate::listing::lemma_first_where;
use crate::listing::lemma_first_where_index;
use crate::ord_map::in_order;
use crate::ord_map::lemma_in_order_lists;
use crate::state::PlayerTaskState;
use crate::state::ToiletPlan;
use crate::village::lemma_without_first_at;
use crate::village::player_request_of;
use crate::village::Village;

verus! {

impl Village {
    // -- What residents are about ------------------------------------------

    /// Whether a resident's need makes it mean to go: it means to already and
    /// the need is above its retention threshold, or the need has reached its
    /// activation threshold.
    pub open spec fn means_to_go(self, resident: SimId) -> bool {
        let need = self.toilet_needs[resident];
        ||| self.autonomous_toilet_intentions.contains(resident) && need.value > need.retain_above
        ||| !self.autonomous_toilet_intentions.contains(resident) && need.value >= need.activate_at
    }

    /// Whether a resident's need presses: it has reached its urgent threshold,
    /// where it has one, or it has pressed before and is still above its
    /// retention threshold.
    pub open spec fn is_pressed(self, resident: SimId) -> bool {
        let need = self.toilet_needs[resident];
        ||| need.urgent_at matches Some(threshold) && need.value >= threshold
        ||| self.urgent_toilet_intentions.contains(resident) && need.value > need.retain_above
    }

    /// The tile of the object that a resident's plan is for.
    pub open spec fn toilet_tile(self, resident: SimId) -> TilePosition {
        self.objects[self.autonomous_toilet_plans[resident].object@].position
    }

    /// Whether a resident walks to its toilet, asks for it or uses it.
    pub open spec fn goes_already(self, resident: SimId) -> bool {
        let plan = self.autonomous_toilet_plans[resident];
        ||| self.go_to.contains_key(resident) && self.go_to[resident].destination
            == self.toilet_tile(resident)
        ||| self.active_object_uses.contains_key(resident)
            && self.active_object_uses[resident].object@ == plan.object@
            && self.active_object_uses[resident].affordance@ == plan.affordance@
        ||| exists|request: UseRequest| #[trigger]
            self.use_requests.contains(request) && request.resident == resident
                && request.object@ == plan.object@ && request.affordance@ == plan.affordance@
    }

    /// Whether a resident walks, asks or uses an object for an order.
    pub open spec fn executes(self, resident: SimId, task: PlayerTaskId) -> bool {
        ||| self.go_to.contains_key(resident) && self.go_to[resident].player_task == Some(task)
        ||| self.active_object_uses.contains_key(resident)
            && self.active_object_uses[resident].player_task == Some(task)
        ||| exists|request: UseRequest| #[trigger]
            self.use_requests.contains(request) && request.resident == resident
                && request.player_task == Some(task)
    }

    /// Whether a resident walks, asks or uses an object on nobody's order.
    pub open spec fn acts_on_its_own(self, resident: SimId) -> bool {
        ||| self.go_to.contains_key(resident) && self.go_to[resident].player_task is None
        ||| self.active_object_uses.contains_key(resident)
            && self.active_object_uses[resident].player_task is None
        ||| exists|request: UseRequest| #[trigger]
            self.use_requests.contains(request) && request.resident == resident
                && request.player_task is None
    }

    /// Whether a resident has set out for its toilet of its own accord this
    /// tick, in a band and with its plan's priority.
    pub open spec fn has_set_out(self, resident: SimId, band: ActionBand) -> bool {
        let walk = self.go_to[resident];
        &&& self.go_to.contains_key(resident)
        &&& walk.destination == self.toilet_tile(resident)
        &&& walk.band == band
        &&& walk.priority == self.autonomous_toilet_plans[resident].priority
        &&& walk.request_age == self.tick
        &&& walk.player_task is None
        &&& walk.traversal is None
    }

    /// Whether a request is for a resident's toilet, made of its own accord
    /// this tick, in a band and with its plan's priority.
    pub open spec fn asks_for_toilet(
        self,
        request: UseRequest,
        resident: SimId,
        band: ActionBand,
    ) -> bool {
        let plan = self.autonomous_toilet_plans[resident];
        &&& request.resident == resident
        &&& request.object@ == plan.object@
        &&& request.affordance@ == plan.affordance@
        &&& request.priority == plan.priority
        &&& request.band == band
        &&& request.request_age == self.tick
        &&& request.player_task is None
    }

    // -- One choice --------------------------------------------------------

    /// A choice reads the thresholds of the need.
    proof fn lemma_thresholds(self, resident: SimId)
        ensures
            self.means_to_go(resident) == self.intends(resident),
            self.is_pressed(resident) == self.urges(resident),
    {
    }

    /// Whether a resident is engaged is a matter of what it does.
    proof fn lemma_goes_already(self, resident: SimId)
        requires
            self.valid(),
            self.toilet_needs.contains_key(resident),
        ensures
            self.goes_already(resident) == self.engaged_with(
                resident,
                self.autonomous_toilet_plans[resident],
            ),
    {
        let plan = self.autonomous_toilet_plans[resident];
        assert(self.affordance(plan.object@, plan.affordance@) is Some);
        if exists|request: UseRequest| #[trigger]
            self.use_requests.contains(request) && request.resident == resident
                && request.object@ == plan.object@ && request.affordance@ == plan.affordance@ {
            let request = choose|request: UseRequest| #[trigger]
                self.use_requests.contains(request) && request.resident == resident
                    && request.object@ == plan.object@ && request.affordance@ == plan.affordance@;
            let i = self.use_requests.index_of(request);
            assert(self.use_requests[i].resident == resident);
        }
        if exists|i: int|
            0 <= i < self.use_requests.len() && (#[trigger] self.use_requests[i]).resident
                == resident && self.use_requests[i].object@ == plan.object@
                && self.use_requests[i].affordance@ == plan.affordance@ {
            let i = choose|i: int|
                0 <= i < self.use_requests.len() && (#[trigger] self.use_requests[i]).resident
                    == resident && self.use_requests[i].object@ == plan.object@
                    && self.use_requests[i].affordance@ == plan.affordance@;
            assert(self.use_requests.contains(self.use_requests[i]));
        }
    }

    /// Pausing takes the order in execution out of it, whichever way it is
    /// executed and whatever its priority, and nothing else.
    proof fn lemma_pause(self, resident: SimId)
        requires
            self.valid(),
        ensures
            ({
                let paused = self.pause_player_order(resident);
                &&& forall|task: PlayerTaskId| !#[trigger] paused.executes(resident, task)
                &&& forall|task: PlayerTaskId| #[trigger]
                    self.executes(resident, task) ==> paused.player_tasks[task]
                        == PlayerTaskState::Paused
                &&& paused.acts_on_its_own(resident) ==> self.acts_on_its_own(resident)
                &&& paused.residents == self.residents
                &&& paused.objects == self.objects
                &&& paused.autonomous_toilet_plans == self.autonomous_toilet_plans
                &&& paused.tick == self.tick
                &&& paused.autonomous_toilet_intentions == self.autonomous_toilet_intentions
                &&& paused.urgent_toilet_intentions == self.urgent_toilet_intentions
            }),
    {
        let paused = self.pause_player_order(resident);
        let p = player_request_of(resident);
        lemma_first_where(self.use_requests, p);
        assert forall|request: UseRequest| #[trigger]
            self.use_requests.contains(request) && request.resident == resident
                && request.player_task is Some implies !self.walks_on_order(resident)
            && !self.active_object_uses.contains_key(resident) by {
            let i = self.use_requests.index_of(request);
            assert(self.use_requests[i] == request);
        }
        if self.walks_on_order(resident) {
            assert(!self.uses_on_order(resident));
        } else if self.uses_on_order(resident) {
        } else if first_where(self.use_requests, p) is Some {
            let k = lemma_first_where_index(self.use_requests, p);
            lemma_without_first_at(self.use_requests, p, k);
            let left = self.use_requests.remove(k);
            let gone = self.use_requests[k];
            assert(gone.resident == resident && gone.player_task is Some);
            assert(self.use_requests.contains(gone));
            assert forall|request: UseRequest| #[trigger] left.contains(request) implies {
                &&& self.use_requests.contains(request)
                &&& request.resident != resident
            } by {
                let i = left.index_of(request);
                let j = if i < k {
                    i
                } else {
                    i + 1
                };
                assert(self.use_requests[j] == request);
                if j < k {
                    assert(self.use_requests[j].resident != self.use_requests[k].resident);
                } else {
                    assert(self.use_requests[k].resident != self.use_requests[j].resident);
                }
            }
            assert forall|task: PlayerTaskId| #[trigger]
                self.executes(resident, task) implies paused.player_tasks[task]
                == PlayerTaskState::Paused by {
                let request = choose|request: UseRequest| #[trigger]
                    self.use_requests.contains(request) && request.resident == resident
                        && request.player_task == Some(task);
                let i = self.use_requests.index_of(request);
                assert(self.use_requests[i] == request);
                if i < k {
                    assert(self.use_requests[i].resident != self.use_requests[k].resident);
                } else if k < i {
                    assert(self.use_requests[k].resident != self.use_requests[i].resident);
                }
            }
        } else {
            assert forall|task: PlayerTaskId| !#[trigger] self.executes(resident, task) by {
                if self.executes(resident, task) {
                    let request = choose|request: UseRequest| #[trigger]
                        self.use_requests.contains(request) && request.resident == resident
                            && request.player_task == Some(task);
                    let i = self.use_requests.index_of(request);
                    assert(!p(self.use_requests[i]));
                }
            }
        }
    }

    /// Driving a plan puts no order in execution and takes none out; where the
    /// resident does nothing, it sets out for its toilet, or asks for it where
    /// it stands there already.
    proof fn lemma_drive(self, resident: SimId, plan: ToiletPlan, band: ActionBand)
        requires
            self.valid(),
            self.residents.contains_key(resident),
            self.autonomous_toilet_plans.contains_key(resident),
            plan == self.autonomous_toilet_plans[resident],
        ensures
            ({
                let driven = self.drive(resident, plan, band);
                let idle = !self.acts_on_its_own(resident) && forall|task: PlayerTaskId|
                    !#[trigger] self.executes(resident, task);
                &&& driven.player_tasks == self.player_tasks
                &&& driven.player_task_queue == self.player_task_queue
                &&& driven.active_object_uses == self.active_object_uses
                &&& driven.autonomous_toilet_plans == self.autonomous_toilet_plans
                &&& driven.objects == self.objects
                &&& driven.residents == self.residents
                &&& driven.tick == self.tick
                &&& driven.autonomous_toilet_intentions == self.autonomous_toilet_intentions
                &&& driven.urgent_toilet_intentions == self.urgent_toilet_intentions
                &&& forall|task: PlayerTaskId|
                    driven.executes(resident, task) == #[trigger] self.executes(resident, task)
                &&& idle && self.residents[resident].position != self.toilet_tile(resident)
                    ==> driven.has_set_out(resident, band)
                &&& idle && self.residents[resident].position == self.toilet_tile(resident)
                    ==> exists|request: UseRequest| #[trigger]
                    driven.use_requests.contains(request) && driven.asks_for_toilet(
                        request,
                        resident,
                        band,
                    )
            }),
    {
        let driven = self.drive(resident, plan, band);
        assert(self.affordance(plan.object@, plan.affordance@) is Some);
        let request = UseRequest {
            resident,
            object: plan.object,
            affordance: plan.affordance,
            priority: plan.priority,
            band,
            request_age: self.tick,
            player_task: None,
        };
        assert forall|task: PlayerTaskId|
            driven.executes(resident, task) == #[trigger] self.executes(resident, task) by {
            if driven.use_requests != self.use_requests {
                assert(driven.use_requests == self.use_requests.push(request));
                assert forall|q: UseRequest| #[trigger]
                    driven.use_requests.contains(q) <==> self.use_requests.contains(q) || q
                        == request by {
                    if self.use_requests.contains(q) {
                        let i = self.use_requests.index_of(q);
                        assert(driven.use_requests[i] == q);
                    }
                    if q == request {
                        assert(driven.use_requests[driven.use_requests.len() - 1] == q);
                    }
                }
            }
        }
        let idle = !self.acts_on_its_own(resident) && forall|task: PlayerTaskId|
            !#[trigger] self.executes(resident, task);
        if idle {
            self.lemma_idle(resident);
            if self.residents[resident].position == self.toilet_tile(resident) {
                assert(driven.use_requests == self.use_requests.push(request));
                assert(driven.use_requests[driven.use_requests.len() - 1] == request);
                assert(driven.use_requests.contains(request));
            }
        }
    }

    /// A resident that acts neither on its own nor on an order is free.
    proof fn lemma_idle(self, resident: SimId)
        requires
            !self.acts_on_its_own(resident),
            forall|task: PlayerTaskId| !#[trigger] self.executes(resident, task),
        ensures
            self.slot_free(resident),
    {
        if self.go_to.contains_key(resident) && self.go_to[resident].player_task is Some {
            assert(self.executes(resident, self.go_to[resident].player_task->0));
        }
        if self.active_object_uses.contains_key(resident)
            && self.active_object_uses[resident].player_task is Some {
            assert(self.executes(resident, self.active_object_uses[resident].player_task->0));
        }
        if self.has_request(resident) {
            let i = choose|i: int|
                0 <= i < self.use_requests.len() && (#[trigger] self.use_requests[i]).resident
                    == resident;
            assert(self.use_requests.contains(self.use_requests[i]));
            if self.use_requests[i].player_task is Some {
                assert(self.executes(resident, self.use_requests[i].player_task->0));
            }
        }
    }

    /// A pressing need takes over, unless its resident goes already: the
    /// resident executes no order any more, whatever the priority of the one it
    /// executed, and that one is paused. A resident that did nothing of its own
    /// accord has set out for its toilet, or asks for it where it stands there,
    /// in the Urgent band.
    pub proof fn law_pressing_need_takes_over(self, resident: SimId)
        requires
            self.valid(),
            self.toilet_needs.contains_key(resident),
            self.residents.contains_key(resident),
            self.means_to_go(resident),
            self.is_pressed(resident),
            !self.goes_already(resident),
        ensures
            ({
                let after = self.choose_plan(resident);
                &&& after.autonomous_toilet_intentions.contains(resident)
                &&& after.urgent_toilet_intentions.contains(resident)
                &&& forall|task: PlayerTaskId| !#[trigger] after.executes(resident, task)
                &&& forall|task: PlayerTaskId| #[trigger]
                    self.executes(resident, task) ==> after.player_tasks[task]
                        == PlayerTaskState::Paused
                &&& !self.acts_on_its_own(resident) && self.residents[resident].position
                    != self.toilet_tile(resident) ==> after.has_set_out(
                    resident,
                    ActionBand::Urgent,
                )
                &&& !self.acts_on_its_own(resident) && self.residents[resident].position
                    == self.toilet_tile(resident) ==> exists|request: UseRequest| #[trigger]
                    after.use_requests.contains(request) && after.asks_for_toilet(
                        request,
                        resident,
                        ActionBand::Urgent,
                    )
            }),
    {
        self.lemma_thresholds(resident);
        self.lemma_goes_already(resident);
        let minded = self.minded(resident);
        assert(minded.intentions_kept());
        self.lemma_unmoved(minded);
        assert(minded.engaged_with(resident, self.autonomous_toilet_plans[resident])
            == self.engaged_with(resident, self.autonomous_toilet_plans[resident]));
        assert forall|task: PlayerTaskId|
            minded.executes(resident, task) == #[trigger] self.executes(resident, task) by {}
        minded.lemma_pause(resident);
        minded.lemma_pause_valid(resident);
        let paused = minded.pause_player_order(resident);
        paused.lemma_drive(
            resident,
            self.autonomous_toilet_plans[resident],
            ActionBand::Urgent,
        );
        assert forall|task: PlayerTaskId| !#[trigger] self.choose_plan(resident).executes(
            resident,
            task,
        ) by {
            assert(!paused.executes(resident, task));
        }
    }

    /// Whether orders, uses and claims are the same, and nobody has moved.
    pub open spec fn only_chose(self, next: Village) -> bool {
        &&& next.player_tasks == self.player_tasks
        &&& next.player_task_queue == self.player_task_queue
        &&& next.active_object_uses == self.active_object_uses
        &&& next.object_slot_claims == self.object_slot_claims
        &&& next.capability_claims == self.capability_claims
        &&& next.residents == self.residents
        &&& next.occupancy == self.occupancy
        &&& next.portal_occupancy == self.portal_occupancy
        &&& next.toilet_needs == self.toilet_needs
        &&& next.inbox == self.inbox
        &&& next.ledger == self.ledger
        &&& next.tick == self.tick
        &&& self.same_world(next)
    }

    /// Whether a resident has taken the next step of its plan, in a band, if it
    /// can: away from its toilet it has set out, unless it walks already; at
    /// its toilet it asks for it, unless it uses or waits for something.
    pub open spec fn plan_goes_on(self, next: Village, resident: SimId, band: ActionBand) -> bool {
        let waits = exists|request: UseRequest| #[trigger]
            self.use_requests.contains(request) && request.resident == resident;
        if self.residents[resident].position != self.toilet_tile(resident) {
            &&& next.use_requests == self.use_requests
            &&& self.go_to.contains_key(resident) ==> next.go_to == self.go_to
            &&& !self.go_to.contains_key(resident) ==> next.has_set_out(resident, band)
                && next.go_to.remove(resident) == self.go_to
        } else {
            &&& next.go_to == self.go_to
            &&& waits || self.active_object_uses.contains_key(resident) ==> next.use_requests
                == self.use_requests
            &&& !waits && !self.active_object_uses.contains_key(resident) ==> {
                &&& next.use_requests.len() == self.use_requests.len() + 1
                &&& next.use_requests.drop_last() == self.use_requests
                &&& next.asks_for_toilet(next.use_requests.last(), resident, band)
            }
        }
    }

    proof fn lemma_plan_goes_on(self, resident: SimId, band: ActionBand)
        requires
            self.valid(),
            self.residents.contains_key(resident),
            self.autonomous_toilet_plans.contains_key(resident),
        ensures
            self.plan_goes_on(
                self.drive(resident, self.autonomous_toilet_plans[resident], band),
                resident,
                band,
            ),
            self.only_chose(self.drive(resident, self.autonomous_toilet_plans[resident], band)),
    {
        let plan = self.autonomous_toilet_plans[resident];
        let driven = self.drive(resident, plan, band);
        assert(self.affordance(plan.object@, plan.affordance@) is Some);
        let waits = exists|request: UseRequest| #[trigger]
            self.use_requests.contains(request) && request.resident == resident;
        if waits {
            let request = choose|request: UseRequest| #[trigger]
                self.use_requests.contains(request) && request.resident == resident;
            let i = self.use_requests.index_of(request);
            assert(self.use_requests[i].resident == resident);
        }
        if self.has_request(resident) {
            let i = choose|i: int|
                0 <= i < self.use_requests.len() && (#[trigger] self.use_requests[i]).resident
                    == resident;
            assert(self.use_requests.contains(self.use_requests[i]));
        }
        if self.residents[resident].position != self.toilet_tile(resident) {
            assert(!self.go_to.contains_key(resident) ==> driven.go_to.remove(resident)
                =~= self.go_to);
        } else if !waits && !self.active_object_uses.contains_key(resident) {
            assert(driven.use_requests.drop_last() =~= self.use_requests);
        }
    }

    /// A resident that goes already stays at it when its need presses: no order
    /// is paused, and the plan goes on in the Urgent band.
    pub proof fn law_pressing_need_goes_on_with_its_plan(self, resident: SimId)
        requires
            self.valid(),
            self.toilet_needs.contains_key(resident),
            self.residents.contains_key(resident),
            self.means_to_go(resident),
            self.is_pressed(resident),
            self.goes_already(resident),
        ensures
            ({
                let after = self.choose_plan(resident);
                &&& after.autonomous_toilet_intentions == self.autonomous_toilet_intentions.insert(
                    resident,
                )
                &&& after.urgent_toilet_intentions == self.urgent_toilet_intentions.insert(resident)
                &&& self.only_chose(after)
                &&& self.plan_goes_on(after, resident, ActionBand::Urgent)
            }),
    {
        self.lemma_thresholds(resident);
        self.lemma_goes_already(resident);
        let minded = self.minded(resident);
        assert(minded.intentions_kept());
        self.lemma_unmoved(minded);
        assert(minded.engaged_with(resident, self.autonomous_toilet_plans[resident])
            == self.engaged_with(resident, self.autonomous_toilet_plans[resident]));
        minded.lemma_plan_goes_on(resident, ActionBand::Urgent);
    }

    /// A need that does not press waits its turn: where its resident has no
    /// orders and does nothing, the plan goes on in the Autonomous band;
    /// otherwise the resident goes on with what it does.
    pub proof fn law_calm_need_waits_its_turn(self, resident: SimId)
        requires
            self.valid(),
            self.toilet_needs.contains_key(resident),
            self.residents.contains_key(resident),
            self.means_to_go(resident),
            !self.is_pressed(resident),
        ensures
            ({
                let after = self.choose_plan(resident);
                let free = !self.go_to.contains_key(resident)
                    && !self.active_object_uses.contains_key(resident)
                    && !self.player_task_queue.contains_key(resident) && !exists|
                    request: UseRequest,
                | #[trigger]
                    self.use_requests.contains(request) && request.resident == resident;
                &&& after.autonomous_toilet_intentions == self.autonomous_toilet_intentions.insert(
                    resident,
                )
                &&& after.urgent_toilet_intentions == self.urgent_toilet_intentions.remove(resident)
                &&& self.only_chose(after)
                &&& free ==> self.plan_goes_on(after, resident, ActionBand::Autonomous)
                &&& !free ==> after.go_to == self.go_to && after.use_requests == self.use_requests
            }),
    {
        self.lemma_thresholds(resident);
        let minded = self.minded(resident);
        assert(minded.intentions_kept());
        self.lemma_unmoved(minded);
        minded.lemma_plan_goes_on(resident, ActionBand::Autonomous);
        if self.has_request(resident) {
            let i = choose|i: int|
                0 <= i < self.use_requests.len() && (#[trigger] self.use_requests[i]).resident
                    == resident;
            assert(self.use_requests.contains(self.use_requests[i]));
        }
        if exists|request: UseRequest| #[trigger]
            self.use_requests.contains(request) && request.resident == resident {
            let request = choose|request: UseRequest| #[trigger]
                self.use_requests.contains(request) && request.resident == resident;
            let i = self.use_requests.index_of(request);
            assert(self.use_requests[i].resident == resident);
        }
        assert(minded.slot_free(resident) == self.slot_free(resident));
    }

    /// A resident that does not mean to go forgets that it did, and goes on
    /// with what it does.
    pub proof fn law_satisfied_need_is_forgotten(self, resident: SimId)
        requires
            self.valid(),
            self.toilet_needs.contains_key(resident),
            !self.means_to_go(resident),
        ensures
            ({
                let after = self.choose_plan(resident);
                &&& after.autonomous_toilet_intentions == self.autonomous_toilet_intentions.remove(
                    resident,
                )
                &&& after.urgent_toilet_intentions == self.urgent_toilet_intentions.remove(resident)
                &&& self.only_chose(after)
                &&& after.go_to == self.go_to
                &&& after.use_requests == self.use_requests
            }),
    {
        self.lemma_thresholds(resident);
        let after = self.choose_plan(resident);
        assert(after.autonomous_toilet_intentions =~= self.autonomous_toilet_intentions.remove(
            resident,
        ));
        assert(after.urgent_toilet_intentions =~= self.urgent_toilet_intentions.remove(resident));
    }

    /// Whatever a resident begins for its need carries its plan's priority and
    /// the band of its urgency: Urgent where the need presses and Autonomous
    /// where it does not. A request begun for a need that presses outranks
    /// every player request whose fine priority is less than a thousand above
    /// the plan's.
    pub proof fn law_what_a_need_begins_carries_its_band(self, resident: SimId, rival: UseRequest)
        requires
            self.valid(),
            self.toilet_needs.contains_key(resident),
            self.residents.contains_key(resident),
        ensures
            ({
                let after = self.choose_plan(resident);
                let plan = self.autonomous_toilet_plans[resident];
                let band = if self.is_pressed(resident) {
                    ActionBand::Urgent
                } else {
                    ActionBand::Autonomous
                };
                &&& after.go_to.contains_key(resident) ==> after.has_set_out(resident, band) || (
                self.go_to.contains_key(resident) && after.go_to[resident] == self.go_to[resident])
                &&& forall|request: UseRequest| #[trigger]
                    after.use_requests.contains(request) && !self.use_requests.contains(request)
                        ==> after.asks_for_toilet(request, resident, band) && (
                    self.is_pressed(resident) && rival.band == ActionBand::Player && rival.priority
                        < plan.priority + 1_000 ==> request.standing().outranks(rival.standing()))
            }),
    {
        let after = self.choose_plan(resident);
        if !self.means_to_go(resident) {
            self.law_satisfied_need_is_forgotten(resident);
        } else if !self.is_pressed(resident) {
            self.law_calm_need_waits_its_turn(resident);
            lemma_grown_by_one(self.use_requests, after.use_requests);
        } else if self.goes_already(resident) {
            self.law_pressing_need_goes_on_with_its_plan(resident);
            lemma_grown_by_one(self.use_requests, after.use_requests);
        } else {
            self.lemma_thresholds(resident);
            self.lemma_goes_already(resident);
            let plan = self.autonomous_toilet_plans[resident];
            let minded = self.minded(resident);
            assert(minded.intentions_kept());
            self.lemma_unmoved(minded);
            assert(minded.engaged_with(resident, plan) == self.engaged_with(resident, plan));
            minded.lemma_pause_valid(resident);
            let paused = minded.pause_player_order(resident);
            paused.lemma_plan_goes_on(resident, ActionBand::Urgent);
            lemma_grown_by_one(paused.use_requests, after.use_requests);
            self.lemma_pause_only_drops(resident);
        }
    }

    /// Pausing changes a walk only by ending it, and requests only by dropping
    /// one.
    proof fn lemma_pause_only_drops(self, resident: SimId)
        ensures
            ({
                let paused = self.minded(resident).pause_player_order(resident);
                &&& paused.go_to.submap_of(self.go_to)
                &&& forall|request: UseRequest| #[trigger]
                    paused.use_requests.contains(request) ==> self.use_requests.contains(request)
            }),
    {
        let paused = self.minded(resident).pause_player_order(resident);
        let p = player_request_of(resident);
        if paused.use_requests != self.use_requests {
            let k = lemma_first_where_index(self.use_requests, p);
            lemma_without_first_at(self.use_requests, p, k);
            assert forall|request: UseRequest| #[trigger]
                paused.use_requests.contains(request) implies self.use_requests.contains(
                request,
            ) by {
                let i = paused.use_requests.index_of(request);
                let j = if i < k {
                    i
                } else {
                    i + 1
                };
                assert(self.use_requests[j] == request);
            }
        }
    }

    // -- Everybody's choice ------------------------------------------------

    /// Whether all that concerns a resident is the same: where everybody
    /// stands, what it intends and does, its queue and the state of the orders
    /// in it.
    pub open spec fn same_for(self, next: Village, resident: SimId) -> bool {
        &&& next.residents == self.residents
        &&& next.map == self.map
        &&& next.objects == self.objects
        &&& next.tick == self.tick
        &&& next.toilet_needs == self.toilet_needs
        &&& next.autonomous_toilet_plans == self.autonomous_toilet_plans
        &&& next.player_task_queue == self.player_task_queue
        &&& next.autonomous_toilet_intentions.contains(resident)
            == self.autonomous_toilet_intentions.contains(resident)
        &&& next.urgent_toilet_intentions.contains(resident)
            == self.urgent_toilet_intentions.contains(resident)
        &&& next.go_to.contains_key(resident) == self.go_to.contains_key(resident)
        &&& next.go_to[resident] == self.go_to[resident]
        &&& next.active_object_uses.contains_key(resident)
            == self.active_object_uses.contains_key(resident)
        &&& next.active_object_uses[resident] == self.active_object_uses[resident]
        &&& forall|request: UseRequest|
            request.resident == resident ==> (#[trigger] next.use_requests.contains(request)
                <==> self.use_requests.contains(request))
        &&& forall|task: PlayerTaskId| #[trigger]
            self.holds(resident, task) ==> next.player_tasks[task] == self.player_tasks[task]
    }

    pub(crate) proof fn lemma_same_for_transitive(self, mid: Village, next: Village, resident: SimId)
        requires
            self.same_for(mid, resident),
            mid.same_for(next, resident),
        ensures
            self.same_for(next, resident),
    {
        assert forall|request: UseRequest| request.resident == resident implies (
        #[trigger] next.use_requests.contains(request) <==> self.use_requests.contains(
            request,
        )) by {
            assert(mid.use_requests.contains(request) <==> self.use_requests.contains(request));
        }
        assert forall|task: PlayerTaskId| #[trigger] self.holds(resident, task) implies
            next.player_tasks[task] == self.player_tasks[task] by {
            assert(mid.holds(resident, task));
        }
    }

    /// A choice concerns nobody else.
    pub proof fn law_choice_touches_nobody_else(self, chooser: SimId, other: SimId)
        requires
            self.valid(),
            self.toilet_needs.contains_key(chooser),
            chooser != other,
        ensures
            self.same_for(self.choose_plan(chooser), other),
    {
        let after = self.choose_plan(chooser);
        self.law_urgent_need_pauses_without_cancelling(chooser);
        assert forall|task: PlayerTaskId| #[trigger] self.holds(other, task) implies
            after.player_tasks[task] == self.player_tasks[task] by {
            let i = choose|i: int|
                0 <= i < self.player_task_queue[other].len() && (
                #[trigger] self.player_task_queue[other][i]).task == task;
            assert(self.is_live_order(self.player_task_queue[other][i].task));
            if self.leads(chooser, task) {
                self.lemma_leader(chooser, task);
                self.lemma_one_holder(chooser, other, task);
            }
        }
        let plan = self.autonomous_toilet_plans[chooser];
        let minded = self.minded(chooser);
        if self.intends(chooser) {
            let paused = if self.urges(chooser) && !minded.engaged_with(chooser, plan) {
                minded.pause_player_order(chooser)
            } else {
                minded
            };
            assert(paused.residents == self.residents);
            let p = player_request_of(chooser);
            assert forall|request: UseRequest| request.resident == other implies (
            #[trigger] paused.use_requests.contains(request) <==> self.use_requests.contains(
                request,
            )) by {
                if paused.use_requests != self.use_requests {
                    let k = lemma_first_where_index(self.use_requests, p);
                    lemma_without_first_at(self.use_requests, p, k);
                    if self.use_requests.contains(request) {
                        let i = self.use_requests.index_of(request);
                        let j = if i < k {
                            i
                        } else {
                            i - 1
                        };
                        assert(self.use_requests[k].resident == chooser);
                        assert(paused.use_requests[j] == request);
                    }
                    if paused.use_requests.contains(request) {
                        let i = paused.use_requests.index_of(request);
                        let j = if i < k {
                            i
                        } else {
                            i + 1
                        };
                        assert(self.use_requests[j] == request);
                    }
                }
            }
            assert forall|request: UseRequest| request.resident == other implies (
            #[trigger] after.use_requests.contains(request) <==> self.use_requests.contains(
                request,
            )) by {
                assert(paused.use_requests.contains(request) <==> self.use_requests.contains(
                    request,
                ));
                if after.use_requests != paused.use_requests {
                    let grown = after.use_requests;
                    assert(grown.len() == paused.use_requests.len() + 1);
                    assert(grown.drop_last() =~= paused.use_requests);
                    assert(grown.last().resident == chooser);
                    if grown.contains(request) {
                        let i = grown.index_of(request);
                        assert(grown.drop_last()[i] == request);
                    }
                    if paused.use_requests.contains(request) {
                        let i = paused.use_requests.index_of(request);
                        assert(grown[i] == request);
                    }
                }
            }
        }
    }

    proof fn lemma_others_choose(self, choosers: Seq<SimId>, resident: SimId)
        requires
            self.valid(),
            forall|i: int|
                0 <= i < choosers.len() ==> self.toilet_needs.contains_key(#[trigger] choosers[i]),
            !choosers.contains(resident),
        ensures
            self.same_for(self.choose_all(choosers), resident),
        decreases choosers.len(),
    {
        if choosers.len() > 0 {
            let rest = choosers.drop_last();
            assert forall|i: int| 0 <= i < rest.len() implies self.toilet_needs.contains_key(
                #[trigger] rest[i],
            ) && rest[i] != resident by {
                assert(rest[i] == choosers[i]);
                assert(choosers.contains(choosers[i]));
            }
            assert(choosers.contains(choosers[choosers.len() - 1]));
            self.lemma_others_choose(rest, resident);
            self.lemma_choose_all_valid(rest);
            self.choose_all(rest).law_choice_touches_nobody_else(choosers.last(), resident);
            self.lemma_same_for_transitive(
                self.choose_all(rest),
                self.choose_all(choosers),
                resident,
            );
        }
    }

    proof fn lemma_chooses_once(self, choosers: Seq<SimId>, resident: SimId) -> (then: Village)
        requires
            self.valid(),
            choosers.no_duplicates(),
            forall|i: int|
                0 <= i < choosers.len() ==> self.toilet_needs.contains_key(#[trigger] choosers[i]),
            choosers.contains(resident),
        ensures
            then.valid(),
            self.same_for(then, resident),
            then.choose_plan(resident).same_for(self.choose_all(choosers), resident),
        decreases choosers.len(),
    {
        let rest = choosers.drop_last();
        let last = choosers.last();
        let mid = self.choose_all(rest);
        assert forall|i: int| 0 <= i < rest.len() implies self.toilet_needs.contains_key(
            #[trigger] rest[i],
        ) by {
            assert(rest[i] == choosers[i]);
        }
        assert(self.toilet_needs.contains_key(choosers[choosers.len() - 1]));
        self.lemma_choose_all_valid(rest);
        if last == resident {
            assert(!rest.contains(resident)) by {
                if rest.contains(resident) {
                    let i = rest.index_of(resident);
                    assert(choosers[i] == choosers[choosers.len() - 1]);
                }
            }
            self.lemma_others_choose(rest, resident);
            mid
        } else {
            let k = choosers.index_of(resident);
            assert(rest[k] == resident);
            let then = self.lemma_chooses_once(rest, resident);
            mid.law_choice_touches_nobody_else(last, resident);
            then.choose_plan(resident).lemma_same_for_transitive(
                mid,
                self.choose_all(choosers),
                resident,
            );
            then
        }
    }

    /// Each tick a resident with a need makes one choice, on the grown need:
    /// before it and after it the others' choices concern the resident in
    /// nothing. A resident without a need is concerned by no choice at all.
    pub proof fn law_everybody_with_a_need_chooses_once(self, resident: SimId) -> (then: Village)
        requires
            self.valid(),
        ensures
            ({
                let grown = self.after_ingest().age_needs();
                &&& then.valid()
                &&& grown.same_for(then, resident)
                &&& self.toilet_needs.contains_key(resident) ==> then.choose_plan(
                    resident,
                ).same_for(self.after_living(), resident)
                &&& !self.toilet_needs.contains_key(resident) ==> then.same_for(
                    self.after_living(),
                    resident,
                )
            }),
    {
        self.lemma_phases_valid();
        self.lemma_phases_go_on();
        let grown = self.after_ingest().age_needs();
        let choosers = in_order::<SimId>(grown.toilet_needs.dom());
        lemma_in_order_lists::<SimId>(grown.toilet_needs.dom());
        assert(grown.toilet_needs.dom() =~= self.toilet_needs.dom());
        assert forall|i: int| 0 <= i < choosers.len() implies grown.toilet_needs.contains_key(
            #[trigger] choosers[i],
        ) by {
            assert(choosers.contains(choosers[i]));
        }
        assert(choosers.contains(resident) <==> grown.toilet_needs.dom().contains(resident));
        if self.toilet_needs.contains_key(resident) {
            assert(self.toilet_needs.dom().contains(resident));
            grown.lemma_chooses_once(choosers, resident)
        } else {
            assert(!self.toilet_needs.dom().contains(resident));
            grown.lemma_others_choose(choosers, resident);
            grown
        }
    }

    /// Dispatching a queue concerns nobody else, nor a resident whose need
    /// presses.
    pub proof fn law_dispatch_touches_nobody_else(self, dispatched: SimId, other: SimId)
        requires
            self.valid(),
            dispatched != other || self.urgent_toilet_intentions.contains(other),
        ensures
            self.same_for(self.dispatch(dispatched), other),
    {
        let after = self.dispatch(dispatched);
        if dispatched != other && self.has_queue(dispatched) {
            let head = self.player_task_queue[dispatched][0];
            assert(self.player_task_queue[dispatched][0].task == head.task);
            assert(self.holds(dispatched, head.task));
            assert forall|task: PlayerTaskId| #[trigger] self.holds(other, task) implies
                after.player_tasks[task] == self.player_tasks[task] by {
                if task == head.task {
                    self.lemma_one_holder(dispatched, other, task);
                }
            }
            assert forall|request: UseRequest| request.resident == other implies (
            #[trigger] after.use_requests.contains(request) <==> self.use_requests.contains(
                request,
            )) by {
                if after.use_requests != self.use_requests {
                    let grown = after.use_requests;
                    assert(grown.drop_last() =~= self.use_requests);
                    assert(grown.last().resident == dispatched);
                    if grown.contains(request) {
                        let i = grown.index_of(request);
                        assert(grown.drop_last()[i] == request);
                    }
                    if self.use_requests.contains(request) {
                        let i = self.use_requests.index_of(request);
                        assert(grown[i] == request);
                    }
                }
            }
        }
    }

    pub(crate) proof fn lemma_others_dispatched(self, queues: Seq<SimId>, resident: SimId)
        requires
            self.valid(),
            !queues.contains(resident) || self.urgent_toilet_intentions.contains(resident),
        ensures
            self.same_for(self.dispatch_all(queues), resident),
        decreases queues.len(),
    {
        if queues.len() > 0 {
            let rest = queues.drop_last();
            if rest.contains(resident) {
                let i = rest.index_of(resident);
                assert(queues[i] == resident);
            }
            assert(queues[queues.len() - 1] == queues.last());
            self.lemma_others_dispatched(rest, resident);
            self.lemma_dispatch_all_valid(rest);
            self.dispatch_all(rest).law_dispatch_touches_nobody_else(queues.last(), resident);
            self.lemma_same_for_transitive(
                self.dispatch_all(rest),
                self.dispatch_all(queues),
                resident,
            );
        }
    }

    /// Within the tick in which a need presses, and before anybody walks, its
    /// resident is off every order and on its way, unless it goes already: what
    /// it executed when the tick's commands were in is paused, and unless it
    /// does something else of its own accord it has set out for its toilet or
    /// asks for it, in the Urgent band.
    pub proof fn law_pressing_need_takes_over_within_the_tick(self, resident: SimId)
        requires
            self.valid(),
            self.toilet_needs.contains_key(resident),
            self.residents.contains_key(resident),
            self.after_ingest().age_needs().means_to_go(resident),
            self.after_ingest().age_needs().is_pressed(resident),
            !self.after_ingest().goes_already(resident),
        ensures
            ({
                let before = self.after_ingest();
                let ready = self.after_dispatch();
                &&& ready.urgent_toilet_intentions.contains(resident)
                &&& forall|task: PlayerTaskId| !#[trigger] ready.executes(resident, task)
                &&& forall|task: PlayerTaskId| #[trigger]
                    before.executes(resident, task) ==> ready.player_tasks[task]
                        == PlayerTaskState::Paused
                &&& !before.acts_on_its_own(resident) && before.residents[resident].position
                    != before.toilet_tile(resident) ==> ready.has_set_out(
                    resident,
                    ActionBand::Urgent,
                )
                &&& !before.acts_on_its_own(resident) && before.residents[resident].position
                    == before.toilet_tile(resident) ==> exists|request: UseRequest| #[trigger]
                    ready.use_requests.contains(request) && ready.asks_for_toilet(
                        request,
                        resident,
                        ActionBand::Urgent,
                    )
            }),
    {
        self.lemma_phases_valid();
        self.lemma_phases_go_on();
        let before = self.after_ingest();
        let grown = before.age_needs();
        let lived = self.after_living();
        let ready = self.after_dispatch();
        let then = self.law_everybody_with_a_need_chooses_once(resident);
        assert(grown.toilet_needs.dom() =~= self.toilet_needs.dom());
        assert(self.toilet_needs.dom().contains(resident));
        assert(then.toilet_needs.contains_key(resident));
        assert(self.residents.dom().contains(resident));
        assert(then.residents.contains_key(resident));
        grown.lemma_same_conduct(then, resident);
        let chosen = then.choose_plan(resident);
        then.law_pressing_need_takes_over(resident);
        then.law_urgent_need_pauses_without_cancelling(resident);
        then.lemma_choose_plan_valid(resident);
        chosen.lemma_same_conduct(lived, resident);
        lived.lemma_others_dispatched(in_order::<SimId>(lived.player_task_queue.dom()), resident);
        lived.lemma_same_conduct(ready, resident);
        assert forall|task: PlayerTaskId| !#[trigger] ready.executes(resident, task) by {
            assert(lived.executes(resident, task) == ready.executes(resident, task));
            assert(chosen.executes(resident, task) == lived.executes(resident, task));
        }
        assert forall|task: PlayerTaskId| #[trigger] before.executes(resident, task) implies
            ready.player_tasks[task] == PlayerTaskState::Paused by {
            assert(grown.executes(resident, task));
            assert(then.executes(resident, task));
            then.lemma_executed_is_held(resident, task);
            assert(chosen.holds(resident, task));
            assert(lived.holds(resident, task));
        }
        if !before.acts_on_its_own(resident) && before.residents[resident].position
            == before.toilet_tile(resident) {
            let request = choose|request: UseRequest| #[trigger]
                chosen.use_requests.contains(request) && chosen.asks_for_toilet(
                    request,
                    resident,
                    ActionBand::Urgent,
                );
            assert(lived.use_requests.contains(request));
            assert(ready.use_requests.contains(request));
            assert(ready.asks_for_toilet(request, resident, ActionBand::Urgent));
        }
    }

    /// Whatever a tick's choices begin for a resident's need, a walk or a
    /// request, carries its plan's priority and the band of its urgency, and a
    /// request begun for a need that presses outranks every player request
    /// whose fine priority is less than a thousand above the plan's. For a
    /// resident without a need they begin nothing.
    pub proof fn law_what_a_tick_begins_carries_the_band(self, resident: SimId, rival: UseRequest)
        requires
            self.valid(),
            self.residents.contains_key(resident),
        ensures
            ({
                let before = self.after_ingest();
                let lived = self.after_living();
                let plan = self.autonomous_toilet_plans[resident];
                let pressed = before.age_needs().is_pressed(resident);
                let band = if pressed {
                    ActionBand::Urgent
                } else {
                    ActionBand::Autonomous
                };
                let needy = self.toilet_needs.contains_key(resident);
                &&& lived.go_to.contains_key(resident) ==> (needy && lived.has_set_out(
                    resident,
                    band,
                )) || (before.go_to.contains_key(resident) && lived.go_to[resident]
                    == before.go_to[resident])
                &&& forall|request: UseRequest| #[trigger]
                    lived.use_requests.contains(request) && request.resident == resident
                        && !before.use_requests.contains(request) ==> needy
                        && lived.asks_for_toilet(request, resident, band) && (pressed && rival.band
                        == ActionBand::Player && rival.priority < plan.priority + 1_000
                        ==> request.standing().outranks(rival.standing()))
            }),
    {
        self.lemma_phases_valid();
        self.lemma_phases_go_on();
        let before = self.after_ingest();
        let grown = before.age_needs();
        let lived = self.after_living();
        let then = self.law_everybody_with_a_need_chooses_once(resident);
        assert(grown.toilet_needs.dom() =~= self.toilet_needs.dom());
        assert(self.residents.dom().contains(resident));
        assert(then.residents.contains_key(resident));
        grown.lemma_same_conduct(then, resident);
        if self.toilet_needs.contains_key(resident) {
            assert(self.toilet_needs.dom().contains(resident));
            assert(then.toilet_needs.contains_key(resident));
            let chosen = then.choose_plan(resident);
            then.law_what_a_need_begins_carries_its_band(resident, rival);
            assert forall|request: UseRequest| #[trigger]
                lived.use_requests.contains(request) && request.resident == resident
                    && !before.use_requests.contains(request) implies lived.asks_for_toilet(
                request,
                resident,
                if grown.is_pressed(resident) {
                    ActionBand::Urgent
                } else {
                    ActionBand::Autonomous
                },
            ) && (grown.is_pressed(resident) && rival.band == ActionBand::Player && rival.priority
                < self.autonomous_toilet_plans[resident].priority + 1_000
                ==> request.standing().outranks(rival.standing())) by {
                assert(chosen.use_requests.contains(request));
                assert(!then.use_requests.contains(request)) by {
                    assert(then.use_requests.contains(request) <==> grown.use_requests.contains(
                        request,
                    ));
                }
            }
        } else {
            assert forall|request: UseRequest| #[trigger]
                lived.use_requests.contains(request) && request.resident
                    == resident implies before.use_requests.contains(request) by {
                assert(then.use_requests.contains(request) <==> grown.use_requests.contains(
                    request,
                ));
            }
        }
    }

    /// What concerns a resident alike makes it act alike.
    proof fn lemma_same_conduct(self, next: Village, resident: SimId)
        requires
            self.same_for(next, resident),
        ensures
            next.means_to_go(resident) == self.means_to_go(resident),
            next.is_pressed(resident) == self.is_pressed(resident),
            next.goes_already(resident) == self.goes_already(resident),
            next.acts_on_its_own(resident) == self.acts_on_its_own(resident),
            forall|task: PlayerTaskId| #[trigger]
                next.executes(resident, task) == self.executes(resident, task),
            next.toilet_tile(resident) == self.toilet_tile(resident),
    {
        assert forall|request: UseRequest| request.resident == resident implies (
        #[trigger] self.use_requests.contains(request) <==> next.use_requests.contains(
            request,
        )) by {
            assert(next.use_requests.contains(request) <==> self.use_requests.contains(request));
        }
    }

    /// A resident executes only orders of its own queue.
    proof fn lemma_executed_is_held(self, resident: SimId, task: PlayerTaskId)
        requires
            self.valid(),
            self.executes(resident, task),
        ensures
            self.holds(resident, task),
    {
        if self.go_to.contains_key(resident) && self.go_to[resident].player_task == Some(task) {
            assert(self.walks_on_order(resident));
        } else if self.active_object_uses.contains_key(resident)
            && self.active_object_uses[resident].player_task == Some(task) {
            assert(self.uses_on_order(resident));
        } else {
            let request = choose|request: UseRequest| #[trigger]
                self.use_requests.contains(request) && request.resident == resident
                    && request.player_task == Some(task);
            let i = self.use_requests.index_of(request);
            assert(self.use_requests[i].player_task is Some);
        }
        self.lemma_leader(resident, task);
    }
}

/// A list that is as it was, or has one more at its end.
proof fn lemma_grown_by_one(before: Seq<UseRequest>, after: Seq<UseRequest>)
    requires
        after == before || (after.len() == before.len() + 1 && after.drop_last() == before),
    ensures
        forall|request: UseRequest| #[trigger]
            after.contains(request) && !before.contains(request) ==> after != before && request
                == after.last(),
{
    assert forall|request: UseRequest| #[trigger]
        after.contains(request) && !before.contains(request) implies after != before && request
        == after.last() by {
        let i = after.index_of(request);
        if i < before.len() && after != before {
            assert(after.drop_last()[i] == request);
        }
    }
}

} // verus!
