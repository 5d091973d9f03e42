//! What becomes of each command: when it is accepted, why it is refused, and
//! what an accepted one changes.

use vstd::prelude::*;

use crate::arbitration::ActionBand;
use crate::arbitration::UseRequest;
use crate::content::TilePosition;
use crate::events::PlayerCommand;
use crate::events::PlayerCommandRejection;
use crate::events::WorldEvent;
use crate::events::WorldEventKind;
use crate::ground::law_walkable_tiles_lie_on_open_floor;
use crate::ground::on_open_floor;
use crate::identity::DefinitionId;
use crate::identity::PlayerTaskId;
use crate::identity::SimId;
use crate::listing::lemma_first_where_at;
use crate::ord_map::in_order;
use crate::ord_map::lemma_in_order_lists;
use crate::order_laws::answers;
use crate::state::PlayerTaskState;
use crate::state::QueuedOrder;
use crate::state::QueuedPlayerTask;
use crate::upkeep::lemma_filter_is_remove;
use crate::upkeep::lemma_first_index;
use crate::village::is_order;
use crate::village::lemma_without_first_at;
use crate::village::ranked;
use crate::village::request_for;
use crate::village::Village;

verus! {

impl Village {
    // -- Orders given ------------------------------------------------------

    /// The village with a refusal published and nothing else changed.
    pub open spec fn refusing(self, task: PlayerTaskId, reason: PlayerCommandRejection) -> Village {
        Village {
            ledger: self.ledger.push(
                WorldEvent {
                    tick: self.tick,
                    kind: WorldEventKind::PlayerCommandRejected { task, reason },
                },
            ),
            ..self
        }
    }

    /// The village with an order accepted: it is published as accepted, it is
    /// in progress, and it stands at the end of its resident's queue, behind
    /// every order given before. Nothing else has changed.
    pub open spec fn accepting(
        self,
        task: PlayerTaskId,
        resident: SimId,
        order: QueuedOrder,
    ) -> Village {
        let queued = QueuedPlayerTask { task, order };
        Village {
            ledger: self.ledger.push(
                WorldEvent {
                    tick: self.tick,
                    kind: WorldEventKind::PlayerCommandAccepted { task },
                },
            ),
            player_tasks: self.player_tasks.insert(task, PlayerTaskState::Queued),
            player_task_queue: if self.player_task_queue.contains_key(resident) {
                self.player_task_queue.insert(
                    resident,
                    self.player_task_queue[resident].push(queued),
                )
            } else {
                self.player_task_queue.insert(resident, seq![queued])
            },
            ..self
        }
    }

    /// A movement order with an unused id, for an existing resident and to a
    /// walkable tile is accepted, on whatever storey the tile lies, however far
    /// away and whatever the resident does. It is refused as a duplicate
    /// exactly where its id was used, otherwise for an unknown resident exactly
    /// where there is no such resident, and otherwise for its target exactly
    /// where that tile is not walkable.
    pub proof fn law_movement_order_is_accepted_where_one_can_stand(
        self,
        task: PlayerTaskId,
        resident: SimId,
        destination: TilePosition,
        priority: i32,
    )
        ensures
            ({
                let next = self.ingest(
                    PlayerCommand::QueueGoTo { task, resident, destination, priority },
                );
                let used = self.player_tasks.contains_key(task);
                let known = self.residents.contains_key(resident);
                let walkable = on_open_floor(self.map, destination);
                &&& !used && known && walkable ==> next == self.accepting(
                    task,
                    resident,
                    QueuedOrder::GoTo { destination, priority },
                )
                &&& used ==> next == self.refusing(task, PlayerCommandRejection::DuplicateTask)
                &&& !used && !known ==> next == self.refusing(
                    task,
                    PlayerCommandRejection::UnknownResident,
                )
                &&& !used && known && !walkable ==> next == self.refusing(
                    task,
                    PlayerCommandRejection::InvalidMoveTarget,
                )
            }),
    {
        law_walkable_tiles_lie_on_open_floor(self.map, destination);
        let queued = QueuedPlayerTask { task, order: QueuedOrder::GoTo { destination, priority } };
        assert(Seq::<QueuedPlayerTask>::empty().push(queued) =~= seq![queued]);
    }

    /// A toilet order with an unused id, for an existing resident and for the
    /// object and affordance of that resident's own plan is accepted, wherever
    /// the resident stands and whatever it does. It is refused as a duplicate
    /// exactly where its id was used, otherwise for an unknown resident exactly
    /// where there is no such resident, and otherwise for its target exactly
    /// where that is not the target of the resident's own plan.
    pub proof fn law_toilet_order_is_accepted_for_the_own_target(
        self,
        task: PlayerTaskId,
        resident: SimId,
        object: DefinitionId,
        affordance: DefinitionId,
        priority: i32,
    )
        ensures
            ({
                let next = self.ingest(
                    PlayerCommand::QueueUseToilet { task, resident, object, affordance, priority },
                );
                let used = self.player_tasks.contains_key(task);
                let known = self.residents.contains_key(resident);
                let plan = self.autonomous_toilet_plans[resident];
                let own = self.autonomous_toilet_plans.contains_key(resident) && plan.object@
                    == object@ && plan.affordance@ == affordance@;
                &&& !used && known && own ==> next == self.accepting(
                    task,
                    resident,
                    QueuedOrder::UseToilet { object, affordance, priority },
                )
                &&& used ==> next == self.refusing(task, PlayerCommandRejection::DuplicateTask)
                &&& !used && !known ==> next == self.refusing(
                    task,
                    PlayerCommandRejection::UnknownResident,
                )
                &&& !used && known && !own ==> next == self.refusing(
                    task,
                    PlayerCommandRejection::InvalidUseTarget,
                )
            }),
    {
        let queued = QueuedPlayerTask {
            task,
            order: QueuedOrder::UseToilet { object, affordance, priority },
        };
        assert(Seq::<QueuedPlayerTask>::empty().push(queued) =~= seq![queued]);
    }

    // -- Orders taken back -------------------------------------------------

    /// A cancellation is refused as unknown exactly where no order had the id,
    /// and as no longer possible exactly where that order is completed or
    /// cancelled already.
    pub proof fn law_only_orders_in_progress_are_taken_back(self, task: PlayerTaskId)
        ensures
            ({
                let next = self.ingest(PlayerCommand::CancelPlayerTask { task });
                &&& !self.player_tasks.contains_key(task) ==> next == self.refusing(
                    task,
                    PlayerCommandRejection::UnknownTask,
                )
                &&& self.player_tasks.contains_key(task) && (self.player_tasks[task]
                    == PlayerTaskState::Completed || self.player_tasks[task]
                    == PlayerTaskState::Cancelled) ==> next == self.refusing(
                    task,
                    PlayerCommandRejection::TaskNotCancellable,
                )
            }),
    {
    }

    /// An order that stands in a queue is taken back, wherever in it: the
    /// cancellation is accepted, the order ends cancelled and is published as
    /// such with what it asked for, and it leaves its queue, in which the
    /// others keep their order. Whatever was done for it ends; all else goes
    /// on, and nobody moves.
    pub proof fn law_order_is_taken_back_from_anywhere_in_its_queue(
        self,
        task: PlayerTaskId,
        resident: SimId,
        k: int,
    )
        requires
            self.valid(),
            self.player_task_queue.contains_key(resident),
            0 <= k < self.player_task_queue[resident].len(),
            self.player_task_queue[resident][k].task == task,
        ensures
            ({
                let next = self.ingest(PlayerCommand::CancelPlayerTask { task });
                let queue = self.player_task_queue[resident];
                let walked = self.go_to.contains_key(resident) && self.go_to[resident].player_task
                    == Some(task);
                let used = self.active_object_uses.contains_key(resident)
                    && self.active_object_uses[resident].player_task == Some(task);
                let active = self.active_object_uses[resident];
                &&& next.ledger == self.ledger.push(
                    WorldEvent {
                        tick: self.tick,
                        kind: WorldEventKind::PlayerCommandAccepted { task },
                    },
                ).push(
                    WorldEvent {
                        tick: self.tick,
                        kind: match queue[k].order {
                            QueuedOrder::GoTo { destination, .. } => WorldEventKind::GoToCancelled {
                                task,
                                resident,
                                destination,
                            },
                            QueuedOrder::UseToilet { object, affordance, .. } =>
                                WorldEventKind::TaskCancelled {
                                task,
                                resident,
                                object,
                                affordance,
                            },
                        },
                    },
                )
                &&& next.player_tasks == self.player_tasks.insert(task, PlayerTaskState::Cancelled)
                &&& next.player_task_queue == if queue.len() == 1 {
                    self.player_task_queue.remove(resident)
                } else {
                    self.player_task_queue.insert(resident, queue.remove(k))
                }
                &&& next.go_to == if walked {
                    self.go_to.remove(resident)
                } else {
                    self.go_to
                }
                &&& next.active_object_uses == if used {
                    self.active_object_uses.remove(resident)
                } else {
                    self.active_object_uses
                }
                &&& next.object_slot_claims == if used {
                    self.object_slot_claims.remove((active.object@, active.slot@))
                } else {
                    self.object_slot_claims
                }
                &&& next.capability_claims == if used {
                    self.capability_claims.remove((resident, active.capability))
                } else {
                    self.capability_claims
                }
                &&& forall|request: UseRequest| #[trigger]
                    next.use_requests.contains(request) <==> self.use_requests.contains(request)
                        && request.player_task != Some(task)
                &&& next.residents == self.residents
                &&& next.occupancy == self.occupancy
                &&& next.portal_occupancy == self.portal_occupancy
                &&& next.toilet_needs == self.toilet_needs
                &&& next.autonomous_toilet_intentions == self.autonomous_toilet_intentions
                &&& next.urgent_toilet_intentions == self.urgent_toilet_intentions
                &&& next.inbox == self.inbox
                &&& next.tick == self.tick
                &&& self.same_world(next)
            }),
    {
        let queue = self.player_task_queue[resident];
        assert(self.is_live_order(self.player_task_queue[resident][k].task));
        assert(self.holds(resident, task));
        self.law_order_in_progress_is_queued_once(task);
        self.law_order_in_progress_can_be_cancelled(task);
        let next = self.ingest(PlayerCommand::CancelPlayerTask { task });
        assert forall|j: int| 0 <= j < queue.len() && j != k implies (
        #[trigger] queue[j]).task != task by {
            assert(self.player_task_queue[resident][j] == queue[j]);
        }
        lemma_filter_is_remove(queue, k, task);
        assert(is_order(task)(queue[k]));
        assert forall|j: int| 0 <= j < k implies !is_order(task)(#[trigger] queue[j]) by {}
        lemma_first_where_at(queue, is_order(task), k);
        let accepted = self.emit(WorldEventKind::PlayerCommandAccepted { task });
        assert(accepted.requests_for(task) == self.requests_for(task));
        self.lemma_one_way_of_execution(resident, task);
        let p = request_for(task);
        if self.requests_for(task) {
            let i = lemma_first_index(self.use_requests, p);
            lemma_without_first_at(self.use_requests, p, i);
            let left = self.use_requests.remove(i);
            assert(p(self.use_requests[i]));
            assert(self.use_requests[i].player_task is Some);
            assert forall|request: UseRequest| #[trigger]
                left.contains(request) <==> self.use_requests.contains(request)
                    && request.player_task != Some(task) by {
                if left.contains(request) {
                    let at = left.index_of(request);
                    let j = if at < i {
                        at
                    } else {
                        at + 1
                    };
                    assert(self.use_requests[j] == request);
                    if request.player_task == Some(task) {
                        assert(self.use_requests[j].player_task is Some);
                        self.lemma_requester_holds(j, resident, task);
                        self.lemma_requester_holds(i, resident, task);
                        if j < i {
                            assert(self.use_requests[j].resident != self.use_requests[i].resident);
                        } else {
                            assert(self.use_requests[i].resident != self.use_requests[j].resident);
                        }
                    }
                }
                if self.use_requests.contains(request) && request.player_task != Some(task) {
                    let j = self.use_requests.index_of(request);
                    let at = if j < i {
                        j
                    } else {
                        j - 1
                    };
                    assert(left[at] == request);
                }
            }
        } else {
            assert forall|request: UseRequest| #[trigger]
                self.use_requests.contains(request) implies request.player_task != Some(task) by {
                let j = self.use_requests.index_of(request);
                assert(self.use_requests[j] == request);
            }
        }
        assert(next.ledger =~= self.ledger.push(
            WorldEvent {
                tick: self.tick,
                kind: WorldEventKind::PlayerCommandAccepted { task },
            },
        ).push(next.ledger.last()));
        assert(next.ledger.last().tick == self.tick);
    }

    /// An order is in execution in at most one way.
    proof fn lemma_one_way_of_execution(self, resident: SimId, task: PlayerTaskId)
        requires
            self.valid(),
            self.holds(resident, task),
        ensures
            !(self.walks_for(resident, task) && self.uses_for(resident, task)),
            !(self.walks_for(resident, task) && self.requests_for(task)),
            !(self.uses_for(resident, task) && self.requests_for(task)),
    {
        if self.is_dispatched(resident, task) {
            self.law_only_queue_heads_execute(resident, task);
        }
    }

    // -- The inbox ---------------------------------------------------------

    /// A submitted command waits at the end of the inbox and changes nothing
    /// else; the next tick leaves the inbox empty.
    pub proof fn law_commands_wait_in_the_inbox(self, command: PlayerCommand)
        requires
            self.valid(),
        ensures
            self.submit(command) == (Village { inbox: self.inbox.push(command), ..self }),
            self.after_ingest().inbox.len() == 0,
            self.advance().inbox.len() == 0,
    {
        let begun = self.begin_tick();
        let emptied = Village { inbox: Seq::empty(), ..begun };
        emptied.lemma_ingest_all_same_inbox(begun.inbox);
        let grown = self.after_ingest().age_needs();
        grown.lemma_choose_all_same_inbox(in_order::<SimId>(grown.toilet_needs.dom()));
        let lived = self.after_living();
        lived.lemma_dispatch_all_same_inbox(in_order::<SimId>(lived.player_task_queue.dom()));
        let ready = self.after_dispatch();
        let first = ready.walk_all(ready.approved_walkers());
        ready.lemma_walk_all_same_inbox(ready.approved_walkers());
        first.lemma_follow_all_same_inbox(ready, ready.other_walkers());
        let walked = self.after_walking();
        walked.lemma_progress_all_same_inbox(in_order::<SimId>(walked.active_object_uses.dom()));
        let progressed = walked.progress_everyone();
        let start = Village { use_requests: Seq::empty(), ..progressed };
        start.lemma_grant_all_same_inbox(ranked(progressed.use_requests));
    }

    proof fn lemma_ingest_all_same_inbox(self, commands: Seq<PlayerCommand>)
        ensures
            self.ingest_all(commands).inbox == self.inbox,
        decreases commands.len(),
    {
        if commands.len() > 0 {
            self.lemma_ingest_all_same_inbox(commands.drop_last());
        }
    }

    proof fn lemma_choose_all_same_inbox(self, residents: Seq<SimId>)
        ensures
            self.choose_all(residents).inbox == self.inbox,
        decreases residents.len(),
    {
        if residents.len() > 0 {
            self.lemma_choose_all_same_inbox(residents.drop_last());
        }
    }

    proof fn lemma_dispatch_all_same_inbox(self, residents: Seq<SimId>)
        ensures
            self.dispatch_all(residents).inbox == self.inbox,
        decreases residents.len(),
    {
        if residents.len() > 0 {
            self.lemma_dispatch_all_same_inbox(residents.drop_last());
        }
    }

    proof fn lemma_walk_all_same_inbox(self, residents: Seq<SimId>)
        ensures
            self.walk_all(residents).inbox == self.inbox,
        decreases residents.len(),
    {
        if residents.len() > 0 {
            self.lemma_walk_all_same_inbox(residents.drop_last());
        }
    }

    proof fn lemma_follow_all_same_inbox(self, before: Village, residents: Seq<SimId>)
        ensures
            self.follow_all(before, residents).inbox == self.inbox,
        decreases residents.len(),
    {
        if residents.len() > 0 {
            self.lemma_follow_all_same_inbox(before, residents.drop_last());
        }
    }

    proof fn lemma_progress_all_same_inbox(self, residents: Seq<SimId>)
        ensures
            self.progress_all(residents).inbox == self.inbox,
        decreases residents.len(),
    {
        if residents.len() > 0 {
            self.lemma_progress_all_same_inbox(residents.drop_last());
        }
    }

    proof fn lemma_grant_all_same_inbox(self, requests: Seq<UseRequest>)
        ensures
            self.grant_all(requests).inbox == self.inbox,
        decreases requests.len(),
    {
        if requests.len() > 0 {
            self.lemma_grant_all_same_inbox(requests.drop_last());
        }
    }

    /// Every command in the inbox is answered by the next tick, and the answer
    /// is dated with that tick.
    pub proof fn law_next_tick_answers_the_inbox(self, k: int)
        requires
            self.valid(),
            self.tick < u64::MAX,
            0 <= k < self.inbox.len(),
        ensures
            exists|i: int|
                self.ledger.len() <= i < self.advance().ledger.len() && answers(
                    (#[trigger] self.advance().ledger[i]).kind,
                    self.inbox[k].spec_task(),
                ) && self.advance().ledger[i].tick == self.tick + 1,
    {
        let begun = self.begin_tick();
        let emptied = Village { inbox: Seq::empty(), ..begun };
        emptied.law_whole_inbox_is_answered(begun.inbox, k);
        let ingested = self.after_ingest();
        let i = choose|i: int|
            emptied.ledger.len() <= i < ingested.ledger.len() && answers(
                (#[trigger] ingested.ledger[i]).kind,
                begun.inbox[k].spec_task(),
            );
        self.lemma_phases_go_on();
        let grown = ingested.age_needs();
        assert(grown.ledger[i] == ingested.ledger[i]);
        assert(self.after_living().ledger[i] == grown.ledger[i]);
        assert(self.after_dispatch().ledger[i] == self.after_living().ledger[i]);
        assert(self.after_walking().ledger[i] == self.after_dispatch().ledger[i]);
        assert(self.after_use().ledger[i] == self.after_walking().ledger[i]);
        assert(self.advance().ledger[i] == self.after_use().ledger[i]);
    }

    // -- Orders taken up ---------------------------------------------------

    /// A resident that has no orders, or walks, uses or waits for something, or
    /// whose need presses, takes up no order: nothing changes.
    pub proof fn law_busy_resident_takes_up_no_order(self, resident: SimId)
        requires
            ({
                ||| !self.player_task_queue.contains_key(resident)
                ||| self.urgent_toilet_intentions.contains(resident)
                ||| self.go_to.contains_key(resident)
                ||| self.active_object_uses.contains_key(resident)
                ||| exists|request: UseRequest| #[trigger]
                    self.use_requests.contains(request) && request.resident == resident
            }),
        ensures
            self.dispatch(resident) == self,
    {
        if exists|request: UseRequest| #[trigger]
            self.use_requests.contains(request) && request.resident == resident {
            let request = choose|request: UseRequest| #[trigger]
                self.use_requests.contains(request) && request.resident == resident;
            let i = self.use_requests.index_of(request);
            assert(self.use_requests[i].resident == resident);
        }
    }

    /// A resident that has orders, does nothing and has no pressing need takes
    /// up the first of them, paused or not. A movement order sets it out for
    /// the tile ordered and is active; a toilet order asks for the object and
    /// affordance ordered and is not active before it is granted. Either goes
    /// in the Player band, with the priority ordered, dated with the current
    /// tick. Nothing else changes.
    pub proof fn law_free_resident_takes_up_its_first_order(self, resident: SimId)
        requires
            self.valid(),
            self.player_task_queue.contains_key(resident),
            !self.urgent_toilet_intentions.contains(resident),
            !self.go_to.contains_key(resident),
            !self.active_object_uses.contains_key(resident),
            !exists|request: UseRequest| #[trigger]
                self.use_requests.contains(request) && request.resident == resident,
        ensures
            ({
                let after = self.dispatch(resident);
                let head = self.player_task_queue[resident][0];
                match head.order {
                    QueuedOrder::GoTo { destination, priority } => {
                        let walk = after.go_to[resident];
                        &&& after == (Village {
                            go_to: after.go_to,
                            player_tasks: self.player_tasks.insert(
                                head.task,
                                PlayerTaskState::Active,
                            ),
                            ..self
                        })
                        &&& after.go_to == self.go_to.insert(resident, walk)
                        &&& walk.destination == destination
                        &&& walk.priority == priority
                        &&& walk.band == ActionBand::Player
                        &&& walk.request_age == self.tick
                        &&& walk.player_task == Some(head.task)
                        &&& walk.traversal is None
                    },
                    QueuedOrder::UseToilet { object, affordance, priority } => {
                        let request = after.use_requests.last();
                        &&& after == (Village {
                            use_requests: after.use_requests,
                            player_tasks: self.player_tasks.insert(
                                head.task,
                                PlayerTaskState::Queued,
                            ),
                            ..self
                        })
                        &&& after.use_requests == self.use_requests.push(request)
                        &&& request.resident == resident
                        &&& request.object@ == object@
                        &&& request.affordance@ == affordance@
                        &&& request.priority == priority
                        &&& request.band == ActionBand::Player
                        &&& request.request_age == self.tick
                        &&& request.player_task == Some(head.task)
                    },
                }
            }),
    {
        assert(self.slot_free(resident)) by {
            if self.has_request(resident) {
                let i = choose|i: int|
                    0 <= i < self.use_requests.len() && (#[trigger] self.use_requests[i]).resident
                        == resident;
                assert(self.use_requests.contains(self.use_requests[i]));
            }
        }
        self.law_free_resident_takes_up_its_queue(resident);
    }

    proof fn lemma_dispatched_once(self, queues: Seq<SimId>, resident: SimId) -> (then: Village)
        requires
            self.valid(),
            queues.no_duplicates(),
            queues.contains(resident),
        ensures
            then.valid(),
            self.same_for(then, resident),
            then.dispatch(resident).same_for(self.dispatch_all(queues), resident),
        decreases queues.len(),
    {
        let rest = queues.drop_last();
        let last = queues.last();
        let mid = self.dispatch_all(rest);
        self.lemma_dispatch_all_valid(rest);
        if last == resident {
            assert(!rest.contains(resident)) by {
                if rest.contains(resident) {
                    let i = rest.index_of(resident);
                    assert(queues[i] == queues[queues.len() - 1]);
                }
            }
            self.lemma_others_dispatched(rest, resident);
            mid
        } else {
            let k = queues.index_of(resident);
            assert(rest[k] == resident);
            let then = self.lemma_dispatched_once(rest, resident);
            mid.law_dispatch_touches_nobody_else(last, resident);
            then.dispatch(resident).lemma_same_for_transitive(
                mid,
                self.dispatch_all(queues),
                resident,
            );
            then
        }
    }

    /// Each tick the queue of every resident that has one is dispatched once,
    /// after everybody has chosen: before it and after it the others' orders
    /// concern the resident in nothing.
    pub proof fn law_every_queue_is_dispatched_once(self, resident: SimId) -> (then: Village)
        requires
            self.valid(),
        ensures
            ({
                let lived = self.after_living();
                &&& then.valid()
                &&& lived.same_for(then, resident)
                &&& then.dispatch(resident).same_for(self.after_dispatch(), resident)
            }),
    {
        self.lemma_phases_valid();
        let lived = self.after_living();
        let queues = in_order::<SimId>(lived.player_task_queue.dom());
        lemma_in_order_lists::<SimId>(lived.player_task_queue.dom());
        assert(queues.contains(resident) <==> lived.player_task_queue.dom().contains(resident));
        if lived.player_task_queue.contains_key(resident) {
            lived.lemma_dispatched_once(queues, resident)
        } else {
            lived.lemma_others_dispatched(queues, resident);
            lived.law_busy_resident_takes_up_no_order(resident);
            lived
        }
    }
}

} // verus!
