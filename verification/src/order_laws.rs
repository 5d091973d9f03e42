//! What the village promises about the player's orders.

use vstd::prelude::*;

use crate::arbitration::ActionBand;
use crate::arbitration::UseRequest;
use crate::events::PlayerCommand;
use crate::events::PlayerCommandRejection;
use crate::events::WorldEventKind;
use crate::identity::PlayerTaskId;
use crate::identity::SimId;
use crate::listing::first_where;
use crate::listing::lemma_first_where;
use crate::listing::lemma_first_where_at;
use crate::state::PlayerTaskState;
use crate::state::QueuedOrder;
use crate::state::QueuedPlayerTask;
use crate::upkeep::lemma_first_index;
use crate::village::is_order;
use crate::village::player_request_of;
use crate::village::request_for;
use crate::village::Village;

verus! {

/// Whether an event answers a command about an order.
pub open spec fn answers(kind: WorldEventKind, task: PlayerTaskId) -> bool {
    match kind {
        WorldEventKind::PlayerCommandAccepted { task: about } => about == task,
        WorldEventKind::PlayerCommandRejected { task: about, .. } => about == task,
        _ => false,
    }
}

impl Village {
    // -- Receipts ----------------------------------------------------------

    /// Every command is answered, before anything else it brings about.
    pub proof fn law_every_command_is_answered(self, command: PlayerCommand)
        ensures
            self.ingest(command).ledger.len() > self.ledger.len(),
            answers(
                self.ingest(command).ledger[self.ledger.len() as int].kind,
                command.spec_task(),
            ),
    {
    }

    proof fn lemma_ingest_extends(self, command: PlayerCommand)
        ensures
            self.ingest(command).ledger.len() >= self.ledger.len(),
            forall|i: int|
                0 <= i < self.ledger.len() ==> #[trigger] self.ingest(command).ledger[i]
                    == self.ledger[i],
    {
    }

    /// Every command in the inbox is answered within the tick that ingests it.
    pub proof fn law_whole_inbox_is_answered(self, commands: Seq<PlayerCommand>, k: int)
        requires
            0 <= k < commands.len(),
        ensures
            self.ingest_all(commands).ledger.len() >= self.ledger.len(),
            exists|i: int|
                self.ledger.len() <= i < self.ingest_all(commands).ledger.len() && answers(
                    (#[trigger] self.ingest_all(commands).ledger[i]).kind,
                    commands[k].spec_task(),
                ),
        decreases commands.len(),
    {
        let rest = commands.drop_last();
        let before = self.ingest_all(rest);
        let last = commands.last();
        before.lemma_ingest_extends(last);
        if k < rest.len() {
            self.law_whole_inbox_is_answered(rest, k);
            let i = choose|i: int|
                self.ledger.len() <= i < before.ledger.len() && answers(
                    (#[trigger] before.ledger[i]).kind,
                    rest[k].spec_task(),
                );
            assert(self.ingest_all(commands).ledger[i] == before.ledger[i]);
        } else {
            self.lemma_ingest_all_extends(rest);
            before.law_every_command_is_answered(last);
            assert(answers(
                self.ingest_all(commands).ledger[before.ledger.len() as int].kind,
                commands[k].spec_task(),
            ));
        }
    }

    proof fn lemma_ingest_all_extends(self, commands: Seq<PlayerCommand>)
        ensures
            self.ingest_all(commands).ledger.len() >= self.ledger.len(),
        decreases commands.len(),
    {
        if commands.len() > 0 {
            self.lemma_ingest_all_extends(commands.drop_last());
            self.ingest_all(commands.drop_last()).lemma_ingest_extends(commands.last());
        }
    }

    /// A refused command changes nothing but the ledger, which gets the
    /// refusal.
    pub proof fn law_refusal_changes_nothing_else(self, command: PlayerCommand)
        ensures
            match self.ingest(command).ledger[self.ledger.len() as int].kind {
                WorldEventKind::PlayerCommandRejected { task, reason } => self.ingest(command)
                    == self.reject(task, reason),
                _ => true,
            },
    {
    }

    /// An order whose id was used before is refused as a duplicate.
    pub proof fn law_used_order_id_is_refused(self, command: PlayerCommand)
        requires
            !(command is CancelPlayerTask),
            self.player_tasks.contains_key(command.spec_task()),
        ensures
            self.ingest(command) == self.reject(
                command.spec_task(),
                PlayerCommandRejection::DuplicateTask,
            ),
    {
    }

    /// No command is refused because a resident is busy: a busy resident
    /// queues the order behind its current work.
    pub proof fn law_busy_resident_queues_orders(self, command: PlayerCommand)
        ensures
            match self.ingest(command).ledger[self.ledger.len() as int].kind {
                WorldEventKind::PlayerCommandRejected { reason, .. } => reason
                    != PlayerCommandRejection::ResidentBusy,
                _ => true,
            },
    {
    }

    /// Ingesting commands puts nothing in execution and claims nothing new:
    /// walks, requests, uses and claims are at most those of before.
    pub proof fn law_submission_never_claims(self, command: PlayerCommand)
        ensures
            self.ingest(command).go_to.submap_of(self.go_to),
            self.ingest(command).active_object_uses.submap_of(self.active_object_uses),
            self.ingest(command).object_slot_claims.submap_of(self.object_slot_claims),
            self.ingest(command).capability_claims.submap_of(self.capability_claims),
            self.ingest(command).occupancy == self.occupancy,
            self.ingest(command).residents == self.residents,
    {
    }

    // -- Queues ------------------------------------------------------------

    /// An order in progress is in exactly one queue, once.
    pub proof fn law_order_in_progress_is_queued_once(self, task: PlayerTaskId)
        requires
            self.valid(),
            self.is_live_order(task),
        ensures
            self.order_holder(task) is Some,
            self.holds(self.order_holder(task)->0, task),
            forall|resident: SimId| #[trigger]
                self.holds(resident, task) ==> resident == self.order_holder(task)->0,
            forall|resident: SimId, i: int, j: int|
                #![trigger self.player_task_queue[resident][i], self.player_task_queue[resident][j]]
                self.player_task_queue.contains_key(resident) && 0 <= i
                    < self.player_task_queue[resident].len() && 0 <= j
                    < self.player_task_queue[resident].len()
                    && self.player_task_queue[resident][i].task == task
                    && self.player_task_queue[resident][j].task == task ==> i == j,
    {
        self.lemma_order_holder(task);
        let holder = choose|resident: SimId| #[trigger] self.holds(resident, task);
        assert(self.holds(holder, task));
        assert forall|resident: SimId| #[trigger] self.holds(resident, task) implies resident
            == self.order_holder(task)->0 by {
            self.lemma_one_holder(resident, self.order_holder(task)->0, task);
        }
    }

    /// Only the head of a resident's queue is in execution, and in one way
    /// only: as a walk, as a request or as a use.
    pub proof fn law_only_queue_heads_execute(self, resident: SimId, task: PlayerTaskId)
        requires
            self.valid(),
            self.holds(resident, task),
            self.is_dispatched(resident, task),
        ensures
            self.leads(resident, task),
            !(self.walks_for(resident, task) && self.uses_for(resident, task)),
            !(self.walks_for(resident, task) && self.requests_for(task)),
            !(self.uses_for(resident, task) && self.requests_for(task)),
    {
        if self.walks_for(resident, task) {
            assert(self.walks_on_order(resident));
        }
        if self.uses_for(resident, task) {
            assert(self.uses_on_order(resident));
        }
        if self.requests_for(task) {
            let i = choose|i: int|
                0 <= i < self.use_requests.len() && (#[trigger] self.use_requests[i]).player_task
                    == Some(task);
            self.lemma_requester_holds(i, resident, task);
            assert(self.leads(self.use_requests[i].resident, task));
        }
    }

    /// An order joins the end of its resident's queue, and every order ahead
    /// of it keeps its place.
    pub proof fn law_orders_queue_behind_earlier_orders(
        self,
        resident: SimId,
        queued: QueuedPlayerTask,
    )
        ensures
            self.enqueue(resident, queued).player_task_queue[resident].last() == queued,
            self.player_task_queue.contains_key(resident) ==> self.enqueue(
                resident,
                queued,
            ).player_task_queue[resident].drop_last() == self.player_task_queue[resident],
    {
        if self.player_task_queue.contains_key(resident) {
            let queue = self.player_task_queue[resident];
            assert(queue.push(queued).drop_last() =~= queue);
        }
    }

    // -- Cancellation ------------------------------------------------------

    /// An order in progress can always be cancelled, wherever it has got to:
    /// the cancellation is accepted and names what the order asked for, the
    /// order ends cancelled, leaves its queue and is no longer in execution.
    pub proof fn law_order_in_progress_can_be_cancelled(self, task: PlayerTaskId)
        requires
            self.valid(),
            self.is_live_order(task),
        ensures
            ({
                let next = self.ingest_cancel(task);
                let resident = self.order_holder(task)->0;
                &&& next.ledger.len() == self.ledger.len() + 2
                &&& next.ledger[self.ledger.len() as int].kind
                    == WorldEventKind::PlayerCommandAccepted { task }
                &&& next.ledger.last().kind == cancelled_kind(
                    task,
                    resident,
                    self.order_in_queue(resident, task),
                )
                &&& next.player_tasks == self.player_tasks.insert(task, PlayerTaskState::Cancelled)
                &&& forall|r: SimId| !#[trigger] next.holds(r, task)
                &&& !next.is_dispatched(resident, task)
            }),
    {
        self.law_order_in_progress_is_queued_once(task);
        let resident = self.order_holder(task)->0;
        let accepted = self.emit(WorldEventKind::PlayerCommandAccepted { task });
        self.lemma_emit_valid(WorldEventKind::PlayerCommandAccepted { task });
        let order = self.order_in_queue(resident, task);
        let next = accepted.withdraw(resident, task, order);
        assert(accepted.holds(resident, task));
        accepted.lemma_withdraw_valid(resident, task, order);
        assert(self.ingest_cancel(task) == next);
        accepted.lemma_work_is_the_order(resident, task);
        assert(!next.is_live_order(task));
        assert forall|r: SimId| !#[trigger] next.holds(r, task) by {
            if next.holds(r, task) {
                let i = choose|i: int|
                    0 <= i < next.player_task_queue[r].len() && (
                    #[trigger] next.player_task_queue[r][i]).task == task;
                assert(next.is_live_order(next.player_task_queue[r][i].task));
            }
        }
        next.lemma_unheld_is_idle(resident, task);
    }

    /// What is in execution for an order is what the order asks for.
    proof fn lemma_work_is_the_order(self, resident: SimId, task: PlayerTaskId)
        requires
            self.valid(),
            self.holds(resident, task),
        ensures
            self.walks_for(resident, task) ==> cancelled_kind(
                task,
                resident,
                self.order_in_queue(resident, task),
            ) == (WorldEventKind::GoToCancelled {
                task,
                resident,
                destination: self.go_to[resident].destination,
            }),
            self.uses_for(resident, task) ==> cancelled_kind(
                task,
                resident,
                self.order_in_queue(resident, task),
            ) == (WorldEventKind::TaskCancelled {
                task,
                resident,
                object: self.active_object_uses[resident].object,
                affordance: self.active_object_uses[resident].affordance,
            }),
            self.requests_for(task) ==> cancelled_kind(
                task,
                resident,
                self.order_in_queue(resident, task),
            ) == (WorldEventKind::TaskCancelled {
                task,
                resident,
                object: first_where(self.use_requests, request_for(task))->0.object,
                affordance: first_where(self.use_requests, request_for(task))->0.affordance,
            }),
    {
        let queue = self.player_task_queue[resident];
        if self.leads(resident, task) {
            assert(is_order(task)(queue[0]));
            lemma_first_where_at(queue, is_order(task), 0);
        }
        if self.walks_for(resident, task) {
            assert(self.walks_on_order(resident));
        }
        if self.uses_for(resident, task) {
            assert(self.uses_on_order(resident));
        }
        if self.requests_for(task) {
            let p = request_for(task);
            let k = lemma_first_index(self.use_requests, p);
            lemma_first_where_at(self.use_requests, p, k);
            assert(p(self.use_requests[k]));
            assert(self.use_requests[k].player_task is Some);
            self.lemma_requester_holds(k, resident, task);
        }
    }

    /// An order that is in no queue is not in execution.
    proof fn lemma_unheld_is_idle(self, resident: SimId, task: PlayerTaskId)
        requires
            self.valid(),
            forall|r: SimId| !#[trigger] self.holds(r, task),
        ensures
            !self.is_dispatched(resident, task),
    {
        if self.walks_for(resident, task) {
            assert(self.walks_on_order(resident));
            self.lemma_leader(resident, task);
        }
        if self.uses_for(resident, task) {
            assert(self.uses_on_order(resident));
            self.lemma_leader(resident, task);
        }
        if self.requests_for(task) {
            let i = choose|i: int|
                0 <= i < self.use_requests.len() && (#[trigger] self.use_requests[i]).player_task
                    == Some(task);
            self.lemma_leader(self.use_requests[i].resident, task);
        }
    }

    /// Cancelling an order that is not in execution disturbs nothing that is:
    /// walks, requests, uses and claims are as they were.
    pub proof fn law_cancelling_a_waiting_order_disturbs_nothing(self, task: PlayerTaskId)
        requires
            self.valid(),
            self.is_live_order(task),
            !self.is_dispatched(self.order_holder(task)->0, task),
        ensures
            self.ingest_cancel(task).go_to == self.go_to,
            self.ingest_cancel(task).use_requests == self.use_requests,
            self.ingest_cancel(task).active_object_uses == self.active_object_uses,
            self.ingest_cancel(task).object_slot_claims == self.object_slot_claims,
            self.ingest_cancel(task).capability_claims == self.capability_claims,
    {
        self.law_order_in_progress_is_queued_once(task);
    }

    /// Cancelling an order that uses an object releases the slot and the
    /// capability it claimed, without completing the use.
    pub proof fn law_cancelling_a_use_releases_its_claims(self, task: PlayerTaskId)
        requires
            self.valid(),
            self.is_live_order(task),
            self.uses_for(self.order_holder(task)->0, task),
        ensures
            ({
                let resident = self.order_holder(task)->0;
                let active = self.active_object_uses[resident];
                let next = self.ingest_cancel(task);
                &&& !next.active_object_uses.contains_key(resident)
                &&& !next.object_slot_claims.contains_key((active.object@, active.slot@))
                &&& !next.capability_claims.contains_key((resident, active.capability))
                &&& next.toilet_needs == self.toilet_needs
            }),
    {
        self.law_order_in_progress_is_queued_once(task);
        let resident = self.order_holder(task)->0;
        assert(self.uses_on_order(resident));
        assert(!self.walks_for(resident, task)) by {
            if self.walks_for(resident, task) {
                assert(self.walks_on_order(resident));
            }
        }
    }

    /// An order that has ended cannot be cancelled, and an order never given
    /// is unknown.
    pub proof fn law_ended_order_cannot_be_cancelled(self, task: PlayerTaskId)
        requires
            !self.is_live_order(task),
        ensures
            self.ingest_cancel(task) == self.reject(
                task,
                if self.player_tasks.contains_key(task) {
                    PlayerCommandRejection::TaskNotCancellable
                } else {
                    PlayerCommandRejection::UnknownTask
                },
            ),
    {
    }

    // -- Preemption --------------------------------------------------------

    /// A need that is not urgent never preempts: the resident's queue, orders,
    /// walk, request and use are as they were.
    pub proof fn law_autonomy_never_preempts(self, resident: SimId)
        requires
            self.valid(),
            self.toilet_needs.contains_key(resident),
            !self.intends(resident) || !self.urges(resident),
        ensures
            self.choose_plan(resident).player_tasks == self.player_tasks,
            self.choose_plan(resident).player_task_queue == self.player_task_queue,
            self.choose_plan(resident).active_object_uses == self.active_object_uses,
            self.go_to.submap_of(self.choose_plan(resident).go_to),
            self.use_requests.is_prefix_of(self.choose_plan(resident).use_requests),
            self.has_queue(resident) || !self.slot_free(resident) ==> {
                &&& self.choose_plan(resident).go_to == self.go_to
                &&& self.choose_plan(resident).use_requests == self.use_requests
            },
    {
        let minded = self.minded(resident);
        assert(minded.slot_free(resident) == self.slot_free(resident));
    }

    /// An urgent need pauses at most the order in execution: it stays at the
    /// head of its queue, in progress, and every other order is as it was.
    pub proof fn law_urgent_need_pauses_without_cancelling(self, resident: SimId)
        requires
            self.valid(),
            self.toilet_needs.contains_key(resident),
        ensures
            self.choose_plan(resident).player_task_queue == self.player_task_queue,
            forall|task: PlayerTaskId| #[trigger]
                self.player_tasks.contains_key(task) ==> self.choose_plan(
                    resident,
                ).player_tasks[task] == self.player_tasks[task] || (self.leads(resident, task)
                    && self.is_dispatched(resident, task) && self.choose_plan(
                    resident,
                ).player_tasks[task] == PlayerTaskState::Paused),
    {
        let minded = self.minded(resident);
        if self.intends(resident) && self.urges(resident) {
            if self.walks_on_order(resident) {
                assert(self.leads(resident, self.go_to[resident].player_task->0));
            } else if self.uses_on_order(resident) {
                assert(self.leads(resident, self.active_object_uses[resident].player_task->0));
            } else {
                let p = player_request_of(resident);
                lemma_first_where(self.use_requests, p);
                if first_where(self.use_requests, p) is Some {
                    let request = first_where(self.use_requests, p)->0;
                    let i = choose|i: int|
                        0 <= i < self.use_requests.len() && self.use_requests[i] == request;
                    assert(self.use_requests[i].player_task is Some);
                    assert(self.leads(resident, request.player_task->0));
                    assert(self.requests_for(request.player_task->0));
                }
            }
        }
    }

    /// While a need is urgent its resident's queue is not dispatched.
    pub proof fn law_urgent_need_holds_back_the_queue(self, resident: SimId)
        requires
            self.urgent_toilet_intentions.contains(resident),
        ensures
            self.dispatch(resident) == self,
    {
    }

    /// A resident that is free and not owned by an urgent need takes up the
    /// head of its queue again, paused or not: it sets out, or asks for its
    /// toilet, in the Player band.
    pub proof fn law_free_resident_takes_up_its_queue(self, resident: SimId)
        requires
            self.valid(),
            self.has_queue(resident),
            !self.urgent_toilet_intentions.contains(resident),
            self.slot_free(resident),
        ensures
            ({
                let head = self.player_task_queue[resident][0];
                match head.order {
                    QueuedOrder::GoTo { destination, priority } => {
                        &&& self.dispatch(resident).walks_for(resident, head.task)
                        &&& self.dispatch(resident).go_to[resident].destination == destination
                        &&& self.dispatch(resident).go_to[resident].priority == priority
                        &&& self.dispatch(resident).go_to[resident].band == ActionBand::Player
                        &&& self.dispatch(resident).player_tasks[head.task]
                            == PlayerTaskState::Active
                    },
                    QueuedOrder::UseToilet { object, affordance, priority } => {
                        &&& self.dispatch(resident).use_requests == self.use_requests.push(
                            UseRequest {
                                resident,
                                object,
                                affordance,
                                priority: priority as i64,
                                band: ActionBand::Player,
                                request_age: self.tick,
                                player_task: Some(head.task),
                            },
                        )
                        &&& self.dispatch(resident).requests_for(head.task)
                        &&& self.dispatch(resident).player_tasks[head.task]
                            == PlayerTaskState::Queued
                    },
                }
            }),
    {
        let head = self.player_task_queue[resident][0];
        assert(self.player_task_queue[resident][0].task == head.task);
        assert(self.holds(resident, head.task));
        assert(!self.is_dispatched(resident, head.task)) by {
            if self.requests_for(head.task) {
                let i = choose|i: int|
                    0 <= i < self.use_requests.len() && (
                    #[trigger] self.use_requests[i]).player_task == Some(head.task);
                self.lemma_requester_holds(i, resident, head.task);
            }
        }
        match head.order {
            QueuedOrder::GoTo { .. } => {},
            QueuedOrder::UseToilet { object, affordance, priority } => {
                assert(self.may_queue(resident, self.player_task_queue[resident][0].order));
                assert(self.may_request(resident, object@, affordance@));
                let next = self.dispatch(resident);
                let last = next.use_requests.len() - 1;
                assert(next.use_requests[last].player_task == Some(head.task));
            },
        }
    }

    // -- What a client is shown -------------------------------------------

    pub(crate) proof fn lemma_shown_of(self, queue: Seq<QueuedPlayerTask>)
        requires
            forall|i: int|
                0 <= i < queue.len() ==> self.is_live_order((#[trigger] queue[i]).task),
        ensures
            self.shown_of(queue).len() == queue.len(),
            forall|i: int|
                0 <= i < queue.len() ==> (#[trigger] self.shown_of(queue)[i]).id == queue[i].task
                    && Some(self.shown_of(queue)[i]) == self.shown_task(queue[i].task),
        decreases queue.len(),
    {
        if queue.len() > 0 {
            let rest = queue.drop_last();
            assert forall|i: int| 0 <= i < rest.len() implies self.is_live_order(
                (#[trigger] rest[i]).task,
            ) by {
                assert(rest[i] == queue[i]);
            }
            self.lemma_shown_of(rest);
            assert(self.is_live_order(queue[queue.len() - 1].task));
            assert forall|i: int| 0 <= i < queue.len() implies (
            #[trigger] self.shown_of(queue)[i]).id == queue[i].task && Some(self.shown_of(queue)[i])
                == self.shown_task(queue[i].task) by {
                if i < rest.len() {
                    assert(self.shown_of(queue)[i] == self.shown_of(rest)[i]);
                    assert(rest[i] == queue[i]);
                }
            }
        }
    }

    /// A client is shown the whole queue, head first: every order in it, each
    /// under its own id.
    pub proof fn law_client_is_shown_the_whole_queue(self, resident: SimId)
        requires
            self.valid(),
            self.player_task_queue.contains_key(resident),
        ensures
            self.shown_tasks(resident).len() == self.player_task_queue[resident].len(),
            forall|i: int|
                0 <= i < self.player_task_queue[resident].len() ==> (
                #[trigger] self.shown_tasks(resident)[i]).id
                    == self.player_task_queue[resident][i].task,
    {
        let queue = self.player_task_queue[resident];
        assert forall|i: int| 0 <= i < queue.len() implies self.is_live_order(
            (#[trigger] queue[i]).task,
        ) by {
            assert(self.player_task_queue[resident][i] == queue[i]);
        }
        self.lemma_shown_of(queue);
    }
}

/// What is published of a cancelled order.
pub open spec fn cancelled_kind(
    task: PlayerTaskId,
    resident: SimId,
    order: QueuedOrder,
) -> WorldEventKind {
    match order {
        QueuedOrder::GoTo { destination, .. } => WorldEventKind::GoToCancelled {
            task,
            resident,
            destination,
        },
        QueuedOrder::UseToilet { object, affordance, .. } => WorldEventKind::TaskCancelled {
            task,
            resident,
            object,
            affordance,
        },
    }
}

} // verus!
