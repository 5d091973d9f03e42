//! Orders are carried out first in, first out.

use vstd::prelude::*;

use crate::arbitration::UseRequest;
use crate::events::PlayerCommand;
use crate::identity::PlayerTaskId;
use crate::identity::SimId;
use crate::ord_map::in_order;
use crate::ord_map::lemma_in_order_lists;
use crate::state::PlayerTaskState;
use crate::state::QueuedOrder;
use crate::state::QueuedPlayerTask;
use crate::upkeep::lemma_filter_is_remove;
use crate::village::Village;
use crate::village::ranked;

verus! {

impl Village {
    /// Whether one order stands ahead of another in a resident's queue.
    pub open spec fn ahead(self, resident: SimId, a: PlayerTaskId, b: PlayerTaskId) -> bool {
        self.player_task_queue.contains_key(resident) && exists|i: int, j: int|
            0 <= i < j < self.player_task_queue[resident].len() && (
            #[trigger] self.player_task_queue[resident][i]).task == a && (
            #[trigger] self.player_task_queue[resident][j]).task == b
    }

    /// Orders are kept: none is forgotten, an order that has ended stays as it
    /// ended, only new orders join a queue, and no order gets ahead of one
    /// that was queued before it.
    pub open spec fn keeps_orders(self, next: Village) -> bool {
        &&& forall|task: PlayerTaskId| #[trigger]
            self.player_tasks.contains_key(task) ==> next.player_tasks.contains_key(task) && (
            self.player_tasks[task].is_live() || next.player_tasks[task]
                == self.player_tasks[task])
        &&& forall|resident: SimId, task: PlayerTaskId| #[trigger]
            next.holds(resident, task) ==> self.holds(resident, task)
                || !self.player_tasks.contains_key(task)
        &&& forall|resident: SimId, a: PlayerTaskId, b: PlayerTaskId| #[trigger]
            next.ahead(resident, a, b) && self.holds(resident, b) ==> self.ahead(resident, a, b)
    }

    proof fn lemma_keeps_transitive(self, mid: Village, next: Village)
        requires
            self.valid(),
            self.keeps_orders(mid),
            mid.keeps_orders(next),
        ensures
            self.keeps_orders(next),
    {
        assert forall|task: PlayerTaskId| #[trigger]
            self.player_tasks.contains_key(task) implies next.player_tasks.contains_key(task) && (
        self.player_tasks[task].is_live() || next.player_tasks[task]
            == self.player_tasks[task]) by {
            assert(mid.player_tasks.contains_key(task));
        }
        assert forall|resident: SimId, task: PlayerTaskId| #[trigger]
            next.holds(resident, task) implies self.holds(resident, task)
            || !self.player_tasks.contains_key(task) by {
            if mid.holds(resident, task) {
            } else {
                assert(!mid.player_tasks.contains_key(task));
            }
        }
        assert forall|resident: SimId, a: PlayerTaskId, b: PlayerTaskId| #[trigger]
            next.ahead(resident, a, b) && self.holds(resident, b) implies self.ahead(
            resident,
            a,
            b,
        ) by {
            assert(next.holds(resident, b)) by {
                let (i, j) = choose|i: int, j: int|
                    0 <= i < j < next.player_task_queue[resident].len() && (
                    #[trigger] next.player_task_queue[resident][i]).task == a && (
                    #[trigger] next.player_task_queue[resident][j]).task == b;
                assert(next.player_task_queue[resident][j].task == b);
            }
            assert(self.player_tasks.contains_key(b)) by {
                let j = choose|j: int|
                    0 <= j < self.player_task_queue[resident].len() && (
                    #[trigger] self.player_task_queue[resident][j]).task == b;
                assert(self.is_live_order(self.player_task_queue[resident][j].task));
            }
            assert(mid.holds(resident, b));
            assert(mid.ahead(resident, a, b));
        }
    }

    /// The same queues, and the same orders but for ones in progress.
    proof fn lemma_keeps_frame(self, next: Village)
        requires
            next.player_task_queue == self.player_task_queue,
            forall|task: PlayerTaskId| #[trigger]
                self.player_tasks.contains_key(task) ==> next.player_tasks.contains_key(task) && (
                self.player_tasks[task].is_live() || next.player_tasks[task]
                    == self.player_tasks[task]),
        ensures
            self.keeps_orders(next),
    {
        assert forall|resident: SimId, task: PlayerTaskId| #[trigger]
            next.holds(resident, task) implies self.holds(resident, task) by {}
        assert forall|resident: SimId, a: PlayerTaskId, b: PlayerTaskId| #[trigger]
            next.ahead(resident, a, b) implies self.ahead(resident, a, b) by {
            let (i, j) = choose|i: int, j: int|
                0 <= i < j < next.player_task_queue[resident].len() && (
                #[trigger] next.player_task_queue[resident][i]).task == a && (
                #[trigger] next.player_task_queue[resident][j]).task == b;
            assert(self.player_task_queue[resident][i].task == a);
            assert(self.player_task_queue[resident][j].task == b);
        }
    }

    proof fn lemma_finish_keeps(self, resident: SimId, task: PlayerTaskId, state: PlayerTaskState)
        requires
            self.valid(),
            self.holds(resident, task),
        ensures
            self.keeps_orders(self.finish(resident, task, state)),
    {
        let next = self.finish(resident, task, state);
        let queue = self.player_task_queue[resident];
        let k = choose|k: int| 0 <= k < queue.len() && (#[trigger] queue[k]).task == task;
        assert(self.player_task_queue[resident][k].task == task);
        assert(self.is_live_order(self.player_task_queue[resident][k].task));
        assert forall|j: int| 0 <= j < queue.len() && j != k implies (
        #[trigger] queue[j]).task != task by {
            assert(self.player_task_queue[resident][j] == queue[j]);
        }
        lemma_filter_is_remove(queue, k, task);
        assert forall|r: SimId, i: int|
            #![trigger next.player_task_queue[r][i]]
            next.player_task_queue.contains_key(r) && 0 <= i < next.player_task_queue[r].len()
                implies {
            let at = if r == resident && i >= k {
                i + 1
            } else {
                i
            };
            &&& self.player_task_queue.contains_key(r)
            &&& 0 <= at < self.player_task_queue[r].len()
            &&& self.player_task_queue[r][at] == next.player_task_queue[r][i]
        } by {
            let at = if r == resident && i >= k {
                i + 1
            } else {
                i
            };
            assert(self.player_task_queue[r][at] == next.player_task_queue[r][i]);
        }
        assert forall|r: SimId, t: PlayerTaskId| #[trigger] next.holds(r, t) implies self.holds(
            r,
            t,
        ) by {
            let i = choose|i: int|
                0 <= i < next.player_task_queue[r].len() && (
                #[trigger] next.player_task_queue[r][i]).task == t;
            let at = if r == resident && i >= k {
                i + 1
            } else {
                i
            };
            assert(self.player_task_queue[r][at].task == t);
        }
        assert forall|r: SimId, a: PlayerTaskId, b: PlayerTaskId| #[trigger]
            next.ahead(r, a, b) implies self.ahead(r, a, b) by {
            let (i, j) = choose|i: int, j: int|
                0 <= i < j < next.player_task_queue[r].len() && (
                #[trigger] next.player_task_queue[r][i]).task == a && (
                #[trigger] next.player_task_queue[r][j]).task == b;
            let at = if r == resident && i >= k {
                i + 1
            } else {
                i
            };
            let bt = if r == resident && j >= k {
                j + 1
            } else {
                j
            };
            assert(self.player_task_queue[r][at].task == a);
            assert(self.player_task_queue[r][bt].task == b);
        }
    }

    proof fn lemma_enqueue_keeps(self, resident: SimId, queued: QueuedPlayerTask)
        requires
            self.valid(),
            !self.player_tasks.contains_key(queued.task),
        ensures
            self.keeps_orders(self.enqueue(resident, queued)),
    {
        let next = self.enqueue(resident, queued);
        let was = if self.player_task_queue.contains_key(resident) {
            self.player_task_queue[resident]
        } else {
            Seq::empty()
        };
        assert(next.player_task_queue[resident] == was.push(queued));
        assert forall|r: SimId, t: PlayerTaskId| #[trigger] next.holds(r, t) implies self.holds(
            r,
            t,
        ) || !self.player_tasks.contains_key(t) by {
            let i = choose|i: int|
                0 <= i < next.player_task_queue[r].len() && (
                #[trigger] next.player_task_queue[r][i]).task == t;
            if !(r == resident && i == was.len()) {
                assert(self.player_task_queue[r][i].task == t);
            }
        }
        assert forall|r: SimId, a: PlayerTaskId, b: PlayerTaskId| #[trigger]
            next.ahead(r, a, b) && self.holds(r, b) implies self.ahead(r, a, b) by {
            let (i, j) = choose|i: int, j: int|
                0 <= i < j < next.player_task_queue[r].len() && (
                #[trigger] next.player_task_queue[r][i]).task == a && (
                #[trigger] next.player_task_queue[r][j]).task == b;
            let k = choose|k: int|
                0 <= k < self.player_task_queue[r].len() && (
                #[trigger] self.player_task_queue[r][k]).task == b;
            assert(self.is_live_order(self.player_task_queue[r][k].task));
            if r == resident {
                assert(j < was.len());
            }
            assert(self.player_task_queue[r][i].task == a);
            assert(self.player_task_queue[r][j].task == b);
        }
    }

    proof fn lemma_ingest_keeps(self, command: PlayerCommand)
        requires
            self.valid(),
        ensures
            self.keeps_orders(self.ingest(command)),
    {
        let next = self.ingest(command);
        match command {
            PlayerCommand::QueueGoTo { task, resident, destination, priority } => {
                if next.player_task_queue == self.player_task_queue {
                    self.lemma_keeps_frame(next);
                } else {
                    let order = QueuedOrder::GoTo { destination, priority };
                    self.lemma_enqueue_keeps(resident, QueuedPlayerTask { task, order });
                }
            },
            PlayerCommand::QueueUseToilet { task, resident, object, affordance, priority } => {
                if next.player_task_queue == self.player_task_queue {
                    self.lemma_keeps_frame(next);
                } else {
                    let order = QueuedOrder::UseToilet {
                        object,
                        affordance,
                        priority,
                    };
                    self.lemma_enqueue_keeps(resident, QueuedPlayerTask { task, order });
                }
            },
            PlayerCommand::CancelPlayerTask { task } => {
                self.lemma_order_holder(task);
                if self.is_live_order(task) && self.order_holder(task) is Some {
                    let resident = self.order_holder(task)->0;
                    let ended = self.finish(resident, task, PlayerTaskState::Cancelled);
                    self.lemma_finish_keeps(resident, task, PlayerTaskState::Cancelled);
                    ended.lemma_keeps_frame(next);
                    self.lemma_keeps_transitive(ended, next);
                } else {
                    self.lemma_keeps_frame(next);
                }
            },
        }
    }

    proof fn lemma_ingest_all_keeps(self, commands: Seq<PlayerCommand>)
        requires
            self.valid(),
        ensures
            self.keeps_orders(self.ingest_all(commands)),
        decreases commands.len(),
    {
        if commands.len() == 0 {
            self.lemma_keeps_frame(self);
        } else {
            let rest = commands.drop_last();
            self.lemma_ingest_all_keeps(rest);
            self.lemma_ingest_all_valid(rest);
            self.ingest_all(rest).lemma_ingest_keeps(commands.last());
            self.lemma_keeps_transitive(self.ingest_all(rest), self.ingest_all(commands));
        }
    }

    proof fn lemma_choose_plan_keeps(self, resident: SimId)
        requires
            self.valid(),
            self.toilet_needs.contains_key(resident),
        ensures
            self.keeps_orders(self.choose_plan(resident)),
    {
        let next = self.choose_plan(resident);
        self.law_urgent_need_pauses_without_cancelling(resident);
        assert forall|task: PlayerTaskId| #[trigger]
            self.player_tasks.contains_key(task) implies next.player_tasks.contains_key(task) && (
        self.player_tasks[task].is_live() || next.player_tasks[task]
            == self.player_tasks[task]) by {
            if self.leads(resident, task) {
                self.lemma_leader(resident, task);
            }
        }
        self.lemma_keeps_frame(next);
    }

    proof fn lemma_choose_all_keeps(self, residents: Seq<SimId>)
        requires
            self.valid(),
            forall|i: int|
                0 <= i < residents.len() ==> self.toilet_needs.contains_key(#[trigger] residents[i]),
        ensures
            self.keeps_orders(self.choose_all(residents)),
        decreases residents.len(),
    {
        if residents.len() == 0 {
            self.lemma_keeps_frame(self);
        } else {
            let rest = residents.drop_last();
            assert forall|i: int| 0 <= i < rest.len() implies self.toilet_needs.contains_key(
                #[trigger] rest[i],
            ) by {
                assert(rest[i] == residents[i]);
            }
            self.lemma_choose_all_keeps(rest);
            self.lemma_choose_all_valid(rest);
            assert(self.toilet_needs.contains_key(residents[residents.len() - 1]));
            self.choose_all(rest).lemma_choose_plan_keeps(residents.last());
            self.lemma_keeps_transitive(self.choose_all(rest), self.choose_all(residents));
        }
    }

    proof fn lemma_dispatch_keeps(self, resident: SimId)
        requires
            self.valid(),
        ensures
            self.keeps_orders(self.dispatch(resident)),
    {
        if self.has_queue(resident) {
            let head = self.player_task_queue[resident][0];
            assert(self.leads(resident, head.task));
            self.lemma_leader(resident, head.task);
        }
        self.lemma_keeps_frame(self.dispatch(resident));
    }

    proof fn lemma_dispatch_all_keeps(self, residents: Seq<SimId>)
        requires
            self.valid(),
        ensures
            self.keeps_orders(self.dispatch_all(residents)),
        decreases residents.len(),
    {
        if residents.len() == 0 {
            self.lemma_keeps_frame(self);
        } else {
            let rest = residents.drop_last();
            self.lemma_dispatch_all_keeps(rest);
            self.lemma_dispatch_all_valid(rest);
            self.dispatch_all(rest).lemma_dispatch_keeps(residents.last());
            self.lemma_keeps_transitive(self.dispatch_all(rest), self.dispatch_all(residents));
        }
    }

    proof fn lemma_walk_keeps(self, resident: SimId)
        requires
            self.valid(),
        ensures
            self.keeps_orders(self.walk(resident)),
    {
        let next = self.walk(resident);
        if self.walks_on_order(resident) {
            let task = self.go_to[resident].player_task->0;
            self.lemma_leader(resident, task);
            let ended = self.finish(resident, task, PlayerTaskState::Completed);
            self.lemma_finish_keeps(resident, task, PlayerTaskState::Completed);
            if next.player_task_queue == self.player_task_queue && next.player_tasks
                == self.player_tasks {
                self.lemma_keeps_frame(next);
            } else {
                assert(next.player_tasks == ended.player_tasks);
                assert(next.player_task_queue == ended.player_task_queue);
                ended.lemma_keeps_frame(next);
                self.lemma_keeps_transitive(ended, next);
            }
        } else {
            self.lemma_keeps_frame(next);
        }
    }

    proof fn lemma_walk_all_keeps(self, residents: Seq<SimId>)
        requires
            self.valid(),
        ensures
            self.keeps_orders(self.walk_all(residents)),
        decreases residents.len(),
    {
        if residents.len() == 0 {
            self.lemma_keeps_frame(self);
        } else {
            let rest = residents.drop_last();
            self.lemma_walk_all_keeps(rest);
            self.lemma_walk_all_valid(rest);
            self.walk_all(rest).lemma_walk_keeps(residents.last());
            self.lemma_keeps_transitive(self.walk_all(rest), self.walk_all(residents));
        }
    }

    proof fn lemma_follow_all_keeps(self, before: Village, residents: Seq<SimId>)
        requires
            self.valid(),
        ensures
            self.keeps_orders(self.follow_all(before, residents)),
        decreases residents.len(),
    {
        if residents.len() == 0 {
            self.lemma_keeps_frame(self);
        } else {
            let rest = residents.drop_last();
            self.lemma_follow_all_keeps(before, rest);
            self.lemma_follow_all_valid(before, rest);
            let village = self.follow_all(before, rest);
            let next = self.follow_all(before, residents);
            village.lemma_walk_keeps(residents.last());
            if before.claim(residents.last()) is Some {
                village.lemma_keeps_frame(next);
            }
            self.lemma_keeps_transitive(village, next);
        }
    }

    proof fn lemma_progress_keeps(self, resident: SimId)
        requires
            self.valid(),
            self.active_object_uses.contains_key(resident),
        ensures
            self.keeps_orders(self.progress(resident)),
    {
        let next = self.progress(resident);
        if self.uses_on_order(resident) {
            let task = self.active_object_uses[resident].player_task->0;
            self.lemma_leader(resident, task);
            let ended = self.finish(resident, task, PlayerTaskState::Completed);
            self.lemma_finish_keeps(resident, task, PlayerTaskState::Completed);
            if next.player_task_queue == self.player_task_queue && next.player_tasks
                == self.player_tasks {
                self.lemma_keeps_frame(next);
            } else {
                ended.lemma_keeps_frame(next);
                self.lemma_keeps_transitive(ended, next);
            }
        } else {
            self.lemma_keeps_frame(next);
        }
    }

    proof fn lemma_progress_all_keeps(self, residents: Seq<SimId>)
        requires
            self.valid(),
            residents.no_duplicates(),
            forall|i: int|
                0 <= i < residents.len() ==> self.active_object_uses.contains_key(
                    #[trigger] residents[i],
                ),
        ensures
            self.keeps_orders(self.progress_all(residents)),
        decreases residents.len(),
    {
        if residents.len() == 0 {
            self.lemma_keeps_frame(self);
        } else {
            let rest = residents.drop_last();
            assert forall|i: int| 0 <= i < rest.len() implies self.active_object_uses.contains_key(
                #[trigger] rest[i],
            ) by {
                assert(rest[i] == residents[i]);
            }
            self.lemma_progress_all_keeps(rest);
            self.lemma_progress_all_valid(rest);
            assert(self.active_object_uses.contains_key(residents[residents.len() - 1]));
            self.lemma_progress_all_spares(rest, residents.last());
            self.progress_all(rest).lemma_progress_keeps(residents.last());
            self.lemma_keeps_transitive(self.progress_all(rest), self.progress_all(residents));
        }
    }

    /// Serving requests marks orders in progress, and no others.
    proof fn lemma_grant_all_keeps(self, requests: Seq<UseRequest>, n: int)
        requires
            self.use_requests.len() == 0,
            self.pending_requests(requests).valid(),
            0 <= n <= requests.len(),
        ensures
            self.grant_all(requests.take(n)).player_task_queue == self.player_task_queue,
            forall|task: PlayerTaskId| #[trigger]
                self.player_tasks.contains_key(task) ==> self.grant_all(
                    requests.take(n),
                ).player_tasks.contains_key(task) && (self.player_tasks[task].is_live()
                    || self.grant_all(requests.take(n)).player_tasks[task]
                    == self.player_tasks[task]),
        decreases n,
    {
        if n == 0 {
            assert(requests.take(0) =~= Seq::<UseRequest>::empty());
        } else {
            self.lemma_grant_all_keeps(requests, n - 1);
            let served = self.grant_all(requests.take(n - 1));
            assert(requests.take(n).drop_last() =~= requests.take(n - 1));
            let request = requests[n - 1];
            assert(requests.take(n).last() == request);
            let whole = self.pending_requests(requests);
            if request.player_task is Some {
                assert(whole.use_requests[n - 1].player_task is Some);
                whole.lemma_leader(request.resident, request.player_task->0);
                assert(self.player_tasks[request.player_task->0].is_live());
            }
        }
    }

    /// A tick keeps orders: none is forgotten, an order that has ended stays
    /// ended, and no order gets ahead of one that was queued before it. With
    /// only heads in execution, a queue is worked off first in, first out.
    pub proof fn law_orders_are_first_in_first_out(self)
        requires
            self.valid(),
        ensures
            self.keeps_orders(self.advance()),
    {
        self.lemma_phases_valid();
        let begun = self.begin_tick();
        self.lemma_keeps_frame(begun);
        let emptied = Village { inbox: Seq::empty(), ..begun };
        begun.lemma_sound_frame(emptied);
        begun.lemma_unmoved(emptied);
        self.lemma_keeps_frame(emptied);
        emptied.lemma_ingest_all_keeps(begun.inbox);
        let ingested = self.after_ingest();
        self.lemma_keeps_transitive(emptied, ingested);
        let grown = ingested.age_needs();
        ingested.lemma_keeps_frame(grown);
        self.lemma_keeps_transitive(ingested, grown);
        let needy = in_order::<SimId>(grown.toilet_needs.dom());
        lemma_in_order_lists::<SimId>(grown.toilet_needs.dom());
        assert forall|i: int| 0 <= i < needy.len() implies grown.toilet_needs.contains_key(
            #[trigger] needy[i],
        ) by {
            assert(needy.contains(needy[i]));
        }
        grown.lemma_choose_all_keeps(needy);
        let lived = self.after_living();
        self.lemma_keeps_transitive(grown, lived);
        lived.lemma_dispatch_all_keeps(in_order::<SimId>(lived.player_task_queue.dom()));
        let dispatched = self.after_dispatch();
        self.lemma_keeps_transitive(lived, dispatched);
        let first = dispatched.walk_all(dispatched.approved_walkers());
        dispatched.lemma_walk_all_keeps(dispatched.approved_walkers());
        dispatched.lemma_walk_all_valid(dispatched.approved_walkers());
        self.lemma_keeps_transitive(dispatched, first);
        first.lemma_follow_all_keeps(dispatched, dispatched.other_walkers());
        let walked = self.after_walking();
        self.lemma_keeps_transitive(first, walked);
        let users = in_order::<SimId>(walked.active_object_uses.dom());
        lemma_in_order_lists::<SimId>(walked.active_object_uses.dom());
        assert forall|i: int| 0 <= i < users.len() implies walked.active_object_uses.contains_key(
            #[trigger] users[i],
        ) by {
            assert(users.contains(users[i]));
        }
        walked.lemma_progress_all_keeps(users);
        walked.lemma_progress_all_valid(users);
        let progressed = walked.progress_everyone();
        self.lemma_keeps_transitive(walked, progressed);
        progressed.lemma_ranked_valid();
        let requests = ranked(progressed.use_requests);
        let start = Village { use_requests: Seq::empty(), ..progressed };
        assert(start.pending_requests(requests) =~= progressed.pending_requests(requests));
        start.lemma_grant_all_keeps(requests, requests.len() as int);
        assert(requests.take(requests.len() as int) =~= requests);
        progressed.lemma_keeps_frame(self.advance());
        self.lemma_keeps_transitive(progressed, self.advance());
    }
}

} // verus!
