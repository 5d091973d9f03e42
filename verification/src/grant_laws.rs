//! What becomes of each request and each use.

use vstd::prelude::*;

use crate::arbitration::UseRequest;
use crate::events::WorldEvent;
use crate::events::WorldEventKind;
use crate::identity::SimId;
use crate::listing::lemma_first_where;
use crate::listing::lemma_first_where_at;
use crate::listing::lemma_first_where_index;
use crate::ord_map::in_order;
use crate::ord_map::lemma_listing_unique;
use crate::ord_map::lists;
use crate::state::PlayerTaskState;
use crate::state::ToiletNeedState;
use crate::village::affords;
use crate::village::at_least_one;
use crate::village::less;
use crate::village::more;
use crate::village::ranked;
use crate::village::Village;

verus! {

/// Needs and ticks are counted down to nothing and up to the largest value,
/// never past them, and at least one tick is always to go.
pub proof fn law_counting_stops_at_the_ends(a: u8, b: u8)
    ensures
        b <= a ==> less(a, b) == a - b,
        b > a ==> less(a, b) == 0,
        a + b <= 255 ==> more(a, b) == a + b,
        a + b > 255 ==> more(a, b) == 255,
        a > 0 ==> at_least_one(a) == a,
        at_least_one(0) == 1,
{
}

impl Village {
    // -- Requests ----------------------------------------------------------

    /// Whether the affordance at `k` is the first of its name on an object.
    pub open spec fn is_affordance(
        self,
        object: Seq<char>,
        affordance: Seq<char>,
        k: int,
    ) -> bool {
        let offered = self.objects[object].affordances@;
        &&& self.objects.contains_key(object)
        &&& 0 <= k < offered.len()
        &&& offered[k].id@ == affordance
        &&& forall|j: int| 0 <= j < k ==> (#[trigger] offered[j]).id@ != affordance
    }

    /// An affordance of a loaded object is the first authored under its name,
    /// and there is none exactly where the object is not loaded or has none of
    /// that name.
    pub proof fn law_affordance_is_the_first_of_its_name(
        self,
        object: Seq<char>,
        affordance: Seq<char>,
    ) -> (k: int)
        ensures
            self.affordance(object, affordance) is Some ==> self.is_affordance(
                object,
                affordance,
                k,
            ),
            forall|j: int|
                self.is_affordance(object, affordance, j) ==> self.affordance(object, affordance)
                    == Some(#[trigger] self.objects[object].affordances@[j]),
            self.affordance(object, affordance) is None <==> !self.objects.contains_key(object)
                || forall|j: int|
                0 <= j < self.objects[object].affordances@.len() ==> (
                #[trigger] self.objects[object].affordances@[j]).id@ != affordance,
    {
        let offered = self.objects[object].affordances@;
        let is_it = affords(affordance);
        assert forall|j: int| self.is_affordance(object, affordance, j) implies self.affordance(
            object,
            affordance,
        ) == Some(#[trigger] self.objects[object].affordances@[j]) by {
            assert forall|i: int| 0 <= i < j implies !is_it(#[trigger] offered[i]) by {}
            lemma_first_where_at(offered, is_it, j);
        }
        lemma_first_where(offered, is_it);
        if self.affordance(object, affordance) is Some {
            let k = lemma_first_where_index(offered, is_it);
            assert forall|j: int| 0 <= j < k implies (#[trigger] offered[j]).id@ != affordance by {
                assert(!is_it(offered[j]));
            }
            assert(self.objects[object].affordances@[k].id@ == affordance);
            k
        } else {
            if self.objects.contains_key(object) {
                assert forall|j: int|
                    0 <= j < self.objects[object].affordances@.len() implies (
                #[trigger] self.objects[object].affordances@[j]).id@ != affordance by {
                    assert(!is_it(offered[j]));
                }
            }
            0
        }
    }

    /// A request joins the pending ones exactly where its resident exists, uses
    /// nothing and waits for nothing, and the object is loaded and offers the
    /// affordance. Nothing else changes, and a request that is not made changes
    /// nothing.
    pub proof fn law_request_is_made_by_idle_residents_for_what_is_offered(
        self,
        request: UseRequest,
    )
        ensures
            ({
                let offered = self.objects[request.object@].affordances@;
                let may = self.residents.contains_key(request.resident)
                    && !self.active_object_uses.contains_key(request.resident) && (!exists|
                    other: UseRequest,
                | #[trigger]
                    self.use_requests.contains(other) && other.resident == request.resident)
                    && self.objects.contains_key(request.object@) && exists|j: int|
                    0 <= j < offered.len() && (#[trigger] offered[j]).id@ == request.affordance@;
                self.request(request) == if may {
                    Village { use_requests: self.use_requests.push(request), ..self }
                } else {
                    self
                }
            }),
    {
        self.law_affordance_is_the_first_of_its_name(request.object@, request.affordance@);
        if exists|other: UseRequest| #[trigger]
            self.use_requests.contains(other) && other.resident == request.resident {
            let other = choose|other: UseRequest| #[trigger]
                self.use_requests.contains(other) && other.resident == request.resident;
            let i = self.use_requests.index_of(other);
            assert(self.use_requests[i].resident == request.resident);
        }
        if self.has_request(request.resident) {
            let i = choose|i: int|
                0 <= i < self.use_requests.len() && (#[trigger] self.use_requests[i]).resident
                    == request.resident;
            assert(self.use_requests.contains(self.use_requests[i]));
        }
    }

    /// A request is granted exactly where nobody has the slot it asks for and
    /// its resident does not use the capability already. A granted request is a
    /// use: it claims slot and capability, has the affordance's ticks to go, one
    /// at least, makes its order active, and is published as started. Another
    /// stays pending, and is published as waiting for whoever has the slot, or
    /// for its own resident. A request for what no object offers is dropped.
    pub proof fn law_request_is_granted_where_slot_and_capability_are_free(
        self,
        request: UseRequest,
        k: int,
    )
        ensures
            ({
                let after = self.grant(request);
                let offered = self.objects[request.object@].affordances@[k];
                let slot = (request.object@, offered.slot@);
                let capability = (request.resident, offered.capability);
                let waits = |blocked_by: SimId|
                    Village {
                        use_requests: self.use_requests.push(request),
                        ledger: self.ledger.push(
                            WorldEvent {
                                tick: self.tick,
                                kind: WorldEventKind::ObjectUseWaited {
                                    resident: request.resident,
                                    object: request.object,
                                    affordance: request.affordance,
                                    blocked_by,
                                },
                            },
                        ),
                        ..self
                    };
                let active = after.active_object_uses[request.resident];
                &&& !self.objects.contains_key(request.object@) || (forall|j: int|
                    0 <= j < self.objects[request.object@].affordances@.len() ==> (
                    #[trigger] self.objects[request.object@].affordances@[j]).id@
                        != request.affordance@) ==> after == self
                &&& self.is_affordance(request.object@, request.affordance@, k) ==> {
                    &&& self.object_slot_claims.contains_key(slot) ==> after == waits(
                        self.object_slot_claims[slot],
                    )
                    &&& !self.object_slot_claims.contains_key(slot)
                        && self.capability_claims.contains_key(capability) ==> after == waits(
                        request.resident,
                    )
                    &&& !self.object_slot_claims.contains_key(slot)
                        && !self.capability_claims.contains_key(capability) ==> {
                        &&& after == (Village {
                            object_slot_claims: self.object_slot_claims.insert(
                                slot,
                                request.resident,
                            ),
                            capability_claims: self.capability_claims.insert(
                                capability,
                                request.object@,
                            ),
                            active_object_uses: self.active_object_uses.insert(
                                request.resident,
                                active,
                            ),
                            player_tasks: match request.player_task {
                                Some(task) => self.player_tasks.insert(
                                    task,
                                    PlayerTaskState::Active,
                                ),
                                None => self.player_tasks,
                            },
                            ledger: self.ledger.push(
                                WorldEvent {
                                    tick: self.tick,
                                    kind: WorldEventKind::ObjectUseStarted {
                                        resident: request.resident,
                                        object: request.object,
                                        affordance: request.affordance,
                                    },
                                },
                            ),
                            ..self
                        })
                        &&& active.object == request.object
                        &&& active.affordance == request.affordance
                        &&& active.slot == offered.slot
                        &&& active.capability == offered.capability
                        &&& active.player_task == request.player_task
                        &&& active.ticks_remaining == if offered.duration_ticks > 1 {
                            offered.duration_ticks
                        } else {
                            1
                        }
                    }
                }
            }),
    {
        self.law_affordance_is_the_first_of_its_name(request.object@, request.affordance@);
        if self.is_affordance(request.object@, request.affordance@, k) {
            assert(self.affordance(request.object@, request.affordance@) == Some(
                self.objects[request.object@].affordances@[k],
            ));
        }
    }

    // -- Uses --------------------------------------------------------------

    /// A use with more than one tick to go has one less, and nothing else
    /// changes.
    pub proof fn law_use_goes_on_until_its_last_tick(self, resident: SimId)
        requires
            self.valid(),
            self.active_object_uses.contains_key(resident),
            self.active_object_uses[resident].ticks_remaining > 1,
        ensures
            ({
                let before = self.active_object_uses[resident];
                let after = self.progress(resident);
                let active = after.active_object_uses[resident];
                &&& after == (Village {
                    active_object_uses: self.active_object_uses.insert(resident, active),
                    ..self
                })
                &&& active.ticks_remaining == before.ticks_remaining - 1
                &&& active.object == before.object
                &&& active.affordance == before.affordance
                &&& active.slot == before.slot
                &&& active.capability == before.capability
                &&& active.player_task == before.player_task
            }),
    {
    }

    /// With its last tick a use ends: its slot and capability are free, its
    /// order is completed and gone from the head of its queue, and it is
    /// published as completed. Where it was of the object and affordance of the
    /// resident's own plan, the resident's need is down by its authored
    /// recovery, to nothing at least, and is published so, behind it. Nothing
    /// else changes.
    pub proof fn law_use_ends_with_its_last_tick(self, resident: SimId)
        requires
            self.valid(),
            self.active_object_uses.contains_key(resident),
            self.active_object_uses[resident].ticks_remaining <= 1,
        ensures
            ({
                let active = self.active_object_uses[resident];
                let after = self.progress(resident);
                let plan = self.autonomous_toilet_plans[resident];
                let need = self.toilet_needs[resident];
                let recovers = self.toilet_needs.contains_key(resident) && plan.object@
                    == active.object@ && plan.affordance@ == active.affordance@;
                let value: int = if need.value >= need.recovery {
                    need.value - need.recovery
                } else {
                    0
                };
                let completed = WorldEvent {
                    tick: self.tick,
                    kind: WorldEventKind::ObjectUseCompleted {
                        resident,
                        object: active.object,
                        affordance: active.affordance,
                    },
                };
                &&& after == (Village {
                    active_object_uses: self.active_object_uses.remove(resident),
                    object_slot_claims: self.object_slot_claims.remove(
                        (active.object@, active.slot@),
                    ),
                    capability_claims: self.capability_claims.remove((resident, active.capability)),
                    player_tasks: match active.player_task {
                        Some(task) => self.player_tasks.insert(task, PlayerTaskState::Completed),
                        None => self.player_tasks,
                    },
                    player_task_queue: match active.player_task {
                        Some(task) => self.queues_past_head(resident),
                        None => self.player_task_queue,
                    },
                    toilet_needs: if recovers {
                        self.toilet_needs.insert(
                            resident,
                            ToiletNeedState { value: value as u8, ..need },
                        )
                    } else {
                        self.toilet_needs
                    },
                    ledger: if recovers {
                        self.ledger.push(completed).push(
                            WorldEvent {
                                tick: self.tick,
                                kind: WorldEventKind::ToiletNeedRecovered {
                                    resident,
                                    value: value as u8,
                                },
                            },
                        )
                    } else {
                        self.ledger.push(completed)
                    },
                    ..self
                })
            }),
    {
        let active = self.active_object_uses[resident];
        if active.player_task is Some {
            assert(self.uses_on_order(resident));
            self.lemma_past_head(resident);
            let task = active.player_task->0;
            let ended = self.release(resident).finish(resident, task, PlayerTaskState::Completed);
            assert(ended.player_task_queue == self.unqueue(resident, task).player_task_queue);
        }
        if self.toilet_needs.contains_key(resident) {
            assert(self.autonomous_toilet_plans.contains_key(resident));
        }
    }

    // -- Everybody in order ------------------------------------------------

    /// Whether a list has exactly the given residents, by ascending `SimId`.
    pub open spec fn lists_by_id(ids: Seq<SimId>, of: Set<SimId>) -> bool {
        &&& forall|i: int, j: int|
            0 <= i < j < ids.len() ==> (#[trigger] ids[i]).0 < (#[trigger] ids[j]).0
        &&& forall|id: SimId| #[trigger] ids.contains(id) <==> of.contains(id)
    }

    proof fn lemma_listed(ids: Seq<SimId>, of: Set<SimId>)
        requires
            Village::lists_by_id(ids, of),
        ensures
            in_order::<SimId>(of) == ids,
    {
        assert(lists::<SimId>(ids, of));
        lemma_listing_unique::<SimId>(in_order::<SimId>(of), ids, of);
    }

    /// By ascending `SimId` everybody with a need chooses, everybody with
    /// orders is dispatched, and everybody using an object gets on with it.
    pub proof fn law_everybody_takes_their_turn_by_id(self, ids: Seq<SimId>)
        ensures
            Village::lists_by_id(ids, self.toilet_needs.dom()) ==> self.choose_everyone()
                == self.choose_all(ids),
            Village::lists_by_id(ids, self.player_task_queue.dom()) ==> self.dispatch_everyone()
                == self.dispatch_all(ids),
            Village::lists_by_id(ids, self.active_object_uses.dom()) ==> self.progress_everyone()
                == self.progress_all(ids),
    {
        if Village::lists_by_id(ids, self.toilet_needs.dom()) {
            Village::lemma_listed(ids, self.toilet_needs.dom());
        }
        if Village::lists_by_id(ids, self.player_task_queue.dom()) {
            Village::lemma_listed(ids, self.player_task_queue.dom());
        }
        if Village::lists_by_id(ids, self.active_object_uses.dom()) {
            Village::lemma_listed(ids, self.active_object_uses.dom());
        }
    }

    /// Whether a list has exactly the given requests, the one that goes first in
    /// rank first: each has a larger sum of band and fine priority than the
    /// next, or as large a one and is older, or as old a one and its resident
    /// has the lower `SimId`.
    pub open spec fn lists_by_rank(served: Seq<UseRequest>, of: Seq<UseRequest>) -> bool {
        &&& forall|i: int, j: int|
            0 <= i < j < served.len() ==> {
                let a = #[trigger] served[i];
                let b = #[trigger] served[j];
                let first = a.band.spec_base() + a.priority;
                let second = b.band.spec_base() + b.priority;
                first > second || (first == second && (a.request_age < b.request_age || (
                a.request_age == b.request_age && a.resident.0 < b.resident.0)))
            }
        &&& forall|request: UseRequest| #[trigger]
            served.contains(request) <==> of.contains(request)
    }

    /// First every use gets on, then every pending request is served, by rank:
    /// a slot that a use gives back is free for a request of the same tick.
    pub proof fn law_uses_get_on_before_requests_are_served_by_rank(self, served: Seq<UseRequest>)
        requires
            self.valid(),
            Village::lists_by_rank(served, self.progress_everyone().use_requests),
        ensures
            self.use_objects() == (Village {
                use_requests: Seq::empty(),
                ..self.progress_everyone()
            }).grant_all(served),
    {
        let progressed = self.progress_everyone();
        self.lemma_progressed_valid();
        progressed.lemma_ranked_valid();
        let all = ranked(progressed.use_requests);
        Village::law_requests_are_served_by_rank(progressed.use_requests);
        let village = progressed.pending_requests(all);
        assert forall|i: int, j: int| 0 <= i < j < all.len() implies ranks_over(
            #[trigger] all[i],
            #[trigger] all[j],
        ) by {
            assert(village.use_requests[i].resident != village.use_requests[j].resident);
            assert(!all[j].standing().outranks(all[i].standing()));
        }
        assert forall|i: int, j: int| 0 <= i < j < served.len() implies ranks_over(
            #[trigger] served[i],
            #[trigger] served[j],
        ) by {}
        assert forall|request: UseRequest| all.contains(request) <==> served.contains(
            request,
        ) by {}
        lemma_one_ranking(all, served);
    }
}

/// Whether a request goes before another.
spec fn ranks_over(a: UseRequest, b: UseRequest) -> bool {
    a.standing().outranks(b.standing())
}

/// Requests can be ranked in one way.
proof fn lemma_one_ranking(p: Seq<UseRequest>, q: Seq<UseRequest>)
    requires
        forall|i: int, j: int|
            0 <= i < j < p.len() ==> ranks_over(#[trigger] p[i], #[trigger] p[j]),
        forall|i: int, j: int|
            0 <= i < j < q.len() ==> ranks_over(#[trigger] q[i], #[trigger] q[j]),
        forall|request: UseRequest| p.contains(request) <==> q.contains(request),
    ensures
        p == q,
    decreases p.len(),
{
    if p.len() == 0 {
        if q.len() > 0 {
            assert(q.contains(q[0]));
        }
        assert(p =~= q);
    } else {
        assert(p.contains(p[0]));
        let k = q.index_of(p[0]);
        assert(q[k] == p[0]);
        assert(q.contains(q[0]));
        let m = p.index_of(q[0]);
        assert(p[m] == q[0]);
        if k > 0 {
            assert(ranks_over(q[0], q[k]));
            if m > 0 {
                assert(ranks_over(p[0], p[m]));
            }
        }
        assert(p[0] == q[0]);
        let a = p.drop_first();
        let b = q.drop_first();
        assert forall|i: int, j: int| 0 <= i < j < a.len() implies ranks_over(
            #[trigger] a[i],
            #[trigger] a[j],
        ) by {
            assert(ranks_over(p[i + 1], p[j + 1]));
        }
        assert forall|i: int, j: int| 0 <= i < j < b.len() implies ranks_over(
            #[trigger] b[i],
            #[trigger] b[j],
        ) by {
            assert(ranks_over(q[i + 1], q[j + 1]));
        }
        assert forall|request: UseRequest| a.contains(request) <==> b.contains(request) by {
            if a.contains(request) {
                let i = a.index_of(request);
                assert(p[i + 1] == request);
                assert(p.contains(request));
                let j = q.index_of(request);
                assert(q[j] == request);
                assert(ranks_over(p[0], p[i + 1]));
                assert(j > 0);
                assert(b[j - 1] == request);
            }
            if b.contains(request) {
                let i = b.index_of(request);
                assert(q[i + 1] == request);
                assert(q.contains(request));
                let j = p.index_of(request);
                assert(p[j] == request);
                assert(ranks_over(q[0], q[i + 1]));
                assert(j > 0);
                assert(a[j - 1] == request);
            }
        }
        lemma_one_ranking(a, b);
        assert(p =~= seq![p[0]] + a);
        assert(q =~= seq![q[0]] + b);
    }
}

} // verus!
