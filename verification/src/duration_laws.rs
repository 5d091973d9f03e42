//! How long things take: uses of objects and crossings of portals.

use vstd::prelude::*;

use crate::arbitration::ActionBand;
use crate::arbitration::UseRequest;
use crate::content::PortalDefinition;
use crate::content::TilePosition;
use crate::events::PlayerCommand;
use crate::events::WorldEvent;
use crate::events::WorldEventKind;
use crate::identity::SimId;
use crate::ord_map::in_order;
use crate::ord_map::lemma_in_order_lists;
use crate::state::ActiveObjectUse;
use crate::state::PortalTraversal;
use crate::state::ToiletNeedState;
use crate::upkeep::lemma_ranked_lists;
use crate::village::aged;
use crate::village::at_least_one;
use crate::village::less;
use crate::village::ranked;
use crate::village::Village;

verus! {

/// Whether an event says that a resident has completed a use.
pub open spec fn completes(event: WorldEvent, resident: SimId) -> bool {
    match event.kind {
        WorldEventKind::ObjectUseCompleted { resident: who, .. } => who == resident,
        _ => false,
    }
}

impl Village {
    /// Whether a resident has completed a use since the ledger was `from` long.
    pub open spec fn completed_since(self, from: nat, resident: SimId) -> bool {
        exists|i: int| from <= i < self.ledger.len() && completes(#[trigger] self.ledger[i], resident)
    }

    /// Whether the ledger has only grown, by events that complete no use of a
    /// resident.
    pub open spec fn completes_nothing(self, next: Village, resident: SimId) -> bool {
        &&& next.ledger.len() >= self.ledger.len()
        &&& forall|i: int|
            0 <= i < self.ledger.len() ==> #[trigger] next.ledger[i] == self.ledger[i]
        &&& forall|i: int|
            self.ledger.len() <= i < next.ledger.len() ==> !completes(
                #[trigger] next.ledger[i],
                resident,
            )
    }

    proof fn lemma_completes_nothing_transitive(
        self,
        mid: Village,
        next: Village,
        resident: SimId,
    )
        requires
            self.completes_nothing(mid, resident),
            mid.completes_nothing(next, resident),
        ensures
            self.completes_nothing(next, resident),
    {
        assert forall|i: int| 0 <= i < self.ledger.len() implies #[trigger] next.ledger[i]
            == self.ledger[i] by {
            assert(mid.ledger[i] == self.ledger[i]);
        }
        assert forall|i: int| self.ledger.len() <= i < next.ledger.len() implies !completes(
            #[trigger] next.ledger[i],
            resident,
        ) by {
            if i < mid.ledger.len() {
                assert(next.ledger[i] == mid.ledger[i]);
            }
        }
    }

    proof fn lemma_ingest_all_completes_nothing(
        self,
        commands: Seq<PlayerCommand>,
        resident: SimId,
    )
        ensures
            self.completes_nothing(self.ingest_all(commands), resident),
        decreases commands.len(),
    {
        if commands.len() > 0 {
            let mid = self.ingest_all(commands.drop_last());
            let next = self.ingest_all(commands);
            self.lemma_ingest_all_completes_nothing(commands.drop_last(), resident);
            assert(mid.completes_nothing(next, resident));
            self.lemma_completes_nothing_transitive(mid, next, resident);
        }
    }

    proof fn lemma_choose_all_completes_nothing(self, residents: Seq<SimId>, resident: SimId)
        ensures
            self.completes_nothing(self.choose_all(residents), resident),
        decreases residents.len(),
    {
        if residents.len() > 0 {
            let mid = self.choose_all(residents.drop_last());
            let next = self.choose_all(residents);
            self.lemma_choose_all_completes_nothing(residents.drop_last(), resident);
            assert(mid.completes_nothing(next, resident));
            self.lemma_completes_nothing_transitive(mid, next, resident);
        }
    }

    proof fn lemma_dispatch_all_completes_nothing(self, residents: Seq<SimId>, resident: SimId)
        ensures
            self.completes_nothing(self.dispatch_all(residents), resident),
        decreases residents.len(),
    {
        if residents.len() > 0 {
            let mid = self.dispatch_all(residents.drop_last());
            let next = self.dispatch_all(residents);
            self.lemma_dispatch_all_completes_nothing(residents.drop_last(), resident);
            assert(mid.completes_nothing(next, resident));
            self.lemma_completes_nothing_transitive(mid, next, resident);
        }
    }

    /// Walking completes no use, and changes none.
    proof fn lemma_walk_all_completes_nothing(self, residents: Seq<SimId>, resident: SimId)
        ensures
            self.completes_nothing(self.walk_all(residents), resident),
            self.walk_all(residents).active_object_uses == self.active_object_uses,
        decreases residents.len(),
    {
        if residents.len() > 0 {
            let mid = self.walk_all(residents.drop_last());
            let next = self.walk_all(residents);
            self.lemma_walk_all_completes_nothing(residents.drop_last(), resident);
            assert(mid.completes_nothing(next, resident));
            self.lemma_completes_nothing_transitive(mid, next, resident);
        }
    }

    proof fn lemma_follow_all_completes_nothing(
        self,
        before: Village,
        residents: Seq<SimId>,
        resident: SimId,
    )
        ensures
            self.completes_nothing(self.follow_all(before, residents), resident),
            self.follow_all(before, residents).active_object_uses == self.active_object_uses,
        decreases residents.len(),
    {
        if residents.len() > 0 {
            let mid = self.follow_all(before, residents.drop_last());
            let next = self.follow_all(before, residents);
            self.lemma_follow_all_completes_nothing(before, residents.drop_last(), resident);
            assert(mid.completes_nothing(next, resident));
            self.lemma_completes_nothing_transitive(mid, next, resident);
        }
    }

    proof fn lemma_grant_all_completes_nothing(
        self,
        requests: Seq<UseRequest>,
        resident: SimId,
    )
        ensures
            self.completes_nothing(self.grant_all(requests), resident),
        decreases requests.len(),
    {
        if requests.len() > 0 {
            let mid = self.grant_all(requests.drop_last());
            let next = self.grant_all(requests);
            self.lemma_grant_all_completes_nothing(requests.drop_last(), resident);
            assert(mid.completes_nothing(next, resident));
            self.lemma_completes_nothing_transitive(mid, next, resident);
        }
    }

    /// Until objects are used, a tick completes no use.
    proof fn lemma_walking_completes_nothing(self, resident: SimId)
        ensures
            self.completes_nothing(self.after_walking(), resident),
            self.after_walking().active_object_uses == self.after_dispatch().active_object_uses,
    {
        let begun = self.begin_tick();
        let emptied = Village { inbox: Seq::empty(), ..begun };
        emptied.lemma_ingest_all_completes_nothing(begun.inbox, resident);
        let ingested = self.after_ingest();
        self.lemma_completes_nothing_transitive(emptied, ingested, resident);
        let grown = ingested.age_needs();
        self.lemma_completes_nothing_transitive(ingested, grown, resident);
        grown.lemma_choose_all_completes_nothing(
            in_order::<SimId>(grown.toilet_needs.dom()),
            resident,
        );
        let lived = self.after_living();
        self.lemma_completes_nothing_transitive(grown, lived, resident);
        lived.lemma_dispatch_all_completes_nothing(
            in_order::<SimId>(lived.player_task_queue.dom()),
            resident,
        );
        let dispatched = self.after_dispatch();
        self.lemma_completes_nothing_transitive(lived, dispatched, resident);
        dispatched.lemma_walk_all_completes_nothing(dispatched.approved_walkers(), resident);
        let first = dispatched.walk_all(dispatched.approved_walkers());
        self.lemma_completes_nothing_transitive(dispatched, first, resident);
        first.lemma_follow_all_completes_nothing(dispatched, dispatched.other_walkers(), resident);
        self.lemma_completes_nothing_transitive(first, self.after_walking(), resident);
    }

    /// Whether the ledger says at `i` that a use is complete, and directly
    /// behind it that the need has recovered, where the use was of the
    /// resident's own toilet target.
    pub open spec fn completion_at(
        self,
        resident: SimId,
        active: ActiveObjectUse,
        value: u8,
        i: int,
    ) -> bool {
        &&& 0 <= i < self.ledger.len()
        &&& self.ledger[i].kind == (WorldEventKind::ObjectUseCompleted {
            resident,
            object: active.object,
            affordance: active.affordance,
        })
        &&& self.is_toilet_target(resident, active.object@, active.affordance@)
            && self.toilet_needs.contains_key(resident) ==> i + 1 < self.ledger.len()
            && self.ledger[i + 1].kind == (WorldEventKind::ToiletNeedRecovered {
            resident,
            value,
        })
    }

    /// A need once a use is complete.
    pub open spec fn relieved(
        self,
        resident: SimId,
        active: ActiveObjectUse,
        need: ToiletNeedState,
    ) -> ToiletNeedState {
        if self.is_toilet_target(resident, active.object@, active.affordance@) {
            ToiletNeedState { value: less(need.value, need.recovery), ..need }
        } else {
            need
        }
    }

    /// What progress does to one resident's use.
    proof fn lemma_progress_all_use(self, residents: Seq<SimId>, resident: SimId)
        requires
            residents.no_duplicates(),
            forall|i: int|
                0 <= i < residents.len() ==> self.active_object_uses.contains_key(
                    #[trigger] residents[i],
                ),
        ensures
            ({
                let next = self.progress_all(residents);
                let active = self.active_object_uses[resident];
                let need = self.toilet_needs[resident];
                &&& next.autonomous_toilet_plans == self.autonomous_toilet_plans
                &&& next.use_requests == self.use_requests
                &&& next.objects == self.objects
                &&& next.toilet_needs.contains_key(resident) == self.toilet_needs.contains_key(
                    resident,
                )
                &&& !residents.contains(resident) ==> {
                    &&& self.completes_nothing(next, resident)
                    &&& next.active_object_uses.contains_key(resident)
                        == self.active_object_uses.contains_key(resident)
                    &&& next.active_object_uses[resident] == active
                    &&& next.toilet_needs[resident] == need
                }
                &&& residents.contains(resident) && active.ticks_remaining > 1 ==> {
                    &&& self.completes_nothing(next, resident)
                    &&& next.active_object_uses.contains_key(resident)
                    &&& next.active_object_uses[resident] == (ActiveObjectUse {
                        ticks_remaining: (active.ticks_remaining - 1) as u8,
                        ..active
                    })
                    &&& next.toilet_needs[resident] == need
                }
                &&& residents.contains(resident) && active.ticks_remaining <= 1 ==> {
                    &&& next.ledger.len() >= self.ledger.len()
                    &&& !next.active_object_uses.contains_key(resident)
                    &&& !next.object_slot_claims.contains_key((active.object@, active.slot@))
                    &&& !next.capability_claims.contains_key((resident, active.capability))
                    &&& self.toilet_needs.contains_key(resident) ==> next.toilet_needs[resident]
                        == self.relieved(resident, active, need)
                    &&& exists|i: int|
                        self.ledger.len() <= i && #[trigger] next.completion_at(
                            resident,
                            active,
                            less(need.value, need.recovery),
                            i,
                        )
                }
            }),
        decreases residents.len(),
    {
        if residents.len() > 0 {
            let rest = residents.drop_last();
            let last = residents.last();
            let mid = self.progress_all(rest);
            let next = self.progress_all(residents);
            let active = self.active_object_uses[resident];
            let need = self.toilet_needs[resident];
            assert forall|i: int| 0 <= i < rest.len() implies self.active_object_uses.contains_key(
                #[trigger] rest[i],
            ) by {
                assert(rest[i] == residents[i]);
            }
            self.lemma_progress_all_use(rest, resident);
            assert(!rest.contains(last)) by {
                if rest.contains(last) {
                    let i = rest.index_of(last);
                    assert(residents[i] == residents[residents.len() - 1]);
                }
            }
            assert(residents[residents.len() - 1] == last);
            if last != resident {
                assert(rest.contains(resident) == residents.contains(resident)) by {
                    if rest.contains(resident) {
                        assert(residents[rest.index_of(resident)] == resident);
                    }
                    if residents.contains(resident) {
                        assert(rest[residents.index_of(resident)] == resident);
                    }
                }
                assert(mid.completes_nothing(next, resident));
                if residents.contains(resident) && active.ticks_remaining <= 1 {
                    let value = less(need.value, need.recovery);
                    let i = choose|i: int|
                        self.ledger.len() <= i && #[trigger] mid.completion_at(
                            resident,
                            active,
                            value,
                            i,
                        );
                    assert(next.ledger[i] == mid.ledger[i]);
                    if i + 1 < mid.ledger.len() {
                        assert(next.ledger[i + 1] == mid.ledger[i + 1]);
                    }
                    assert(next.completion_at(resident, active, value, i));
                } else {
                    self.lemma_completes_nothing_transitive(mid, next, resident);
                }
            } else {
                assert(residents.contains(resident));
                assert(mid.active_object_uses[resident] == active);
                if active.ticks_remaining > 1 {
                    assert(mid.completes_nothing(next, resident));
                    self.lemma_completes_nothing_transitive(mid, next, resident);
                } else {
                    assert(next.completion_at(
                        resident,
                        active,
                        less(need.value, need.recovery),
                        mid.ledger.len() as int,
                    ));
                }
            }
        }
    }

    // -- Uses from tick to tick --------------------------------------------

    /// Whether a resident's use survives the orders and needs of a tick: it is
    /// neither cancelled nor paused.
    pub open spec fn keeps_using(self, resident: SimId) -> bool {
        self.after_dispatch().active_object_uses.contains_key(resident)
    }

    /// A use that is neither cancelled nor paused comes one tick closer to
    /// completion. With its last tick it is published as complete and gives
    /// back its slot and capability before any request of that tick is looked
    /// at; the need recovers where the use was of the resident's own toilet
    /// target, and otherwise only grows.
    pub proof fn law_use_counts_down(self, resident: SimId)
        requires
            self.valid(),
            self.active_object_uses.contains_key(resident),
            self.keeps_using(resident),
        ensures
            ({
                let active = self.active_object_uses[resident];
                let next = self.advance();
                let progressed = self.after_walking().progress_everyone();
                let grown = aged(self.toilet_needs[resident]);
                if active.ticks_remaining > 1 {
                    &&& next.active_object_uses.contains_key(resident)
                    &&& next.active_object_uses[resident] == (ActiveObjectUse {
                        ticks_remaining: (active.ticks_remaining - 1) as u8,
                        ..active
                    })
                    &&& !next.completed_since(self.ledger.len(), resident)
                    &&& self.toilet_needs.contains_key(resident) ==> next.toilet_needs[resident]
                        == grown
                } else {
                    &&& !next.active_object_uses.contains_key(resident)
                    &&& !progressed.object_slot_claims.contains_key((active.object@, active.slot@))
                    &&& !progressed.capability_claims.contains_key((resident, active.capability))
                    &&& exists|i: int|
                        self.ledger.len() <= i && #[trigger] next.completion_at(
                            resident,
                            active,
                            less(grown.value, grown.recovery),
                            i,
                        )
                    &&& self.toilet_needs.contains_key(resident) ==> next.toilet_needs[resident]
                        == self.relieved(resident, active, grown)
                }
            }),
    {
        let active = self.active_object_uses[resident];
        let walked = self.after_walking();
        let next = self.advance();
        self.lemma_phases_valid();
        self.lemma_phases_go_on();
        self.law_only_object_use_claims();
        self.law_needs_grow_by_their_decay();
        self.lemma_walking_completes_nothing(resident);
        assert(self.after_dispatch().active_object_uses.dom().contains(resident));
        assert(walked.active_object_uses[resident] == active);
        let users = in_order::<SimId>(walked.active_object_uses.dom());
        lemma_in_order_lists::<SimId>(walked.active_object_uses.dom());
        assert forall|i: int| 0 <= i < users.len() implies walked.active_object_uses.contains_key(
            #[trigger] users[i],
        ) by {
            assert(users.contains(users[i]));
        }
        assert(users.contains(resident));
        walked.lemma_progress_all_use(users, resident);
        let progressed = walked.progress_everyone();
        let start = Village { use_requests: Seq::empty(), ..progressed };
        let requests = ranked(progressed.use_requests);
        lemma_ranked_lists(progressed.use_requests);
        assert forall|i: int| 0 <= i < requests.len() implies (
        #[trigger] requests[i]).resident != resident by {
            assert(requests.contains(requests[i]));
            assert(progressed.use_requests.contains(requests[i]));
            let j = progressed.use_requests.index_of(requests[i]);
            assert(walked.use_requests[j] == requests[i]);
        }
        start.lemma_grant_all_spares(requests, resident);
        start.lemma_grant_all_same_mind(requests);
        start.lemma_grant_all_goes_on(requests);
        start.lemma_grant_all_completes_nothing(requests, resident);
        let used = self.after_use();
        assert(used == start.grant_all(requests));
        assert(self.toilet_needs.contains_key(resident) ==> walked.toilet_needs[resident] == aged(
            self.toilet_needs[resident],
        ));
        assert(walked.toilet_needs.contains_key(resident) == self.toilet_needs.contains_key(
            resident,
        ));
        if active.ticks_remaining > 1 {
            self.lemma_completes_nothing_transitive(walked, start, resident);
            self.lemma_completes_nothing_transitive(start, used, resident);
            assert(used.completes_nothing(next, resident));
            self.lemma_completes_nothing_transitive(used, next, resident);
        } else {
            let need = walked.toilet_needs[resident];
            let value = less(need.value, need.recovery);
            let i = choose|i: int|
                walked.ledger.len() <= i && #[trigger] progressed.completion_at(
                    resident,
                    active,
                    value,
                    i,
                );
            assert(used.ledger[i] == start.ledger[i]);
            assert(next.ledger[i] == used.ledger[i]);
            if i + 1 < progressed.ledger.len() {
                assert(used.ledger[i + 1] == start.ledger[i + 1]);
                assert(next.ledger[i + 1] == used.ledger[i + 1]);
            }
            let grown = aged(self.toilet_needs[resident]);
            assert(next.completion_at(resident, active, less(grown.value, grown.recovery), i));
        }
    }

    /// Whether a use is as it starts: it has its affordance's duration before
    /// it, one tick at least.
    pub open spec fn just_started(self, active: ActiveObjectUse) -> bool {
        match self.affordance(active.object@, active.affordance@) {
            Some(affordance) => {
                &&& active.ticks_remaining == at_least_one(affordance.duration_ticks)
                &&& active.slot == affordance.slot
                &&& active.capability == affordance.capability
            },
            None => false,
        }
    }

    proof fn lemma_grant_all_starts(self, requests: Seq<UseRequest>, resident: SimId)
        requires
            !self.active_object_uses.contains_key(resident),
        ensures
            self.grant_all(requests).objects == self.objects,
            self.grant_all(requests).active_object_uses.contains_key(resident)
                ==> self.just_started(self.grant_all(requests).active_object_uses[resident]),
        decreases requests.len(),
    {
        if requests.len() > 0 {
            let rest = requests.drop_last();
            let mid = self.grant_all(rest);
            self.lemma_grant_all_starts(rest, resident);
            assert(mid.affordance(requests.last().object@, requests.last().affordance@)
                == self.affordance(requests.last().object@, requests.last().affordance@));
        }
    }

    /// A use starts with its affordance's duration before it, one tick at
    /// least.
    pub proof fn law_use_starts_with_its_duration(self, resident: SimId)
        requires
            self.valid(),
            !self.active_object_uses.contains_key(resident),
            self.advance().active_object_uses.contains_key(resident),
        ensures
            self.just_started(self.advance().active_object_uses[resident]),
    {
        self.lemma_phases_valid();
        self.lemma_phases_go_on();
        self.lemma_tick_goes_on();
        self.law_only_object_use_claims();
        let walked = self.after_walking();
        assert(!walked.active_object_uses.contains_key(resident)) by {
            if walked.active_object_uses.contains_key(resident) {
                assert(walked.active_object_uses.dom().contains(resident));
            }
        }
        let users = in_order::<SimId>(walked.active_object_uses.dom());
        lemma_in_order_lists::<SimId>(walked.active_object_uses.dom());
        assert forall|i: int| 0 <= i < users.len() implies walked.active_object_uses.contains_key(
            #[trigger] users[i],
        ) by {
            assert(users.contains(users[i]));
        }
        assert(!users.contains(resident));
        walked.lemma_progress_all_use(users, resident);
        let progressed = walked.progress_everyone();
        let start = Village { use_requests: Seq::empty(), ..progressed };
        start.lemma_grant_all_starts(ranked(progressed.use_requests), resident);
        let active = self.advance().active_object_uses[resident];
        assert(start.affordance(active.object@, active.affordance@) == self.affordance(
            active.object@,
            active.affordance@,
        ));
    }

    /// Whether `next` is the village before the tick that follows the next
    /// one. Calls between two ticks may set out, ask, submit and set needs;
    /// they touch no use, no object and no event.
    pub open spec fn next_day(self, next: Village) -> bool {
        &&& next.valid()
        &&& next.tick == self.advance().tick
        &&& next.objects == self.advance().objects
        &&& next.active_object_uses == self.advance().active_object_uses
        &&& next.ledger == self.advance().ledger
    }

    /// Every call that can be made between two ticks leaves the day as it is:
    /// submitting, setting a need, setting out, dating a walk and asking for an
    /// object.
    pub proof fn law_calls_between_ticks_touch_no_use(
        self,
        day: Village,
        command: PlayerCommand,
        resident: SimId,
        value: u8,
        destination: TilePosition,
        priority: i64,
        request_age: u64,
        request: UseRequest,
    )
        requires
            self.next_day(day),
            request.player_task is None,
        ensures
            self.next_day(day.submit(command)),
            self.next_day(day.with_need(resident, value)),
            self.next_day(day.set_out(resident, destination, priority, ActionBand::Player, None)),
            self.next_day(day.with_request_age(resident, request_age)),
            self.next_day(day.request(request)),
    {
        day.law_submitting_keeps_village_valid(command);
        day.law_setting_a_need_keeps_village_valid(resident, value);
        day.law_setting_out_keeps_village_valid(
            resident,
            destination,
            priority,
            ActionBand::Player,
        );
        day.law_dating_a_walk_keeps_village_valid(resident, request_age);
        day.law_requesting_keeps_village_valid(request);
    }
}

/// A use of duration `d` that is neither cancelled nor paused is published as
/// complete exactly `d` ticks after the tick that started it, one tick at
/// least, and not before. `days` holds the village before each tick, from the
/// one that starts the use.
pub proof fn law_use_lasts_its_duration(days: Seq<Village>, resident: SimId, k: int)
    requires
        0 < k < days.len(),
        days[0].valid(),
        days[0].tick + k < u64::MAX,
        forall|i: int|
            #![trigger days[i]]
            0 < i < days.len() ==> days[i - 1].next_day(days[i]),
        !days[0].active_object_uses.contains_key(resident),
        days[0].advance().active_object_uses.contains_key(resident),
        k <= days[0].advance().active_object_uses[resident].ticks_remaining,
        forall|i: int| 0 < i <= k ==> (#[trigger] days[i]).keeps_using(resident),
    ensures
        ({
            let active = days[0].advance().active_object_uses[resident];
            let affordance = days[0].affordance(active.object@, active.affordance@)->0;
            let duration = at_least_one(affordance.duration_ticks);
            let next = days[k].advance();
            &&& days[0].just_started(active)
            &&& next.tick == days[0].tick + 1 + k
            &&& k < duration ==> next.active_object_uses.contains_key(resident)
                && next.active_object_uses[resident] == (ActiveObjectUse {
                ticks_remaining: (duration - k) as u8,
                ..active
            }) && !next.completed_since(days[k].ledger.len(), resident)
            &&& k == duration ==> !next.active_object_uses.contains_key(resident) && exists|i: int|
                days[k].ledger.len() <= i < next.ledger.len() && #[trigger] next.ledger[i] == (
                WorldEvent {
                    tick: next.tick,
                    kind: WorldEventKind::ObjectUseCompleted {
                        resident,
                        object: active.object,
                        affordance: active.affordance,
                    },
                })
        }),
    decreases k,
{
    let active = days[0].advance().active_object_uses[resident];
    days[0].law_use_starts_with_its_duration(resident);
    days[0].law_tick_moves_the_clock_one_minute();
    assert(days[k - 1].next_day(days[k]));
    if k == 1 {
        assert(days[0].next_day(days[1]));
    } else {
        law_use_lasts_its_duration(days, resident, k - 1);
    }
    let before = days[k];
    assert(before.active_object_uses.contains_key(resident));
    assert(before.active_object_uses[resident] == (ActiveObjectUse {
        ticks_remaining: (active.ticks_remaining - (k - 1)) as u8,
        ..active
    }));
    before.law_use_counts_down(resident);
    before.law_tick_moves_the_clock_one_minute();
    if before.active_object_uses[resident].ticks_remaining <= 1 {
        let now = before.active_object_uses[resident];
        let grown = aged(before.toilet_needs[resident]);
        let i = choose|i: int|
            before.ledger.len() <= i && #[trigger] before.advance().completion_at(
                resident,
                now,
                less(grown.value, grown.recovery),
                i,
            );
        before.law_ledger_is_append_only();
        assert(before.advance().ledger[i].tick == before.advance().tick);
    }
}

impl Village {
    // -- Crossings ----------------------------------------------------------

    /// Whether a resident occupies a portal.
    pub open spec fn occupies(self, resident: SimId, portal: Seq<char>) -> bool {
        self.portal_occupancy.contains_key(portal) && self.portal_occupancy[portal] == resident
    }

    /// Whether a resident is inside a portal, `left` of its ticks before the
    /// far end `exit`.
    pub open spec fn crosses(
        self,
        resident: SimId,
        portal: Seq<char>,
        exit: TilePosition,
        left: int,
    ) -> bool {
        &&& self.go_to.contains_key(resident)
        &&& self.residents.contains_key(resident)
        &&& self.occupies(resident, portal)
        &&& match self.go_to[resident].traversal {
            Some(traversal) => traversal.portal@ == portal && traversal.destination == exit
                && traversal.ticks_remaining == left,
            None => false,
        }
    }

    /// Whether a resident's next step takes it into a portal.
    pub open spec fn enters(
        self,
        resident: SimId,
        portal: PortalDefinition,
        exit: TilePosition,
    ) -> bool {
        &&& self.go_to.contains_key(resident)
        &&& self.residents.contains_key(resident)
        &&& self.go_to[resident].traversal is None
        &&& self.go_to[resident].target() == Some(exit)
        &&& self.residents[resident].position != self.go_to[resident].destination
        &&& !self.occupancy.contains_key(exit)
        &&& self.map.spec_portal_between(self.residents[resident].position, exit) == Some(portal)
        &&& !self.portal_occupancy.contains_key(portal.id@)
    }

    /// Whether a resident's crossing is as it was: where it stands, its walk
    /// and the portal it is inside.
    pub open spec fn same_crossing(self, next: Village, resident: SimId, portal: Seq<char>) -> bool {
        &&& next.go_to.contains_key(resident) == self.go_to.contains_key(resident)
        &&& next.go_to[resident] == self.go_to[resident]
        &&& next.position_of(resident) == self.position_of(resident)
        &&& next.occupies(resident, portal) == self.occupies(resident, portal)
    }

    /// A resident enters a free portal without leaving its tile and without an
    /// event, and has the portal's ticks before it, one at least.
    pub proof fn law_portal_is_entered_in_place(
        self,
        resident: SimId,
        portal: PortalDefinition,
        exit: TilePosition,
    )
        requires
            self.enters(resident, portal, exit),
        ensures
            self.walk(resident).residents == self.residents,
            self.walk(resident).ledger == self.ledger,
            self.walk(resident).crosses(
                resident,
                portal.id@,
                exit,
                at_least_one(portal.traversal_ticks) as int,
            ),
    {
    }

    /// Each further step of a resident inside a portal takes one tick off its
    /// crossing. With the last it stands on the far end and the portal is free;
    /// until then it stays where it is, the portal stays its own and nothing is
    /// published.
    pub proof fn law_crossing_counts_down(
        self,
        resident: SimId,
        portal: Seq<char>,
        exit: TilePosition,
        left: int,
    )
        requires
            self.crosses(resident, portal, exit, left),
        ensures
            left > 1 ==> {
                &&& self.walk(resident).crosses(resident, portal, exit, left - 1)
                &&& self.walk(resident).residents == self.residents
                &&& self.walk(resident).ledger == self.ledger
            },
            left <= 1 ==> {
                &&& self.walk(resident).position_of(resident) == Some(exit)
                &&& !self.walk(resident).portal_occupancy.contains_key(portal)
            },
    {
    }
}

/// A crossing lasts exactly the portal's ticks, one at least: after that many
/// further steps, and no fewer, the resident stands on the far end and the
/// portal is free. `calls` holds the village before each step of the resident,
/// from the one that enters the portal; what happens between its steps leaves
/// its crossing as it is.
pub proof fn law_crossing_lasts_its_ticks(
    calls: Seq<Village>,
    resident: SimId,
    portal: PortalDefinition,
    exit: TilePosition,
    k: int,
)
    requires
        0 < k < calls.len(),
        k <= at_least_one(portal.traversal_ticks),
        calls[0].enters(resident, portal, exit),
        forall|i: int|
            #![trigger calls[i]]
            0 < i < calls.len() ==> calls[i - 1].walk(resident).same_crossing(
                calls[i],
                resident,
                portal.id@,
            ),
    ensures
        k < at_least_one(portal.traversal_ticks) ==> {
            &&& calls[k].walk(resident).position_of(resident) == calls[0].position_of(resident)
            &&& calls[k].walk(resident).crosses(
                resident,
                portal.id@,
                exit,
                at_least_one(portal.traversal_ticks) - k,
            )
        },
        k == at_least_one(portal.traversal_ticks) ==> {
            &&& calls[k].walk(resident).position_of(resident) == Some(exit)
            &&& !calls[k].walk(resident).portal_occupancy.contains_key(portal.id@)
        },
    decreases k,
{
    let ticks = at_least_one(portal.traversal_ticks) as int;
    calls[0].law_portal_is_entered_in_place(resident, portal, exit);
    if k > 1 {
        law_crossing_lasts_its_ticks(calls, resident, portal, exit, k - 1);
    }
    assert(calls[k - 1].walk(resident).same_crossing(calls[k], resident, portal.id@));
    assert(calls[k - 1].walk(resident).crosses(resident, portal.id@, exit, ticks - (k - 1)));
    assert(calls[k].crosses(resident, portal.id@, exit, ticks - (k - 1)));
    calls[k].law_crossing_counts_down(resident, portal.id@, exit, ticks - (k - 1));
}

impl Village {
    /// Others cannot put a resident into a portal.
    proof fn lemma_walk_enters_no_other(self, walker: SimId, resident: SimId, portal: Seq<char>)
        requires
            walker != resident,
            !self.occupies(resident, portal),
        ensures
            !self.walk(walker).occupies(resident, portal),
    {
    }

    proof fn lemma_follow_all_after(
        self,
        before: Village,
        residents: Seq<SimId>,
        resident: SimId,
        portal: Seq<char>,
    )
        requires
            !residents.contains(resident),
        ensures
            self.follow_all(before, residents).position_of(resident) == self.position_of(resident),
            self.follow_all(before, residents).go_to.contains_key(resident)
                == self.go_to.contains_key(resident),
            self.follow_all(before, residents).go_to[resident] == self.go_to[resident],
            !self.occupies(resident, portal) ==> !self.follow_all(before, residents).occupies(
                resident,
                portal,
            ),
        decreases residents.len(),
    {
        if residents.len() > 0 {
            let rest = residents.drop_last();
            assert forall|i: int| 0 <= i < rest.len() implies rest[i] != resident by {
                assert(residents.contains(residents[i]));
            }
            assert(residents.contains(residents[residents.len() - 1]));
            self.lemma_follow_all_after(before, rest, resident, portal);
            let mid = self.follow_all(before, rest);
            mid.lemma_walk_spares(residents.last(), resident);
            if !self.occupies(resident, portal) {
                mid.lemma_walk_enters_no_other(residents.last(), resident, portal);
            }
        }
    }

    /// Where a resident stands after its own step, however many follow before
    /// and behind it.
    proof fn lemma_follow_all_crosses(
        self,
        before: Village,
        residents: Seq<SimId>,
        resident: SimId,
        traversal: PortalTraversal,
    )
        requires
            self.valid(),
            residents.no_duplicates(),
            residents.contains(resident),
            before.claim(resident) is None,
            self.crosses(
                resident,
                traversal.portal@,
                traversal.destination,
                traversal.ticks_remaining as int,
            ),
        ensures
            ({
                let next = self.follow_all(before, residents);
                let portal = traversal.portal@;
                let exit = traversal.destination;
                if traversal.ticks_remaining > 1 {
                    &&& next.crosses(resident, portal, exit, traversal.ticks_remaining - 1)
                    &&& next.position_of(resident) == self.position_of(resident)
                } else {
                    &&& next.position_of(resident) == Some(exit)
                    &&& !next.occupies(resident, portal)
                }
            }),
        decreases residents.len(),
    {
        let rest = residents.drop_last();
        let last = residents.last();
        let portal = traversal.portal@;
        let exit = traversal.destination;
        let left = traversal.ticks_remaining as int;
        let mid = self.follow_all(before, rest);
        let next = self.follow_all(before, residents);
        self.lemma_follow_all_valid(before, rest);
        self.lemma_follow_all_valid(before, residents);
        if last == resident {
            assert(!rest.contains(resident)) by {
                if rest.contains(resident) {
                    let i = rest.index_of(resident);
                    assert(residents[i] == residents[residents.len() - 1]);
                }
            }
            self.lemma_follow_all_after(before, rest, resident, portal);
            assert(mid.crosses(resident, portal, exit, left));
            assert(next == mid.walk(resident));
            mid.law_crossing_counts_down(resident, portal, exit, left);
        } else {
            assert(rest.contains(resident)) by {
                assert(rest[residents.index_of(resident)] == resident);
            }
            self.lemma_follow_all_crosses(before, rest, resident, traversal);
            mid.lemma_walk_spares(last, resident);
            if left > 1 {
                assert(next.go_to.contains_key(resident));
            } else {
                mid.lemma_walk_enters_no_other(last, resident, portal);
            }
        }
    }

    proof fn lemma_progress_all_walks(self, residents: Seq<SimId>)
        ensures
            self.progress_all(residents).go_to == self.go_to,
            self.progress_all(residents).portal_occupancy == self.portal_occupancy,
        decreases residents.len(),
    {
        if residents.len() > 0 {
            self.lemma_progress_all_walks(residents.drop_last());
        }
    }

    proof fn lemma_grant_all_walks(self, requests: Seq<UseRequest>)
        ensures
            self.grant_all(requests).go_to == self.go_to,
            self.grant_all(requests).portal_occupancy == self.portal_occupancy,
        decreases requests.len(),
    {
        if requests.len() > 0 {
            self.lemma_grant_all_walks(requests.drop_last());
        }
    }

    /// A tick is one step of a crossing that it neither cancels nor pauses:
    /// the resident stays inside the portal one tick closer to its far end, or
    /// with its last tick comes out there and occupies the portal no longer.
    pub proof fn law_tick_is_one_step_of_a_crossing(self, resident: SimId)
        requires
            self.valid(),
            self.go_to.contains_key(resident),
            self.go_to[resident].traversal is Some,
            self.after_dispatch().go_to.contains_key(resident),
            self.after_dispatch().go_to[resident] == self.go_to[resident],
        ensures
            ({
                let traversal = self.go_to[resident].traversal->0;
                if traversal.ticks_remaining > 1 {
                    &&& self.advance().crosses(
                        resident,
                        traversal.portal@,
                        traversal.destination,
                        traversal.ticks_remaining - 1,
                    )
                    &&& self.advance().position_of(resident) == self.position_of(resident)
                } else {
                    &&& self.advance().position_of(resident) == Some(traversal.destination)
                    &&& !self.advance().occupies(resident, traversal.portal@)
                }
            }),
    {
        self.lemma_phases_valid();
        self.law_only_walking_moves_residents();
        let traversal = self.go_to[resident].traversal->0;
        let dispatched = self.after_dispatch();
        let first = dispatched.approved_walkers();
        let later = dispatched.other_walkers();
        dispatched.lemma_walkers_apart();
        assert(dispatched.claim(resident) is None);
        assert(!dispatched.approved(resident));
        let ids = in_order::<SimId>(dispatched.go_to.dom());
        lemma_in_order_lists::<SimId>(dispatched.go_to.dom());
        assert(ids.contains(resident));
        assert(later.contains(resident)) by {
            let i = ids.index_of(resident);
            assert(dispatched.goes_later()(ids[i]));
            ids.lemma_filter_contains(dispatched.goes_later(), i);
        }
        assert(!first.contains(resident));
        dispatched.lemma_walk_all_spares(first, resident);
        dispatched.lemma_walk_all_valid(first);
        let walked = dispatched.walk_all(first);
        assert(walked.go_to.contains_key(resident));
        walked.lemma_follow_all_crosses(dispatched, later, resident, traversal);
        let used = self.after_walking();
        used.lemma_progress_all_walks(in_order::<SimId>(used.active_object_uses.dom()));
        let progressed = used.progress_everyone();
        let start = Village { use_requests: Seq::empty(), ..progressed };
        start.lemma_grant_all_walks(ranked(progressed.use_requests));
    }
}

} // verus!
