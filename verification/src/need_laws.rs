//! What the village promises about needs and intentions.

use vstd::prelude::*;

use crate::arbitration::UseRequest;
use crate::events::PlayerCommand;
use crate::events::WorldEventKind;
use crate::identity::SimId;
use crate::ord_map::in_order;
use crate::ord_map::lemma_in_order_lists;
use crate::state::ToiletNeedState;
use crate::village::aged;
use crate::village::less;
use crate::village::ranked;
use crate::village::Village;

verus! {

/// A need only grows with time, and stops at the largest value.
pub proof fn law_need_saturates(need: ToiletNeedState)
    ensures
        aged(need).value >= need.value,
        need.value + need.decay_per_tick <= 255 ==> aged(need).value == need.value
            + need.decay_per_tick,
        need.value + need.decay_per_tick > 255 ==> aged(need).value == 255,
        aged(need) == (ToiletNeedState { value: aged(need).value, ..need }),
{
}

impl Village {
    /// Whether needs and intentions are the same.
    pub open spec fn same_mind(self, next: Village) -> bool {
        &&& next.toilet_needs == self.toilet_needs
        &&& next.autonomous_toilet_intentions == self.autonomous_toilet_intentions
        &&& next.urgent_toilet_intentions == self.urgent_toilet_intentions
    }

    proof fn lemma_ingest_all_same_mind(self, commands: Seq<PlayerCommand>)
        ensures
            self.same_mind(self.ingest_all(commands)),
        decreases commands.len(),
    {
        if commands.len() > 0 {
            self.lemma_ingest_all_same_mind(commands.drop_last());
        }
    }

    proof fn lemma_dispatch_all_same_mind(self, residents: Seq<SimId>)
        ensures
            self.same_mind(self.dispatch_all(residents)),
        decreases residents.len(),
    {
        if residents.len() > 0 {
            self.lemma_dispatch_all_same_mind(residents.drop_last());
        }
    }

    proof fn lemma_walk_all_same_mind(self, residents: Seq<SimId>)
        ensures
            self.same_mind(self.walk_all(residents)),
        decreases residents.len(),
    {
        if residents.len() > 0 {
            self.lemma_walk_all_same_mind(residents.drop_last());
        }
    }

    proof fn lemma_follow_all_same_mind(self, before: Village, residents: Seq<SimId>)
        ensures
            self.same_mind(self.follow_all(before, residents)),
        decreases residents.len(),
    {
        if residents.len() > 0 {
            self.lemma_follow_all_same_mind(before, residents.drop_last());
        }
    }

    pub(crate) proof fn lemma_grant_all_same_mind(self, requests: Seq<UseRequest>)
        ensures
            self.same_mind(self.grant_all(requests)),
        decreases requests.len(),
    {
        if requests.len() > 0 {
            self.lemma_grant_all_same_mind(requests.drop_last());
        }
    }

    /// Only a resident's own choice changes its intention.
    proof fn lemma_choose_all_minds(self, residents: Seq<SimId>, resident: SimId)
        requires
            residents.no_duplicates(),
        ensures
            self.choose_all(residents).toilet_needs == self.toilet_needs,
            !residents.contains(resident) ==> {
                &&& self.choose_all(residents).autonomous_toilet_intentions.contains(resident)
                    == self.autonomous_toilet_intentions.contains(resident)
                &&& self.choose_all(residents).urgent_toilet_intentions.contains(resident)
                    == self.urgent_toilet_intentions.contains(resident)
            },
            residents.contains(resident) ==> {
                &&& self.choose_all(residents).autonomous_toilet_intentions.contains(resident)
                    == self.intends(resident)
                &&& self.intends(resident) ==> self.choose_all(
                    residents,
                ).urgent_toilet_intentions.contains(resident) == self.urges(resident)
            },
        decreases residents.len(),
    {
        if residents.len() > 0 {
            let rest = residents.drop_last();
            let last = residents.last();
            let mid = self.choose_all(rest);
            self.lemma_choose_all_minds(rest, resident);
            if resident == last {
                assert(!rest.contains(resident)) by {
                    if rest.contains(resident) {
                        let i = rest.index_of(resident);
                        assert(residents[i] == residents[residents.len() - 1]);
                    }
                }
                assert(residents[residents.len() - 1] == resident);
                assert(mid.intends(resident) == self.intends(resident));
                assert(mid.urges(resident) == self.urges(resident));
            } else {
                if rest.contains(resident) {
                    let i = rest.index_of(resident);
                    assert(residents[i] == resident);
                }
                if residents.contains(resident) {
                    let i = residents.index_of(resident);
                    assert(rest[i] == resident);
                }
            }
        }
    }

    /// Progress of a use recovers a need only where it completes a use of the
    /// resident's own toilet target.
    proof fn lemma_progress_all_needs(self, residents: Seq<SimId>, resident: SimId)
        requires
            residents.no_duplicates(),
            self.toilet_needs.contains_key(resident),
        ensures
            self.progress_all(residents).autonomous_toilet_intentions
                == self.autonomous_toilet_intentions,
            self.progress_all(residents).urgent_toilet_intentions == self.urgent_toilet_intentions,
            self.progress_all(residents).autonomous_toilet_plans == self.autonomous_toilet_plans,
            self.progress_all(residents).toilet_needs.contains_key(resident),
            self.progress_all(residents).ledger.len() >= self.ledger.len(),
            !residents.contains(resident) ==> self.progress_all(residents).toilet_needs[resident]
                == self.toilet_needs[resident],
            self.progress_all(residents).toilet_needs[resident] == self.toilet_needs[resident]
                || exists|i: int|
                self.ledger.len() < i && #[trigger] self.progress_all(residents).recovery_at(
                    resident,
                    self.toilet_needs[resident],
                    i,
                ),
        decreases residents.len(),
    {
        if residents.len() > 0 {
            let rest = residents.drop_last();
            let last = residents.last();
            let mid = self.progress_all(rest);
            let next = self.progress_all(residents);
            self.lemma_progress_all_needs(rest, resident);
            assert(!rest.contains(last)) by {
                if rest.contains(last) {
                    let i = rest.index_of(last);
                    assert(residents[i] == residents[residents.len() - 1]);
                }
            }
            if rest.contains(resident) {
                let i = rest.index_of(resident);
                assert(residents[i] == resident);
            }
            assert(residents[residents.len() - 1] == last);
            if resident != last {
                if mid.toilet_needs[resident] != self.toilet_needs[resident] {
                    let i = choose|i: int|
                        self.ledger.len() < i && #[trigger] mid.recovery_at(
                            resident,
                            self.toilet_needs[resident],
                            i,
                        );
                    assert(next.ledger[i] == mid.ledger[i]);
                    assert(next.ledger[i - 1] == mid.ledger[i - 1]);
                    assert(next.recovery_at(resident, self.toilet_needs[resident], i));
                }
            } else {
                assert(mid.toilet_needs[resident] == self.toilet_needs[resident]);
                if next.toilet_needs[resident] != self.toilet_needs[resident] {
                    let i = next.ledger.len() - 1;
                    assert(next.recovery_at(resident, self.toilet_needs[resident], i));
                }
            }
        }
    }

    /// Whether the ledger has at `i` the recovery of a need, directly behind
    /// the completed use of the resident's own toilet target.
    pub open spec fn recovery_at(self, resident: SimId, need: ToiletNeedState, i: int) -> bool {
        &&& 1 <= i < self.ledger.len()
        &&& self.ledger[i].kind == WorldEventKind::ToiletNeedRecovered {
            resident,
            value: self.toilet_needs[resident].value,
        }
        &&& self.toilet_needs[resident].value == less(need.value, need.recovery)
        &&& match self.ledger[i - 1].kind {
            WorldEventKind::ObjectUseCompleted { resident: who, object, affordance } => who
                == resident && self.is_toilet_target(resident, object@, affordance@),
            _ => false,
        }
    }

    /// Until objects are used, a tick only makes needs grow.
    pub proof fn law_needs_grow_by_their_decay(self)
        requires
            self.valid(),
        ensures
            self.after_walking().toilet_needs == self.age_needs().toilet_needs,
            self.after_walking().toilet_needs.dom() == self.toilet_needs.dom(),
            forall|resident: SimId| #[trigger]
                self.toilet_needs.contains_key(resident) ==> {
                    let before = self.toilet_needs[resident];
                    let after = self.after_walking().toilet_needs[resident];
                    &&& after == (ToiletNeedState { value: after.value, ..before })
                    &&& after.value == if before.value + before.decay_per_tick > 255 {
                        255
                    } else {
                        before.value + before.decay_per_tick
                    }
                },
    {
        assert(self.age_needs().toilet_needs.dom() =~= self.toilet_needs.dom());
        self.lemma_phases_valid();
        let begun = self.begin_tick();
        let emptied = Village { inbox: Seq::empty(), ..begun };
        emptied.lemma_ingest_all_same_mind(begun.inbox);
        let grown = self.after_ingest().age_needs();
        assert(grown.toilet_needs == self.age_needs().toilet_needs);
        let needy = in_order::<SimId>(grown.toilet_needs.dom());
        lemma_in_order_lists::<SimId>(grown.toilet_needs.dom());
        grown.lemma_choose_all_minds(needy, SimId(0));
        let lived = self.after_living();
        lived.lemma_dispatch_all_same_mind(in_order::<SimId>(lived.player_task_queue.dom()));
        let dispatched = self.after_dispatch();
        let first = dispatched.walk_all(dispatched.approved_walkers());
        dispatched.lemma_walk_all_same_mind(dispatched.approved_walkers());
        first.lemma_follow_all_same_mind(dispatched, dispatched.other_walkers());
    }

    /// A need recovers only on completion: where a tick leaves a need at
    /// anything but its grown value, the ledger has the recovery, directly
    /// behind the completed use of the resident's own toilet target, and the
    /// value is the grown one less the authored recovery.
    pub proof fn law_need_recovers_only_on_completion(self, resident: SimId)
        requires
            self.valid(),
            self.toilet_needs.contains_key(resident),
            self.advance().toilet_needs[resident] != aged(self.toilet_needs[resident]),
        ensures
            exists|i: int|
                self.ledger.len() <= i && #[trigger] self.advance().recovery_at(
                    resident,
                    aged(self.toilet_needs[resident]),
                    i,
                ),
    {
        self.law_needs_grow_by_their_decay();
        self.lemma_phases_valid();
        self.lemma_phases_go_on();
        let walked = self.after_walking();
        let users = in_order::<SimId>(walked.active_object_uses.dom());
        lemma_in_order_lists::<SimId>(walked.active_object_uses.dom());
        assert(walked.toilet_needs[resident] == aged(self.toilet_needs[resident]));
        walked.lemma_progress_all_needs(users, resident);
        let progressed = walked.progress_everyone();
        let start = Village { use_requests: Seq::empty(), ..progressed };
        let requests = ranked(progressed.use_requests);
        start.lemma_grant_all_same_mind(requests);
        start.lemma_grant_all_goes_on(requests);
        let next = self.advance();
        assert(next.toilet_needs == progressed.toilet_needs);
        assert(next.autonomous_toilet_plans == progressed.autonomous_toilet_plans);
        let i = choose|i: int|
            walked.ledger.len() < i && #[trigger] progressed.recovery_at(
                resident,
                walked.toilet_needs[resident],
                i,
            );
        let used = self.after_use();
        assert(used.ledger[i] == start.ledger[i]);
        assert(used.ledger[i - 1] == start.ledger[i - 1]);
        assert(next.ledger[i] == used.ledger[i]);
        assert(next.ledger[i - 1] == used.ledger[i - 1]);
        assert(next.recovery_at(resident, aged(self.toilet_needs[resident]), i));
        self.lemma_walking_extends();
    }

    proof fn lemma_walking_extends(self)
        requires
            self.valid(),
        ensures
            self.after_walking().ledger.len() >= self.ledger.len(),
    {
        self.lemma_phases_go_on();
    }

    /// Intentions have hysteresis: a resident that intends nothing begins at
    /// its activation threshold, one that intends something goes on while its
    /// need is above its retention threshold, and an intention is urgent from
    /// its urgent threshold, where it has one, until the retention threshold.
    pub proof fn law_intentions_have_hysteresis(self, resident: SimId)
        requires
            self.valid(),
            self.toilet_needs.contains_key(resident),
        ensures
            ({
                let need = aged(self.toilet_needs[resident]);
                let intends = if self.autonomous_toilet_intentions.contains(resident) {
                    need.value > need.retain_above
                } else {
                    need.value >= need.activate_at
                };
                let urgent = (need.urgent_at matches Some(threshold) && need.value >= threshold)
                    || (need.value > need.retain_above && self.urgent_toilet_intentions.contains(
                    resident,
                ));
                &&& self.advance().autonomous_toilet_intentions.contains(resident) == intends
                &&& intends ==> self.advance().urgent_toilet_intentions.contains(resident)
                    == urgent
            }),
    {
        self.lemma_phases_valid();
        let begun = self.begin_tick();
        let emptied = Village { inbox: Seq::empty(), ..begun };
        emptied.lemma_ingest_all_same_mind(begun.inbox);
        let grown = self.after_ingest().age_needs();
        assert(grown.toilet_needs.contains_key(resident));
        let needy = in_order::<SimId>(grown.toilet_needs.dom());
        lemma_in_order_lists::<SimId>(grown.toilet_needs.dom());
        assert(needy.contains(resident));
        grown.lemma_choose_all_minds(needy, resident);
        assert(grown.toilet_needs[resident] == aged(self.toilet_needs[resident]));
        let lived = self.after_living();
        lived.lemma_dispatch_all_same_mind(in_order::<SimId>(lived.player_task_queue.dom()));
        let dispatched = self.after_dispatch();
        let first = dispatched.walk_all(dispatched.approved_walkers());
        dispatched.lemma_walk_all_same_mind(dispatched.approved_walkers());
        first.lemma_follow_all_same_mind(dispatched, dispatched.other_walkers());
        let walked = self.after_walking();
        assert(walked.toilet_needs.contains_key(resident));
        lemma_in_order_lists::<SimId>(walked.active_object_uses.dom());
        walked.lemma_progress_all_needs(
            in_order::<SimId>(walked.active_object_uses.dom()),
            resident,
        );
        let progressed = walked.progress_everyone();
        let start = Village { use_requests: Seq::empty(), ..progressed };
        start.lemma_grant_all_same_mind(ranked(progressed.use_requests));
    }

    /// Setting a need sets its value and nothing else; a resident without one
    /// gets none.
    pub proof fn law_setting_a_need_sets_its_value(self, resident: SimId, value: u8)
        ensures
            ({
                let after = self.with_need(resident, value);
                &&& !self.toilet_needs.contains_key(resident) ==> after == self
                &&& self.toilet_needs.contains_key(resident) ==> {
                    let need = after.toilet_needs[resident];
                    &&& after == (Village {
                        toilet_needs: self.toilet_needs.insert(resident, need),
                        ..self
                    })
                    &&& need.value == value
                    &&& need.decay_per_tick == self.toilet_needs[resident].decay_per_tick
                    &&& need.activate_at == self.toilet_needs[resident].activate_at
                    &&& need.retain_above == self.toilet_needs[resident].retain_above
                    &&& need.recovery == self.toilet_needs[resident].recovery
                    &&& need.urgent_at == self.toilet_needs[resident].urgent_at
                    &&& after.need_of(resident) == Some(value)
                }
            }),
    {
    }

    /// A need without an urgent threshold never escalates, however large it
    /// grows: it is urgent at no moment, a tick does not make it so, and the
    /// resident's autonomy yields to the player queue as any other does.
    pub proof fn law_need_without_urgent_threshold_never_escalates(self, resident: SimId)
        requires
            self.valid(),
            self.toilet_needs.contains_key(resident),
            self.toilet_needs[resident].urgent_at is None,
        ensures
            !self.urgent_toilet_intentions.contains(resident),
            !self.after_ingest().age_needs().urges(resident),
            !self.after_living().urgent_toilet_intentions.contains(resident),
            !self.advance().urgent_toilet_intentions.contains(resident),
            self.advance().toilet_needs[resident].urgent_at is None,
    {
        self.lemma_phases_valid();
        self.lemma_phases_go_on();
        self.law_tick_keeps_village_valid();
        self.law_tick_keeps_the_authored_world();
        let ingested = self.after_ingest();
        assert(ingested.toilet_needs.dom().contains(resident));
        assert(self.begin_tick().toilet_needs.contains_key(resident));
        assert(ingested.toilet_needs[resident].urgent_at is None);
        let grown = ingested.age_needs();
        assert(grown.toilet_needs.contains_key(resident));
        assert(self.after_living().toilet_needs[resident].urgent_at is None);
    }
}

} // verus!
