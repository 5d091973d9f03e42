//! What the village promises as a whole.

use vstd::prelude::*;

use crate::arbitration::UseRequest;
use crate::clock::time_at_minute;
use crate::events::draw_key;
use crate::events::law_different_seeds_draw_differently;
use crate::events::mixed;
use crate::events::PlayerCommand;
use crate::events::WorldEvent;
use crate::events::WorldEventKind;
use crate::identity::SimId;
use crate::ord_map::in_order;
use crate::state::ToiletNeedState;
use crate::village::ranked;
use crate::village::Village;

verus! {

// ---------------------------------------------------------------------------
// The world and its ledger.
// ---------------------------------------------------------------------------

impl Village {
    /// The authored world is the same: seed, start, map, objects, plans, who
    /// the residents are and how their needs are tuned.
    pub open spec fn same_world(self, next: Village) -> bool {
        &&& next.seed == self.seed
        &&& next.start_minute_of_day == self.start_minute_of_day
        &&& next.map == self.map
        &&& next.objects == self.objects
        &&& next.autonomous_toilet_plans == self.autonomous_toilet_plans
        &&& next.residents.dom() == self.residents.dom()
        &&& forall|resident: SimId| #[trigger]
            self.residents.contains_key(resident) ==> next.residents[resident].definition_id
                == self.residents[resident].definition_id && next.residents[resident].display_name
                == self.residents[resident].display_name
        &&& next.toilet_needs.dom() == self.toilet_needs.dom()
        &&& forall|resident: SimId| #[trigger]
            self.toilet_needs.contains_key(resident) ==> next.toilet_needs[resident] == (
            ToiletNeedState {
                value: next.toilet_needs[resident].value,
                ..self.toilet_needs[resident]
            })
    }

    /// The ledger has only grown, by events of this tick.
    pub open spec fn ledger_grows(self, next: Village) -> bool {
        &&& next.tick == self.tick
        &&& next.ingest_from == self.ingest_from
        &&& next.ingest_to == self.ingest_to
        &&& next.ledger.len() >= self.ledger.len()
        &&& forall|i: int|
            0 <= i < self.ledger.len() ==> #[trigger] next.ledger[i] == self.ledger[i]
        &&& forall|i: int|
            self.ledger.len() <= i < next.ledger.len() ==> (#[trigger] next.ledger[i]).tick
                == self.tick
    }

    /// No completion mark has been published.
    pub open spec fn unmarked(self, next: Village) -> bool {
        forall|i: int|
            self.ledger.len() <= i < next.ledger.len() ==> !((#[trigger] next.ledger[i]).kind
                is TickCompleted)
    }

    /// The village goes on within a tick.
    pub open spec fn goes_on(self, next: Village) -> bool {
        self.same_world(next) && self.ledger_grows(next) && self.unmarked(next)
    }

    proof fn lemma_goes_on_transitive(self, mid: Village, next: Village)
        requires
            self.same_world(mid),
            self.ledger_grows(mid),
            mid.same_world(next),
            mid.ledger_grows(next),
        ensures
            self.same_world(next),
            self.ledger_grows(next),
            self.unmarked(mid) && mid.unmarked(next) ==> self.unmarked(next),
    {
        if self.unmarked(mid) && mid.unmarked(next) {
            assert forall|i: int| self.ledger.len() <= i < next.ledger.len() implies !((
            #[trigger] next.ledger[i]).kind is TickCompleted) by {
                if i < mid.ledger.len() {
                    assert(next.ledger[i] == mid.ledger[i]);
                }
            }
        }
        assert forall|resident: SimId| #[trigger]
            self.residents.contains_key(resident) implies next.residents[resident].definition_id
            == self.residents[resident].definition_id && next.residents[resident].display_name
            == self.residents[resident].display_name by {
            assert(mid.residents.dom().contains(resident));
        }
        assert forall|resident: SimId| #[trigger]
            self.toilet_needs.contains_key(resident) implies next.toilet_needs[resident] == (
        ToiletNeedState {
            value: next.toilet_needs[resident].value,
            ..self.toilet_needs[resident]
        }) by {
            assert(mid.toilet_needs.dom().contains(resident));
        }
        assert forall|i: int| 0 <= i < self.ledger.len() implies #[trigger] next.ledger[i]
            == self.ledger[i] by {
            assert(mid.ledger[i] == self.ledger[i]);
        }
        assert forall|i: int| self.ledger.len() <= i < next.ledger.len() implies (
        #[trigger] next.ledger[i]).tick == self.tick by {
            if i < mid.ledger.len() {
                assert(next.ledger[i] == mid.ledger[i]);
            }
        }
    }

    proof fn lemma_ingest_goes_on(self, command: PlayerCommand)
        ensures
            self.goes_on(self.ingest(command)),
    {
    }

    proof fn lemma_dispatch_goes_on(self, resident: SimId)
        ensures
            self.goes_on(self.dispatch(resident)),
    {
    }

    proof fn lemma_choose_plan_goes_on(self, resident: SimId)
        ensures
            self.goes_on(self.choose_plan(resident)),
    {
    }

    pub(crate) proof fn lemma_walk_goes_on(self, resident: SimId)
        requires
            self.sound(),
        ensures
            self.goes_on(self.walk(resident)),
    {
        let next = self.walk(resident);
        assert(next.residents.dom() =~= self.residents.dom());
    }

    proof fn lemma_progress_goes_on(self, resident: SimId)
        ensures
            self.goes_on(self.progress(resident)),
    {
        let next = self.progress(resident);
        assert(next.toilet_needs.dom() =~= self.toilet_needs.dom());
    }

    proof fn lemma_grant_goes_on(self, request: UseRequest)
        ensures
            self.goes_on(self.grant(request)),
    {
    }

    proof fn lemma_ingest_all_goes_on(self, commands: Seq<PlayerCommand>)
        ensures
            self.goes_on(self.ingest_all(commands)),
        decreases commands.len(),
    {
        if commands.len() > 0 {
            let rest = commands.drop_last();
            self.lemma_ingest_all_goes_on(rest);
            self.ingest_all(rest).lemma_ingest_goes_on(commands.last());
            self.lemma_goes_on_transitive(self.ingest_all(rest), self.ingest_all(commands));
        }
    }

    proof fn lemma_dispatch_all_goes_on(self, residents: Seq<SimId>)
        ensures
            self.goes_on(self.dispatch_all(residents)),
        decreases residents.len(),
    {
        if residents.len() > 0 {
            let rest = residents.drop_last();
            self.lemma_dispatch_all_goes_on(rest);
            self.dispatch_all(rest).lemma_dispatch_goes_on(residents.last());
            self.lemma_goes_on_transitive(self.dispatch_all(rest), self.dispatch_all(residents));
        }
    }

    proof fn lemma_choose_all_goes_on(self, residents: Seq<SimId>)
        ensures
            self.goes_on(self.choose_all(residents)),
        decreases residents.len(),
    {
        if residents.len() > 0 {
            let rest = residents.drop_last();
            self.lemma_choose_all_goes_on(rest);
            self.choose_all(rest).lemma_choose_plan_goes_on(residents.last());
            self.lemma_goes_on_transitive(self.choose_all(rest), self.choose_all(residents));
        }
    }

    pub(crate) proof fn lemma_walk_all_goes_on(self, residents: Seq<SimId>)
        requires
            self.valid(),
        ensures
            self.goes_on(self.walk_all(residents)),
        decreases residents.len(),
    {
        if residents.len() > 0 {
            let rest = residents.drop_last();
            self.lemma_walk_all_goes_on(rest);
            self.lemma_walk_all_valid(rest);
            self.walk_all(rest).lemma_walk_goes_on(residents.last());
            self.lemma_goes_on_transitive(self.walk_all(rest), self.walk_all(residents));
        }
    }

    pub(crate) proof fn lemma_follow_all_goes_on(self, before: Village, residents: Seq<SimId>)
        requires
            self.valid(),
        ensures
            self.goes_on(self.follow_all(before, residents)),
        decreases residents.len(),
    {
        if residents.len() > 0 {
            let rest = residents.drop_last();
            self.lemma_follow_all_goes_on(before, rest);
            self.lemma_follow_all_valid(before, rest);
            let village = self.follow_all(before, rest);
            village.lemma_walk_goes_on(residents.last());
            self.lemma_goes_on_transitive(village, self.follow_all(before, residents));
        }
    }

    pub(crate) proof fn lemma_progress_all_goes_on(self, residents: Seq<SimId>)
        ensures
            self.goes_on(self.progress_all(residents)),
        decreases residents.len(),
    {
        if residents.len() > 0 {
            let rest = residents.drop_last();
            self.lemma_progress_all_goes_on(rest);
            self.progress_all(rest).lemma_progress_goes_on(residents.last());
            self.lemma_goes_on_transitive(self.progress_all(rest), self.progress_all(residents));
        }
    }

    pub(crate) proof fn lemma_grant_all_goes_on(self, requests: Seq<UseRequest>)
        ensures
            self.goes_on(self.grant_all(requests)),
        decreases requests.len(),
    {
        if requests.len() > 0 {
            let rest = requests.drop_last();
            self.lemma_grant_all_goes_on(rest);
            self.grant_all(rest).lemma_grant_goes_on(requests.last());
            self.lemma_goes_on_transitive(self.grant_all(rest), self.grant_all(requests));
        }
    }

    /// The village once the tick's commands are ingested.
    pub open spec fn after_ingest(self) -> Village {
        self.begin_tick().ingest_inbox()
    }

    /// The village once needs have grown and residents have chosen.
    pub open spec fn after_living(self) -> Village {
        self.after_ingest().live()
    }

    /// The village once queues are dispatched.
    pub open spec fn after_dispatch(self) -> Village {
        self.after_living().dispatch_everyone()
    }

    /// The village once everyone has walked.
    pub open spec fn after_walking(self) -> Village {
        self.after_dispatch().walk_everyone()
    }

    /// The village once objects are used.
    pub open spec fn after_use(self) -> Village {
        self.after_walking().use_objects()
    }

    /// A tick has its phases in this order: what is pending becomes ingested and
    /// the commands in the inbox are ingested, in the order they were submitted;
    /// needs grow and then everybody with a need chooses; queues are dispatched;
    /// everybody walks; objects are used; and the tick is marked complete.
    pub proof fn law_phases_follow_each_other(self)
        requires
            self.tick < u64::MAX,
        ensures
            self.after_ingest() == (Village {
                tick: (self.tick + 1) as u64,
                ingest_from: self.ingest_to,
                ingest_to: self.ledger.len() as int,
                inbox: Seq::empty(),
                ..self
            }).ingest_all(self.inbox),
            self.after_living() == (Village {
                toilet_needs: self.after_ingest().age_needs().toilet_needs,
                ..self.after_ingest()
            }).choose_everyone(),
            self.after_dispatch() == self.after_living().dispatch_everyone(),
            self.after_walking() == self.after_dispatch().walk_everyone(),
            self.after_use() == self.after_walking().use_objects(),
            self.advance() == (Village {
                ledger: self.after_use().ledger.push(
                    WorldEvent {
                        tick: self.after_use().tick,
                        kind: WorldEventKind::TickCompleted {
                            keyed_marker: mixed(
                                draw_key(
                                    self.after_use().seed,
                                    self.after_use().tick,
                                    self.after_use().tick,
                                    0,
                                ),
                            ),
                        },
                    },
                ),
                ..self.after_use()
            }),
    {
    }

    /// Every moment of a tick is valid.
    pub(crate) proof fn lemma_phases_valid(self)
        requires
            self.valid(),
        ensures
            self.begin_tick().valid(),
            self.after_ingest().valid(),
            self.after_ingest().age_needs().valid(),
            self.after_living().valid(),
            self.after_dispatch().valid(),
            self.after_walking().valid(),
            self.after_use().valid(),
    {
        let begun = self.begin_tick();
        self.lemma_begin_tick_sound();
        self.lemma_unmoved(begun);
        let emptied = Village { inbox: Seq::empty(), ..begun };
        begun.lemma_sound_frame(emptied);
        begun.lemma_unmoved(emptied);
        emptied.lemma_ingest_all_valid(begun.inbox);
        let ingested = self.after_ingest();
        let grown = ingested.age_needs();
        assert(grown.toilet_needs.dom() =~= ingested.toilet_needs.dom());
        ingested.lemma_sound_frame(grown);
        ingested.lemma_unmoved(grown);
        ingested.lemma_live_valid();
        let lived = self.after_living();
        lived.lemma_dispatch_all_valid(in_order::<SimId>(lived.player_task_queue.dom()));
        let dispatched = self.after_dispatch();
        dispatched.lemma_walk_all_valid(dispatched.approved_walkers());
        dispatched.walk_all(dispatched.approved_walkers()).lemma_follow_all_valid(
            dispatched,
            dispatched.other_walkers(),
        );
        self.after_walking().lemma_use_objects_valid();
    }

    /// Each phase of a tick goes on from the one before.
    pub(crate) proof fn lemma_phases_go_on(self)
        requires
            self.valid(),
        ensures
            self.begin_tick().goes_on(self.after_ingest()),
            self.after_ingest().goes_on(self.after_ingest().age_needs()),
            self.after_ingest().age_needs().goes_on(self.after_living()),
            self.after_living().goes_on(self.after_dispatch()),
            self.after_dispatch().goes_on(self.after_walking()),
            self.after_walking().goes_on(self.after_use()),
            self.after_use().same_world(self.advance()),
            self.after_use().ledger_grows(self.advance()),
    {
        self.lemma_phases_valid();
        let begun = self.begin_tick();
        let emptied = Village { inbox: Seq::empty(), ..begun };
        emptied.lemma_ingest_all_goes_on(begun.inbox);
        begun.lemma_goes_on_transitive(emptied, self.after_ingest());
        let grown = self.after_ingest().age_needs();
        assert(grown.toilet_needs.dom() =~= self.after_ingest().toilet_needs.dom());
        grown.lemma_choose_all_goes_on(in_order::<SimId>(grown.toilet_needs.dom()));
        let lived = self.after_living();
        lived.lemma_dispatch_all_goes_on(in_order::<SimId>(lived.player_task_queue.dom()));
        let dispatched = self.after_dispatch();
        let first = dispatched.walk_all(dispatched.approved_walkers());
        dispatched.lemma_walk_all_goes_on(dispatched.approved_walkers());
        dispatched.lemma_walk_all_valid(dispatched.approved_walkers());
        first.lemma_follow_all_goes_on(dispatched, dispatched.other_walkers());
        dispatched.lemma_goes_on_transitive(first, self.after_walking());
        let walked = self.after_walking();
        let progressed = walked.progress_everyone();
        walked.lemma_progress_all_goes_on(in_order::<SimId>(walked.active_object_uses.dom()));
        let start = Village { use_requests: Seq::empty(), ..progressed };
        start.lemma_grant_all_goes_on(ranked(progressed.use_requests));
        walked.lemma_goes_on_transitive(progressed, start);
        walked.lemma_goes_on_transitive(start, self.after_use());
    }

    /// A tick goes on from its beginning, and is marked complete at its end.
    pub(crate) proof fn lemma_tick_goes_on(self)
        requires
            self.valid(),
        ensures
            self.begin_tick().goes_on(self.after_use()),
            self.begin_tick().same_world(self.advance()),
            self.begin_tick().ledger_grows(self.advance()),
    {
        self.lemma_phases_go_on();
        let begun = self.begin_tick();
        let grown = self.after_ingest().age_needs();
        begun.lemma_goes_on_transitive(self.after_ingest(), grown);
        begun.lemma_goes_on_transitive(grown, self.after_living());
        begun.lemma_goes_on_transitive(self.after_living(), self.after_dispatch());
        begun.lemma_goes_on_transitive(self.after_dispatch(), self.after_walking());
        begun.lemma_goes_on_transitive(self.after_walking(), self.after_use());
        begun.lemma_goes_on_transitive(self.after_use(), self.advance());
    }

    /// A tick counts one, and moves the in-world clock by one minute.
    pub proof fn law_tick_moves_the_clock_one_minute(self)
        requires
            self.valid(),
            self.tick < u64::MAX,
        ensures
            self.advance().tick == self.tick + 1,
            self.advance().time_of_day() == time_at_minute(
                self.start_minute_of_day + self.tick + 1,
            ),
    {
        self.lemma_tick_goes_on();
    }

    /// A tick leaves the authored world as it is: seed, start, map, objects,
    /// plans, who the residents are and how their needs are tuned.
    pub proof fn law_tick_keeps_the_authored_world(self)
        requires
            self.valid(),
        ensures
            self.same_world(self.advance()),
    {
        self.lemma_tick_goes_on();
    }

    /// The ledger is immutable and only grows: a tick keeps every event there
    /// is, stamps what it adds with its own number, and adds its one completion
    /// mark last.
    pub proof fn law_ledger_is_append_only(self)
        requires
            self.valid(),
            self.tick < u64::MAX,
        ensures
            self.advance().ledger.len() > self.ledger.len(),
            self.advance().ledger.take(self.ledger.len() as int) == self.ledger,
            forall|i: int|
                self.ledger.len() <= i < self.advance().ledger.len() ==> (
                #[trigger] self.advance().ledger[i]).tick == self.tick + 1,
            self.advance().ledger.last().kind == (WorldEventKind::TickCompleted {
                keyed_marker: mixed(
                    draw_key(self.seed, (self.tick + 1) as u64, (self.tick + 1) as u64, 0),
                ),
            }),
            forall|i: int|
                self.ledger.len() <= i < self.advance().ledger.len() - 1 ==> !((
                #[trigger] self.advance().ledger[i]).kind is TickCompleted),
    {
        self.lemma_tick_goes_on();
        assert(self.advance().ledger.take(self.ledger.len() as int) =~= self.ledger);
        assert forall|i: int| self.ledger.len() <= i < self.advance().ledger.len() - 1 implies !((
        #[trigger] self.advance().ledger[i]).kind is TickCompleted) by {
            assert(self.advance().ledger[i] == self.after_use().ledger[i]);
        }
    }

    /// Villages with different seeds complete the same tick with different
    /// marks.
    pub proof fn law_different_seeds_publish_different_events(self, other: Village)
        requires
            self.valid(),
            other.valid(),
            self.seed != other.seed,
            self.tick == other.tick,
            self.tick < u64::MAX,
        ensures
            self.advance().ledger.last() != other.advance().ledger.last(),
    {
        self.law_ledger_is_append_only();
        other.law_ledger_is_append_only();
        let tick = (self.tick + 1) as u64;
        law_different_seeds_draw_differently(self.seed, other.seed, tick, tick, 0);
    }

    /// Events are only observable a tick later: what a tick ingests is what
    /// was published since the tick before it began, and what it publishes is
    /// pending until the next.
    pub proof fn law_events_are_observable_on_the_next_tick(self)
        requires
            self.valid(),
        ensures
            self.advance().ingested() == self.pending(),
            self.advance().pending() == self.advance().ledger.skip(self.ledger.len() as int),
            self.advance().advance().ingested() == self.advance().ledger.skip(
                self.ledger.len() as int,
            ),
    {
        self.lemma_tick_goes_on();
        let next = self.advance();
        assert(next.ingested() =~= self.pending()) by {
            assert forall|i: int| 0 <= i < self.pending().len() implies next.ingested()[i]
                == self.pending()[i] by {
                assert(next.ledger[self.ingest_to + i] == self.ledger[self.ingest_to + i]);
            }
        }
        assert(next.pending() =~= next.ledger.skip(self.ledger.len() as int));
        self.law_tick_keeps_village_valid();
        next.lemma_tick_goes_on();
        let later = next.advance();
        assert(later.ingested() =~= next.pending()) by {
            assert forall|i: int| 0 <= i < next.pending().len() implies later.ingested()[i]
                == next.pending()[i] by {
                assert(later.ledger[next.ingest_to + i] == next.ledger[next.ingest_to + i]);
            }
        }
    }

    // -- Dates ---------------------------------------------------------------

    /// Every event is stamped with the tick that published it: what is pending
    /// with the current one, and all there was before with earlier ones.
    pub open spec fn dated(self) -> bool {
        &&& forall|i: int|
            0 <= i < self.ingest_to && i < self.ledger.len() ==> (#[trigger] self.ledger[i]).tick
                < self.tick
        &&& forall|i: int|
            self.ingest_to <= i < self.ledger.len() ==> (#[trigger] self.ledger[i]).tick
                == self.tick
    }

    /// A tick keeps events dated.
    pub proof fn law_tick_keeps_events_dated(self)
        requires
            self.valid(),
            self.dated(),
            self.tick < u64::MAX,
        ensures
            self.advance().dated(),
    {
        self.lemma_tick_goes_on();
        let next = self.advance();
        assert forall|i: int| 0 <= i < next.ingest_to && i < next.ledger.len() implies (
        #[trigger] next.ledger[i]).tick < next.tick by {
            assert(next.ledger[i] == self.ledger[i]);
        }
    }

    /// What a tick ingests is exactly what the tick before it published, in
    /// order: the events stamped with that tick.
    pub proof fn law_ingested_events_are_those_of_the_last_tick(self)
        requires
            self.valid(),
            self.dated(),
        ensures
            self.advance().ingested() == self.ledger.filter(published_at(self.tick)),
    {
        self.law_events_are_observable_on_the_next_tick();
        let p = published_at(self.tick);
        let old_events = self.ledger.take(self.ingest_to);
        let new_events = self.ledger.skip(self.ingest_to);
        assert(self.ledger =~= old_events + new_events);
        Seq::filter_distributes_over_add(old_events, new_events, p);
        lemma_filter_none(old_events, p);
        lemma_filter_all(new_events, p);
        assert(self.pending() =~= new_events);
        assert(old_events.filter(p) + new_events.filter(p) =~= new_events);
    }
}

/// The events that a tick published.
pub open spec fn published_at(tick: u64) -> spec_fn(WorldEvent) -> bool {
    |event: WorldEvent| event.tick == tick
}

proof fn lemma_filter_none(events: Seq<WorldEvent>, p: spec_fn(WorldEvent) -> bool)
    requires
        forall|i: int| 0 <= i < events.len() ==> !p(#[trigger] events[i]),
    ensures
        events.filter(p).len() == 0,
    decreases events.len(),
{
    reveal(Seq::filter);
    if events.len() > 0 {
        assert(!p(events[events.len() - 1]));
        assert forall|i: int| 0 <= i < events.drop_last().len() implies !p(
            #[trigger] events.drop_last()[i],
        ) by {
            assert(events.drop_last()[i] == events[i]);
        }
        lemma_filter_none(events.drop_last(), p);
    }
}

proof fn lemma_filter_all(events: Seq<WorldEvent>, p: spec_fn(WorldEvent) -> bool)
    requires
        forall|i: int| 0 <= i < events.len() ==> p(#[trigger] events[i]),
    ensures
        events.filter(p) == events,
    decreases events.len(),
{
    reveal(Seq::filter);
    if events.len() > 0 {
        assert(p(events[events.len() - 1]));
        assert forall|i: int| 0 <= i < events.drop_last().len() implies p(
            #[trigger] events.drop_last()[i],
        ) by {
            assert(events.drop_last()[i] == events[i]);
        }
        lemma_filter_all(events.drop_last(), p);
        assert(events.drop_last().push(events.last()) =~= events);
    } else {
        assert(events.filter(p) =~= events);
    }
}

} // verus!
