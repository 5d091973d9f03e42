//! What decides a run: the content and the commands. The seed shows in the
//! completion marks and nowhere else.

use vstd::prelude::*;

use crate::arbitration::ActionBand;
use crate::arbitration::UseRequest;
use crate::arrival::moved_in;
use crate::arrival::opening;
use crate::arrival_laws::law_scenario_opens_on_a_valid_village;
use crate::content::ScenarioContent;
use crate::content::ScenarioDefinition;
use crate::content::TilePosition;
use crate::events::PlayerCommand;
use crate::events::WorldEvent;
use crate::events::WorldEventKind;
use crate::identity::PlayerTaskId;
use crate::identity::SimId;
use crate::ord_map::in_order;
use crate::ord_map::lemma_in_order_lists;
use crate::state::QueuedOrder;
use crate::state::ToiletPlan;
use crate::village::ranked;
use crate::village::Village;

verus! {

/// Whether two events say the same, but for the draw of a completion mark.
pub open spec fn alike(a: WorldEvent, b: WorldEvent) -> bool {
    a.tick == b.tick && (a.kind == b.kind || (a.kind is TickCompleted && b.kind is TickCompleted))
}

impl Village {
    /// Whether two villages differ in nothing but the seed and the draws of
    /// completion marks.
    pub open spec fn twin(self, other: Village) -> bool {
        &&& other == (Village { seed: other.seed, ledger: other.ledger, ..self })
        &&& self.ledger.len() == other.ledger.len()
        &&& forall|i: int|
            0 <= i < self.ledger.len() ==> alike(#[trigger] self.ledger[i], other.ledger[i])
    }

    proof fn lemma_withdraw_twin(
        self,
        other: Village,
        resident: SimId,
        task: PlayerTaskId,
        order: QueuedOrder,
    )
        requires
            self.twin(other),
        ensures
            self.withdraw(resident, task, order).twin(other.withdraw(resident, task, order)),
    {
        assert(self.requests_for(task) == other.requests_for(task));
    }

    proof fn lemma_ingest_twin(self, other: Village, command: PlayerCommand)
        requires
            self.twin(other),
        ensures
            self.ingest(command).twin(other.ingest(command)),
    {
        match command {
            PlayerCommand::CancelPlayerTask { task } => {
                assert(self.order_holder(task) == other.order_holder(task));
                if self.order_holder(task) is Some {
                    let resident = self.order_holder(task)->0;
                    let kind = WorldEventKind::PlayerCommandAccepted { task };
                    assert(self.emit(kind).twin(other.emit(kind)));
                    self.emit(kind).lemma_withdraw_twin(
                        other.emit(kind),
                        resident,
                        task,
                        self.order_in_queue(resident, task),
                    );
                }
            },
            _ => {},
        }
    }

    proof fn lemma_set_out_twin(
        self,
        other: Village,
        resident: SimId,
        destination: TilePosition,
        priority: i64,
        band: ActionBand,
        order: Option<PlayerTaskId>,
    )
        requires
            self.twin(other),
        ensures
            self.set_out(resident, destination, priority, band, order).twin(
                other.set_out(resident, destination, priority, band, order),
            ),
    {
    }

    proof fn lemma_same_requests(self, other: Village, resident: SimId)
        requires
            self.twin(other),
        ensures
            self.has_request(resident) == other.has_request(resident),
            self.slot_free(resident) == other.slot_free(resident),
    {
        if self.has_request(resident) {
            let i = choose|i: int|
                0 <= i < self.use_requests.len() && (#[trigger] self.use_requests[i]).resident
                    == resident;
            assert(other.use_requests[i].resident == resident);
        }
        if other.has_request(resident) {
            let i = choose|i: int|
                0 <= i < other.use_requests.len() && (#[trigger] other.use_requests[i]).resident
                    == resident;
            assert(self.use_requests[i].resident == resident);
        }
    }

    proof fn lemma_request_twin(self, other: Village, request: UseRequest)
        requires
            self.twin(other),
        ensures
            self.may_request(request.resident, request.object@, request.affordance@)
                == other.may_request(request.resident, request.object@, request.affordance@),
            self.request(request).twin(other.request(request)),
    {
        self.lemma_same_requests(other, request.resident);
    }

    proof fn lemma_dispatch_twin(self, other: Village, resident: SimId)
        requires
            self.twin(other),
        ensures
            self.dispatch(resident).twin(other.dispatch(resident)),
    {
        if self.has_queue(resident) {
            let head = self.player_task_queue[resident][0];
            self.lemma_same_requests(other, resident);
            assert(self.requests_for(head.task) == other.requests_for(head.task));
            match head.order {
                QueuedOrder::GoTo { destination, priority } => {
                    self.lemma_set_out_twin(
                        other,
                        resident,
                        destination,
                        priority as i64,
                        ActionBand::Player,
                        Some(head.task),
                    );
                },
                QueuedOrder::UseToilet { object, affordance, priority } => {
                    self.lemma_request_twin(
                        other,
                        UseRequest {
                            resident,
                            object,
                            affordance,
                            priority: priority as i64,
                            band: ActionBand::Player,
                            request_age: self.tick,
                            player_task: Some(head.task),
                        },
                    );
                },
            }
        }
    }

    proof fn lemma_drive_twin(
        self,
        other: Village,
        resident: SimId,
        plan: ToiletPlan,
        band: ActionBand,
    )
        requires
            self.twin(other),
        ensures
            self.drive(resident, plan, band).twin(other.drive(resident, plan, band)),
    {
        let destination = self.objects[plan.object@].position;
        self.lemma_set_out_twin(other, resident, destination, plan.priority, band, None);
        self.lemma_request_twin(
            other,
            UseRequest {
                resident,
                object: plan.object,
                affordance: plan.affordance,
                priority: plan.priority,
                band,
                request_age: self.tick,
                player_task: None,
            },
        );
    }

    proof fn lemma_choose_plan_twin(self, other: Village, resident: SimId)
        requires
            self.twin(other),
        ensures
            self.choose_plan(resident).twin(other.choose_plan(resident)),
    {
        let plan = self.autonomous_toilet_plans[resident];
        if self.intends(resident) {
            let a = self.minded(resident);
            let b = other.minded(resident);
            assert(a.twin(b));
            assert(a.engaged_with(resident, plan) == b.engaged_with(resident, plan));
            a.lemma_same_requests(b, resident);
            a.lemma_drive_twin(b, resident, plan, ActionBand::Urgent);
            a.lemma_drive_twin(b, resident, plan, ActionBand::Autonomous);
            assert(a.pause_player_order(resident).twin(b.pause_player_order(resident)));
            a.pause_player_order(resident).lemma_drive_twin(
                b.pause_player_order(resident),
                resident,
                plan,
                ActionBand::Urgent,
            );
        }
    }

    proof fn lemma_live_route_twin(
        self,
        other: Village,
        resident: SimId,
        origin: TilePosition,
        destination: TilePosition,
    )
        requires
            self.twin(other),
        ensures
            self.live_route(resident, origin, destination) == other.live_route(
                resident,
                origin,
                destination,
            ),
    {
        assert(self.kept_clear(resident) =~= other.kept_clear(resident)) by {
            assert forall|tile: TilePosition| self.kept_clear(resident).contains(tile)
                == other.kept_clear(resident).contains(tile) by {
                assert(self.is_next_target(tile, resident) == other.is_next_target(tile, resident))
                    by {
                    if self.is_next_target(tile, resident) {
                        let who = choose|who: SimId| #[trigger]
                            self.go_to.contains_key(who) && who != resident && self.approaches(
                                who,
                                tile,
                            );
                        assert(other.go_to.contains_key(who) && other.approaches(who, tile));
                    }
                    if other.is_next_target(tile, resident) {
                        let who = choose|who: SimId| #[trigger]
                            other.go_to.contains_key(who) && who != resident && other.approaches(
                                who,
                                tile,
                            );
                        assert(self.go_to.contains_key(who) && self.approaches(who, tile));
                    }
                }
            }
        }
    }

    proof fn lemma_walk_twin(self, other: Village, resident: SimId)
        requires
            self.twin(other),
        ensures
            self.walk(resident).twin(other.walk(resident)),
    {
        if self.go_to.contains_key(resident) {
            let walk = self.go_to[resident];
            let a = self.halt(resident);
            let b = other.halt(resident);
            assert(a.twin(b));
            a.lemma_live_route_twin(b, resident, a.residents[resident].position, walk.destination);
        }
    }

    /// Twins make the same claims.
    proof fn lemma_claim_twin(self, other: Village)
        requires
            self.twin(other),
        ensures
            forall|resident: SimId| #[trigger] self.claim(resident) == other.claim(resident),
            forall|resident: SimId| #[trigger] self.approved(resident) == other.approved(resident),
    {
        assert forall|resident: SimId| #[trigger] self.claim(resident) == other.claim(
            resident,
        ) by {}
        assert forall|a: SimId, b: SimId| #[trigger] self.claims_over(a, b) == other.claims_over(
            a,
            b,
        ) by {
            assert(self.claim(a) == other.claim(a));
            assert(self.claim(b) == other.claim(b));
        }
        assert forall|resident: SimId| #[trigger] self.approved(resident) == other.approved(
            resident,
        ) by {
            assert(self.claim(resident) == other.claim(resident));
            if self.approved(resident) {
                assert forall|who: SimId| !#[trigger] other.claims_over(who, resident) by {
                    assert(self.claims_over(who, resident) == other.claims_over(who, resident));
                }
            }
            if other.approved(resident) {
                assert forall|who: SimId| !#[trigger] self.claims_over(who, resident) by {
                    assert(self.claims_over(who, resident) == other.claims_over(who, resident));
                }
            }
        }
    }

    /// Twins lose their claims to the same winners.
    proof fn lemma_winner_twin(self, other: Village, resident: SimId)
        requires
            self.twin(other),
            self.valid(),
            other.valid(),
            self.go_to.contains_key(resident),
            self.claim(resident) is Some,
            !self.approved(resident),
        ensures
            self.winner_over(resident) == other.winner_over(resident),
    {
        self.lemma_claim_twin(other);
        assert(self.approved(resident) == other.approved(resident));
        assert(self.claim(resident) == other.claim(resident));
        self.law_losing_claim_waits_for_the_winner(resident);
        other.law_losing_claim_waits_for_the_winner(resident);
        let a = self.winner_over(resident);
        let b = other.winner_over(resident);
        assert(self.approved(b) == other.approved(b));
        assert(self.claim(b) == other.claim(b));
        self.law_one_claim_wins_a_tile(a, b);
    }

    proof fn lemma_progress_twin(self, other: Village, resident: SimId)
        requires
            self.twin(other),
        ensures
            self.progress(resident).twin(other.progress(resident)),
    {
    }

    proof fn lemma_grant_twin(self, other: Village, request: UseRequest)
        requires
            self.twin(other),
        ensures
            self.grant(request).twin(other.grant(request)),
    {
    }

    proof fn lemma_ingest_all_twin(self, other: Village, commands: Seq<PlayerCommand>)
        requires
            self.twin(other),
        ensures
            self.ingest_all(commands).twin(other.ingest_all(commands)),
        decreases commands.len(),
    {
        if commands.len() > 0 {
            let rest = commands.drop_last();
            self.lemma_ingest_all_twin(other, rest);
            self.ingest_all(rest).lemma_ingest_twin(other.ingest_all(rest), commands.last());
        }
    }

    proof fn lemma_choose_all_twin(self, other: Village, residents: Seq<SimId>)
        requires
            self.twin(other),
        ensures
            self.choose_all(residents).twin(other.choose_all(residents)),
        decreases residents.len(),
    {
        if residents.len() > 0 {
            let rest = residents.drop_last();
            self.lemma_choose_all_twin(other, rest);
            self.choose_all(rest).lemma_choose_plan_twin(other.choose_all(rest), residents.last());
        }
    }

    proof fn lemma_dispatch_all_twin(self, other: Village, residents: Seq<SimId>)
        requires
            self.twin(other),
        ensures
            self.dispatch_all(residents).twin(other.dispatch_all(residents)),
        decreases residents.len(),
    {
        if residents.len() > 0 {
            let rest = residents.drop_last();
            self.lemma_dispatch_all_twin(other, rest);
            self.dispatch_all(rest).lemma_dispatch_twin(other.dispatch_all(rest), residents.last());
        }
    }

    proof fn lemma_walk_all_twin(self, other: Village, residents: Seq<SimId>)
        requires
            self.twin(other),
        ensures
            self.walk_all(residents).twin(other.walk_all(residents)),
        decreases residents.len(),
    {
        if residents.len() > 0 {
            let rest = residents.drop_last();
            self.lemma_walk_all_twin(other, rest);
            self.walk_all(rest).lemma_walk_twin(other.walk_all(rest), residents.last());
        }
    }

    proof fn lemma_follow_all_twin(
        self,
        other: Village,
        before: Village,
        other_before: Village,
        residents: Seq<SimId>,
    )
        requires
            self.twin(other),
            before.twin(other_before),
            before.valid(),
            other_before.valid(),
            forall|i: int|
                0 <= i < residents.len() ==> before.go_to.contains_key(#[trigger] residents[i])
                    && !before.approved(residents[i]),
        ensures
            self.follow_all(before, residents).twin(other.follow_all(other_before, residents)),
        decreases residents.len(),
    {
        if residents.len() > 0 {
            let rest = residents.drop_last();
            let last = residents.last();
            assert forall|i: int| 0 <= i < rest.len() implies before.go_to.contains_key(
                #[trigger] rest[i],
            ) && !before.approved(rest[i]) by {
                assert(rest[i] == residents[i]);
            }
            self.lemma_follow_all_twin(other, before, other_before, rest);
            let a = self.follow_all(before, rest);
            let b = other.follow_all(other_before, rest);
            assert(residents[residents.len() - 1] == last);
            before.lemma_claim_twin(other_before);
            assert(before.claim(last) == other_before.claim(last));
            if before.claim(last) is Some {
                before.lemma_winner_twin(other_before, last);
            } else {
                a.lemma_walk_twin(b, last);
            }
        }
    }

    proof fn lemma_progress_all_twin(self, other: Village, residents: Seq<SimId>)
        requires
            self.twin(other),
        ensures
            self.progress_all(residents).twin(other.progress_all(residents)),
        decreases residents.len(),
    {
        if residents.len() > 0 {
            let rest = residents.drop_last();
            self.lemma_progress_all_twin(other, rest);
            self.progress_all(rest).lemma_progress_twin(other.progress_all(rest), residents.last());
        }
    }

    proof fn lemma_grant_all_twin(self, other: Village, requests: Seq<UseRequest>)
        requires
            self.twin(other),
        ensures
            self.grant_all(requests).twin(other.grant_all(requests)),
        decreases requests.len(),
    {
        if requests.len() > 0 {
            let rest = requests.drop_last();
            self.lemma_grant_all_twin(other, rest);
            self.grant_all(rest).lemma_grant_twin(other.grant_all(rest), requests.last());
        }
    }

    proof fn lemma_walk_everyone_twin(self, other: Village)
        requires
            self.twin(other),
            self.valid(),
            other.valid(),
        ensures
            self.walk_everyone().twin(other.walk_everyone()),
    {
        self.lemma_claim_twin(other);
        let ids = in_order::<SimId>(self.go_to.dom());
        lemma_in_order_lists::<SimId>(self.go_to.dom());
        let first = self.approved_walkers();
        let later = self.other_walkers();
        lemma_filter_same(ids, self.goes_first(), other.goes_first());
        lemma_filter_same(ids, self.goes_later(), other.goes_later());
        self.lemma_walk_all_twin(other, first);
        assert forall|i: int| 0 <= i < later.len() implies self.go_to.contains_key(
            #[trigger] later[i],
        ) && !self.approved(later[i]) by {
            assert(later.contains(later[i]));
            ids.lemma_filter_contains_rev(self.goes_later(), later[i]);
            ids.lemma_filter_pred(self.goes_later(), i);
            assert(self.goes_later()(later[i]));
        }
        self.walk_all(first).lemma_follow_all_twin(other.walk_all(first), self, other, later);
    }

    /// A differing seed changes the completion marks and nothing else: villages
    /// that differ in no more go on to differ in no more.
    pub proof fn law_tick_keeps_twins(self, other: Village)
        requires
            self.twin(other),
            self.valid(),
            other.valid(),
        ensures
            self.advance().twin(other.advance()),
    {
        self.lemma_phases_valid();
        other.lemma_phases_valid();
        let begun = self.begin_tick();
        let begun_other = other.begin_tick();
        assert(begun.twin(begun_other));
        let a = Village { inbox: Seq::empty(), ..begun };
        let b = Village { inbox: Seq::empty(), ..begun_other };
        assert(a.twin(b));
        a.lemma_ingest_all_twin(b, begun.inbox);
        let a = self.after_ingest().age_needs();
        let b = other.after_ingest().age_needs();
        assert(a.toilet_needs =~= b.toilet_needs);
        assert(a.twin(b));
        a.lemma_choose_all_twin(b, in_order::<SimId>(a.toilet_needs.dom()));
        let a = self.after_living();
        let b = other.after_living();
        a.lemma_dispatch_all_twin(b, in_order::<SimId>(a.player_task_queue.dom()));
        let a = self.after_dispatch();
        let b = other.after_dispatch();
        a.lemma_walk_everyone_twin(b);
        let a = self.after_walking();
        let b = other.after_walking();
        a.lemma_progress_all_twin(b, in_order::<SimId>(a.active_object_uses.dom()));
        let a = a.progress_everyone();
        let b = b.progress_everyone();
        let c = Village { use_requests: Seq::empty(), ..a };
        let d = Village { use_requests: Seq::empty(), ..b };
        assert(c.twin(d));
        c.lemma_grant_all_twin(d, ranked(a.use_requests));
        assert(self.after_use().twin(other.after_use()));
        assert(self.after_use().end_tick().twin(other.after_use().end_tick()));
    }

    /// Every call that can be made between two ticks keeps twins: submitting,
    /// setting a need, setting out, dating a walk and asking for an object.
    pub proof fn law_calls_between_ticks_keep_twins(
        self,
        other: Village,
        command: PlayerCommand,
        resident: SimId,
        value: u8,
        destination: TilePosition,
        priority: i64,
        request_age: u64,
        request: UseRequest,
    )
        requires
            self.twin(other),
        ensures
            self.submit(command).twin(other.submit(command)),
            self.with_need(resident, value).twin(other.with_need(resident, value)),
            self.set_out(resident, destination, priority, ActionBand::Player, None).twin(
                other.set_out(resident, destination, priority, ActionBand::Player, None),
            ),
            self.with_request_age(resident, request_age).twin(
                other.with_request_age(resident, request_age),
            ),
            self.request(request).twin(other.request(request)),
    {
        self.lemma_set_out_twin(other, resident, destination, priority, ActionBand::Player, None);
        self.lemma_request_twin(other, request);
    }

    /// Commands are submitted in turn.
    pub open spec fn submit_all(self, commands: Seq<PlayerCommand>) -> Village
        decreases commands.len(),
    {
        if commands.len() == 0 {
            self
        } else {
            self.submit_all(commands.drop_last()).submit(commands.last())
        }
    }

    /// The village once a script has been played: for each tick the commands
    /// that are submitted before it.
    pub open spec fn played(self, script: Seq<Seq<PlayerCommand>>) -> Village
        decreases script.len(),
    {
        if script.len() == 0 {
            self
        } else {
            self.played(script.drop_last()).submit_all(script.last()).advance()
        }
    }

    proof fn lemma_submit_all(self, other: Village, commands: Seq<PlayerCommand>)
        requires
            self.twin(other),
            self.valid(),
            other.valid(),
        ensures
            self.submit_all(commands).twin(other.submit_all(commands)),
            self.submit_all(commands).valid(),
            other.submit_all(commands).valid(),
            self.submit_all(commands).seed == self.seed,
            self.submit_all(commands).tick == self.tick,
            self.submit_all(commands).ledger == self.ledger,
            other.submit_all(commands).seed == other.seed,
            other.submit_all(commands).ledger == other.ledger,
        decreases commands.len(),
    {
        if commands.len() > 0 {
            let rest = commands.drop_last();
            self.lemma_submit_all(other, rest);
            let a = self.submit_all(rest);
            let b = other.submit_all(rest);
            assert(a.submit(commands.last()).twin(b.submit(commands.last())));
            a.law_submitting_keeps_village_valid(commands.last());
            b.law_submitting_keeps_village_valid(commands.last());
        }
    }

    /// Whether every completion mark differs.
    pub open spec fn marked_apart(self, other: Village) -> bool {
        forall|i: int|
            0 <= i < self.ledger.len() && (#[trigger] self.ledger[i]).kind is TickCompleted
                ==> self.ledger[i] != other.ledger[i]
    }

    proof fn lemma_played(self, other: Village, script: Seq<Seq<PlayerCommand>>)
        requires
            self.twin(other),
            self.valid(),
            other.valid(),
            self.tick + script.len() <= u64::MAX,
        ensures
            self.played(script).twin(other.played(script)),
            self.played(script).valid(),
            other.played(script).valid(),
            self.played(script).seed == self.seed,
            other.played(script).seed == other.seed,
            self.played(script).tick == self.tick + script.len(),
            self.seed != other.seed && self.marked_apart(other) ==> self.played(
                script,
            ).marked_apart(other.played(script)),
            script.len() > 0 ==> self.played(script).ledger.len() > 0 && self.played(
                script,
            ).ledger.last().kind is TickCompleted,
        decreases script.len(),
    {
        if script.len() > 0 {
            let rest = script.drop_last();
            self.lemma_played(other, rest);
            let a = self.played(rest);
            let b = other.played(rest);
            a.lemma_submit_all(b, script.last());
            let a = a.submit_all(script.last());
            let b = b.submit_all(script.last());
            a.law_tick_keeps_twins(b);
            a.law_tick_keeps_village_valid();
            b.law_tick_keeps_village_valid();
            a.law_tick_moves_the_clock_one_minute();
            a.law_tick_keeps_the_authored_world();
            b.law_tick_keeps_the_authored_world();
            a.law_ledger_is_append_only();
            b.law_ledger_is_append_only();
            if self.seed != other.seed && self.marked_apart(other) {
                a.law_different_seeds_publish_different_events(b);
                let next = a.advance();
                let next_other = b.advance();
                assert forall|i: int|
                    0 <= i < next.ledger.len() && (#[trigger] next.ledger[i]).kind
                        is TickCompleted implies next.ledger[i] != next_other.ledger[i] by {
                    if i < a.ledger.len() {
                        assert(next.ledger.take(a.ledger.len() as int)[i] == a.ledger[i]);
                        assert(next_other.ledger.take(b.ledger.len() as int)[i] == b.ledger[i]);
                        assert(a.ledger[i].kind is TickCompleted);
                    }
                }
            }
        }
    }
}

/// Whether two scenarios are authored alike but for the seed.
pub open spec fn differ_in_seed(content: ScenarioContent, other: ScenarioContent) -> bool {
    other == (ScenarioContent {
        scenario: ScenarioDefinition { seed: other.scenario.seed, ..content.scenario },
        ..content
    })
}

proof fn lemma_moved_in_twin(content: ScenarioContent, other: ScenarioContent, n: nat)
    requires
        differ_in_seed(content, other),
        n <= content.scenario.people@.len(),
    ensures
        match (moved_in(content, n), moved_in(other, n)) {
            (Ok(a), Ok(b)) => a.twin(b) && a.ledger.len() == 0,
            (Err(a), Err(b)) => a == b,
            _ => false,
        },
    decreases n,
{
    if n > 0 {
        lemma_moved_in_twin(content, other, (n - 1) as nat);
    }
}

/// Scenarios that differ in the seed alone open alike: both are refused for the
/// same reason, or they open on villages that differ in the seed alone.
pub proof fn law_scenarios_differing_in_seed_open_alike(
    content: ScenarioContent,
    other: ScenarioContent,
)
    requires
        differ_in_seed(content, other),
    ensures
        match (opening(content), opening(other)) {
            (Ok(a), Ok(b)) => a.twin(b) && a.ledger.len() == 0,
            (Err(a), Err(b)) => a == b,
            _ => false,
        },
{
    lemma_moved_in_twin(content, other, content.scenario.people@.len());
}

/// The content and the commands decide a run. Two runs of one scenario under
/// one script differ in nothing but the completion marks, and where the seeds
/// differ, every completion mark differs, from the first tick on. With one seed
/// the runs are one and the same.
pub proof fn law_seed_shows_in_completion_marks_only(
    content: ScenarioContent,
    other: ScenarioContent,
    script: Seq<Seq<PlayerCommand>>,
)
    requires
        differ_in_seed(content, other),
        opening(content) is Ok,
        opening(other) is Ok,
        script.len() <= u64::MAX,
    ensures
        ({
            let a = opening(content)->Ok_0.played(script);
            let b = opening(other)->Ok_0.played(script);
            &&& a.twin(b)
            &&& content.scenario.seed == other.scenario.seed ==> a == b
            &&& content.scenario.seed != other.scenario.seed ==> a.marked_apart(b)
            &&& script.len() > 0 ==> a.ledger.len() > 0 && a.ledger.last().kind is TickCompleted
        }),
{
    law_scenarios_differing_in_seed_open_alike(content, other);
    law_scenario_opens_on_a_valid_village(content);
    law_scenario_opens_on_a_valid_village(other);
    let a = opening(content)->Ok_0;
    let b = opening(other)->Ok_0;
    a.lemma_played(b, script);
    if content.scenario.seed == other.scenario.seed {
        assert(content == other);
    }
}

/// Predicates that agree pick the same.
proof fn lemma_filter_same(ids: Seq<SimId>, p: spec_fn(SimId) -> bool, q: spec_fn(SimId) -> bool)
    requires
        forall|id: SimId| #[trigger] p(id) == q(id),
    ensures
        ids.filter(p) == ids.filter(q),
    decreases ids.len(),
{
    reveal(Seq::filter);
    if ids.len() > 0 {
        lemma_filter_same(ids.drop_last(), p, q);
        assert(p(ids.last()) == q(ids.last()));
    }
}

} // verus!
