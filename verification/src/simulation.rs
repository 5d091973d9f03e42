//! The deterministic, fixed-tick authoritative simulation.

use std::cmp::Ordering;

use vstd::prelude::*;

use crate::arbitration::compare_movement_claims;
use crate::arbitration::compare_use_requests;
use crate::arbitration::ActionBand;
use crate::arbitration::MovementClaim;
use crate::arbitration::UseRequest;
use crate::arrival_laws::law_scenario_opens_on_a_valid_village;
use crate::arrival::empty_village;
use crate::arrival::find_missing_object;
use crate::arrival::find_person;
use crate::arrival::find_placement;
use crate::arrival::find_toilet_need;
use crate::arrival::index_objects;
use crate::arrival::lemma_moved_in_fails;
use crate::arrival::moved_in;
use crate::arrival::names_no_object;
use crate::arrival::object_index;
use crate::arrival::opening;
use crate::arrival::resolve_human_toilet_plan;
use crate::clock::TimeOfDay;
use crate::clock::MINUTES_PER_DAY;
use crate::clock::TICKS_PER_IN_WORLD_MINUTE;
use crate::content::Capability;
use crate::content::ConductAsset;
use crate::content::ContentError;
use crate::content::ContentFault;
use crate::content::FloorDefinition;
use crate::content::MapAsset;
use crate::content::ObjectAffordanceDefinition;
use crate::content::PeopleAsset;
use crate::content::PersonDefinition;
use crate::content::PlanAsset;
use crate::content::ResidentPlacement;
use crate::content::ScenarioContent;
use crate::content::SmartObjectDefinition;
use crate::content::TilePosition;
use crate::events::keyed_draw;
use crate::events::PlayerCommand;
use crate::events::PlayerCommandRejection;
use crate::events::WorldEvent;
use crate::events::WorldEventKind;
use crate::identity::DefinitionId;
use crate::identity::PlayerTaskId;
use crate::identity::SimId;
use crate::listing::first_where;
use crate::listing::lemma_first_where;
use crate::listing::lemma_first_where_at;
use crate::listing::lemma_first_where_none;
use crate::ord_map::in_order;
use crate::ord_map::OrdMap;
use crate::route::plan_route;
use crate::snapshot::ClientIntention;
use crate::snapshot::ClientPlayerTaskSnapshot;
use crate::snapshot::ClientPlayerTaskState;
use crate::snapshot::ClientResidentSnapshot;
use crate::snapshot::CottageSnapshot;
use crate::state::ActiveObjectUse;
use crate::state::GoToState;
use crate::state::GoToView;
use crate::state::PlayerTaskState;
use crate::state::PortalTraversal;
use crate::state::QueuedOrder;
use crate::state::QueuedPlayerTask;
use crate::state::Resident;
use crate::state::ToiletNeedState;
use crate::state::ToiletPlan;
use crate::village::affords;
use crate::village::aged;
use crate::village::holds_order;
use crate::village::is_order;
use crate::village::is_other_order;
use crate::village::lemma_without_first_at;
use crate::village::lemma_without_first_none;
use crate::village::place;
use crate::village::player_request_of;
use crate::village::queues_order;
use crate::village::ranked;
use crate::village::request_for;
use crate::village::takes_tile;
use crate::village::without_first;
use crate::village::Village;

verus! {

/// A deterministic, fixed-tick authoritative simulation.
pub struct Simulation {
    seed: u64,
    tick: u64,
    start_minute_of_day: u32,
    residents: OrdMap<SimId, Resident>,
    map: MapAsset,
    objects: OrdMap<DefinitionId, SmartObjectDefinition>,
    occupancy: OrdMap<TilePosition, SimId>,
    portal_occupancy: OrdMap<DefinitionId, SimId>,
    go_to: OrdMap<SimId, GoToState>,
    use_requests: Vec<UseRequest>,
    active_object_uses: OrdMap<SimId, ActiveObjectUse>,
    toilet_needs: OrdMap<SimId, ToiletNeedState>,
    autonomous_toilet_plans: OrdMap<SimId, ToiletPlan>,
    autonomous_toilet_intentions: OrdMap<SimId, ()>,
    urgent_toilet_intentions: OrdMap<SimId, ()>,
    player_command_inbox: Vec<PlayerCommand>,
    player_tasks: OrdMap<PlayerTaskId, PlayerTaskState>,
    player_task_queue: OrdMap<SimId, Vec<QueuedPlayerTask>>,
    object_slot_claims: OrdMap<(DefinitionId, DefinitionId), SimId>,
    capability_claims: OrdMap<(SimId, Capability), DefinitionId>,
    event_ledger: Vec<WorldEvent>,
    ingest_from: usize,
    ingest_to: usize,
}

impl View for Simulation {
    type V = Village;

    closed spec fn view(&self) -> Village {
        Village {
            seed: self.seed,
            tick: self.tick,
            start_minute_of_day: self.start_minute_of_day,
            residents: self.residents@,
            map: self.map,
            objects: self.objects@,
            occupancy: self.occupancy@,
            portal_occupancy: self.portal_occupancy@,
            go_to: self.go_to@,
            use_requests: self.use_requests@,
            active_object_uses: self.active_object_uses@,
            toilet_needs: self.toilet_needs@,
            autonomous_toilet_plans: self.autonomous_toilet_plans@,
            autonomous_toilet_intentions: self.autonomous_toilet_intentions@.dom(),
            urgent_toilet_intentions: self.urgent_toilet_intentions@.dom(),
            inbox: self.player_command_inbox@,
            player_tasks: self.player_tasks@,
            player_task_queue: self.player_task_queue@,
            object_slot_claims: self.object_slot_claims@,
            capability_claims: self.capability_claims@,
            ledger: self.event_ledger@,
            ingest_from: self.ingest_from as int,
            ingest_to: self.ingest_to as int,
        }
    }
}

impl Simulation {
    /// Every index is in order.
    closed spec fn indexed(&self) -> bool {
        &&& self.residents.wf()
        &&& self.objects.wf()
        &&& self.occupancy.wf()
        &&& self.portal_occupancy.wf()
        &&& self.go_to.wf()
        &&& self.active_object_uses.wf()
        &&& self.toilet_needs.wf()
        &&& self.autonomous_toilet_plans.wf()
        &&& self.autonomous_toilet_intentions.wf()
        &&& self.urgent_toilet_intentions.wf()
        &&& self.player_tasks.wf()
        &&& self.player_task_queue.wf()
        &&& self.object_slot_claims.wf()
        &&& self.capability_claims.wf()
    }

    /// The indexes are in order and the village they stand for is sound.
    pub closed spec fn wf(&self) -> bool {
        self.indexed() && self@.sound()
    }

    // -- Construction ------------------------------------------------------

    /// A person stands on a tile as a resident.
    fn spawn_resident(
        &mut self,
        resident: SimId,
        person: &PersonDefinition,
        position: TilePosition,
    )
        requires
            old(self).wf(),
        ensures
            final(self).wf(),
            final(self)@ == old(self)@.spawn(resident, *person, position),
    {
        self.residents.insert(
            resident,
            Resident {
                definition_id: person.id.clone(),
                display_name: person.display_name.clone(),
                position,
            },
        );
        self.occupancy.insert(position, resident);
        proof {
            old(self)@.lemma_spawn_sound(resident, *person, position);
        }
    }

    /// A person of the scenario moves in, on a walkable tile of their own.
    fn welcome_resident(
        &mut self,
        resident: SimId,
        id: &DefinitionId,
        people: &PeopleAsset,
        placements: &Vec<ResidentPlacement>,
        conducts: &Vec<ConductAsset>,
        plans: &Vec<PlanAsset>,
        content: Ghost<ScenarioContent>,
    ) -> (r: Result<(), ContentError>)
        requires
            old(self).wf(),
            old(self)@.tiles_held_by_residents(),
            *people == content@.people,
            *placements == content@.scenario.placements,
            *conducts == content@.conducts,
            *plans == content@.plans,
        ensures
            match r {
                Ok(_) => {
                    &&& final(self).wf()
                    &&& final(self)@.tiles_held_by_residents()
                    &&& old(self)@.welcome(resident, id@, content@) == Ok::<Village, ContentFault>(
                        final(self)@,
                    )
                },
                Err(error) => old(self)@.welcome(resident, id@, content@) == Err::<
                    Village,
                    ContentFault,
                >(error@),
            },
    {
        let person = match find_person(&people.people, id) {
            Some(person) => person,
            None => {
                return Err(ContentError::MissingPerson(id.clone()));
            },
        };
        let position: TilePosition = match find_placement(placements, id) {
            Some(position) => position,
            None => {
                return Err(ContentError::MissingPlacement(id.clone()));
            },
        };
        if !self.map.is_walkable(position) {
            return Err(ContentError::InvalidPlacement { person: id.clone(), position });
        }
        if let Some(occupant) = self.occupancy.get(&position) {
            if let Some(record) = self.residents.get(occupant) {
                return Err(
                    ContentError::DuplicatePlacement {
                        person: id.clone(),
                        occupied_by: record.definition_id.clone(),
                        position,
                    },
                );
            }
        }
        self.spawn_resident(resident, person, position);
        let ghost spawned = self@;
        if let Some(need) = find_toilet_need(&person.needs) {
            let plan: ToiletPlan = match resolve_human_toilet_plan(
                person,
                conducts,
                plans,
                &self.objects,
            ) {
                Ok(plan) => plan,
                Err(error) => {
                    return Err(error);
                },
            };
            self.toilet_needs.insert(
                resident,
                ToiletNeedState {
                    value: need.initial,
                    decay_per_tick: need.decay_per_tick,
                    activate_at: need.activate_at,
                    retain_above: need.retain_above,
                    recovery: need.recovery,
                    urgent_at: need.urgent_at,
                },
            );
            self.autonomous_toilet_plans.insert(resident, plan);
        }
        proof {
            spawned.lemma_equip_sound(resident, *person, content@);
            assert(spawned.equip(resident, *person, content@)->Ok_0 == self@);
        }
        Ok(())
    }

    /// Creates a simulation from validated scenario content.
    pub fn from_content(content: ScenarioContent) -> (r: Result<Self, ContentError>)
        ensures
            match r {
                Ok(simulation) => {
                    &&& simulation.wf()
                    &&& simulation@.valid()
                    &&& simulation@.dated()
                    &&& opening(content) == Ok::<Village, ContentFault>(simulation@)
                },
                Err(error) => opening(content) == Err::<Village, ContentFault>(error@),
            },
    {
        let ghost whole = content;
        let ScenarioContent { scenario, people, map, objects, conducts, plans } = content;
        if !scenario.map.same(&map.id) {
            return Err(ContentError::WrongMap { expected: scenario.map, actual: map.id });
        }
        let objects = index_objects(objects.objects);
        if let Some(id) = find_missing_object(&scenario.objects, &objects) {
            return Err(ContentError::MissingObject(id));
        }
        let mut simulation = Simulation {
            seed: scenario.seed,
            tick: 0,
            start_minute_of_day: scenario.start_time_of_day.minute_of_day(),
            residents: OrdMap::new(),
            map,
            objects,
            occupancy: OrdMap::new(),
            portal_occupancy: OrdMap::new(),
            go_to: OrdMap::new(),
            use_requests: Vec::new(),
            active_object_uses: OrdMap::new(),
            toilet_needs: OrdMap::new(),
            autonomous_toilet_plans: OrdMap::new(),
            autonomous_toilet_intentions: OrdMap::new(),
            urgent_toilet_intentions: OrdMap::new(),
            player_command_inbox: Vec::new(),
            player_tasks: OrdMap::new(),
            player_task_queue: OrdMap::new(),
            object_slot_claims: OrdMap::new(),
            capability_claims: OrdMap::new(),
            event_ledger: Vec::new(),
            ingest_from: 0,
            ingest_to: 0,
        };
        assert(simulation@ =~= empty_village(whole));
        let mut i: usize = 0;
        while i < scenario.people.len()
            invariant
                simulation.wf(),
                simulation@.tiles_held_by_residents(),
                i <= scenario.people@.len(),
                scenario == whole.scenario,
                people == whole.people,
                conducts == whole.conducts,
                plans == whole.plans,
                whole == content,
                whole.scenario.map@ == whole.map.id@,
                first_where(
                    whole.scenario.objects@,
                    names_no_object(object_index(whole.objects.objects@)),
                ) is None,
                moved_in(whole, i as nat) == Ok::<Village, ContentFault>(simulation@),
            decreases scenario.people@.len() - i,
        {
            let resident: SimId = SimId(i as u64 + 1);
            match simulation.welcome_resident(
                resident,
                &scenario.people[i],
                &people,
                &scenario.placements,
                &conducts,
                &plans,
                Ghost(whole),
            ) {
                Ok(_) => {},
                Err(error) => {
                    proof {
                        lemma_moved_in_fails(whole, (i + 1) as nat, scenario.people@.len());
                    }
                    return Err(error);
                },
            }
            i = i + 1;
        }
        proof {
            law_scenario_opens_on_a_valid_village(whole);
        }
        Ok(simulation)
    }

    // -- Reading -----------------------------------------------------------

    /// The seed of the scenario.
    #[must_use]
    pub fn seed(&self) -> (r: u64)
        ensures
            r == self@.seed,
    {
        self.seed
    }

    /// How many ticks have been consumed.
    #[must_use]
    pub fn tick(&self) -> (r: u64)
        ensures
            r == self@.tick,
    {
        self.tick
    }

    /// The deterministic in-world time of day, derived from the tick and the
    /// scenario's authored starting time.
    #[must_use]
    pub fn time_of_day(&self) -> (r: TimeOfDay)
        ensures
            r == self@.time_of_day(),
    {
        let day: u64 = MINUTES_PER_DAY as u64;
        let started: u64 = self.start_minute_of_day as u64 % day;
        let elapsed: u64 = self.tick / TICKS_PER_IN_WORLD_MINUTE % day;
        let minute_of_day: u64 = (started + elapsed) % day;
        proof {
            vstd::arithmetic::div_mod::lemma_add_mod_noop(
                self.start_minute_of_day as int,
                self.tick as int,
                1440,
            );
            assert(minute_of_day == (self.start_minute_of_day + self.tick) % 1440);
            assert(minute_of_day % 1440 == minute_of_day);
        }
        TimeOfDay::from_minute_of_day(minute_of_day as u32)
    }

    /// Returns residents in stable `SimId` order.
    #[must_use]
    pub fn residents(&self) -> (r: Vec<(SimId, DefinitionId)>)
        requires
            self.wf(),
        ensures
            r@ == self@.resident_list(),
    {
        let mut list: Vec<(SimId, DefinitionId)> = Vec::new();
        let mut i: usize = 0;
        proof {
            self.residents.lemma_keys();
        }
        let ghost keys = self.residents.keys();
        while i < self.residents.len()
            invariant
                self.wf(),
                i <= keys.len(),
                keys == self.residents.keys(),
                list@.len() == i,
                forall|j: int|
                    0 <= j < i ==> #[trigger] list@[j] == (
                        keys[j],
                        self@.residents[keys[j]].definition_id,
                    ),
            decreases keys.len() - i,
        {
            let id: SimId = *self.residents.key_at(i);
            let record = self.residents.value_at(i);
            list.push((id, record.definition_id.clone()));
            i = i + 1;
        }
        assert(list@ =~= self@.resident_list());
        list
    }

    /// Events available to systems during the current tick's ingest phase.
    #[must_use]
    pub fn ingested_events(&self) -> (r: &[WorldEvent])
        requires
            self.wf(),
        ensures
            r@ == self@.ingested(),
    {
        vstd::slice::slice_subrange(self.event_ledger.as_slice(), self.ingest_from, self.ingest_to)
    }

    /// The complete immutable event ledger, in publication order.
    #[must_use]
    pub fn event_ledger(&self) -> (r: &[WorldEvent])
        ensures
            r@ == self@.ledger,
    {
        self.event_ledger.as_slice()
    }

    /// Returns the resident currently executing in a named smart-object slot.
    #[must_use]
    pub fn object_slot_claimant(&self, object: &DefinitionId, slot: &DefinitionId) -> (r: Option<
        SimId,
    >)
        requires
            self.wf(),
        ensures
            match r {
                Some(resident) => {
                    &&& self@.object_slot_claims.contains_key((object@, slot@))
                    &&& resident == self@.object_slot_claims[(object@, slot@)]
                },
                None => !self@.object_slot_claims.contains_key((object@, slot@)),
            },
    {
        match self.object_slot_claims.get(&(object.clone(), slot.clone())) {
            Some(resident) => Some(*resident),
            None => None,
        }
    }

    /// Returns whether an executing primitive currently claims a capability.
    #[must_use]
    pub fn capability_claimant(&self, resident: SimId, capability: Capability) -> (r: Option<
        DefinitionId,
    >)
        requires
            self.wf(),
        ensures
            match r {
                Some(object) => {
                    &&& self@.capability_claims.contains_key((resident, capability))
                    &&& object@ == self@.capability_claims[(resident, capability)]
                },
                None => !self@.capability_claims.contains_key((resident, capability)),
            },
    {
        match self.capability_claims.get(&(resident, capability)) {
            Some(object) => Some(object.clone()),
            None => None,
        }
    }

    /// Returns the bounded Toilet need value, where higher means more urgent.
    #[must_use]
    pub fn toilet_need(&self, resident: SimId) -> (r: Option<u8>)
        requires
            self.wf(),
        ensures
            r == self@.need_of(resident),
    {
        match self.toilet_needs.get(&resident) {
            Some(need) => Some(need.value),
            None => None,
        }
    }

    /// Test and debug support for setting the narrow first autonomous need.
    pub fn set_toilet_need(&mut self, resident: SimId, value: u8) -> (r: bool)
        requires
            old(self).wf(),
        ensures
            final(self).wf(),
            r == old(self)@.toilet_needs.contains_key(resident),
            final(self)@ == old(self)@.with_need(resident, value),
            old(self)@.valid() ==> final(self)@.valid(),
            old(self)@.dated() ==> final(self)@.dated(),
    {
        proof {
            if self@.valid() {
                self@.law_setting_a_need_keeps_village_valid(resident, value);
            }
        }
        let need: ToiletNeedState = match self.toilet_needs.get(&resident) {
            Some(need) => *need,
            None => {
                return false;
            },
        };
        self.toilet_needs.insert(resident, ToiletNeedState { value, ..need });
        assert(self@.toilet_needs.dom() =~= old(self)@.toilet_needs.dom());
        proof {
            old(self)@.lemma_sound_frame(self@);
        }
        true
    }

    /// Test and debug support for dating the request of a walk.
    pub fn set_go_to_request_age(&mut self, resident: SimId, request_age: u64) -> (r: bool)
        requires
            old(self).wf(),
        ensures
            final(self).wf(),
            r == old(self)@.go_to.contains_key(resident),
            final(self)@ == old(self)@.with_request_age(resident, request_age),
            old(self)@.valid() ==> final(self)@.valid(),
            old(self)@.dated() ==> final(self)@.dated(),
    {
        proof {
            if self@.valid() {
                self@.law_dating_a_walk_keeps_village_valid(resident, request_age);
            }
        }
        match self.go_to.remove(&resident) {
            Some(walk) => {
                self.go_to.insert(resident, GoToState { request_age, ..walk });
                assert(self@.go_to =~= old(self)@.with_request_age(resident, request_age).go_to);
                proof {
                    let dated = GoToView { request_age, ..old(self)@.go_to[resident] };
                    old(self)@.lemma_keep_walking_sound(resident, dated);
                }
                true
            },
            None => {
                assert(self@.go_to =~= old(self)@.go_to);
                false
            },
        }
    }

    /// Whether the resident has selected the autonomous toilet intention.
    #[must_use]
    pub fn has_autonomous_toilet_intention(&self, resident: SimId) -> (r: bool)
        requires
            self.wf(),
        ensures
            r == self@.autonomous_toilet_intentions.contains(resident),
    {
        self.autonomous_toilet_intentions.contains_key(&resident)
    }

    /// Projects a resident's player task queue, head first, as presentation
    /// state.
    fn client_player_tasks(&self, resident: SimId) -> (r: Vec<ClientPlayerTaskSnapshot>)
        requires
            self.wf(),
        ensures
            r@ == self@.shown_tasks(resident),
    {
        let mut shown: Vec<ClientPlayerTaskSnapshot> = Vec::new();
        let queue = match self.player_task_queue.get(&resident) {
            Some(queue) => queue,
            None => {
                return shown;
            },
        };
        let mut i: usize = 0;
        while i < queue.len()
            invariant
                self.wf(),
                i <= queue@.len(),
                shown@ == self@.shown_of(queue@.take(i as int)),
            decreases queue@.len() - i,
        {
            let id: PlayerTaskId = queue[i].task;
            assert(queue@.take(i + 1).drop_last() =~= queue@.take(i as int));
            assert(queue@.take(i + 1).last() == queue@[i as int]);
            if let Some(state) = self.player_tasks.get(&id) {
                match state {
                    PlayerTaskState::Queued => {
                        let state = ClientPlayerTaskState::Queued;
                        shown.push(ClientPlayerTaskSnapshot { id, state });
                    },
                    PlayerTaskState::Active => {
                        let state = ClientPlayerTaskState::Active;
                        shown.push(ClientPlayerTaskSnapshot { id, state });
                    },
                    PlayerTaskState::Paused => {
                        let state = ClientPlayerTaskState::Paused;
                        shown.push(ClientPlayerTaskSnapshot { id, state });
                    },
                    PlayerTaskState::Completed => {},
                    PlayerTaskState::Cancelled => {},
                }
            }
            i = i + 1;
        }
        assert(queue@.take(i as int) =~= queue@);
        shown
    }

    /// Projects one resident for a client.
    fn client_resident(&self, id: SimId, record: &Resident) -> (r: ClientResidentSnapshot)
        requires
            self.wf(),
            self@.residents.contains_key(id),
            *record == self@.residents[id],
        ensures
            self@.shows_resident(id, r),
    {
        ClientResidentSnapshot {
            id,
            definition_id: record.definition_id.clone(),
            display_name: record.display_name.clone(),
            position: record.position,
            toilet_need: self.toilet_need(id),
            autonomous_intention: if self.has_autonomous_toilet_intention(id) {
                Some(ClientIntention::Toilet)
            } else {
                None
            },
            player_tasks: self.client_player_tasks(id),
            recent_perception: None,
            attending_quiz: false,
        }
    }

    /// Projects only authored, presentation-safe Cottage data for a client.
    #[must_use]
    pub fn cottage_snapshot(&self) -> (r: CottageSnapshot)
        requires
            self.wf(),
        ensures
            self@.shows(r),
    {
        let mut residents: Vec<ClientResidentSnapshot> = Vec::new();
        let mut i: usize = 0;
        proof {
            self.residents.lemma_keys();
            self.objects.lemma_keys();
        }
        let ghost keys = self.residents.keys();
        while i < self.residents.len()
            invariant
                self.wf(),
                i <= keys.len(),
                keys == self.residents.keys(),
                residents@.len() == i,
                forall|j: int|
                    0 <= j < i ==> self@.shows_resident(keys[j], #[trigger] residents@[j]),
            decreases keys.len() - i,
        {
            let id: SimId = *self.residents.key_at(i);
            residents.push(self.client_resident(id, self.residents.value_at(i)));
            i = i + 1;
        }
        let mut floors: Vec<FloorDefinition> = Vec::new();
        let mut f: usize = 0;
        while f < self.map.floors.len()
            invariant
                f <= self.map.floors@.len(),
                floors@.len() == f,
                forall|j: int|
                    0 <= j < f ==> (#[trigger] floors@[j]).reads_as(self.map.floors@[j]),
            decreases self.map.floors@.len() - f,
        {
            floors.push(self.map.floors[f].copied());
            f = f + 1;
        }
        let mut objects: Vec<SmartObjectDefinition> = Vec::new();
        let mut k: usize = 0;
        let ghost names = self.objects.keys();
        while k < self.objects.len()
            invariant
                self.wf(),
                k <= names.len(),
                names == self.objects.keys(),
                objects@.len() == k,
                forall|j: int|
                    0 <= j < k ==> (#[trigger] objects@[j]).reads_as(self@.objects[names[j]]),
            decreases names.len() - k,
        {
            objects.push(self.objects.value_at(k).copied());
            k = k + 1;
        }
        CottageSnapshot {
            tick: self.tick,
            time_of_day: self.time_of_day(),
            household_knows_pargeter_custom: false,
            floors,
            objects,
            residents,
        }
    }

    // -- Publishing --------------------------------------------------------

    fn emit(&mut self, kind: WorldEventKind)
        requires
            old(self).wf(),
        ensures
            final(self).wf(),
            final(self)@ == old(self)@.emit(kind),
    {
        self.event_ledger.push(WorldEvent { tick: self.tick, kind });
        proof {
            old(self)@.lemma_sound_frame(self@);
        }
    }

    fn reject(&mut self, task: PlayerTaskId, reason: PlayerCommandRejection)
        requires
            old(self).wf(),
        ensures
            final(self).wf(),
            final(self)@ == old(self)@.reject(task, reason),
    {
        self.emit(WorldEventKind::PlayerCommandRejected { task, reason });
    }

    // -- Looking things up -------------------------------------------------

    /// Returns a resident's authoritative tile position.
    #[must_use]
    pub fn resident_position(&self, resident: SimId) -> (r: Option<TilePosition>)
        requires
            self.wf(),
        ensures
            r == self@.position_of(resident),
    {
        match self.residents.get(&resident) {
            Some(record) => Some(record.position),
            None => None,
        }
    }

    fn has_request(&self, resident: SimId) -> (r: bool)
        requires
            self.wf(),
        ensures
            r == self@.has_request(resident),
    {
        let mut i: usize = 0;
        while i < self.use_requests.len()
            invariant
                i <= self.use_requests@.len(),
                forall|j: int|
                    0 <= j < i ==> (#[trigger] self.use_requests@[j]).resident != resident,
            decreases self.use_requests@.len() - i,
        {
            if self.use_requests[i].resident == resident {
                assert(self@.use_requests[i as int].resident == resident);
                return true;
            }
            i = i + 1;
        }
        false
    }

    /// An affordance of a loaded object.
    fn affordance_of(&self, object: &DefinitionId, affordance: &DefinitionId) -> (r: Option<
        &ObjectAffordanceDefinition,
    >)
        requires
            self.wf(),
        ensures
            match r {
                Some(found) => self@.affordance(object@, affordance@) == Some(*found),
                None => self@.affordance(object@, affordance@) is None,
            },
    {
        match self.objects.get(object) {
            Some(definition) => {
                let mut i: usize = 0;
                while i < definition.affordances.len()
                    invariant
                        i <= definition.affordances@.len(),
                        forall|j: int|
                            0 <= j < i ==> !affords(affordance@)(
                                #[trigger] definition.affordances@[j],
                            ),
                        self@.objects.contains_key(object@),
                        self@.objects[object@] == *definition,
                    decreases definition.affordances@.len() - i,
                {
                    if definition.affordances[i].id.same(affordance) {
                        proof {
                            lemma_first_where_at(
                                definition.affordances@,
                                affords(affordance@),
                                i as int,
                            );
                        }
                        return Some(&definition.affordances[i]);
                    }
                    i = i + 1;
                }
                proof {
                    lemma_first_where_none(definition.affordances@, affords(affordance@));
                }
                None
            },
            None => None,
        }
    }

    // -- Routes ------------------------------------------------------------

    /// The deterministic route over static map geometry. Initial routes are
    /// occupancy-agnostic so that simultaneous movement claims remain fair.
    #[must_use]
    pub fn find_path(&self, origin: TilePosition, destination: TilePosition) -> (r: Option<
        Vec<TilePosition>,
    >)
        requires
            self.wf(),
        ensures
            match r {
                Some(path) => self@.static_route(origin, destination) == Some(path@),
                None => self@.static_route(origin, destination) is None,
            },
    {
        let nowhere: Vec<TilePosition> = Vec::new();
        assert(nowhere@.to_set() =~= Set::<TilePosition>::empty());
        plan_route(&self.map, &nowhere, origin, destination)
    }

    /// The tiles a rerouting resident keeps out of.
    fn tiles_kept_clear(&self, resident: SimId) -> (r: Vec<TilePosition>)
        requires
            self.wf(),
        ensures
            r@.to_set() == self@.kept_clear(resident),
    {
        let mut tiles: Vec<TilePosition> = Vec::new();
        let mut i: usize = 0;
        proof {
            self.occupancy.lemma_keys();
            self.go_to.lemma_keys();
        }
        let ghost held = self.occupancy.keys();
        let ghost walking = self.go_to.keys();
        while i < self.occupancy.len()
            invariant
                self.wf(),
                i <= held.len(),
                held == self.occupancy.keys(),
                forall|tile: TilePosition| #[trigger]
                    tiles@.contains(tile) <==> exists|j: int|
                        0 <= j < i && #[trigger] held[j] == tile && self@.occupancy[tile]
                            != resident,
            decreases held.len() - i,
        {
            let tile: TilePosition = *self.occupancy.key_at(i);
            let holder: SimId = *self.occupancy.value_at(i);
            if holder != resident {
                let ghost was = tiles@;
                tiles.push(tile);
                assert forall|t: TilePosition| #[trigger]
                    tiles@.contains(t) <==> was.contains(t) || t == tile by {
                    if was.contains(t) {
                        let j = was.index_of(t);
                        assert(tiles@[j] == t);
                    }
                    assert(tiles@[was.len() as int] == tile);
                }
            }
            i = i + 1;
        }
        let ghost others = tiles@;
        let mut k: usize = 0;
        while k < self.go_to.len()
            invariant
                self.wf(),
                k <= walking.len(),
                walking == self.go_to.keys(),
                forall|tile: TilePosition| #[trigger]
                    tiles@.contains(tile) <==> others.contains(tile) || exists|j: int|
                        0 <= j < k && #[trigger] walking[j] != resident && self@.approaches(
                            walking[j],
                            tile,
                        ),
            decreases walking.len() - k,
        {
            let other: SimId = *self.go_to.key_at(k);
            let ahead: Option<TilePosition> = self.go_to.value_at(k).tile_ahead();
            let ghost was = tiles@;
            if other != resident {
                if let Some(tile) = ahead {
                    tiles.push(tile);
                    assert forall|t: TilePosition| #[trigger]
                        tiles@.contains(t) <==> was.contains(t) || t == tile by {
                        if was.contains(t) {
                            let j = was.index_of(t);
                            assert(tiles@[j] == t);
                        }
                        assert(tiles@[was.len() as int] == tile);
                    }
                }
            }
            k = k + 1;
        }
        assert forall|tile: TilePosition|
            tiles@.to_set().contains(tile) <==> self@.kept_clear(resident).contains(tile) by {
            if self@.occupancy.contains_key(tile) {
                let j = held.index_of(tile);
                assert(held.contains(tile));
                assert(held[j] == tile);
            }
            if self@.is_next_target(tile, resident) {
                let other = choose|other: SimId| #[trigger]
                    self@.go_to.contains_key(other) && other != resident && self@.approaches(
                        other,
                        tile,
                    );
                assert(walking.contains(other));
                let j = walking.index_of(other);
                assert(walking[j] == other);
            }
            if tiles@.contains(tile) && !others.contains(tile) {
                let j = choose|j: int|
                    0 <= j < walking.len() && #[trigger] walking[j] != resident && self@.approaches(
                        walking[j],
                        tile,
                    );
                assert(walking.contains(walking[j]));
                assert(self@.go_to.contains_key(walking[j]));
            }
            if others.contains(tile) {
                let j = choose|j: int|
                    0 <= j < held.len() && #[trigger] held[j] == tile && self@.occupancy[tile]
                        != resident;
                assert(held.contains(tile));
            }
        }
        assert(tiles@.to_set() =~= self@.kept_clear(resident));
        tiles
    }

    /// Replans around tiles held by other residents and around tiles that
    /// others are about to enter.
    #[must_use]
    pub fn find_path_avoiding_occupied_tiles(
        &self,
        resident: SimId,
        origin: TilePosition,
        destination: TilePosition,
    ) -> (r: Option<Vec<TilePosition>>)
        requires
            self.wf(),
        ensures
            match r {
                Some(path) => self@.live_route(resident, origin, destination) == Some(path@),
                None => self@.live_route(resident, origin, destination) is None,
            },
    {
        if let Some(occupant) = self.occupancy.get(&destination) {
            if *occupant != resident {
                return None;
            }
        }
        let closed: Vec<TilePosition> = self.tiles_kept_clear(resident);
        plan_route(&self.map, &closed, origin, destination)
    }

    // -- Starting work -----------------------------------------------------

    /// Starts a narrow navigation task. It plans immediately but claims no
    /// future tiles or portals; each next step is resolved against live state.
    pub fn begin_go_to(&mut self, resident: SimId, destination: TilePosition) -> (r: bool)
        requires
            old(self).wf(),
        ensures
            final(self).wf(),
            r == old(self)@.residents.contains_key(resident),
            final(self)@ == old(self)@.set_out(resident, destination, 0, ActionBand::Player, None),
            old(self)@.valid() ==> final(self)@.valid(),
            old(self)@.dated() ==> final(self)@.dated(),
    {
        self.begin_go_to_with_priority(resident, destination, 0)
    }

    /// Starts navigation with an explicit claim priority. When multiple
    /// residents approach the same live tile in one tick, higher priority,
    /// then the older request, then lower `SimId` gets the tile.
    pub fn begin_go_to_with_priority(
        &mut self,
        resident: SimId,
        destination: TilePosition,
        priority: i32,
    ) -> (r: bool)
        requires
            old(self).wf(),
        ensures
            final(self).wf(),
            r == old(self)@.residents.contains_key(resident),
            final(self)@ == old(self)@.set_out(
                resident,
                destination,
                priority as i64,
                ActionBand::Player,
                None,
            ),
            old(self)@.valid() ==> final(self)@.valid(),
            old(self)@.dated() ==> final(self)@.dated(),
    {
        proof {
            if self@.valid() {
                self@.law_setting_out_keeps_village_valid(
                    resident,
                    destination,
                    priority as i64,
                    ActionBand::Player,
                );
            }
        }
        self.begin_go_to_banded(resident, destination, priority as i64, ActionBand::Player, None)
    }

    fn begin_go_to_banded(
        &mut self,
        resident: SimId,
        destination: TilePosition,
        priority: i64,
        band: ActionBand,
        player_task: Option<PlayerTaskId>,
    ) -> (r: bool)
        requires
            old(self).wf(),
        ensures
            final(self).wf(),
            r == old(self)@.residents.contains_key(resident),
            final(self)@ == old(self)@.set_out(resident, destination, priority, band, player_task),
    {
        let origin: TilePosition = match self.resident_position(resident) {
            Some(origin) => origin,
            None => {
                return false;
            },
        };
        let path: Vec<TilePosition> = match self.find_path(origin, destination) {
            Some(path) => path,
            None => Vec::new(),
        };
        let request_age: u64 = self.tick;
        self.go_to.insert(
            resident,
            GoToState {
                destination,
                path,
                next_step: 1,
                traversal: None,
                priority,
                band,
                request_age,
                player_task,
            },
        );
        proof {
            old(self)@.lemma_set_out_sound(resident, destination, priority, band, player_task);
        }
        true
    }

    /// Requests an object affordance. Requests are deliberately claim-free:
    /// slots and capabilities are acquired only during the execution phase of
    /// a later tick.
    pub fn begin_use_object(
        &mut self,
        resident: SimId,
        object: &DefinitionId,
        affordance: &DefinitionId,
        priority: i32,
    ) -> (r: bool)
        requires
            old(self).wf(),
        ensures
            final(self).wf(),
            r == old(self)@.may_request(resident, object@, affordance@),
            final(self)@ == old(self)@.request(
                (UseRequest {
                    resident,
                    object: *object,
                    affordance: *affordance,
                    priority: priority as i64,
                    band: ActionBand::Player,
                    request_age: old(self)@.tick,
                    player_task: None,
                }),
            ),
            old(self)@.valid() ==> final(self)@.valid(),
            old(self)@.dated() ==> final(self)@.dated(),
    {
        proof {
            if self@.valid() {
                self@.law_requesting_keeps_village_valid(
                    UseRequest {
                        resident,
                        object: *object,
                        affordance: *affordance,
                        priority: priority as i64,
                        band: ActionBand::Player,
                        request_age: self@.tick,
                        player_task: None,
                    },
                );
            }
        }
        self.begin_use_object_banded(
            resident,
            object,
            affordance,
            priority as i64,
            ActionBand::Player,
            None,
        )
    }

    fn begin_use_object_banded(
        &mut self,
        resident: SimId,
        object: &DefinitionId,
        affordance: &DefinitionId,
        priority: i64,
        band: ActionBand,
        player_task: Option<PlayerTaskId>,
    ) -> (r: bool)
        requires
            old(self).wf(),
        ensures
            final(self).wf(),
            r == old(self)@.may_request(resident, object@, affordance@),
            final(self)@ == old(self)@.request(
                (UseRequest {
                    resident,
                    object: *object,
                    affordance: *affordance,
                    priority,
                    band,
                    request_age: old(self)@.tick,
                    player_task,
                }),
            ),
    {
        if !self.residents.contains_key(&resident) || self.active_object_uses.contains_key(
            &resident,
        ) || self.has_request(resident) {
            return false;
        }
        if self.affordance_of(object, affordance).is_none() {
            return false;
        }
        let request_age: u64 = self.tick;
        self.use_requests.push(
            UseRequest {
                resident,
                object: object.clone(),
                affordance: affordance.clone(),
                priority,
                band,
                request_age,
                player_task,
            },
        );
        proof {
            old(self)@.lemma_sound_frame(self@);
        }
        true
    }

    /// Places a typed player order into the inbox for validation during the
    /// next tick. Submission itself never grants object or capability claims.
    pub fn submit_player_command(&mut self, command: PlayerCommand)
        requires
            old(self).wf(),
        ensures
            final(self).wf(),
            final(self)@ == old(self)@.submit(command),
            old(self)@.valid() ==> final(self)@.valid(),
            old(self)@.dated() ==> final(self)@.dated(),
    {
        proof {
            if self@.valid() {
                self@.law_submitting_keeps_village_valid(command);
            }
        }
        self.player_command_inbox.push(command);
        proof {
            old(self)@.lemma_sound_frame(self@);
        }
    }

    // -- Player orders -----------------------------------------------------

    fn set_task_state(&mut self, task: PlayerTaskId, state: PlayerTaskState)
        requires
            old(self).wf(),
        ensures
            final(self).wf(),
            final(self)@ == old(self)@.mark(task, state),
    {
        self.player_tasks.insert(task, state);
        proof {
            old(self)@.lemma_sound_frame(self@);
        }
    }

    fn remove_task_from_queue(&mut self, resident: SimId, task: PlayerTaskId)
        requires
            old(self).wf(),
        ensures
            final(self).wf(),
            final(self)@ == old(self)@.unqueue(resident, task),
    {
        if let Some(queue) = self.player_task_queue.remove(&resident) {
            let left: Vec<QueuedPlayerTask> = orders_except(&queue, task);
            if left.len() > 0 {
                self.player_task_queue.insert(resident, left);
                assert(self@.player_task_queue =~= old(self)@.player_task_queue.insert(
                    resident,
                    left@,
                ));
            }
        } else {
            assert(self@.player_task_queue =~= old(self)@.player_task_queue);
        }
        proof {
            old(self)@.lemma_sound_frame(self@);
        }
    }

    /// Records a player task's terminal state and drops it from its resident's
    /// queue so the next queued order can dispatch.
    fn finish_player_task(&mut self, resident: SimId, task: PlayerTaskId, state: PlayerTaskState)
        requires
            old(self).wf(),
        ensures
            final(self).wf(),
            final(self)@ == old(self)@.finish(resident, task, state),
    {
        self.set_task_state(task, state);
        self.remove_task_from_queue(resident, task);
    }

    fn finish_if_ordered(
        &mut self,
        resident: SimId,
        task: Option<PlayerTaskId>,
        state: PlayerTaskState,
    )
        requires
            old(self).wf(),
        ensures
            final(self).wf(),
            final(self)@ == old(self)@.finish_if_ordered(resident, task, state),
    {
        if let Some(task) = task {
            self.finish_player_task(resident, task, state);
        }
    }

    fn enqueue(&mut self, resident: SimId, queued: QueuedPlayerTask)
        requires
            old(self).wf(),
        ensures
            final(self).wf(),
            final(self)@ == old(self)@.enqueue(resident, queued),
    {
        let task: PlayerTaskId = queued.task;
        self.set_task_state(task, PlayerTaskState::Queued);
        let ghost marked = self@;
        let mut queue: Vec<QueuedPlayerTask> = match self.player_task_queue.remove(&resident) {
            Some(queue) => queue,
            None => Vec::new(),
        };
        queue.push(queued);
        self.player_task_queue.insert(resident, queue);
        assert(self@.player_task_queue =~= marked.player_task_queue.insert(resident, queue@));
        proof {
            marked.lemma_sound_frame(self@);
        }
        self.emit(WorldEventKind::PlayerCommandAccepted { task });
    }

    fn ingest_queue_go_to(
        &mut self,
        task: PlayerTaskId,
        resident: SimId,
        destination: TilePosition,
        priority: i32,
    )
        requires
            old(self).wf(),
        ensures
            final(self).wf(),
            final(self)@ == old(self)@.ingest_go_to(task, resident, destination, priority),
    {
        if self.player_tasks.contains_key(&task) {
            self.reject(task, PlayerCommandRejection::DuplicateTask);
        } else if !self.residents.contains_key(&resident) {
            self.reject(task, PlayerCommandRejection::UnknownResident);
        } else if !self.map.is_walkable(destination) {
            self.reject(task, PlayerCommandRejection::InvalidMoveTarget);
        } else {
            // A second order does not conflict: it joins the resident's queue
            // and dispatches once earlier orders finish or are cancelled.
            self.enqueue(
                resident,
                QueuedPlayerTask { task, order: QueuedOrder::GoTo { destination, priority } },
            );
        }
    }

    /// Whether a resident's conduct resolved to this object and affordance.
    fn matches_resolved_toilet_plan(
        &self,
        resident: SimId,
        object: &DefinitionId,
        affordance: &DefinitionId,
    ) -> (r: bool)
        requires
            self.wf(),
        ensures
            r == self@.is_toilet_target(resident, object@, affordance@),
    {
        match self.autonomous_toilet_plans.get(&resident) {
            Some(plan) => plan.object.same(object) && plan.affordance.same(affordance),
            None => false,
        }
    }

    fn ingest_queue_use_toilet(
        &mut self,
        task: PlayerTaskId,
        resident: SimId,
        object: DefinitionId,
        affordance: DefinitionId,
        priority: i32,
    )
        requires
            old(self).wf(),
        ensures
            final(self).wf(),
            final(self)@ == old(self)@.ingest_use_toilet(
                task,
                resident,
                object,
                affordance,
                priority,
            ),
    {
        if self.player_tasks.contains_key(&task) {
            self.reject(task, PlayerCommandRejection::DuplicateTask);
        } else if !self.residents.contains_key(&resident) {
            self.reject(task, PlayerCommandRejection::UnknownResident);
        } else if !self.matches_resolved_toilet_plan(resident, &object, &affordance) {
            // This command represents one semantic household order, rather
            // than a generic "use any affordance" escape hatch. It must
            // therefore use the resident's conduct-resolved toilet plan.
            self.reject(task, PlayerCommandRejection::InvalidUseTarget);
        } else {
            // Player orders own the resident's next action; a busy resident
            // simply queues the order behind its current work.
            self.enqueue(
                resident,
                QueuedPlayerTask {
                    task,
                    order: QueuedOrder::UseToilet { object, affordance, priority },
                },
            );
        }
    }

    /// The resident whose queue holds an order, and the order.
    fn locate_queued_task(&self, task: PlayerTaskId) -> (r: Option<(SimId, QueuedOrder)>)
        requires
            self.wf(),
        ensures
            match r {
                Some((resident, order)) => {
                    &&& self@.order_holder(task) == Some(resident)
                    &&& order == self@.order_in_queue(resident, task)
                    &&& self@.player_task_queue.contains_key(resident)
                },
                None => self@.order_holder(task) is None,
            },
    {
        let mut i: usize = 0;
        proof {
            self.player_task_queue.lemma_keys();
        }
        let ghost keys = self.player_task_queue.keys();
        let ghost holds = holds_order(self@.player_task_queue, task);
        while i < self.player_task_queue.len()
            invariant
                self.wf(),
                i <= keys.len(),
                keys == self.player_task_queue.keys(),
                keys == in_order::<SimId>(self@.player_task_queue.dom()),
                holds == holds_order(self@.player_task_queue, task),
                forall|j: int| 0 <= j < i ==> !holds(#[trigger] keys[j]),
            decreases keys.len() - i,
        {
            let resident: SimId = *self.player_task_queue.key_at(i);
            let queue = self.player_task_queue.value_at(i);
            if let Some(k) = find_order(queue, task) {
                proof {
                    lemma_first_where_at(keys, holds, i as int);
                }
                return Some((resident, queue[k].order.copied()));
            }
            i = i + 1;
        }
        proof {
            lemma_first_where_none(keys, holds);
        }
        None
    }

    /// Ends an active use and gives back what it claimed.
    fn release_use(&mut self, resident: SimId) -> (r: Option<ActiveObjectUse>)
        requires
            old(self).wf(),
        ensures
            final(self).wf(),
            match r {
                Some(active) => {
                    &&& old(self)@.active_object_uses.contains_key(resident)
                    &&& active == old(self)@.active_object_uses[resident]
                    &&& final(self)@ == old(self)@.release(resident)
                },
                None => {
                    &&& !old(self)@.active_object_uses.contains_key(resident)
                    &&& final(self)@ == old(self)@
                },
            },
    {
        match self.active_object_uses.remove(&resident) {
            Some(active) => {
                let slot_key = (active.object.clone(), active.slot.clone());
                self.object_slot_claims.remove(&slot_key);
                self.capability_claims.remove(&(resident, active.capability));
                proof {
                    old(self)@.lemma_sound_frame(self@);
                }
                Some(active)
            },
            None => {
                assert(self@.active_object_uses =~= old(self)@.active_object_uses);
                None
            },
        }
    }

    /// Ends a walk where it is.
    fn halt(&mut self, resident: SimId) -> (r: Option<GoToState>)
        requires
            old(self).wf(),
        ensures
            final(self).wf(),
            final(self)@ == old(self)@.halt(resident),
            match r {
                Some(walk) => {
                    &&& old(self)@.go_to.contains_key(resident)
                    &&& walk@ == old(self)@.go_to[resident]
                },
                None => !old(self)@.go_to.contains_key(resident),
            },
    {
        let walk = self.go_to.remove(&resident);
        proof {
            old(self)@.lemma_halt_sound(resident);
        }
        walk
    }

    /// Drops the first pending request that was made for an order.
    fn take_request_for(&mut self, task: PlayerTaskId) -> (r: Option<UseRequest>)
        requires
            old(self).wf(),
        ensures
            final(self).wf(),
            r == first_where(old(self)@.use_requests, request_for(task)),
            r is Some == old(self)@.requests_for(task),
            final(self)@ == (Village {
                use_requests: without_first(old(self)@.use_requests, request_for(task)),
                ..old(self)@
            }),
    {
        let mut i: usize = 0;
        while i < self.use_requests.len()
            invariant
                *self == *old(self),
                self.wf(),
                i <= self.use_requests@.len(),
                forall|j: int|
                    0 <= j < i ==> !request_for(task)(#[trigger] self.use_requests@[j]),
            decreases self.use_requests@.len() - i,
        {
            if is_for(self.use_requests[i].player_task, task) {
                let ghost was = self.use_requests@;
                let request = self.use_requests.remove(i);
                proof {
                    assert(request_for(task)(was[i as int]));
                    lemma_first_where_at(was, request_for(task), i as int);
                    lemma_without_first_at(was, request_for(task), i as int);
                    assert(old(self)@.use_requests[i as int].player_task == Some(task));
                    old(self)@.lemma_sound_frame(self@);
                }
                return Some(request);
            }
            i = i + 1;
        }
        proof {
            lemma_first_where_none(self.use_requests@, request_for(task));
            lemma_without_first_none(self.use_requests@, request_for(task));
            assert forall|j: int| 0 <= j < self@.use_requests.len() implies (
            #[trigger] self@.use_requests[j]).player_task != Some(task) by {
                assert(!request_for(task)(self.use_requests@[j]));
            }
        }
        None
    }

    /// Whether a resident's walk was ordered as `task`.
    fn walks_for(&self, resident: SimId, task: PlayerTaskId) -> (r: bool)
        requires
            self.wf(),
        ensures
            r == self@.walks_for(resident, task),
    {
        match self.go_to.get(&resident) {
            Some(walk) => is_for(walk.player_task, task),
            None => false,
        }
    }

    /// Whether a resident's object use was ordered as `task`.
    fn uses_for(&self, resident: SimId, task: PlayerTaskId) -> (r: bool)
        requires
            self.wf(),
        ensures
            r == self@.uses_for(resident, task),
    {
        match self.active_object_uses.get(&resident) {
            Some(active) => is_for(active.player_task, task),
            None => false,
        }
    }

    /// Withdraws an order wherever it has got to.
    fn withdraw(&mut self, resident: SimId, task: PlayerTaskId, order: QueuedOrder)
        requires
            old(self).wf(),
        ensures
            final(self).wf(),
            final(self)@ == old(self)@.withdraw(resident, task, order),
    {
        // Dispatched as the resident's active movement.
        if self.walks_for(resident, task) {
            if let Some(walk) = self.halt(resident) {
                self.finish_player_task(resident, task, PlayerTaskState::Cancelled);
                self.emit(
                    WorldEventKind::GoToCancelled {
                        task,
                        resident,
                        destination: walk.destination,
                    },
                );
            }
            return;
        }
        // Dispatched as an active object use: release at the safe boundary.

        if self.uses_for(resident, task) {
            if let Some(active) = self.release_use(resident) {
                self.finish_player_task(resident, task, PlayerTaskState::Cancelled);
                self.emit(
                    WorldEventKind::TaskCancelled {
                        task,
                        resident,
                        object: active.object,
                        affordance: active.affordance,
                    },
                );
            }
            return;
        }
        // Dispatched as a not-yet-claimed use request.

        if let Some(request) = self.take_request_for(task) {
            self.finish_player_task(resident, task, PlayerTaskState::Cancelled);
            self.emit(
                WorldEventKind::TaskCancelled {
                    task,
                    resident,
                    object: request.object,
                    affordance: request.affordance,
                },
            );
            return;
        }
        // Not dispatched: a tail-queued or urgent-paused order. Remove it in
        // place; its resident keeps its remaining queue.

        proof {
            lemma_first_where(old(self)@.use_requests, request_for(task));
            lemma_without_first_none(old(self)@.use_requests, request_for(task));
        }
        self.finish_player_task(resident, task, PlayerTaskState::Cancelled);
        match order {
            QueuedOrder::GoTo { destination, .. } => {
                self.emit(WorldEventKind::GoToCancelled { task, resident, destination });
            },
            QueuedOrder::UseToilet { object, affordance, .. } => {
                self.emit(WorldEventKind::TaskCancelled { task, resident, object, affordance });
            },
        }
    }

    fn ingest_cancel_player_task(&mut self, task: PlayerTaskId)
        requires
            old(self).wf(),
        ensures
            final(self).wf(),
            final(self)@ == old(self)@.ingest_cancel(task),
    {
        let live: bool = match self.player_tasks.get(&task) {
            Some(state) => state.still_live(),
            None => {
                self.reject(task, PlayerCommandRejection::UnknownTask);
                return;
            },
        };
        if !live {
            self.reject(task, PlayerCommandRejection::TaskNotCancellable);
            return;
        }
        match self.locate_queued_task(task) {
            Some((resident, order)) => {
                self.emit(WorldEventKind::PlayerCommandAccepted { task });
                self.withdraw(resident, task, order);
            },
            None => {
                // A live task is always in exactly one resident's queue.
                self.reject(task, PlayerCommandRejection::UnknownTask);
            },
        }
    }

    fn ingest_player_command(&mut self, command: PlayerCommand)
        requires
            old(self).wf(),
        ensures
            final(self).wf(),
            final(self)@ == old(self)@.ingest(command),
    {
        match command {
            PlayerCommand::QueueGoTo { task, resident, destination, priority } => {
                self.ingest_queue_go_to(task, resident, destination, priority);
            },
            PlayerCommand::QueueUseToilet { task, resident, object, affordance, priority } => {
                self.ingest_queue_use_toilet(task, resident, object, affordance, priority);
            },
            PlayerCommand::CancelPlayerTask { task } => {
                self.ingest_cancel_player_task(task);
            },
        }
    }

    fn ingest_player_commands(&mut self)
        requires
            old(self).wf(),
        ensures
            final(self).wf(),
            final(self)@ == old(self)@.ingest_inbox(),
    {
        let mut commands: Vec<PlayerCommand> = Vec::new();
        std::mem::swap(&mut commands, &mut self.player_command_inbox);
        let ghost start = self@;
        let ghost all = commands@;
        proof {
            old(self)@.lemma_sound_frame(self@);
            assert(all.take(0) =~= Seq::<PlayerCommand>::empty());
            assert(start == (Village { inbox: Seq::empty(), ..old(self)@ }));
        }
        for command in commands_left: commands
            invariant
                self.wf(),
                commands_left.seq() == all,
                self@ == start.ingest_all(all.take(commands_left.index() as int)),
        {
            let ghost i = commands_left.index() as int;
            assert(all.take(i + 1).drop_last() =~= all.take(i));
            assert(all.take(i + 1).last() == command);
            self.ingest_player_command(command);
        }
        assert(all.take(all.len() as int) =~= all);
    }

    // -- Dispatch ----------------------------------------------------------

    fn resident_has_player_queue(&self, resident: SimId) -> (r: bool)
        requires
            self.wf(),
        ensures
            r == self@.has_queue(resident),
    {
        match self.player_task_queue.get(&resident) {
            Some(queue) => queue.len() > 0,
            None => false,
        }
    }

    fn resident_execution_slot_free(&self, resident: SimId) -> (r: bool)
        requires
            self.wf(),
        ensures
            r == self@.slot_free(resident),
    {
        !self.go_to.contains_key(&resident) && !self.active_object_uses.contains_key(&resident)
            && !self.has_request(resident)
    }

    fn is_task_dispatched(&self, resident: SimId, task: PlayerTaskId) -> (r: bool)
        requires
            self.wf(),
        ensures
            r == self@.is_dispatched(resident, task),
    {
        if self.walks_for(resident, task) || self.uses_for(resident, task) {
            return true;
        }
        let mut i: usize = 0;
        while i < self.use_requests.len()
            invariant
                i <= self.use_requests@.len(),
                forall|j: int|
                    0 <= j < i ==> (#[trigger] self.use_requests@[j]).player_task != Some(task),
            decreases self.use_requests@.len() - i,
        {
            if is_for(self.use_requests[i].player_task, task) {
                assert(self@.use_requests[i as int].player_task == Some(task));
                return true;
            }
            i = i + 1;
        }
        false
    }

    /// Dispatches the head of one resident's player queue into execution.
    fn dispatch_player_queue(&mut self, resident: SimId)
        requires
            old(self).wf(),
        ensures
            final(self).wf(),
            final(self)@ == old(self)@.dispatch(resident),
    {
        if self.urgent_toilet_intentions.contains_key(&resident) {
            return;
        }
        let head: QueuedPlayerTask = match self.player_task_queue.get(&resident) {
            Some(queue) => {
                if queue.len() == 0 {
                    return;
                }
                queue[0].copied()
            },
            None => {
                return;
            },
        };
        if self.is_task_dispatched(resident, head.task) || !self.resident_execution_slot_free(
            resident,
        ) {
            return;
        }
        match head.order {
            QueuedOrder::GoTo { destination, priority } => {
                if self.begin_go_to_banded(
                    resident,
                    destination,
                    priority as i64,
                    ActionBand::Player,
                    Some(head.task),
                ) {
                    self.set_task_state(head.task, PlayerTaskState::Active);
                }
            },
            QueuedOrder::UseToilet { object, affordance, priority } => {
                if self.begin_use_object_banded(
                    resident,
                    &object,
                    &affordance,
                    priority as i64,
                    ActionBand::Player,
                    Some(head.task),
                ) {
                    self.set_task_state(head.task, PlayerTaskState::Queued);
                }
            },
        }
    }

    /// Dispatches the head of each resident's player queue into the execution
    /// engine when the resident is free and not owned by an urgent need. Only
    /// one player task per resident executes at a time.
    fn dispatch_player_queues(&mut self)
        requires
            old(self).wf(),
        ensures
            final(self).wf(),
            final(self)@ == old(self)@.dispatch_everyone(),
    {
        let residents: Vec<SimId> = sim_ids(&self.player_task_queue);
        let ghost all = residents@;
        let mut i: usize = 0;
        proof {
            assert(all.take(0) =~= Seq::<SimId>::empty());
        }
        while i < residents.len()
            invariant
                self.wf(),
                i <= residents@.len(),
                residents@ == all,
                self@ == old(self)@.dispatch_all(all.take(i as int)),
            decreases residents@.len() - i,
        {
            assert(all.take(i + 1).drop_last() =~= all.take(i as int));
            assert(all.take(i + 1).last() == residents@[i as int]);
            self.dispatch_player_queue(residents[i]);
            i = i + 1;
        }
        assert(all.take(i as int) =~= all);
    }

    // -- Needs -------------------------------------------------------------

    fn update_toilet_needs(&mut self)
        requires
            old(self).wf(),
        ensures
            final(self).wf(),
            final(self)@ == old(self)@.age_needs(),
    {
        let residents: Vec<SimId> = sim_ids(&self.toilet_needs);
        let ghost all = residents@;
        let ghost before = self@.toilet_needs;
        let mut i: usize = 0;
        while i < residents.len()
            invariant
                self.wf(),
                i <= residents@.len(),
                residents@ == all,
                all.no_duplicates(),
                forall|r: SimId| before.contains_key(r) <==> all.contains(r),
                before == old(self)@.toilet_needs,
                self@ == (Village { toilet_needs: self@.toilet_needs, ..old(self)@ }),
                self@.toilet_needs.dom() == before.dom(),
                forall|j: int|
                    0 <= j < i ==> self@.toilet_needs[#[trigger] all[j]] == aged(before[all[j]]),
                forall|j: int|
                    i <= j < all.len() ==> self@.toilet_needs[#[trigger] all[j]] == before[all[j]],
            decreases residents@.len() - i,
        {
            let resident: SimId = residents[i];
            let ghost was = self@;
            assert(all.contains(all[i as int]));
            if let Some(need) = self.toilet_needs.get(&resident) {
                let need: ToiletNeedState = *need;
                let value: u8 = need.value.saturating_add(need.decay_per_tick);
                self.toilet_needs.insert(resident, ToiletNeedState { value, ..need });
            }
            assert(self@.toilet_needs.dom() =~= before.dom());
            proof {
                was.lemma_sound_frame(self@);
            }
            i = i + 1;
        }
        assert forall|r: SimId| before.contains_key(r) implies self@.toilet_needs[r] == aged(
            before[r],
        ) by {
            assert(all.contains(r));
            let j = all.index_of(r);
            assert(all[j] == r);
        }
        assert(self@.toilet_needs =~= old(self)@.age_needs().toilet_needs);
    }

    /// Whether the resident is already physically engaged with the toilet plan
    /// - walking to it, requesting it, or actively using it - so an urgent
    /// need need not preempt anything.
    fn resident_engaged_with_toilet(&self, resident: SimId, plan: &ToiletPlan) -> (r: bool)
        requires
            self.wf(),
        ensures
            r == self@.engaged_with(resident, *plan),
    {
        if let Some(walk) = self.go_to.get(&resident) {
            if let Some(object) = self.objects.get(&plan.object) {
                if walk.destination == object.position {
                    return true;
                }
            }
        }
        if let Some(active) = self.active_object_uses.get(&resident) {
            if active.object.same(&plan.object) && active.affordance.same(&plan.affordance) {
                return true;
            }
        }
        let mut i: usize = 0;
        while i < self.use_requests.len()
            invariant
                i <= self.use_requests@.len(),
                forall|j: int|
                    0 <= j < i ==> !((#[trigger] self.use_requests@[j]).resident == resident
                        && self.use_requests@[j].object@ == plan.object@
                        && self.use_requests@[j].affordance@ == plan.affordance@),
            decreases self.use_requests@.len() - i,
        {
            let request = &self.use_requests[i];
            if request.resident == resident && request.object.same(&plan.object)
                && request.affordance.same(&plan.affordance) {
                assert(self@.use_requests[i as int].resident == resident);
                return true;
            }
            i = i + 1;
        }
        false
    }

    /// Drops the first pending request that a resident made for an order.
    fn take_player_request_of(&mut self, resident: SimId) -> (r: Option<UseRequest>)
        requires
            old(self).wf(),
        ensures
            final(self).wf(),
            r == first_where(old(self)@.use_requests, player_request_of(resident)),
            r is Some ==> r->0.player_task is Some,
            final(self)@ == (Village {
                use_requests: without_first(old(self)@.use_requests, player_request_of(resident)),
                ..old(self)@
            }),
    {
        let mut i: usize = 0;
        while i < self.use_requests.len()
            invariant
                *self == *old(self),
                self.wf(),
                i <= self.use_requests@.len(),
                forall|j: int|
                    0 <= j < i ==> !player_request_of(resident)(#[trigger] self.use_requests@[j]),
            decreases self.use_requests@.len() - i,
        {
            if self.use_requests[i].resident == resident
                && self.use_requests[i].player_task.is_some() {
                let ghost was = self.use_requests@;
                let request = self.use_requests.remove(i);
                proof {
                    assert(player_request_of(resident)(was[i as int]));
                    lemma_first_where_at(was, player_request_of(resident), i as int);
                    lemma_without_first_at(was, player_request_of(resident), i as int);
                    old(self)@.lemma_sound_frame(self@);
                }
                return Some(request);
            }
            i = i + 1;
        }
        proof {
            lemma_first_where_none(self.use_requests@, player_request_of(resident));
            lemma_without_first_none(self.use_requests@, player_request_of(resident));
        }
        None
    }

    /// Releases whatever dispatched player order holds the resident's execution
    /// slot at its safe boundary and marks it Paused, leaving it at the queue
    /// head to resume once the urgent need is satisfied.
    fn pause_player_head_for_urgent(&mut self, resident: SimId)
        requires
            old(self).wf(),
        ensures
            final(self).wf(),
            final(self)@ == old(self)@.pause_player_order(resident),
    {
        let walking: Option<PlayerTaskId> = match self.go_to.get(&resident) {
            Some(walk) => walk.player_task,
            None => None,
        };
        if let Some(task) = walking {
            self.halt(resident);
            self.set_task_state(task, PlayerTaskState::Paused);
            return;
        }
        let using: Option<PlayerTaskId> = match self.active_object_uses.get(&resident) {
            Some(active) => active.player_task,
            None => None,
        };
        if let Some(task) = using {
            self.release_use(resident);
            self.set_task_state(task, PlayerTaskState::Paused);
            return;
        }
        let ghost before = self@;
        proof {
            lemma_first_where(before.use_requests, player_request_of(resident));
            if first_where(before.use_requests, player_request_of(resident)) is None {
                lemma_without_first_none(before.use_requests, player_request_of(resident));
            }
        }
        if let Some(request) = self.take_player_request_of(resident) {
            if let Some(task) = request.player_task {
                self.set_task_state(task, PlayerTaskState::Paused);
            }
        }
    }

    /// Drives the two-phase toilet plan in a given band: first physically
    /// reach the object tile, then enter the ordinary claim/use path.
    fn drive_toilet_plan(&mut self, resident: SimId, plan: &ToiletPlan, band: ActionBand)
        requires
            old(self).wf(),
            old(self)@.objects.contains_key(plan.object@),
        ensures
            final(self).wf(),
            final(self)@ == old(self)@.drive(resident, *plan, band),
    {
        let destination: TilePosition = match self.objects.get(&plan.object) {
            Some(object) => object.position,
            None => {
                return;
            },
        };
        let arrived: bool = match self.resident_position(resident) {
            Some(position) => position == destination,
            None => false,
        };
        if !arrived {
            if !self.go_to.contains_key(&resident) {
                self.begin_go_to_banded(resident, destination, plan.priority, band, None);
            }
            return;
        }
        self.begin_use_object_banded(
            resident,
            &plan.object,
            &plan.affordance,
            plan.priority,
            band,
            None,
        );
    }

    /// Selects or drops one resident's autonomous intention, and acts on it.
    fn choose_autonomous_toilet_plan(&mut self, resident: SimId)
        requires
            old(self).wf(),
            old(self)@.toilet_needs.contains_key(resident),
        ensures
            final(self).wf(),
            final(self)@ == old(self)@.choose_plan(resident),
    {
        let need: ToiletNeedState = match self.toilet_needs.get(&resident) {
            Some(need) => *need,
            None => {
                return;
            },
        };
        let plan: ToiletPlan = match self.autonomous_toilet_plans.get(&resident) {
            Some(plan) => plan.copied(),
            None => {
                return;
            },
        };
        let selected: bool = self.autonomous_toilet_intentions.contains_key(&resident);
        if selected && need.value <= need.retain_above {
            self.autonomous_toilet_intentions.remove(&resident);
            self.urgent_toilet_intentions.remove(&resident);
            proof {
                old(self)@.lemma_sound_frame(self@);
            }
            return;
        }
        if !selected && need.value < need.activate_at {
            return;
        }
        self.autonomous_toilet_intentions.insert(resident, ());
        // Escalate to, or relax from, the Urgent band using the same
        // hysteresis the intention itself uses to remain selected.
        let escalates: bool = match need.urgent_at {
            Some(threshold) => need.value >= threshold,
            None => false,
        };
        if escalates {
            self.urgent_toilet_intentions.insert(resident, ());
        } else if need.value <= need.retain_above {
            self.urgent_toilet_intentions.remove(&resident);
        }
        let urgent: bool = self.urgent_toilet_intentions.contains_key(&resident);
        let ghost minded = old(self)@.minded(resident);
        proof {
            assert(self@.urgent_toilet_intentions =~= minded.urgent_toilet_intentions);
            assert(self@ == minded);
            old(self)@.lemma_sound_frame(self@);
            assert(self@.affordance(plan.object@, plan.affordance@) is Some);
        }
        if urgent {
            // Urgent overrides the player queue: pause whatever player order
            // holds the resident's slot (unless it is already the toilet),
            // then drive the toilet plan in the Urgent band. The paused
            // order stays at its queue head and resumes on recovery.
            if !self.resident_engaged_with_toilet(resident, &plan) {
                self.pause_player_head_for_urgent(resident);
            }
            self.drive_toilet_plan(resident, &plan, ActionBand::Urgent);
            return;
        }
        // Non-urgent autonomy never preempts: it yields entirely to any
        // player queue, and to work already in flight for the resident.

        if self.resident_has_player_queue(resident) || !self.resident_execution_slot_free(
            resident,
        ) {
            return;
        }
        self.drive_toilet_plan(resident, &plan, ActionBand::Autonomous);
    }

    fn choose_autonomous_toilet_plans(&mut self)
        requires
            old(self).wf(),
        ensures
            final(self).wf(),
            final(self)@ == old(self)@.choose_everyone(),
    {
        let residents: Vec<SimId> = sim_ids(&self.toilet_needs);
        let ghost all = residents@;
        let mut i: usize = 0;
        proof {
            assert(all.take(0) =~= Seq::<SimId>::empty());
        }
        while i < residents.len()
            invariant
                self.wf(),
                i <= residents@.len(),
                residents@ == all,
                self@ == old(self)@.choose_all(all.take(i as int)),
                self@.toilet_needs == old(self)@.toilet_needs,
                forall|r: SimId| old(self)@.toilet_needs.contains_key(r) <==> all.contains(r),
            decreases residents@.len() - i,
        {
            assert(all.take(i + 1).drop_last() =~= all.take(i as int));
            assert(all.take(i + 1).last() == residents@[i as int]);
            assert(all.contains(all[i as int]));
            self.choose_autonomous_toilet_plan(residents[i]);
            i = i + 1;
        }
        assert(all.take(i as int) =~= all);
    }

    // -- Movement ----------------------------------------------------------

    fn move_resident(&mut self, resident: SimId, origin: TilePosition, destination: TilePosition)
        requires
            old(self).wf(),
            old(self)@.residents.contains_key(resident),
        ensures
            final(self).wf(),
            final(self)@ == old(self)@.relocate(resident, origin, destination),
    {
        self.occupancy.remove(&origin);
        self.occupancy.insert(destination, resident);
        if let Some(record) = self.residents.remove(&resident) {
            self.residents.insert(resident, Resident { position: destination, ..record });
        }
        proof {
            let next = old(self)@.relocate(resident, origin, destination);
            assert(self@.residents =~= next.residents);
            assert(self@.residents.dom() =~= old(self)@.residents.dom());
            old(self)@.lemma_sound_frame(self@);
        }
    }

    fn keep_walking(&mut self, resident: SimId, walk: GoToState)
        requires
            old(self).wf(),
            old(self)@.residents.contains_key(resident),
            walk.traversal is Some ==> walk@.target() is Some,
        ensures
            final(self).wf(),
            final(self)@ == old(self)@.keep_walking(resident, walk@),
    {
        self.go_to.insert(resident, walk);
        proof {
            old(self)@.lemma_keep_walking_sound(resident, walk@);
        }
    }

    fn arrive(&mut self, resident: SimId, walk: &GoToState)
        requires
            old(self).wf(),
        ensures
            final(self).wf(),
            final(self)@ == old(self)@.arrive(resident, walk@),
    {
        self.finish_if_ordered(resident, walk.player_task, PlayerTaskState::Completed);
        self.emit(WorldEventKind::GoToArrived { resident, destination: walk.destination });
    }

    fn give_up(&mut self, resident: SimId, walk: &GoToState)
        requires
            old(self).wf(),
        ensures
            final(self).wf(),
            final(self)@ == old(self)@.give_up(resident, walk@),
    {
        self.finish_if_ordered(resident, walk.player_task, PlayerTaskState::Completed);
        self.emit(WorldEventKind::GoToFailed { resident, destination: walk.destination });
    }

    fn finish_or_continue_go_to(&mut self, resident: SimId, walk: GoToState)
        requires
            old(self).wf(),
            old(self)@.residents.contains_key(resident),
            walk.traversal is None,
        ensures
            final(self).wf(),
            final(self)@ == old(self)@.arrive_or_continue(resident, walk@),
    {
        let arrived: bool = match self.resident_position(resident) {
            Some(position) => position == walk.destination,
            None => false,
        };
        if arrived {
            self.arrive(resident, &walk);
        } else {
            self.keep_walking(resident, walk);
        }
    }

    /// Brings a resident inside a portal a tick closer to its far end.
    fn cross_portal(
        &mut self,
        resident: SimId,
        walk: GoToState,
        traversal: PortalTraversal,
        origin: TilePosition,
    )
        requires
            old(self).wf(),
            old(self)@.position_of(resident) == Some(origin),
            walk@.target() is Some,
        ensures
            final(self).wf(),
            final(self)@ == old(self)@.cross(resident, walk@, traversal),
    {
        let left: u8 = traversal.ticks_remaining.saturating_sub(1);
        if left == 0 {
            self.portal_occupancy.remove(&traversal.portal);
            proof {
                old(self)@.lemma_sound_frame(self@);
            }
            self.move_resident(resident, origin, traversal.destination);
            assert(walk.next_step < walk.path.len());
            let next_step: usize = walk.next_step + 1;
            self.finish_or_continue_go_to(
                resident,
                GoToState { traversal: None, next_step, ..walk },
            );
        } else {
            let onward = PortalTraversal { ticks_remaining: left, ..traversal };
            self.keep_walking(resident, GoToState { traversal: Some(onward), ..walk });
        }
    }

    /// Reroutes a resident whose next tile is held, or lets it wait.
    fn go_around(
        &mut self,
        resident: SimId,
        walk: GoToState,
        next: TilePosition,
        origin: TilePosition,
        blocked_by: SimId,
    )
        requires
            old(self).wf(),
            old(self)@.position_of(resident) == Some(origin),
            old(self)@.occupancy.contains_key(next),
            blocked_by == old(self)@.occupancy[next],
            walk.traversal is None,
        ensures
            final(self).wf(),
            final(self)@ == old(self)@.go_around(resident, walk@, next),
    {
        match self.find_path_avoiding_occupied_tiles(resident, origin, walk.destination) {
            Some(path) => {
                // The route was made against static map geometry. A resident
                // can subsequently occupy its next step, so replace it with
                // a deterministic live route instead of needlessly waiting.
                self.keep_walking(resident, GoToState { path, next_step: 1, ..walk });
            },
            None => {
                self.emit(WorldEventKind::GoToWaited { resident, blocked_by, position: next });
                self.keep_walking(resident, walk);
            },
        }
    }

    /// Takes the next step: into a free portal, or onto a free tile.
    fn take_step(
        &mut self,
        resident: SimId,
        walk: GoToState,
        next: TilePosition,
        origin: TilePosition,
    )
        requires
            old(self).wf(),
            old(self)@.position_of(resident) == Some(origin),
            walk.traversal is None,
            walk@.target() == Some(next),
        ensures
            final(self).wf(),
            final(self)@ == old(self)@.step(resident, walk@, next),
    {
        if let Some(portal) = self.map.portal_between(origin, next) {
            if let Some(blocked_by) = self.portal_occupancy.get(&portal.id) {
                let blocked_by: SimId = *blocked_by;
                self.emit(WorldEventKind::GoToWaited { resident, blocked_by, position: next });
                self.keep_walking(resident, walk);
                return;
            }
            let traversal = PortalTraversal {
                portal: portal.id.clone(),
                destination: next,
                ticks_remaining: if portal.traversal_ticks == 0 {
                    1
                } else {
                    portal.traversal_ticks
                },
            };
            self.portal_occupancy.insert(traversal.portal.clone(), resident);
            proof {
                old(self)@.lemma_sound_frame(self@);
            }
            self.keep_walking(resident, GoToState { traversal: Some(traversal), ..walk });
            return;
        }
        self.move_resident(resident, origin, next);
        assert(walk.next_step < walk.path.len());
        let next_step: usize = walk.next_step + 1;
        self.finish_or_continue_go_to(resident, GoToState { next_step, ..walk });
    }

    fn tick_one_go_to(&mut self, resident: SimId)
        requires
            old(self).wf(),
        ensures
            final(self).wf(),
            final(self)@ == old(self)@.walk(resident),
    {
        let mut walk: GoToState = match self.halt(resident) {
            Some(walk) => walk,
            None => {
                assert(self@.go_to =~= old(self)@.go_to);
                return;
            },
        };
        let origin: TilePosition = match self.resident_position(resident) {
            Some(origin) => origin,
            None => {
                return;
            },
        };
        let ghost whole = walk@;
        let traversal: Option<PortalTraversal> = walk.traversal.take();
        match traversal {
            Some(traversal) => {
                assert(walk@.target() is Some);
                self.cross_portal(resident, walk, traversal, origin);
                assert(self@ == old(self)@.halt(resident).cross(resident, whole, traversal));
            },
            None => {
                if walk.path.len() == 0 {
                    self.give_up(resident, &walk);
                } else if origin == walk.destination {
                    self.arrive(resident, &walk);
                } else {
                    match walk.target_tile() {
                        None => {
                            self.give_up(resident, &walk);
                        },
                        Some(next) => {
                            if let Some(blocked_by) = self.occupancy.get(&next) {
                                let blocked_by: SimId = *blocked_by;
                                self.go_around(resident, walk, next, origin, blocked_by);
                            } else {
                                self.take_step(resident, walk, next, origin);
                            }
                        },
                    }
                }
            },
        }
    }

    /// A walking resident's live claim on the tile it approaches.
    fn movement_claim(&self, resident: SimId) -> (r: Option<MovementClaim>)
        requires
            self.wf(),
            self@.go_to.contains_key(resident),
        ensures
            r == self@.claim(resident),
    {
        let walk = match self.go_to.get(&resident) {
            Some(walk) => walk,
            None => {
                return None;
            },
        };
        if walk.traversal.is_some() {
            return None;
        }
        let origin: TilePosition = match self.resident_position(resident) {
            Some(origin) => origin,
            None => {
                return None;
            },
        };
        let target: TilePosition = match walk.target_tile() {
            Some(target) => target,
            None => {
                return None;
            },
        };
        if self.occupancy.contains_key(&target) {
            return None;
        }
        if let Some(portal) = self.map.portal_between(origin, target) {
            if self.portal_occupancy.contains_key(&portal.id) {
                return None;
            }
        }
        Some(
            MovementClaim {
                resident,
                target,
                priority: walk.priority,
                band: walk.band,
                request_age: walk.request_age,
            },
        )
    }

    /// The live claims of walking residents, in the order they are listed.
    fn movement_claims(&self, walkers: &Vec<SimId>) -> (r: Vec<Option<MovementClaim>>)
        requires
            self.wf(),
            forall|i: int| 0 <= i < walkers@.len() ==> self@.go_to.contains_key(
                #[trigger] walkers@[i],
            ),
        ensures
            r@.len() == walkers@.len(),
            forall|i: int| 0 <= i < r@.len() ==> #[trigger] r@[i] == self@.claim(walkers@[i]),
    {
        let mut claims: Vec<Option<MovementClaim>> = Vec::new();
        let mut i: usize = 0;
        while i < walkers.len()
            invariant
                self.wf(),
                i <= walkers@.len(),
                claims@.len() == i,
                forall|j: int| 0 <= j < walkers@.len() ==> self@.go_to.contains_key(
                    #[trigger] walkers@[j],
                ),
                forall|j: int| 0 <= j < i ==> #[trigger] claims@[j] == self@.claim(walkers@[j]),
            decreases walkers@.len() - i,
        {
            claims.push(self.movement_claim(walkers[i]));
            i = i + 1;
        }
        claims
    }

    fn tick_go_to(&mut self)
        requires
            old(self).wf(),
        ensures
            final(self).wf(),
            final(self)@ == old(self)@.walk_everyone(),
    {
        let walkers: Vec<SimId> = sim_ids(&self.go_to);
        let ghost before = self@;
        let ghost all = walkers@;
        assert forall|i: int| 0 <= i < all.len() implies before.go_to.contains_key(
            #[trigger] all[i],
        ) by {
            assert(all.contains(all[i]));
        }
        let claims: Vec<Option<MovementClaim>> = self.movement_claims(&walkers);
        let mut approved: Vec<SimId> = Vec::new();
        let mut later: Vec<SimId> = Vec::new();
        let mut waits: Vec<Option<(SimId, TilePosition)>> = Vec::new();
        let mut i: usize = 0;
        proof {
            reveal(Seq::filter);
            assert(all.take(0).filter(before.goes_first()) =~= Seq::<SimId>::empty());
            assert(all.take(0).filter(before.goes_later()) =~= Seq::<SimId>::empty());
        }
        while i < walkers.len()
            invariant
                i <= walkers@.len(),
                walkers@ == all,
                claims@.len() == all.len(),
                before.lists_walkers(all),
                forall|j: int| 0 <= j < all.len() ==> #[trigger] claims@[j] == before.claim(all[j]),
                approved@ == all.take(i as int).filter(before.goes_first()),
                later@ == all.take(i as int).filter(before.goes_later()),
                waits@.len() == later@.len(),
                forall|j: int|
                    0 <= j < later@.len() ==> #[trigger] waits@[j] == before.wait_of(later@[j]),
            decreases walkers@.len() - i,
        {
            let resident: SimId = walkers[i];
            proof {
                reveal(Seq::filter);
                assert(all.take(i + 1).drop_last() =~= all.take(i as int));
                assert(all.take(i + 1).last() == resident);
                assert(claims@[i as int] == before.claim(all[i as int]));
            }
            match claims[i] {
                Some(claim) => {
                    let w: usize = best_claim(&claims, i);
                    proof {
                        before.lemma_best_claim(all, claims@, i as int, w as int);
                    }
                    if w == i {
                        approved.push(resident);
                    } else {
                        later.push(resident);
                        waits.push(Some((walkers[w], claim.target)));
                    }
                },
                None => {
                    later.push(resident);
                    waits.push(None);
                },
            }
            i = i + 1;
        }
        assert(all.take(i as int) =~= all);
        let mut k: usize = 0;
        assert(approved@.take(0) =~= Seq::<SimId>::empty());
        while k < approved.len()
            invariant
                self.wf(),
                k <= approved@.len(),
                self@ == before.walk_all(approved@.take(k as int)),
            decreases approved@.len() - k,
        {
            assert(approved@.take(k + 1).drop_last() =~= approved@.take(k as int));
            assert(approved@.take(k + 1).last() == approved@[k as int]);
            self.tick_one_go_to(approved[k]);
            k = k + 1;
        }
        assert(approved@.take(k as int) =~= approved@);
        let ghost walked = self@;
        let mut m: usize = 0;
        assert(later@.take(0) =~= Seq::<SimId>::empty());
        while m < later.len()
            invariant
                self.wf(),
                m <= later@.len(),
                waits@.len() == later@.len(),
                forall|j: int|
                    0 <= j < later@.len() ==> #[trigger] waits@[j] == before.wait_of(later@[j]),
                self@ == walked.follow_all(before, later@.take(m as int)),
            decreases later@.len() - m,
        {
            assert(later@.take(m + 1).drop_last() =~= later@.take(m as int));
            assert(later@.take(m + 1).last() == later@[m as int]);
            assert(waits@[m as int] == before.wait_of(later@[m as int]));
            let resident: SimId = later[m];
            match waits[m] {
                Some((blocked_by, position)) => {
                    self.emit(WorldEventKind::GoToWaited { resident, blocked_by, position });
                },
                None => {
                    self.tick_one_go_to(resident);
                },
            }
            m = m + 1;
        }
        assert(later@.take(m as int) =~= later@);
    }

    // -- Object use --------------------------------------------------------

    fn recover_toilet_need(&mut self, resident: SimId)
        requires
            old(self).wf(),
        ensures
            final(self).wf(),
            final(self)@ == old(self)@.recover(resident),
    {
        if let Some(need) = self.toilet_needs.get(&resident) {
            let need: ToiletNeedState = *need;
            let value: u8 = need.value.saturating_sub(need.recovery);
            self.toilet_needs.insert(resident, ToiletNeedState { value, ..need });
            assert(self@.toilet_needs.dom() =~= old(self)@.toilet_needs.dom());
            proof {
                old(self)@.lemma_sound_frame(self@);
            }
            self.emit(WorldEventKind::ToiletNeedRecovered { resident, value });
        }
    }

    /// Brings an active use a tick closer to completion, or completes it.
    fn progress_use(&mut self, resident: SimId)
        requires
            old(self).wf(),
            old(self)@.active_object_uses.contains_key(resident),
        ensures
            final(self).wf(),
            final(self)@ == old(self)@.progress(resident),
    {
        let left: u8 = match self.active_object_uses.get(&resident) {
            Some(active) => active.ticks_remaining.saturating_sub(1),
            None => 0,
        };
        if left > 0 {
            if let Some(active) = self.active_object_uses.remove(&resident) {
                self.active_object_uses.insert(
                    resident,
                    ActiveObjectUse { ticks_remaining: left, ..active },
                );
            }
            assert(self@.active_object_uses =~= old(self)@.progress(resident).active_object_uses);
            proof {
                old(self)@.lemma_sound_frame(self@);
            }
            return;
        }
        if let Some(active) = self.release_use(resident) {
            let recovers: bool = self.matches_resolved_toilet_plan(
                resident,
                &active.object,
                &active.affordance,
            );
            self.finish_if_ordered(resident, active.player_task, PlayerTaskState::Completed);
            self.emit(
                WorldEventKind::ObjectUseCompleted {
                    resident,
                    object: active.object,
                    affordance: active.affordance,
                },
            );
            if recovers {
                self.recover_toilet_need(resident);
            }
        }
    }

    fn progress_uses(&mut self)
        requires
            old(self).wf(),
        ensures
            final(self).wf(),
            final(self)@ == old(self)@.progress_everyone(),
    {
        let residents: Vec<SimId> = sim_ids(&self.active_object_uses);
        let ghost all = residents@;
        let mut i: usize = 0;
        assert(all.take(0) =~= Seq::<SimId>::empty());
        while i < residents.len()
            invariant
                self.wf(),
                i <= residents@.len(),
                residents@ == all,
                all.no_duplicates(),
                forall|r: SimId| old(self)@.active_object_uses.contains_key(r) <==> all.contains(r),
                self@ == old(self)@.progress_all(all.take(i as int)),
            decreases residents@.len() - i,
        {
            assert(all.take(i + 1).drop_last() =~= all.take(i as int));
            assert(all.take(i + 1).last() == residents@[i as int]);
            proof {
                assert(all.contains(all[i as int]));
                assert(!all.take(i as int).contains(all[i as int]));
                old(self)@.lemma_progress_all_spares(all.take(i as int), all[i as int]);
            }
            self.progress_use(residents[i]);
            i = i + 1;
        }
        assert(all.take(i as int) =~= all);
    }

    /// Grants a request its slot and capability, or lets it wait.
    fn grant_request(&mut self, request: UseRequest)
        requires
            old(self).wf(),
        ensures
            final(self).wf(),
            final(self)@ == old(self)@.grant(request),
    {
        let (slot, capability, duration): (DefinitionId, Capability, u8) =
            match self.affordance_of(&request.object, &request.affordance) {
            Some(affordance) => (
                affordance.slot.clone(),
                affordance.capability,
                affordance.duration_ticks,
            ),
            None => {
                return;
            },
        };
        let resident: SimId = request.resident;
        let slot_key = (request.object.clone(), slot.clone());
        let capability_key = (resident, capability);
        let blocked_by: Option<SimId> = match self.object_slot_claims.get(&slot_key) {
            Some(claimant) => Some(*claimant),
            None => {
                if self.capability_claims.contains_key(&capability_key) {
                    Some(resident)
                } else {
                    None
                }
            },
        };
        if let Some(blocked_by) = blocked_by {
            let object: DefinitionId = request.object.clone();
            let affordance: DefinitionId = request.affordance.clone();
            self.use_requests.push(request);
            proof {
                old(self)@.lemma_sound_frame(self@);
            }
            self.emit(
                WorldEventKind::ObjectUseWaited { resident, object, affordance, blocked_by },
            );
            return;
        }
        self.object_slot_claims.insert(slot_key, resident);
        self.capability_claims.insert(capability_key, request.object.clone());
        self.active_object_uses.insert(
            resident,
            ActiveObjectUse {
                object: request.object.clone(),
                affordance: request.affordance.clone(),
                slot,
                capability,
                ticks_remaining: if duration == 0 {
                    1
                } else {
                    duration
                },
                player_task: request.player_task,
            },
        );
        proof {
            old(self)@.lemma_sound_frame(self@);
        }
        if let Some(task) = request.player_task {
            self.set_task_state(task, PlayerTaskState::Active);
        }
        self.emit(
            WorldEventKind::ObjectUseStarted {
                resident,
                object: request.object,
                affordance: request.affordance,
            },
        );
    }

    fn tick_object_uses(&mut self)
        requires
            old(self).wf(),
        ensures
            final(self).wf(),
            final(self)@ == old(self)@.use_objects(),
    {
        self.progress_uses();
        let ghost progressed = self@;
        let mut taken: Vec<UseRequest> = Vec::new();
        std::mem::swap(&mut taken, &mut self.use_requests);
        let ghost start = self@;
        proof {
            progressed.lemma_sound_frame(self@);
        }
        let requests: Vec<UseRequest> = rank_requests(taken);
        let ghost all = requests@;
        assert(all.take(0) =~= Seq::<UseRequest>::empty());
        for request in requests_left: requests
            invariant
                self.wf(),
                requests_left.seq() == all,
                self@ == start.grant_all(all.take(requests_left.index() as int)),
        {
            let ghost i = requests_left.index() as int;
            assert(all.take(i + 1).drop_last() =~= all.take(i));
            assert(all.take(i + 1).last() == request);
            self.grant_request(request);
        }
        assert(all.take(all.len() as int) =~= all);
    }

    // -- One tick ----------------------------------------------------------

    /// Consumes exactly one deterministic 250 ms simulation tick.
    ///
    /// Events published by a preceding tick first become observable here;
    /// this tick's own event is deferred until the next call.
    pub fn advance_tick(&mut self)
        requires
            old(self).wf(),
            old(self)@.tick < u64::MAX,
        ensures
            final(self).wf(),
            final(self)@ == old(self)@.advance(),
            old(self)@.valid() ==> final(self)@.valid(),
            old(self)@.valid() && old(self)@.dated() ==> final(self)@.dated(),
    {
        proof {
            if self@.valid() {
                self@.law_tick_keeps_village_valid();
                if self@.dated() {
                    self@.law_tick_keeps_events_dated();
                }
            }
        }
        self.ingest_from = self.ingest_to;
        self.ingest_to = self.event_ledger.len();
        self.tick = self.tick + 1;
        proof {
            old(self)@.lemma_begin_tick_sound();
        }
        self.ingest_player_commands();
        self.update_toilet_needs();
        self.choose_autonomous_toilet_plans();
        self.dispatch_player_queues();
        self.tick_go_to();
        self.tick_object_uses();
        let keyed_marker: u64 = keyed_draw(self.seed, self.tick, self.tick, 0);
        self.emit(WorldEventKind::TickCompleted { keyed_marker });
    }
}

/// The residents of an index, in `SimId` order.
fn sim_ids<V: View>(index: &OrdMap<SimId, V>) -> (r: Vec<SimId>)
    requires
        index.wf(),
    ensures
        r@ == in_order::<SimId>(index@.dom()),
        r@.no_duplicates(),
        forall|resident: SimId| index@.contains_key(resident) <==> r@.contains(resident),
{
    let r = index.key_list();
    proof {
        index.lemma_keys();
        assert(r@ =~= index.keys());
    }
    r
}

/// Whether one movement claim is served before another.
fn claim_outranks(left: &MovementClaim, right: &MovementClaim) -> (r: bool)
    ensures
        r == left.standing().outranks(right.standing()),
{
    match compare_movement_claims(left, right) {
        Ordering::Less => true,
        Ordering::Equal => false,
        Ordering::Greater => false,
    }
}

/// Whether one use request is served before another.
fn request_outranks(left: &UseRequest, right: &UseRequest) -> (r: bool)
    ensures
        r == left.standing().outranks(right.standing()),
{
    match compare_use_requests(left, right) {
        Ordering::Less => true,
        Ordering::Equal => false,
        Ordering::Greater => false,
    }
}

/// The index of the claim that takes the tile which claim `i` is on.
fn best_claim(claims: &Vec<Option<MovementClaim>>, i: usize) -> (w: usize)
    requires
        i < claims@.len(),
        claims@[i as int] is Some,
    ensures
        takes_tile(claims@, i as int, w as int),
{
    let target: TilePosition = match &claims[i] {
        Some(claim) => claim.target,
        None => {
            return i;
        },
    };
    let mut w: usize = i;
    let mut j: usize = 0;
    while j < claims.len()
        invariant
            j <= claims@.len(),
            i < claims@.len(),
            claims@[i as int] is Some,
            target == claims@[i as int]->0.target,
            w < claims@.len(),
            claims@[w as int] is Some,
            claims@[w as int]->0.target == target,
            w == i || claims@[w as int]->0.standing().outranks(claims@[i as int]->0.standing()),
            forall|k: int|
                0 <= k < j && (#[trigger] claims@[k]) is Some && claims@[k]->0.target == target
                    ==> !claims@[k]->0.standing().outranks(claims@[w as int]->0.standing()),
        decreases claims@.len() - j,
    {
        if let Some(claim) = &claims[j] {
            if let Some(best) = &claims[w] {
                if claim.target == target && claim_outranks(claim, best) {
                    w = j;
                }
            }
        }
        j = j + 1;
    }
    w
}

/// Requests in the order they are served.
fn rank_requests(requests: Vec<UseRequest>) -> (r: Vec<UseRequest>)
    ensures
        r@ == ranked(requests@),
{
    let ghost all = requests@;
    let mut served: Vec<UseRequest> = Vec::new();
    assert(all.take(0) =~= Seq::<UseRequest>::empty());
    for request in left: requests
        invariant
            left.seq() == all,
            served@ == ranked(all.take(left.index() as int)),
    {
        let ghost i = left.index() as int;
        assert(all.take(i + 1).drop_last() =~= all.take(i));
        assert(all.take(i + 1).last() == request);
        place_request(&mut served, request);
    }
    assert(all.take(all.len() as int) =~= all);
    served
}

/// Places a request behind every request that it does not outrank.
fn place_request(served: &mut Vec<UseRequest>, request: UseRequest)
    ensures
        final(served)@ == place(old(served)@, request),
{
    let mut at: usize = served.len();
    let ghost all = served@;
    assert(all.take(at as int) =~= all);
    assert(all.skip(at as int) =~= Seq::<UseRequest>::empty());
    assert(place(all, request) + Seq::<UseRequest>::empty() =~= place(all, request));
    while at > 0 && request_outranks(&request, &served[at - 1])
        invariant
            at <= served@.len(),
            served@ == all,
            place(all, request) == place(all.take(at as int), request) + all.skip(at as int),
        decreases at,
    {
        proof {
            let shorter = all.take(at as int);
            assert(shorter.last() == all[at - 1]);
            assert(shorter.drop_last() =~= all.take(at - 1));
            assert(place(shorter, request) == place(all.take(at - 1), request).push(all[at - 1]));
            assert(place(all.take(at - 1), request).push(all[at - 1]) + all.skip(at as int)
                =~= place(all.take(at - 1), request) + all.skip(at - 1));
        }
        at = at - 1;
    }
    proof {
        let shorter = all.take(at as int);
        assert(at > 0 ==> shorter.last() == all[at - 1]);
        assert(place(shorter, request) == shorter.push(request));
        assert(shorter.push(request) + all.skip(at as int) =~= all.insert(at as int, request));
    }
    served.insert(at, request);
}

/// Whether an optional order is `task`.
fn is_for(order: Option<PlayerTaskId>, task: PlayerTaskId) -> (r: bool)
    ensures
        r == (order == Some(task)),
{
    match order {
        Some(other) => other == task,
        None => false,
    }
}

/// The orders of a queue but for one.
fn orders_except(queue: &Vec<QueuedPlayerTask>, task: PlayerTaskId) -> (r: Vec<QueuedPlayerTask>)
    ensures
        r@ == queue@.filter(is_other_order(task)),
{
    let mut left: Vec<QueuedPlayerTask> = Vec::new();
    let mut i: usize = 0;
    proof {
        reveal(Seq::filter);
    }
    assert(queue@.take(0).filter(is_other_order(task)) =~= Seq::<QueuedPlayerTask>::empty());
    while i < queue.len()
        invariant
            i <= queue@.len(),
            left@ == queue@.take(i as int).filter(is_other_order(task)),
        decreases queue@.len() - i,
    {
        proof {
            reveal(Seq::filter);
            assert(queue@.take(i + 1).drop_last() =~= queue@.take(i as int));
        }
        if queue[i].task != task {
            left.push(queue[i].copied());
        }
        i = i + 1;
    }
    assert(queue@.take(i as int) =~= queue@);
    left
}

/// The index of an order in a queue: the first, where it is queued.
fn find_order(queue: &Vec<QueuedPlayerTask>, task: PlayerTaskId) -> (r: Option<usize>)
    ensures
        match r {
            Some(k) => {
                &&& k < queue@.len()
                &&& queues_order(queue@, task)
                &&& first_where(queue@, is_order(task)) == Some(queue@[k as int])
            },
            None => !queues_order(queue@, task),
        },
{
    let mut k: usize = 0;
    while k < queue.len()
        invariant
            k <= queue@.len(),
            forall|j: int| 0 <= j < k ==> !is_order(task)(#[trigger] queue@[j]),
        decreases queue@.len() - k,
    {
        if queue[k].task == task {
            proof {
                assert(is_order(task)(queue@[k as int]));
                lemma_first_where_at(queue@, is_order(task), k as int);
            }
            return Some(k);
        }
        k = k + 1;
    }
    assert forall|j: int| 0 <= j < queue@.len() implies (#[trigger] queue@[j]).task != task by {
        assert(!is_order(task)(queue@[j]));
    }
    None
}

} // verus!
