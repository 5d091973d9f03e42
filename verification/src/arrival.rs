//! How authored content becomes a village: indexes, conduct resolution and
//! the residents moving in.

use vstd::prelude::*;

use crate::content::ConductAsset;
use crate::content::ConductMethodDefinition;
use crate::content::ContentError;
use crate::content::ContentFault;
use crate::content::NeedDefinition;
use crate::content::NeedKind;
use crate::content::PersonDefinition;
use crate::content::PlanAsset;
use crate::content::ResidentPlacement;
use crate::content::ScenarioContent;
use crate::content::SmartObjectDefinition;
use crate::content::TilePosition;
use crate::identity::DefinitionId;
use crate::identity::SimId;
use crate::listing::first_where;
use crate::listing::last_where;
use crate::listing::lemma_first_where_at;
use crate::listing::lemma_first_where_none;
use crate::listing::lemma_last_where_at;
use crate::listing::lemma_last_where_none;
use crate::ord_map::OrdMap;
use crate::state::Resident;
use crate::state::ToiletNeedState;
use crate::state::ToiletPlan;
use crate::village::affords;
use crate::village::Village;

verus! {

// ---------------------------------------------------------------------------
// Looking up authored content. Where an identifier is authored twice, the
// later definition counts.
// ---------------------------------------------------------------------------

/// The people with a given identifier.
pub open spec fn person_named(id: Seq<char>) -> spec_fn(PersonDefinition) -> bool {
    |person: PersonDefinition| person.id@ == id
}

/// The objects with a given identifier.
pub open spec fn object_named(id: Seq<char>) -> spec_fn(SmartObjectDefinition) -> bool {
    |object: SmartObjectDefinition| object.id@ == id
}

/// The conducts with a given identifier.
pub open spec fn conduct_named(id: Seq<char>) -> spec_fn(ConductAsset) -> bool {
    |conduct: ConductAsset| conduct.id@ == id
}

/// The plans with a given identifier.
pub open spec fn plan_named(id: Seq<char>) -> spec_fn(PlanAsset) -> bool {
    |plan: PlanAsset| plan.id@ == id
}

/// The placements of a person.
pub open spec fn places(id: Seq<char>) -> spec_fn(ResidentPlacement) -> bool {
    |placement: ResidentPlacement| placement.person@ == id
}

/// The toilet needs.
pub open spec fn is_toilet_need() -> spec_fn(NeedDefinition) -> bool {
    |need: NeedDefinition| need.kind == NeedKind::Toilet
}

/// The names that no loaded object has.
pub open spec fn names_no_object(objects: Map<Seq<char>, SmartObjectDefinition>) -> spec_fn(
    DefinitionId,
) -> bool {
    |id: DefinitionId| !objects.contains_key(id@)
}

/// The loaded objects by identifier.
pub open spec fn object_index(objects: Seq<SmartObjectDefinition>) -> Map<
    Seq<char>,
    SmartObjectDefinition,
> {
    Map::new(
        |id: Seq<char>| last_where(objects, object_named(id)) is Some,
        |id: Seq<char>| last_where(objects, object_named(id))->0,
    )
}

/// The toilet method of a conduct with the highest priority, the later one
/// among equals.
pub open spec fn best_method(methods: Seq<ConductMethodDefinition>) -> Option<
    ConductMethodDefinition,
>
    decreases methods.len(),
{
    if methods.len() == 0 {
        None
    } else {
        let earlier = best_method(methods.drop_last());
        if methods.last().slot@ != "conduct.use_toilet"@ {
            earlier
        } else {
            match earlier {
                Some(best) => if best.priority <= methods.last().priority {
                    Some(methods.last())
                } else {
                    earlier
                },
                None => Some(methods.last()),
            }
        }
    }
}

/// What a person's first conduct resolves the toilet need to.
pub open spec fn resolved_plan(
    person: PersonDefinition,
    conducts: Seq<ConductAsset>,
    plans: Seq<PlanAsset>,
    objects: Map<Seq<char>, SmartObjectDefinition>,
) -> Result<ToiletPlan, ContentFault> {
    if person.conducts@.len() == 0 {
        Err(ContentFault::MissingConduct { person: person.id@, conduct: "conduct.human"@ })
    } else {
        let conduct_id = person.conducts@[0]@;
        match last_where(conducts, conduct_named(conduct_id)) {
            None => Err(ContentFault::MissingConduct { person: person.id@, conduct: conduct_id }),
            Some(conduct) => match best_method(conduct.methods@) {
                None => Err(ContentFault::MissingToiletMethod { conduct: conduct.id@ }),
                Some(method) => match last_where(plans, plan_named(method.plan@)) {
                    None => Err(
                        ContentFault::MissingToiletPlan {
                            conduct: conduct.id@,
                            plan: method.plan@,
                        },
                    ),
                    Some(plan) => if objects.contains_key(plan.object@) && first_where(
                        objects[plan.object@].affordances@,
                        affords(plan.affordance@),
                    ) is Some {
                        Ok(
                            ToiletPlan {
                                object: plan.object,
                                affordance: plan.affordance,
                                priority: (plan.priority + method.priority) as i64,
                            },
                        )
                    } else {
                        Err(ContentFault::InvalidToiletPlan { plan: plan.id@ })
                    },
                },
            },
        }
    }
}

// ---------------------------------------------------------------------------
// Moving in.
// ---------------------------------------------------------------------------

/// A need as it is authored.
pub open spec fn starting_need(need: NeedDefinition) -> ToiletNeedState {
    ToiletNeedState {
        value: need.initial,
        decay_per_tick: need.decay_per_tick,
        activate_at: need.activate_at,
        retain_above: need.retain_above,
        recovery: need.recovery,
        urgent_at: need.urgent_at,
    }
}

/// The village before anybody moves in.
pub open spec fn empty_village(content: ScenarioContent) -> Village {
    Village {
        seed: content.scenario.seed,
        tick: 0,
        start_minute_of_day: content.scenario.start_time_of_day.minutes() as u32,
        residents: Map::empty(),
        map: content.map,
        objects: object_index(content.objects.objects@),
        occupancy: Map::empty(),
        portal_occupancy: Map::empty(),
        go_to: Map::empty(),
        use_requests: Seq::empty(),
        active_object_uses: Map::empty(),
        toilet_needs: Map::empty(),
        autonomous_toilet_plans: Map::empty(),
        autonomous_toilet_intentions: Set::empty(),
        urgent_toilet_intentions: Set::empty(),
        inbox: Seq::empty(),
        player_tasks: Map::empty(),
        player_task_queue: Map::empty(),
        object_slot_claims: Map::empty(),
        capability_claims: Map::empty(),
        ledger: Seq::empty(),
        ingest_from: 0,
        ingest_to: 0,
    }
}

impl Village {
    /// A person stands on a tile as a resident.
    pub open spec fn spawn(
        self,
        resident: SimId,
        person: PersonDefinition,
        position: TilePosition,
    ) -> Village {
        Village {
            residents: self.residents.insert(
                resident,
                Resident {
                    definition_id: person.id,
                    display_name: person.display_name,
                    position,
                },
            ),
            occupancy: self.occupancy.insert(position, resident),
            ..self
        }
    }

    /// A resident gets the need it is authored with, and the plan for it.
    pub open spec fn equip(
        self,
        resident: SimId,
        person: PersonDefinition,
        content: ScenarioContent,
    ) -> Result<Village, ContentFault> {
        match first_where(person.needs@, is_toilet_need()) {
            None => Ok(self),
            Some(need) => match resolved_plan(
                person,
                content.conducts@,
                content.plans@,
                self.objects,
            ) {
                Err(fault) => Err(fault),
                Ok(plan) => Ok(
                    Village {
                        toilet_needs: self.toilet_needs.insert(resident, starting_need(need)),
                        autonomous_toilet_plans: self.autonomous_toilet_plans.insert(
                            resident,
                            plan,
                        ),
                        ..self
                    },
                ),
            },
        }
    }

    /// Every held tile is held by a resident.
    pub open spec fn tiles_held_by_residents(self) -> bool {
        forall|tile: TilePosition| #[trigger]
            self.occupancy.contains_key(tile) ==> self.residents.contains_key(self.occupancy[tile])
    }

    /// A new resident keeps a village sound.
    pub proof fn lemma_spawn_sound(
        self,
        resident: SimId,
        person: PersonDefinition,
        position: TilePosition,
    )
        requires
            self.sound(),
        ensures
            self.spawn(resident, person, position).sound(),
    {
    }

    /// A resident's need and plan keep a village sound.
    pub proof fn lemma_equip_sound(
        self,
        resident: SimId,
        person: PersonDefinition,
        content: ScenarioContent,
    )
        requires
            self.sound(),
        ensures
            self.equip(resident, person, content) is Ok ==> self.equip(
                resident,
                person,
                content,
            )->Ok_0.sound(),
    {
    }

    /// A person of the scenario moves in, on a walkable tile of their own.
    pub open spec fn welcome(
        self,
        resident: SimId,
        id: Seq<char>,
        content: ScenarioContent,
    ) -> Result<Village, ContentFault> {
        match last_where(content.people.people@, person_named(id)) {
            None => Err(ContentFault::MissingPerson(id)),
            Some(person) => match first_where(content.scenario.placements@, places(id)) {
                None => Err(ContentFault::MissingPlacement(id)),
                Some(placement) => if !self.map.spec_is_walkable(placement.position) {
                    Err(ContentFault::InvalidPlacement { person: id, position: placement.position })
                } else if self.occupancy.contains_key(placement.position) {
                    Err(
                        ContentFault::DuplicatePlacement {
                            person: id,
                            occupied_by: self.residents[self.occupancy[placement.position]]
                                .definition_id@,
                            position: placement.position,
                        },
                    )
                } else {
                    self.spawn(resident, person, placement.position).equip(
                        resident,
                        person,
                        content,
                    )
                },
            },
        }
    }
}

/// The village once the first `n` people have moved in. People are numbered
/// from one, in the order in which the scenario lists them.
pub open spec fn moved_in(content: ScenarioContent, n: nat) -> Result<Village, ContentFault>
    decreases n,
{
    if n == 0 {
        Ok(empty_village(content))
    } else {
        match moved_in(content, (n - 1) as nat) {
            Err(fault) => Err(fault),
            Ok(village) => village.welcome(
                SimId(n as u64),
                content.scenario.people@[n - 1]@,
                content,
            ),
        }
    }
}

/// The village that a scenario opens on, or what is wrong with the scenario.
pub open spec fn opening(content: ScenarioContent) -> Result<Village, ContentFault> {
    if content.scenario.map@ != content.map.id@ {
        Err(
            ContentFault::WrongMap { expected: content.scenario.map@, actual: content.map.id@ },
        )
    } else {
        match first_where(
            content.scenario.objects@,
            names_no_object(object_index(content.objects.objects@)),
        ) {
            Some(id) => Err(ContentFault::MissingObject(id@)),
            None => moved_in(content, content.scenario.people@.len()),
        }
    }
}

/// One failure stops everybody after it from moving in.
pub proof fn lemma_moved_in_fails(content: ScenarioContent, k: nat, n: nat)
    requires
        k <= n,
        moved_in(content, k) is Err,
    ensures
        moved_in(content, n) == moved_in(content, k),
    decreases n,
{
    if k < n {
        lemma_moved_in_fails(content, k, (n - 1) as nat);
    }
}

// ---------------------------------------------------------------------------
// The executable lookups.
// ---------------------------------------------------------------------------

/// The person with a given identifier.
pub(crate) fn find_person<'a>(people: &'a Vec<PersonDefinition>, id: &DefinitionId) -> (r: Option<
    &'a PersonDefinition,
>)
    ensures
        match r {
            Some(person) => last_where(people@, person_named(id@)) == Some(*person),
            None => last_where(people@, person_named(id@)) is None,
        },
{
    let mut i: usize = people.len();
    while i > 0
        invariant
            i <= people@.len(),
            forall|j: int| i <= j < people@.len() ==> !person_named(id@)(#[trigger] people@[j]),
        decreases i,
    {
        i = i - 1;
        if people[i].id.same(id) {
            proof {
                lemma_last_where_at(people@, person_named(id@), i as int);
            }
            return Some(&people[i]);
        }
    }
    proof {
        lemma_last_where_none(people@, person_named(id@));
    }
    None
}

/// The conduct with a given identifier.
fn find_conduct<'a>(conducts: &'a Vec<ConductAsset>, id: &DefinitionId) -> (r: Option<
    &'a ConductAsset,
>)
    ensures
        match r {
            Some(conduct) => last_where(conducts@, conduct_named(id@)) == Some(*conduct),
            None => last_where(conducts@, conduct_named(id@)) is None,
        },
{
    let mut i: usize = conducts.len();
    while i > 0
        invariant
            i <= conducts@.len(),
            forall|j: int|
                i <= j < conducts@.len() ==> !conduct_named(id@)(#[trigger] conducts@[j]),
        decreases i,
    {
        i = i - 1;
        if conducts[i].id.same(id) {
            proof {
                lemma_last_where_at(conducts@, conduct_named(id@), i as int);
            }
            return Some(&conducts[i]);
        }
    }
    proof {
        lemma_last_where_none(conducts@, conduct_named(id@));
    }
    None
}

/// The plan with a given identifier.
fn find_plan<'a>(plans: &'a Vec<PlanAsset>, id: &DefinitionId) -> (r: Option<&'a PlanAsset>)
    ensures
        match r {
            Some(plan) => last_where(plans@, plan_named(id@)) == Some(*plan),
            None => last_where(plans@, plan_named(id@)) is None,
        },
{
    let mut i: usize = plans.len();
    while i > 0
        invariant
            i <= plans@.len(),
            forall|j: int| i <= j < plans@.len() ==> !plan_named(id@)(#[trigger] plans@[j]),
        decreases i,
    {
        i = i - 1;
        if plans[i].id.same(id) {
            proof {
                lemma_last_where_at(plans@, plan_named(id@), i as int);
            }
            return Some(&plans[i]);
        }
    }
    proof {
        lemma_last_where_none(plans@, plan_named(id@));
    }
    None
}

/// Where a person is placed.
pub(crate) fn find_placement(placements: &Vec<ResidentPlacement>, id: &DefinitionId) -> (r: Option<
    TilePosition,
>)
    ensures
        match r {
            Some(position) => {
                &&& first_where(placements@, places(id@)) is Some
                &&& first_where(placements@, places(id@))->0.position == position
            },
            None => first_where(placements@, places(id@)) is None,
        },
{
    let mut i: usize = 0;
    while i < placements.len()
        invariant
            i <= placements@.len(),
            forall|j: int| 0 <= j < i ==> !places(id@)(#[trigger] placements@[j]),
        decreases placements@.len() - i,
    {
        if placements[i].person.same(id) {
            proof {
                lemma_first_where_at(placements@, places(id@), i as int);
            }
            return Some(placements[i].position);
        }
        i = i + 1;
    }
    proof {
        lemma_first_where_none(placements@, places(id@));
    }
    None
}

/// The toilet need a person is authored with.
pub(crate) fn find_toilet_need(needs: &Vec<NeedDefinition>) -> (r: Option<NeedDefinition>)
    ensures
        r == first_where(needs@, is_toilet_need()),
{
    let mut i: usize = 0;
    while i < needs.len()
        invariant
            i <= needs@.len(),
            forall|j: int| 0 <= j < i ==> !is_toilet_need()(#[trigger] needs@[j]),
        decreases needs@.len() - i,
    {
        if needs[i].kind == NeedKind::Toilet {
            proof {
                lemma_first_where_at(needs@, is_toilet_need(), i as int);
            }
            return Some(needs[i]);
        }
        i = i + 1;
    }
    proof {
        lemma_first_where_none(needs@, is_toilet_need());
    }
    None
}

/// The index of a conduct's best toilet method.
fn find_best_method(methods: &Vec<ConductMethodDefinition>) -> (r: Option<usize>)
    ensures
        match r {
            Some(i) => i < methods@.len() && best_method(methods@) == Some(methods@[i as int]),
            None => best_method(methods@) is None,
        },
{
    let toilet = DefinitionId::new("conduct.use_toilet");
    let mut best: Option<usize> = None;
    let mut i: usize = 0;
    while i < methods.len()
        invariant
            i <= methods@.len(),
            toilet@ == "conduct.use_toilet"@,
            match best {
                Some(b) => b < i && best_method(methods@.take(i as int)) == Some(methods@[b as int]),
                None => best_method(methods@.take(i as int)) is None,
            },
        decreases methods@.len() - i,
    {
        assert(methods@.take(i + 1).drop_last() =~= methods@.take(i as int));
        assert(methods@.take(i + 1).last() == methods@[i as int]);
        if methods[i].slot.same(&toilet) {
            match best {
                Some(b) => {
                    if methods[b].priority <= methods[i].priority {
                        best = Some(i);
                    }
                },
                None => {
                    best = Some(i);
                },
            }
        }
        i = i + 1;
    }
    assert(methods@.take(i as int) =~= methods@);
    best
}

/// Resolves a person's toilet need through their first conduct.
pub fn resolve_human_toilet_plan(
    person: &PersonDefinition,
    conducts: &Vec<ConductAsset>,
    plans: &Vec<PlanAsset>,
    objects: &OrdMap<DefinitionId, SmartObjectDefinition>,
) -> (r: Result<ToiletPlan, ContentError>)
    requires
        objects.wf(),
    ensures
        match r {
            Ok(plan) => resolved_plan(*person, conducts@, plans@, objects@) == Ok::<
                ToiletPlan,
                ContentFault,
            >(plan),
            Err(error) => resolved_plan(*person, conducts@, plans@, objects@) == Err::<
                ToiletPlan,
                ContentFault,
            >(error@),
        },
{
    if person.conducts.len() == 0 {
        return Err(
            ContentError::MissingConduct {
                person: person.id.clone(),
                conduct: DefinitionId::new("conduct.human"),
            },
        );
    }
    let conduct_id = &person.conducts[0];
    let conduct = match find_conduct(conducts, conduct_id) {
        Some(conduct) => conduct,
        None => {
            return Err(
                ContentError::MissingConduct {
                    person: person.id.clone(),
                    conduct: conduct_id.clone(),
                },
            );
        },
    };
    let method = match find_best_method(&conduct.methods) {
        Some(i) => &conduct.methods[i],
        None => {
            return Err(ContentError::MissingToiletMethod { conduct: conduct.id.clone() });
        },
    };
    let plan = match find_plan(plans, &method.plan) {
        Some(plan) => plan,
        None => {
            return Err(
                ContentError::MissingToiletPlan {
                    conduct: conduct.id.clone(),
                    plan: method.plan.clone(),
                },
            );
        },
    };
    let is_valid: bool = match objects.get(&plan.object) {
        Some(object) => offers(object, &plan.affordance),
        None => false,
    };
    if !is_valid {
        return Err(ContentError::InvalidToiletPlan { plan: plan.id.clone() });
    }
    Ok(
        ToiletPlan {
            object: plan.object.clone(),
            affordance: plan.affordance.clone(),
            priority: plan.priority as i64 + method.priority as i64,
        },
    )
}

/// Whether an object offers an affordance.
fn offers(object: &SmartObjectDefinition, affordance: &DefinitionId) -> (r: bool)
    ensures
        r == (first_where(object.affordances@, affords(affordance@)) is Some),
{
    let mut i: usize = 0;
    while i < object.affordances.len()
        invariant
            i <= object.affordances@.len(),
            forall|j: int|
                0 <= j < i ==> !affords(affordance@)(#[trigger] object.affordances@[j]),
        decreases object.affordances@.len() - i,
    {
        if object.affordances[i].id.same(affordance) {
            proof {
                lemma_first_where_at(object.affordances@, affords(affordance@), i as int);
            }
            return true;
        }
        i = i + 1;
    }
    proof {
        lemma_first_where_none(object.affordances@, affords(affordance@));
    }
    false
}

/// Indexes the loaded objects.
pub(crate) fn index_objects(objects: Vec<SmartObjectDefinition>) -> (r: OrdMap<
    DefinitionId,
    SmartObjectDefinition,
>)
    ensures
        r.wf(),
        r@ == object_index(objects@),
{
    let ghost all = objects@;
    let mut index: OrdMap<DefinitionId, SmartObjectDefinition> = OrdMap::new();
    assert(all.take(0) =~= Seq::<SmartObjectDefinition>::empty());
    assert(index@ =~= object_index(all.take(0)));
    for object in left: objects
        invariant
            left.seq() == all,
            index.wf(),
            index@ == object_index(all.take(left.index() as int)),
    {
        let ghost i = left.index() as int;
        let ghost was = index@;
        assert(all.take(i + 1).drop_last() =~= all.take(i));
        assert(all.take(i + 1).last() == object);
        index.insert(object.id.clone(), object);
        assert(index@ =~= object_index(all.take(i + 1)));
    }
    assert(all.take(all.len() as int) =~= all);
    index
}

/// The first name of a scenario that no loaded object has.
pub(crate) fn find_missing_object(
    names: &Vec<DefinitionId>,
    objects: &OrdMap<DefinitionId, SmartObjectDefinition>,
) -> (r: Option<DefinitionId>)
    requires
        objects.wf(),
    ensures
        r == first_where(names@, names_no_object(objects@)),
{
    let mut i: usize = 0;
    while i < names.len()
        invariant
            objects.wf(),
            i <= names@.len(),
            forall|j: int| 0 <= j < i ==> !names_no_object(objects@)(#[trigger] names@[j]),
        decreases names@.len() - i,
    {
        if !objects.contains_key(&names[i]) {
            proof {
                lemma_first_where_at(names@, names_no_object(objects@), i as int);
            }
            return Some(names[i].clone());
        }
        i = i + 1;
    }
    proof {
        lemma_first_where_none(names@, names_no_object(objects@));
    }
    None
}

} // verus!
