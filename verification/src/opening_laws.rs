//! What authored content says about the village a scenario opens on, and which
//! content opens on none.

use vstd::prelude::*;

use crate::arrival::best_method;
use crate::arrival::conduct_named;
use crate::arrival::is_toilet_need;
use crate::arrival::lemma_moved_in_fails;
use crate::arrival::moved_in;
use crate::arrival::names_no_object;
use crate::arrival::object_index;
use crate::arrival::object_named;
use crate::arrival::opening;
use crate::arrival::person_named;
use crate::arrival::places;
use crate::arrival::plan_named;
use crate::arrival::resolved_plan;
use crate::arrival_laws::lemma_moved_in;
use crate::content::ConductAsset;
use crate::content::ConductMethodDefinition;
use crate::content::ContentFault;
use crate::content::NeedKind;
use crate::content::PersonDefinition;
use crate::content::PlanAsset;
use crate::content::ResidentPlacement;
use crate::content::ScenarioContent;
use crate::content::SmartObjectDefinition;
use crate::content::TilePosition;
use crate::ground::law_walkable_tiles_lie_on_open_floor;
use crate::ground::on_open_floor;
use crate::identity::SimId;
use crate::listing::first_where;
use crate::listing::last_where;
use crate::listing::lemma_first_where_at;
use crate::listing::lemma_first_where_index;
use crate::listing::lemma_first_where_none;
use crate::listing::lemma_last_where_at;
use crate::listing::lemma_last_where_index;
use crate::listing::lemma_last_where_none;
use crate::state::ToiletPlan;
use crate::village::affords;
use crate::village::Village;

verus! {

// ---------------------------------------------------------------------------
// Which definition counts.
// ---------------------------------------------------------------------------

/// Whether the definition at `k` is the last of a person.
pub open spec fn defines_person(people: Seq<PersonDefinition>, id: Seq<char>, k: int) -> bool {
    &&& 0 <= k < people.len()
    &&& people[k].id@ == id
    &&& forall|j: int| k < j < people.len() ==> (#[trigger] people[j]).id@ != id
}

/// Whether the placement at `k` is the first of a person.
pub open spec fn places_person(
    placements: Seq<ResidentPlacement>,
    id: Seq<char>,
    k: int,
) -> bool {
    &&& 0 <= k < placements.len()
    &&& placements[k].person@ == id
    &&& forall|j: int| 0 <= j < k ==> (#[trigger] placements[j]).person@ != id
}

/// Whether the definition at `k` is the last of an object.
pub open spec fn defines_object(objects: Seq<SmartObjectDefinition>, id: Seq<char>, k: int) -> bool {
    &&& 0 <= k < objects.len()
    &&& objects[k].id@ == id
    &&& forall|j: int| k < j < objects.len() ==> (#[trigger] objects[j]).id@ != id
}

/// Whether the definition at `k` is the last of a conduct.
pub open spec fn defines_conduct(conducts: Seq<ConductAsset>, id: Seq<char>, k: int) -> bool {
    &&& 0 <= k < conducts.len()
    &&& conducts[k].id@ == id
    &&& forall|j: int| k < j < conducts.len() ==> (#[trigger] conducts[j]).id@ != id
}

/// Whether the definition at `k` is the last of a plan.
pub open spec fn defines_plan(plans: Seq<PlanAsset>, id: Seq<char>, k: int) -> bool {
    &&& 0 <= k < plans.len()
    &&& plans[k].id@ == id
    &&& forall|j: int| k < j < plans.len() ==> (#[trigger] plans[j]).id@ != id
}

/// Whether the need at `k` is the first toilet need of a person.
pub open spec fn authors_need(person: PersonDefinition, k: int) -> bool {
    &&& 0 <= k < person.needs@.len()
    &&& person.needs@[k].kind == NeedKind::Toilet
    &&& forall|j: int| 0 <= j < k ==> (#[trigger] person.needs@[j]).kind != NeedKind::Toilet
}

/// Whether the method at `k` is the toilet method of the highest priority, and
/// the last of those that have it.
pub open spec fn is_best_method(methods: Seq<ConductMethodDefinition>, k: int) -> bool {
    &&& 0 <= k < methods.len()
    &&& methods[k].slot@ == "conduct.use_toilet"@
    &&& forall|j: int|
        0 <= j < methods.len() && (#[trigger] methods[j]).slot@ == "conduct.use_toilet"@
            ==> methods[j].priority <= methods[k].priority
    &&& forall|j: int|
        k < j < methods.len() && (#[trigger] methods[j]).slot@ == "conduct.use_toilet"@
            ==> methods[j].priority < methods[k].priority
}

/// Whether an object offers an affordance.
pub open spec fn offers_affordance(object: SmartObjectDefinition, affordance: Seq<char>) -> bool {
    exists|i: int|
        0 <= i < object.affordances@.len() && (#[trigger] object.affordances@[i]).id@ == affordance
}

/// The best toilet method of a conduct is picked, and none exactly where it has
/// no toilet method.
pub proof fn law_best_method_counts(methods: Seq<ConductMethodDefinition>) -> (k: int)
    ensures
        best_method(methods) is Some ==> is_best_method(methods, k) && best_method(methods) == Some(
            methods[k],
        ),
        best_method(methods) is None <==> forall|j: int|
            0 <= j < methods.len() ==> (#[trigger] methods[j]).slot@ != "conduct.use_toilet"@,
    decreases methods.len(),
{
    if methods.len() == 0 {
        0
    } else {
        let rest = methods.drop_last();
        let last = methods.len() - 1;
        let k = law_best_method_counts(rest);
        assert forall|j: int| 0 <= j < last implies #[trigger] methods[j] == rest[j] by {}
        if methods[last].slot@ != "conduct.use_toilet"@ {
            if best_method(rest) is None {
                assert forall|j: int| 0 <= j < methods.len() implies (
                #[trigger] methods[j]).slot@ != "conduct.use_toilet"@ by {
                    if j < last {
                        assert(rest[j].slot@ != "conduct.use_toilet"@);
                    }
                }
            } else {
                assert(methods[k] == rest[k]);
            }
            k
        } else {
            match best_method(rest) {
                Some(best) => {
                    assert(methods[k] == rest[k]);
                    if best.priority <= methods[last].priority {
                        assert forall|j: int|
                            0 <= j < methods.len() && (#[trigger] methods[j]).slot@
                                == "conduct.use_toilet"@ implies methods[j].priority
                            <= methods[last].priority by {
                            if j < last {
                                assert(rest[j].priority <= rest[k].priority);
                            }
                        }
                        last
                    } else {
                        k
                    }
                },
                None => {
                    assert forall|j: int|
                        0 <= j < methods.len() && (#[trigger] methods[j]).slot@
                            == "conduct.use_toilet"@ implies methods[j].priority
                        <= methods[last].priority by {
                        if j < last {
                            assert(rest[j].slot@ != "conduct.use_toilet"@);
                        }
                    }
                    last
                },
            }
        }
    }
}

/// There is one best method.
proof fn lemma_one_best_method(methods: Seq<ConductMethodDefinition>, k: int)
    requires
        is_best_method(methods, k),
    ensures
        best_method(methods) == Some(methods[k]),
{
    let best = law_best_method_counts(methods);
    assert(methods[k].slot@ == "conduct.use_toilet"@);
    if best != k {
        assert(methods[best].slot@ == "conduct.use_toilet"@);
    }
}

// ---------------------------------------------------------------------------
// Plans.
// ---------------------------------------------------------------------------

/// A person's toilet plan is found through the first conduct they list: the
/// conduct's best toilet method names it, and the plan says for which object
/// and affordance and adds its priority to the method's. It counts only where
/// that object is loaded and offers that affordance.
pub proof fn law_plan_is_found_through_the_first_conduct(
    person: PersonDefinition,
    conducts: Seq<ConductAsset>,
    plans: Seq<PlanAsset>,
    objects: Map<Seq<char>, SmartObjectDefinition>,
    c: int,
    m: int,
    p: int,
)
    requires
        person.conducts@.len() > 0,
        defines_conduct(conducts, person.conducts@[0]@, c),
        is_best_method(conducts[c].methods@, m),
        defines_plan(plans, conducts[c].methods@[m].plan@, p),
    ensures
        ({
            let plan = plans[p];
            let found = resolved_plan(person, conducts, plans, objects);
            if objects.contains_key(plan.object@) && offers_affordance(
                objects[plan.object@],
                plan.affordance@,
            ) {
                &&& found is Ok
                &&& found->Ok_0.object == plan.object
                &&& found->Ok_0.affordance == plan.affordance
                &&& found->Ok_0.priority == plan.priority + conducts[c].methods@[m].priority
            } else {
                found == Err::<ToiletPlan, ContentFault>(
                    ContentFault::InvalidToiletPlan { plan: plan.id@ },
                )
            }
        }),
{
    let id = person.conducts@[0]@;
    assert forall|j: int| c < j < conducts.len() implies !conduct_named(id)(
        #[trigger] conducts[j],
    ) by {}
    lemma_last_where_at(conducts, conduct_named(id), c);
    lemma_one_best_method(conducts[c].methods@, m);
    let plan_id = conducts[c].methods@[m].plan@;
    assert forall|j: int| p < j < plans.len() implies !plan_named(plan_id)(
        #[trigger] plans[j],
    ) by {}
    lemma_last_where_at(plans, plan_named(plan_id), p);
    let plan = plans[p];
    if objects.contains_key(plan.object@) {
        let affordances = objects[plan.object@].affordances@;
        let is_it = affords(plan.affordance@);
        if first_where(affordances, is_it) is Some {
            let i = lemma_first_where_index(affordances, is_it);
            assert(affordances[i].id@ == plan.affordance@);
        }
        if offers_affordance(objects[plan.object@], plan.affordance@) {
            if first_where(affordances, is_it) is None {
                let i = choose|i: int|
                    0 <= i < affordances.len() && (#[trigger] affordances[i]).id@
                        == plan.affordance@;
                lemma_first_where_finds(affordances, is_it, i);
            }
        }
    }
}

/// Where a member matches there is a first match.
proof fn lemma_first_where_finds<T>(s: Seq<T>, p: spec_fn(T) -> bool, i: int)
    requires
        0 <= i < s.len(),
        p(s[i]),
    ensures
        first_where(s, p) is Some,
    decreases s.len(),
{
    if !p(s[0]) {
        assert(s.drop_first()[i - 1] == s[i]);
        lemma_first_where_finds(s.drop_first(), p, i - 1);
    }
}

/// Where a member matches there is a last match.
proof fn lemma_last_where_finds<T>(s: Seq<T>, p: spec_fn(T) -> bool, i: int)
    requires
        0 <= i < s.len(),
        p(s[i]),
    ensures
        last_where(s, p) is Some,
    decreases s.len(),
{
    if !p(s.last()) {
        assert(s.drop_last()[i] == s[i]);
        lemma_last_where_finds(s.drop_last(), p, i);
    }
}

/// A person who lists no conduct lacks the human one; one whose first conduct
/// is not loaded lacks that conduct; a conduct without a toilet method is at
/// fault itself; and a best toilet method that names no loaded plan is.
pub proof fn law_plan_fails_at_its_first_missing_link(
    person: PersonDefinition,
    conducts: Seq<ConductAsset>,
    plans: Seq<PlanAsset>,
    objects: Map<Seq<char>, SmartObjectDefinition>,
    c: int,
    m: int,
)
    ensures
        ({
            let found = resolved_plan(person, conducts, plans, objects);
            let id = person.conducts@[0]@;
            &&& person.conducts@.len() == 0 ==> found == Err::<ToiletPlan, ContentFault>(
                ContentFault::MissingConduct { person: person.id@, conduct: "conduct.human"@ },
            )
            &&& person.conducts@.len() > 0 && (forall|j: int|
                0 <= j < conducts.len() ==> (#[trigger] conducts[j]).id@ != id) ==> found == Err::<
                ToiletPlan,
                ContentFault,
            >(ContentFault::MissingConduct { person: person.id@, conduct: id })
            &&& person.conducts@.len() > 0 && defines_conduct(conducts, id, c) && (forall|j: int|
                0 <= j < conducts[c].methods@.len() ==> (
                #[trigger] conducts[c].methods@[j]).slot@ != "conduct.use_toilet"@) ==> found
                == Err::<ToiletPlan, ContentFault>(
                ContentFault::MissingToiletMethod { conduct: id },
            )
            &&& person.conducts@.len() > 0 && defines_conduct(conducts, id, c) && is_best_method(
                conducts[c].methods@,
                m,
            ) && (forall|j: int|
                0 <= j < plans.len() ==> (#[trigger] plans[j]).id@
                    != conducts[c].methods@[m].plan@) ==> found == Err::<ToiletPlan, ContentFault>(
                ContentFault::MissingToiletPlan {
                    conduct: id,
                    plan: conducts[c].methods@[m].plan@,
                },
            )
        }),
{
    let id = person.conducts@[0]@;
    let is_it = conduct_named(id);
    if person.conducts@.len() > 0 {
        if forall|j: int| 0 <= j < conducts.len() ==> (#[trigger] conducts[j]).id@ != id {
            assert forall|j: int| 0 <= j < conducts.len() implies !is_it(
                #[trigger] conducts[j],
            ) by {}
            lemma_last_where_none(conducts, is_it);
        }
        if defines_conduct(conducts, id, c) {
            assert forall|j: int| c < j < conducts.len() implies !is_it(#[trigger] conducts[j]) by {}
            lemma_last_where_at(conducts, is_it, c);
            let methods = conducts[c].methods@;
            law_best_method_counts(methods);
            if is_best_method(methods, m) {
                lemma_one_best_method(methods, m);
                let is_plan = plan_named(methods[m].plan@);
                if forall|j: int| 0 <= j < plans.len() ==> (#[trigger] plans[j]).id@
                    != methods[m].plan@ {
                    assert forall|j: int| 0 <= j < plans.len() implies !is_plan(
                        #[trigger] plans[j],
                    ) by {}
                    lemma_last_where_none(plans, is_plan);
                }
            }
        }
    }
}

/// Objects are known by their identifiers, each as it is last defined.
pub proof fn law_objects_are_known_by_their_last_definition(
    objects: Seq<SmartObjectDefinition>,
    id: Seq<char>,
    k: int,
)
    ensures
        object_index(objects).contains_key(id) <==> exists|j: int|
            0 <= j < objects.len() && (#[trigger] objects[j]).id@ == id,
        defines_object(objects, id, k) ==> object_index(objects)[id] == objects[k],
{
    let is_it = object_named(id);
    if last_where(objects, is_it) is Some {
        let j = lemma_last_where_index(objects, is_it);
        assert(objects[j].id@ == id);
    } else if exists|j: int| 0 <= j < objects.len() && (#[trigger] objects[j]).id@ == id {
        let j = choose|j: int| 0 <= j < objects.len() && (#[trigger] objects[j]).id@ == id;
        lemma_last_where_finds(objects, is_it, j);
    }
    if defines_object(objects, id, k) {
        assert forall|j: int| k < j < objects.len() implies !is_it(#[trigger] objects[j]) by {}
        lemma_last_where_at(objects, is_it, k);
    }
}

// ---------------------------------------------------------------------------
// Residents.
// ---------------------------------------------------------------------------

/// Each person of a scenario is in the village as their welcome left them.
proof fn lemma_settled(content: ScenarioContent, n: nat, resident: SimId)
    requires
        n <= content.scenario.people@.len(),
        n <= u64::MAX,
        moved_in(content, n) is Ok,
        1 <= resident.0 <= n,
    ensures
        ({
            let village = moved_in(content, n)->Ok_0;
            let id = content.scenario.people@[resident.0 - 1]@;
            let person = last_where(content.people.people@, person_named(id))->0;
            let placement = first_where(content.scenario.placements@, places(id))->0;
            let need = first_where(person.needs@, is_toilet_need());
            let plan = resolved_plan(
                person,
                content.conducts@,
                content.plans@,
                object_index(content.objects.objects@),
            );
            &&& last_where(content.people.people@, person_named(id)) is Some
            &&& first_where(content.scenario.placements@, places(id)) is Some
            &&& village.residents.contains_key(resident)
            &&& village.residents[resident].definition_id == person.id
            &&& village.residents[resident].display_name == person.display_name
            &&& village.residents[resident].position == placement.position
            &&& need matches Some(authored) ==> {
                &&& village.toilet_needs.contains_key(resident)
                &&& village.toilet_needs[resident].value == authored.initial
                &&& village.toilet_needs[resident].decay_per_tick == authored.decay_per_tick
                &&& village.toilet_needs[resident].activate_at == authored.activate_at
                &&& village.toilet_needs[resident].retain_above == authored.retain_above
                &&& village.toilet_needs[resident].recovery == authored.recovery
                &&& village.toilet_needs[resident].urgent_at == authored.urgent_at
                &&& village.autonomous_toilet_plans.contains_key(resident)
                &&& plan == Ok::<ToiletPlan, ContentFault>(
                    village.autonomous_toilet_plans[resident],
                )
            }
            &&& need is None ==> !village.toilet_needs.contains_key(resident)
                && !village.autonomous_toilet_plans.contains_key(resident)
        }),
    decreases n,
{
    let before = moved_in(content, (n - 1) as nat)->Ok_0;
    lemma_moved_in(content, (n - 1) as nat);
    lemma_nobody_beyond(content, (n - 1) as nat);
    if resident.0 < n {
        lemma_settled(content, (n - 1) as nat, resident);
    } else {
        assert(resident == SimId(n as u64));
    }
}

/// Nobody has a need or a plan before they move in.
proof fn lemma_nobody_beyond(content: ScenarioContent, n: nat)
    requires
        n <= content.scenario.people@.len(),
        n <= u64::MAX,
        moved_in(content, n) is Ok,
    ensures
        forall|resident: SimId|
            resident.0 == 0 || resident.0 > n ==> !#[trigger] moved_in(
                content,
                n,
            )->Ok_0.toilet_needs.contains_key(resident),
        forall|resident: SimId|
            resident.0 == 0 || resident.0 > n ==> !#[trigger] moved_in(
                content,
                n,
            )->Ok_0.autonomous_toilet_plans.contains_key(resident),
    decreases n,
{
    if n > 0 {
        lemma_nobody_beyond(content, (n - 1) as nat);
    }
}

/// In the village a scenario opens on, every resident is the person listed at
/// its number, under that person's name and on the tile where the scenario
/// places them first. One whose definition authors a toilet need has exactly
/// that need, at its authored initial value and with its authored decay,
/// thresholds and recovery, and one whose definition authors none has none.
pub proof fn law_residents_are_as_authored(
    content: ScenarioContent,
    resident: SimId,
    k: int,
    j: int,
    i: int,
)
    requires
        opening(content) is Ok,
        1 <= resident.0 <= content.scenario.people@.len(),
        defines_person(content.people.people@, content.scenario.people@[resident.0 - 1]@, k),
        places_person(content.scenario.placements@, content.scenario.people@[resident.0 - 1]@, j),
    ensures
        ({
            let village = opening(content)->Ok_0;
            let person = content.people.people@[k];
            let need = village.toilet_needs[resident];
            let authored = person.needs@[i];
            &&& village.residents.contains_key(resident)
            &&& village.residents[resident].definition_id == person.id
            &&& village.residents[resident].display_name == person.display_name
            &&& village.residents[resident].position == content.scenario.placements@[j].position
            &&& authors_need(person, i) ==> {
                &&& village.toilet_needs.contains_key(resident)
                &&& need.value == authored.initial
                &&& need.decay_per_tick == authored.decay_per_tick
                &&& need.activate_at == authored.activate_at
                &&& need.retain_above == authored.retain_above
                &&& need.recovery == authored.recovery
                &&& need.urgent_at == authored.urgent_at
                &&& village.autonomous_toilet_plans.contains_key(resident)
                &&& resolved_plan(
                    person,
                    content.conducts@,
                    content.plans@,
                    village.objects,
                ) == Ok::<ToiletPlan, ContentFault>(village.autonomous_toilet_plans[resident])
            }
            &&& (forall|a: int|
                0 <= a < person.needs@.len() ==> (#[trigger] person.needs@[a]).kind
                    != NeedKind::Toilet) ==> !village.toilet_needs.contains_key(resident)
                && !village.autonomous_toilet_plans.contains_key(resident)
        }),
{
    let n = content.scenario.people@.len();
    assert(n <= usize::MAX) by {
        assert(content.scenario.people.len() <= usize::MAX);
    }
    let id = content.scenario.people@[resident.0 - 1]@;
    let people = content.people.people@;
    assert forall|b: int| k < b < people.len() implies !person_named(id)(#[trigger] people[b]) by {}
    lemma_last_where_at(people, person_named(id), k);
    let placements = content.scenario.placements@;
    assert forall|b: int| 0 <= b < j implies !places(id)(#[trigger] placements[b]) by {}
    lemma_first_where_at(placements, places(id), j);
    let person = people[k];
    if authors_need(person, i) {
        assert forall|b: int| 0 <= b < i implies !is_toilet_need()(#[trigger] person.needs@[b]) by {}
        lemma_first_where_at(person.needs@, is_toilet_need(), i);
    }
    if forall|a: int|
        0 <= a < person.needs@.len() ==> (#[trigger] person.needs@[a]).kind != NeedKind::Toilet {
        assert forall|b: int| 0 <= b < person.needs@.len() implies !is_toilet_need()(
            #[trigger] person.needs@[b],
        ) by {}
        lemma_first_where_none(person.needs@, is_toilet_need());
    }
    lemma_moved_in(content, n);
    lemma_settled(content, n, resident);
}

/// Whoever is a resident of the village a scenario opens on is defined and
/// placed, and nobody but residents has a need or a plan. The clock starts at
/// the authored hour and minute.
pub proof fn law_only_residents_have_needs(content: ScenarioContent, resident: SimId)
    requires
        opening(content) is Ok,
    ensures
        ({
            let village = opening(content)->Ok_0;
            let listed = 1 <= resident.0 <= content.scenario.people@.len();
            let id = content.scenario.people@[resident.0 - 1]@;
            &&& village.residents.contains_key(resident) <==> listed
            &&& listed ==> (exists|k: int| defines_person(content.people.people@, id, k)) && (
            exists|j: int| places_person(content.scenario.placements@, id, j))
            &&& village.toilet_needs.contains_key(resident) ==> listed
            &&& village.autonomous_toilet_plans.contains_key(resident)
                == village.toilet_needs.contains_key(resident)
            &&& village.start_minute_of_day == content.scenario.start_time_of_day.hour * 60
                + content.scenario.start_time_of_day.minute
            &&& village.objects == object_index(content.objects.objects@)
        }),
{
    let n = content.scenario.people@.len();
    assert(n <= usize::MAX) by {
        assert(content.scenario.people.len() <= usize::MAX);
    }
    let village = opening(content)->Ok_0;
    lemma_moved_in(content, n);
    lemma_nobody_beyond(content, n);
    assert(village.residents.contains_key(resident) <==> 1 <= resident.0 <= n);
    if 1 <= resident.0 <= n {
        lemma_settled(content, n, resident);
        let id = content.scenario.people@[resident.0 - 1]@;
        let k = lemma_last_where_index(content.people.people@, person_named(id));
        assert forall|b: int| k < b < content.people.people@.len() implies (
        #[trigger] content.people.people@[b]).id@ != id by {
            assert(!person_named(id)(content.people.people@[b]));
        }
        assert(defines_person(content.people.people@, id, k));
        let j = lemma_first_where_index(content.scenario.placements@, places(id));
        assert forall|b: int| 0 <= b < j implies (
        #[trigger] content.scenario.placements@[b]).person@ != id by {
            assert(!places(id)(content.scenario.placements@[b]));
        }
        assert(places_person(content.scenario.placements@, id, j));
    }
}

// ---------------------------------------------------------------------------
// Scenarios that do not open.
// ---------------------------------------------------------------------------

/// Whether a scenario places its person at `n` on a tile.
pub open spec fn has_home(content: ScenarioContent, n: int, tile: TilePosition) -> bool {
    exists|j: int|
        #![trigger content.scenario.placements@[j]]
        places_person(content.scenario.placements@, content.scenario.people@[n]@, j)
            && content.scenario.placements@[j].position == tile
}

/// Whether a person can live with their needs: they author none, or a plan is
/// found for it.
pub open spec fn can_live(content: ScenarioContent, person: PersonDefinition) -> bool {
    (exists|i: int| authors_need(person, i)) ==> resolved_plan(
        person,
        content.conducts@,
        content.plans@,
        object_index(content.objects.objects@),
    ) is Ok
}

/// Whether a scenario's person at `n` is defined, is placed on a walkable tile
/// where nobody listed before is, and can live with their needs.
pub open spec fn settles(content: ScenarioContent, n: int) -> bool {
    &&& exists|k: int|
        #![trigger content.people.people@[k]]
        defines_person(content.people.people@, content.scenario.people@[n]@, k) && can_live(
            content,
            content.people.people@[k],
        )
    &&& exists|tile: TilePosition| #[trigger]
        has_home(content, n, tile) && on_open_floor(content.map, tile) && forall|m: int|
            0 <= m < n ==> !has_home(content, m, tile)
}

/// Whether a scenario is about the loaded map and names loaded objects only.
pub open spec fn is_furnished(content: ScenarioContent) -> bool {
    &&& content.scenario.map@ == content.map.id@
    &&& forall|i: int| 0 <= i < content.scenario.objects@.len() ==> is_loaded(content, i)
}

/// Whether the object that a scenario names at `i` is loaded.
pub open spec fn is_loaded(content: ScenarioContent, i: int) -> bool {
    exists|j: int|
        0 <= j < content.objects.objects@.len() && (#[trigger] content.objects.objects@[j]).id@
            == content.scenario.objects@[i]@
}

proof fn lemma_person_at(content: ScenarioContent, id: Seq<char>) -> (k: int)
    ensures
        match last_where(content.people.people@, person_named(id)) {
            Some(person) => defines_person(content.people.people@, id, k)
                && content.people.people@[k] == person,
            None => forall|b: int| !defines_person(content.people.people@, id, b),
        },
        forall|b: int|
            defines_person(content.people.people@, id, b) ==> last_where(
                content.people.people@,
                person_named(id),
            ) == Some(content.people.people@[b]),
{
    let people = content.people.people@;
    let is_it = person_named(id);
    assert forall|b: int| defines_person(people, id, b) implies last_where(people, is_it) == Some(
        people[b],
    ) by {
        assert forall|c: int| b < c < people.len() implies !is_it(#[trigger] people[c]) by {}
        lemma_last_where_at(people, is_it, b);
    }
    if last_where(people, is_it) is Some {
        let k = lemma_last_where_index(people, is_it);
        assert forall|b: int| k < b < people.len() implies (#[trigger] people[b]).id@ != id by {
            assert(!is_it(people[b]));
        }
        k
    } else {
        0
    }
}

proof fn lemma_placement_at(content: ScenarioContent, id: Seq<char>) -> (k: int)
    ensures
        match first_where(content.scenario.placements@, places(id)) {
            Some(placement) => places_person(content.scenario.placements@, id, k)
                && content.scenario.placements@[k] == placement,
            None => forall|b: int| !places_person(content.scenario.placements@, id, b),
        },
        forall|b: int|
            places_person(content.scenario.placements@, id, b) ==> first_where(
                content.scenario.placements@,
                places(id),
            ) == Some(content.scenario.placements@[b]),
{
    let placements = content.scenario.placements@;
    let is_it = places(id);
    assert forall|b: int| places_person(placements, id, b) implies first_where(placements, is_it)
        == Some(placements[b]) by {
        assert forall|c: int| 0 <= c < b implies !is_it(#[trigger] placements[c]) by {}
        lemma_first_where_at(placements, is_it, b);
    }
    if first_where(placements, is_it) is Some {
        let k = lemma_first_where_index(placements, is_it);
        assert forall|b: int| 0 <= b < k implies (#[trigger] placements[b]).person@ != id by {
            assert(!is_it(placements[b]));
        }
        k
    } else {
        0
    }
}

proof fn lemma_need_at(person: PersonDefinition)
    ensures
        first_where(person.needs@, is_toilet_need()) is Some <==> exists|i: int|
            authors_need(person, i),
{
    let is_it = is_toilet_need();
    if first_where(person.needs@, is_it) is Some {
        let i = lemma_first_where_index(person.needs@, is_it);
        assert forall|b: int| 0 <= b < i implies (#[trigger] person.needs@[b]).kind
            != NeedKind::Toilet by {
            assert(!is_it(person.needs@[b]));
        }
        assert(authors_need(person, i));
    }
    if exists|i: int| authors_need(person, i) {
        let i = choose|i: int| authors_need(person, i);
        lemma_first_where_finds(person.needs@, is_it, i);
    }
}

/// A tile is held by whoever of those that moved in has their home there.
proof fn lemma_held_homes(content: ScenarioContent, n: nat, tile: TilePosition)
    requires
        n <= content.scenario.people@.len(),
        n <= u64::MAX,
        moved_in(content, n) is Ok,
    ensures
        ({
            let village = moved_in(content, n)->Ok_0;
            &&& village.occupancy.contains_key(tile) <==> exists|m: int|
                0 <= m < n && has_home(content, m, tile)
            &&& forall|m: int|
                0 <= m < n && has_home(content, m, tile) ==> village.occupancy[tile] == SimId(
                    (m + 1) as u64,
                ) && village.residents[village.occupancy[tile]].definition_id@ == (
                #[trigger] content.scenario.people@[m])@
        }),
{
    let village = moved_in(content, n)->Ok_0;
    lemma_moved_in(content, n);
    assert forall|m: int| 0 <= m < n && has_home(content, m, tile) implies
        village.occupancy.contains_key(tile) && village.occupancy[tile] == SimId((m + 1) as u64)
        && village.residents[village.occupancy[tile]].definition_id@ == (
    #[trigger] content.scenario.people@[m])@ by {
        let resident = SimId((m + 1) as u64);
        lemma_settled(content, n, resident);
        let id = content.scenario.people@[m]@;
        lemma_placement_at(content, id);
        assert(village.residents[resident].position == tile);
    }
    if village.occupancy.contains_key(tile) {
        let resident = village.occupancy[tile];
        assert(village.position_of(resident) == Some(tile));
        assert(1 <= resident.0 <= n);
        lemma_settled(content, n, resident);
        let m = resident.0 - 1;
        let id = content.scenario.people@[m]@;
        let j = lemma_placement_at(content, id);
        assert(has_home(content, m, tile));
    }
    if exists|m: int| 0 <= m < n && has_home(content, m, tile) {
        let m = choose|m: int| 0 <= m < n && has_home(content, m, tile);
        assert(content.scenario.people@[m] == content.scenario.people@[m]);
    }
}

/// People move in for as long as each settles.
proof fn lemma_settling(content: ScenarioContent, n: nat)
    requires
        n <= content.scenario.people@.len(),
        n <= u64::MAX,
    ensures
        moved_in(content, n) is Ok <==> forall|m: int| 0 <= m < n ==> settles(content, m),
    decreases n,
{
    if n > 0 {
        let last = n - 1;
        lemma_settling(content, last as nat);
        if moved_in(content, last as nat) is Ok {
            let village = moved_in(content, last as nat)->Ok_0;
            lemma_moved_in(content, last as nat);
            lemma_welcome(content, last as nat);
            if moved_in(content, n) is Ok {
                assert forall|m: int| 0 <= m < n implies settles(content, m) by {}
            }
        }
    }
}

/// A welcome succeeds exactly where the person settles, and fails for the first
/// reason that they do not.
proof fn lemma_welcome(content: ScenarioContent, n: nat)
    requires
        n < content.scenario.people@.len(),
        n < u64::MAX,
        moved_in(content, n) is Ok,
    ensures
        moved_in(content, n + 1) is Ok <==> settles(content, n as int),
{
    let village = moved_in(content, n)->Ok_0;
    lemma_moved_in(content, n);
    let id = content.scenario.people@[n as int]@;
    let k = lemma_person_at(content, id);
    let j = lemma_placement_at(content, id);
    let placements = content.scenario.placements@;
    assert forall|b: int| places_person(placements, id, b) implies b == j by {
        if b < j {
            assert(placements[b].person@ == id);
        } else if j < b {
            assert(placements[j].person@ == id);
        }
    }
    if last_where(content.people.people@, person_named(id)) is Some && first_where(
        placements,
        places(id),
    ) is Some {
        let person = content.people.people@[k];
        let tile = placements[j].position;
        law_walkable_tiles_lie_on_open_floor(content.map, tile);
        lemma_held_homes(content, n, tile);
        lemma_need_at(person);
        assert(has_home(content, n as int, tile));
        assert forall|b: int|
            defines_person(content.people.people@, id, b) implies content.people.people@[b]
            == person by {}
        if settles(content, n as int) {
            let other = choose|other: TilePosition| #[trigger]
                has_home(content, n as int, other) && on_open_floor(content.map, other) && forall|
                    m: int,
                |
                    0 <= m < n ==> !has_home(content, m, other);
            assert(other == tile);
        }
        if moved_in(content, n + 1) is Ok {
            assert(can_live(content, person));
            assert(settles(content, n as int));
        }
    } else {
        if settles(content, n as int) {
            let b = choose|b: int|
                #![trigger content.people.people@[b]]
                defines_person(content.people.people@, id, b) && can_live(
                    content,
                    content.people.people@[b],
                );
            assert(defines_person(content.people.people@, id, b));
            let tile = choose|tile: TilePosition| #[trigger]
                has_home(content, n as int, tile) && on_open_floor(content.map, tile) && forall|
                    m: int,
                |
                    0 <= m < n ==> !has_home(content, m, tile);
            assert(has_home(content, n as int, tile));
        }
    }
}

proof fn lemma_furnished(content: ScenarioContent)
    ensures
        content.scenario.map@ == content.map.id@ ==> (is_furnished(content) <==> first_where(
            content.scenario.objects@,
            names_no_object(object_index(content.objects.objects@)),
        ) is None),
        forall|i: int| #[trigger]
            is_loaded(content, i) <==> object_index(content.objects.objects@).contains_key(
                content.scenario.objects@[i]@,
            ),
{
    let names = content.scenario.objects@;
    let index = object_index(content.objects.objects@);
    let missing = names_no_object(index);
    assert forall|i: int| #[trigger] is_loaded(content, i) <==> index.contains_key(
        names[i]@,
    ) by {
        law_objects_are_known_by_their_last_definition(content.objects.objects@, names[i]@, 0);
    }
    if first_where(names, missing) is Some {
        let i = lemma_first_where_index(names, missing);
        assert(!is_loaded(content, i));
    } else {
        assert forall|i: int| 0 <= i < names.len() implies is_loaded(content, i) by {
            if !is_loaded(content, i) {
                assert(missing(names[i]));
                lemma_first_where_finds(names, missing, i);
            }
        }
    }
}

/// A scenario opens exactly where it is about the loaded map, every object it
/// names is loaded, and every person it lists settles.
pub proof fn law_scenario_opens_exactly_where_everyone_settles(content: ScenarioContent)
    ensures
        opening(content) is Ok <==> is_furnished(content) && forall|n: int|
            0 <= n < content.scenario.people@.len() ==> settles(content, n),
{
    let n = content.scenario.people@.len();
    assert(n <= usize::MAX) by {
        assert(content.scenario.people.len() <= usize::MAX);
    }
    lemma_furnished(content);
    lemma_settling(content, n);
}

/// A scenario about another map is refused for that, naming both; one that
/// names objects that are not loaded is refused for the first of them.
pub proof fn law_unfurnished_scenario_is_refused(content: ScenarioContent, i: int)
    ensures
        content.scenario.map@ != content.map.id@ ==> opening(content) == Err::<
            Village,
            ContentFault,
        >(ContentFault::WrongMap { expected: content.scenario.map@, actual: content.map.id@ }),
        content.scenario.map@ == content.map.id@ && 0 <= i < content.scenario.objects@.len()
            && !is_loaded(content, i) && (forall|j: int| 0 <= j < i ==> is_loaded(content, j))
            ==> opening(content) == Err::<Village, ContentFault>(
            ContentFault::MissingObject(content.scenario.objects@[i]@),
        ),
{
    lemma_furnished(content);
    let names = content.scenario.objects@;
    let missing = names_no_object(object_index(content.objects.objects@));
    if 0 <= i < names.len() && !is_loaded(content, i) && (forall|j: int|
        0 <= j < i ==> is_loaded(content, j)) {
        assert forall|j: int| 0 <= j < i implies !missing(#[trigger] names[j]) by {
            assert(is_loaded(content, j));
        }
        assert(missing(names[i]));
        lemma_first_where_at(names, missing, i);
    }
}

/// A scenario is refused for the first person it lists who does not settle: as
/// missing where nobody defines them, otherwise as missing a place where none
/// is authored, otherwise for a place that is not walkable, otherwise for the
/// person listed before who has that place, and otherwise for what keeps their
/// plan from being found.
pub proof fn law_scenario_is_refused_for_its_first_unsettled_person(
    content: ScenarioContent,
    n: int,
    k: int,
    j: int,
    m: int,
)
    requires
        is_furnished(content),
        0 <= n < content.scenario.people@.len(),
        forall|b: int| 0 <= b < n ==> settles(content, b),
        !settles(content, n),
    ensures
        ({
            let id = content.scenario.people@[n]@;
            let people = content.people.people@;
            let placements = content.scenario.placements@;
            let tile = placements[j].position;
            let defined = defines_person(people, id, k);
            let placed = defined && places_person(placements, id, j);
            &&& opening(content) is Err
            &&& (forall|b: int| 0 <= b < people.len() ==> (#[trigger] people[b]).id@ != id)
                ==> opening(content)->Err_0 == ContentFault::MissingPerson(id)
            &&& defined && (forall|b: int|
                0 <= b < placements.len() ==> (#[trigger] placements[b]).person@ != id)
                ==> opening(content)->Err_0 == ContentFault::MissingPlacement(id)
            &&& placed && !on_open_floor(content.map, tile) ==> opening(content)->Err_0
                == ContentFault::InvalidPlacement { person: id, position: tile }
            &&& placed && on_open_floor(content.map, tile) && 0 <= m < n && has_home(
                content,
                m,
                tile,
            ) ==> opening(content)->Err_0 == ContentFault::DuplicatePlacement {
                person: id,
                occupied_by: content.scenario.people@[m]@,
                position: tile,
            }
            &&& placed && on_open_floor(content.map, tile) && (forall|b: int|
                0 <= b < n ==> !has_home(content, b, tile)) ==> resolved_plan(
                people[k],
                content.conducts@,
                content.plans@,
                object_index(content.objects.objects@),
            ) == Err::<ToiletPlan, ContentFault>(opening(content)->Err_0)
        }),
{
    let total = content.scenario.people@.len();
    assert(total <= usize::MAX) by {
        assert(content.scenario.people.len() <= usize::MAX);
    }
    lemma_furnished(content);
    lemma_settling(content, n as nat);
    lemma_welcome(content, n as nat);
    lemma_moved_in(content, n as nat);
    lemma_moved_in_fails(content, (n + 1) as nat, total);
    let id = content.scenario.people@[n]@;
    let people = content.people.people@;
    let placements = content.scenario.placements@;
    let tile = placements[j].position;
    lemma_person_at(content, id);
    lemma_placement_at(content, id);
    if defines_person(people, id, k) {
        lemma_need_at(people[k]);
    }
    if places_person(placements, id, j) {
        law_walkable_tiles_lie_on_open_floor(content.map, tile);
        lemma_held_homes(content, n as nat, tile);
        if 0 <= m < n && has_home(content, m, tile) {
            assert(content.scenario.people@[m] == content.scenario.people@[m]);
        }
    }
}

} // verus!
