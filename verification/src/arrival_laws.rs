//! What a scenario promises once it opens.

use vstd::prelude::*;

use crate::arrival::empty_village;
use crate::arrival::moved_in;
use crate::arrival::object_index;
use crate::arrival::object_named;
use crate::arrival::opening;
use crate::arrival::person_named;
use crate::arrival::places;
use crate::content::Capability;
use crate::content::ScenarioContent;
use crate::content::SmartObjectDefinition;
use crate::content::TilePosition;
use crate::identity::PlayerTaskId;
use crate::identity::SimId;
use crate::listing::first_where;
use crate::listing::last_where;
use crate::state::ActiveObjectUse;
use crate::state::GoToView;
use crate::state::PlayerTaskState;
use crate::state::QueuedPlayerTask;
use crate::village::Village;

verus! {

impl Village {
    /// Nobody does anything, and nothing has happened yet.
    pub open spec fn quiet(self) -> bool {
        &&& self.tick == 0
        &&& self.go_to == Map::<SimId, GoToView>::empty()
        &&& self.use_requests.len() == 0
        &&& self.active_object_uses == Map::<SimId, ActiveObjectUse>::empty()
        &&& self.autonomous_toilet_intentions == Set::<SimId>::empty()
        &&& self.urgent_toilet_intentions == Set::<SimId>::empty()
        &&& self.inbox.len() == 0
        &&& self.player_tasks == Map::<PlayerTaskId, PlayerTaskState>::empty()
        &&& self.player_task_queue == Map::<SimId, Seq<QueuedPlayerTask>>::empty()
        &&& self.portal_occupancy == Map::<Seq<char>, SimId>::empty()
        &&& self.object_slot_claims == Map::<(Seq<char>, Seq<char>), SimId>::empty()
        &&& self.capability_claims == Map::<
            (SimId, Capability),
            Seq<char>,
        >::empty()
        &&& self.ledger.len() == 0
        &&& self.ingest_from == 0
        &&& self.ingest_to == 0
    }

    /// The residents are numbered from one to `n`.
    pub open spec fn numbered_to(self, n: int) -> bool {
        forall|resident: SimId| #[trigger]
            self.residents.contains_key(resident) <==> 1 <= resident.0 <= n
    }
}

/// The objects of a scenario are finitely many.
proof fn lemma_object_index_finite(objects: Seq<SmartObjectDefinition>)
    ensures
        object_index(objects).dom().finite(),
    decreases objects.len(),
{
    if objects.len() == 0 {
        assert(object_index(objects).dom() =~= Set::<Seq<char>>::empty());
    } else {
        let rest = objects.drop_last();
        lemma_object_index_finite(rest);
        assert(object_index(objects).dom() =~= object_index(rest).dom().insert(
            objects.last().id@,
        ));
    }
}

/// However many people have moved in, the village is valid, quiet and
/// numbered, and everyone holds their tile.
pub(crate) proof fn lemma_moved_in(content: ScenarioContent, n: nat)
    requires
        n <= content.scenario.people@.len(),
        n <= u64::MAX,
        moved_in(content, n) is Ok,
    ensures
        moved_in(content, n)->Ok_0.valid(),
        moved_in(content, n)->Ok_0.quiet(),
        moved_in(content, n)->Ok_0.stands_apart(),
        moved_in(content, n)->Ok_0.numbered_to(n as int),
        moved_in(content, n)->Ok_0.seed == content.scenario.seed,
        moved_in(content, n)->Ok_0.start_minute_of_day
            == content.scenario.start_time_of_day.minutes(),
        moved_in(content, n)->Ok_0.map == content.map,
        moved_in(content, n)->Ok_0.objects == object_index(content.objects.objects@),
        forall|resident: SimId| #[trigger]
            moved_in(content, n)->Ok_0.residents.contains_key(resident) ==> moved_in(
                content,
                n,
            )->Ok_0.residents[resident].definition_id@ == content.scenario.people@[resident.0
                - 1]@ && content.map.spec_is_walkable(
                moved_in(content, n)->Ok_0.residents[resident].position,
            ),
    decreases n,
{
    if n == 0 {
        let village = empty_village(content);
        lemma_object_index_finite(content.objects.objects@);
        assert forall|name: Seq<char>| #[trigger] village.objects.contains_key(name) implies
            village.objects[name].id@ == name by {
            lemma_last_where_matches(content.objects.objects@, object_named(name));
        }
        assert(village.valid());
    } else {
        lemma_moved_in(content, (n - 1) as nat);
        let before = moved_in(content, (n - 1) as nat)->Ok_0;
        let resident = SimId(n as u64);
        let id = content.scenario.people@[n - 1]@;
        let person = last_where(content.people.people@, person_named(id))->0;
        let placement = first_where(
            content.scenario.placements@,
            places(id),
        )->0;
        assert(!before.residents.contains_key(resident));
        let spawned = before.spawn(resident, person, placement.position);
        before.lemma_spawn_sound(resident, person, placement.position);
        spawned.lemma_equip_sound(resident, person, content);
        let next = spawned.equip(resident, person, content)->Ok_0;
        lemma_last_where_matches(content.people.people@, person_named(id));
        assert(next.tiles_kept()) by {
            assert forall|tile: TilePosition| #[trigger]
                next.occupancy.contains_key(tile) implies next.position_of(next.occupancy[tile])
                == Some(tile) by {
                if tile != placement.position {
                    assert(before.occupancy.contains_key(tile));
                    assert(before.position_of(before.occupancy[tile]) == Some(tile));
                }
            }
        }
        assert(next.stands_apart()) by {
            assert forall|r: SimId| #[trigger] next.residents.contains_key(r) implies ({
                let tile = next.residents[r].position;
                next.occupancy.contains_key(tile) && next.occupancy[tile] == r
            }) by {
                if r != resident {
                    assert(before.residents.contains_key(r));
                    assert(before.occupancy.contains_key(before.residents[r].position));
                }
            }
        }
        assert(next.valid());
        assert(next.numbered_to(n as int)) by {
            assert forall|r: SimId| #[trigger] next.residents.contains_key(r) <==> 1 <= r.0
                <= n by {
                assert(before.residents.contains_key(r) <==> 1 <= r.0 <= n - 1);
            }
        }
    }
}

/// A last match matches.
proof fn lemma_last_where_matches<T>(s: Seq<T>, p: spec_fn(T) -> bool)
    ensures
        last_where(s, p) is Some ==> p(last_where(s, p)->0),
    decreases s.len(),
{
    if s.len() > 0 && !p(s.last()) {
        lemma_last_where_matches(s.drop_last(), p);
    }
}

/// A scenario opens on a valid village at tick zero, with nothing done and
/// nothing published. Its residents are the people it lists, numbered from one
/// in that order, each on a walkable tile that nobody else stands on.
pub proof fn law_scenario_opens_on_a_valid_village(content: ScenarioContent)
    requires
        opening(content) is Ok,
    ensures
        ({
            let village = opening(content)->Ok_0;
            &&& village.valid()
            &&& village.quiet()
            &&& village.stands_apart()
            &&& village.numbered_to(content.scenario.people@.len() as int)
            &&& village.seed == content.scenario.seed
            &&& village.start_minute_of_day == content.scenario.start_time_of_day.minutes()
            &&& village.map == content.map
            &&& forall|resident: SimId| #[trigger]
                village.residents.contains_key(resident)
                    ==> village.residents[resident].definition_id@
                    == content.scenario.people@[resident.0 - 1]@ && content.map.spec_is_walkable(
                    village.residents[resident].position,
                )
        }),
{
    assert(content.scenario.people@.len() <= usize::MAX) by {
        assert(content.scenario.people.len() <= usize::MAX);
    }
    lemma_moved_in(content, content.scenario.people@.len());
}

} // verus!
