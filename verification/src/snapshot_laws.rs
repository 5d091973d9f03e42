//! What a client's snapshot promises.

use vstd::prelude::*;

use crate::clock::law_time_is_minutes_past_midnight;
use crate::events::PlayerCommand;
use crate::identity::DefinitionId;
use crate::identity::SimId;
use crate::ord_map::in_order;
use crate::ord_map::lemma_in_order_lists;
use crate::ord_map::OrdKey;
use crate::snapshot::ClientPlayerTaskState;
use crate::snapshot::CottageSnapshot;
use crate::state::PlayerTaskState;
use crate::state::QueuedPlayerTask;
use crate::village::Village;

verus! {

/// Whether a snapshot shows an object of this name.
pub open spec fn shows_object(shown: CottageSnapshot, name: Seq<char>) -> bool {
    exists|i: int| 0 <= i < shown.objects@.len() && (#[trigger] shown.objects@[i]).id@ == name
}

/// Whether a snapshot shows this resident.
pub open spec fn shows_id(shown: CottageSnapshot, id: SimId) -> bool {
    exists|i: int| 0 <= i < shown.residents@.len() && (#[trigger] shown.residents@[i]).id == id
}

impl Village {
    /// A snapshot shows every object once, in ascending order of the objects'
    /// own names.
    pub proof fn law_snapshot_objects_ascend(self, shown: CottageSnapshot)
        requires
            self.valid(),
            self.shows(shown),
        ensures
            forall|i: int, j: int|
                #![trigger shown.objects@[i], shown.objects@[j]]
                0 <= i < j < shown.objects@.len() ==> DefinitionId::before(
                    shown.objects@[i].id@,
                    shown.objects@[j].id@,
                ),
            forall|name: Seq<char>| #[trigger]
                shows_object(shown, name) <==> self.objects.contains_key(name),
    {
        let names = in_order::<DefinitionId>(self.objects.dom());
        lemma_in_order_lists::<DefinitionId>(self.objects.dom());
        assert forall|i: int| 0 <= i < shown.objects@.len() implies (
        #[trigger] shown.objects@[i]).id@ == names[i] by {
            assert(names.contains(names[i]));
            assert(self.objects.contains_key(names[i]));
            assert(shown.objects@[i].reads_as(self.objects[names[i]]));
        }
        assert forall|name: Seq<char>| #[trigger] shows_object(shown, name)
            <==> self.objects.contains_key(name) by {
            if shows_object(shown, name) {
                let i = choose|i: int|
                    0 <= i < shown.objects@.len() && (#[trigger] shown.objects@[i]).id@ == name;
                assert(names.contains(names[i]));
            }
            if self.objects.contains_key(name) {
                assert(names.contains(name));
                let i = names.index_of(name);
                assert(shown.objects@[i].id@ == name);
            }
        }
    }

    /// A snapshot shows every resident once, in ascending `SimId` order, where
    /// it stands, with its need, its intention and its orders in progress, head
    /// first.
    pub proof fn law_snapshot_residents_ascend(self, shown: CottageSnapshot)
        requires
            self.valid(),
            self.shows(shown),
        ensures
            forall|i: int, j: int|
                #![trigger shown.residents@[i], shown.residents@[j]]
                0 <= i < j < shown.residents@.len() ==> shown.residents@[i].id.0
                    < shown.residents@[j].id.0,
            forall|id: SimId| #[trigger]
                shows_id(shown, id) <==> self.residents.contains_key(id),
            forall|i: int|
                #![trigger shown.residents@[i]]
                0 <= i < shown.residents@.len() ==> {
                    let resident = shown.residents@[i];
                    &&& self.position_of(resident.id) == Some(resident.position)
                    &&& self.need_of(resident.id) == resident.toilet_need
                    &&& resident.autonomous_intention is Some
                        <==> self.autonomous_toilet_intentions.contains(resident.id)
                    &&& resident.player_tasks@ == self.shown_tasks(resident.id)
                },
    {
        let ids = in_order::<SimId>(self.residents.dom());
        lemma_in_order_lists::<SimId>(self.residents.dom());
        assert forall|i: int| 0 <= i < shown.residents@.len() implies (
        #[trigger] shown.residents@[i]).id == ids[i] && self.residents.contains_key(ids[i]) by {
            assert(ids.contains(ids[i]));
            assert(self.shows_resident(ids[i], shown.residents@[i]));
        }
        assert forall|id: SimId| #[trigger] shows_id(shown, id) <==> self.residents.contains_key(
            id,
        ) by {
            if self.residents.contains_key(id) {
                assert(ids.contains(id));
                let i = ids.index_of(id);
                assert(shown.residents@[i].id == id);
            }
        }
        assert forall|i: int, j: int|
            #![trigger shown.residents@[i], shown.residents@[j]]
            0 <= i < j < shown.residents@.len() implies shown.residents@[i].id.0
            < shown.residents@[j].id.0 by {
            assert(SimId::before(ids[i], ids[j]));
        }
    }

    /// A snapshot shows the tick, the time of day as minutes past midnight
    /// since the authored start, one for each tick, and every storey as
    /// authored.
    pub proof fn law_snapshot_shows_the_clock_and_the_floors(self, shown: CottageSnapshot, i: int)
        requires
            self.shows(shown),
            0 <= i < shown.floors@.len(),
        ensures
            shown.tick == self.tick,
            shown.time_of_day.hour < 24,
            shown.time_of_day.minute < 60,
            shown.time_of_day.hour * 60 + shown.time_of_day.minute == (self.start_minute_of_day
                + self.tick) % 1440,
            !shown.household_knows_pargeter_custom,
            shown.floors@.len() == self.map.floors@.len(),
            shown.floors@[i].floor == self.map.floors@[i].floor,
            shown.floors@[i].width == self.map.floors@[i].width,
            shown.floors@[i].height == self.map.floors@[i].height,
            shown.floors@[i].blocked@ == self.map.floors@[i].blocked@,
    {
        law_time_is_minutes_past_midnight(self.start_minute_of_day + self.tick);
        assert(shown.floors@[i].reads_as(self.map.floors@[i]));
    }

    /// Every object is shown as it is loaded under its own name.
    pub proof fn law_snapshot_shows_objects_as_loaded(self, shown: CottageSnapshot, i: int)
        requires
            self.valid(),
            self.shows(shown),
            0 <= i < shown.objects@.len(),
        ensures
            ({
                let object = shown.objects@[i];
                let loaded = self.objects[object.id@];
                &&& self.objects.contains_key(object.id@)
                &&& object.object_type == loaded.object_type
                &&& object.position == loaded.position
                &&& object.slots@ == loaded.slots@
                &&& object.affordances@ == loaded.affordances@
            }),
    {
        let names = in_order::<DefinitionId>(self.objects.dom());
        lemma_in_order_lists::<DefinitionId>(self.objects.dom());
        assert(names.contains(names[i]));
        assert(self.objects.contains_key(names[i]));
        assert(shown.objects@[i].reads_as(self.objects[names[i]]));
    }

    /// Every resident is shown under its own name, where it stands, with the
    /// need it has and the intention it has, and with all of its orders, head
    /// first, each as queued, active or paused as it is.
    pub proof fn law_snapshot_shows_residents_as_they_are(
        self,
        shown: CottageSnapshot,
        i: int,
        k: int,
    )
        requires
            self.valid(),
            self.shows(shown),
            0 <= i < shown.residents@.len(),
        ensures
            ({
                let resident = shown.residents@[i];
                let id = resident.id;
                let queue = self.player_task_queue[id];
                let order = resident.player_tasks@[k];
                let state = self.player_tasks[queue[k].task];
                &&& self.residents.contains_key(id)
                &&& resident.definition_id == self.residents[id].definition_id
                &&& resident.display_name == self.residents[id].display_name
                &&& resident.position == self.residents[id].position
                &&& resident.toilet_need is Some <==> self.toilet_needs.contains_key(id)
                &&& resident.toilet_need is Some ==> resident.toilet_need->0
                    == self.toilet_needs[id].value
                &&& resident.autonomous_intention is Some
                    <==> self.autonomous_toilet_intentions.contains(id)
                &&& resident.recent_perception is None
                &&& !resident.attending_quiz
                &&& !self.player_task_queue.contains_key(id) ==> resident.player_tasks@.len() == 0
                &&& self.player_task_queue.contains_key(id) ==> resident.player_tasks@.len()
                    == queue.len() && (0 <= k < queue.len() ==> {
                    &&& order.id == queue[k].task
                    &&& order.state == ClientPlayerTaskState::Queued <==> state
                        == PlayerTaskState::Queued
                    &&& order.state == ClientPlayerTaskState::Active <==> state
                        == PlayerTaskState::Active
                    &&& order.state == ClientPlayerTaskState::Paused <==> state
                        == PlayerTaskState::Paused
                })
            }),
    {
        let ids = in_order::<SimId>(self.residents.dom());
        lemma_in_order_lists::<SimId>(self.residents.dom());
        assert(ids.contains(ids[i]));
        assert(self.shows_resident(ids[i], shown.residents@[i]));
        let id = ids[i];
        if self.player_task_queue.contains_key(id) {
            let queue = self.player_task_queue[id];
            assert forall|j: int| 0 <= j < queue.len() implies self.is_live_order(
                (#[trigger] queue[j]).task,
            ) by {
                assert(self.player_task_queue[id][j] == queue[j]);
            }
            self.lemma_shown_of(queue);
            if 0 <= k < queue.len() {
                assert(self.is_live_order(queue[k].task));
                assert(Some(self.shown_of(queue)[k]) == self.shown_task(queue[k].task));
            }
        }
    }

    /// Residents are listed by ascending `SimId`, each with who it is.
    pub proof fn law_residents_are_listed_by_id(self, i: int)
        requires
            self.valid(),
            0 <= i < self.resident_list().len(),
        ensures
            self.residents.contains_key(self.resident_list()[i].0),
            self.resident_list()[i].1 == self.residents[self.resident_list()[i].0].definition_id,
            forall|j: int|
                0 <= j < i ==> (#[trigger] self.resident_list()[j]).0.0
                    < self.resident_list()[i].0.0,
            forall|id: SimId| #[trigger]
                self.residents.contains_key(id) ==> exists|j: int|
                    0 <= j < self.resident_list().len() && (#[trigger] self.resident_list()[j]).0
                        == id,
    {
        let ids = in_order::<SimId>(self.residents.dom());
        lemma_in_order_lists::<SimId>(self.residents.dom());
        assert(ids.contains(ids[i]));
        assert forall|j: int| 0 <= j < i implies (#[trigger] self.resident_list()[j]).0.0
            < self.resident_list()[i].0.0 by {
            assert(SimId::before(ids[j], ids[i]));
        }
        assert forall|id: SimId| #[trigger] self.residents.contains_key(id) implies exists|j: int|
            0 <= j < self.resident_list().len() && (#[trigger] self.resident_list()[j]).0
                == id by {
            assert(ids.contains(id));
            let j = ids.index_of(id);
            assert(self.resident_list()[j].0 == id);
        }
    }

    proof fn lemma_shown_of_frame(self, next: Village, queue: Seq<QueuedPlayerTask>)
        requires
            next.player_tasks == self.player_tasks,
        ensures
            next.shown_of(queue) == self.shown_of(queue),
        decreases queue.len(),
    {
        if queue.len() > 0 {
            self.lemma_shown_of_frame(next, queue.drop_last());
        }
    }

    /// A submitted command shows nowhere until a tick has validated it.
    pub proof fn law_submission_is_not_shown(self, command: PlayerCommand, shown: CottageSnapshot)
        ensures
            self.shows(shown) <==> self.submit(command).shows(shown),
    {
        let next = self.submit(command);
        assert forall|id: SimId| #[trigger] next.shown_tasks(id) == self.shown_tasks(id) by {
            self.lemma_shown_of_frame(next, self.player_task_queue[id]);
        }
        let ids = in_order::<SimId>(self.residents.dom());
        assert forall|i: int| 0 <= i < shown.residents@.len() implies self.shows_resident(
            ids[i],
            #[trigger] shown.residents@[i],
        ) == next.shows_resident(ids[i], shown.residents@[i]) by {
            assert(next.shown_tasks(ids[i]) == self.shown_tasks(ids[i]));
        }
    }
}

} // verus!
