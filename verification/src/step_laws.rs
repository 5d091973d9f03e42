//! What a walk does with each step, and who gets a contested tile.

use vstd::prelude::*;

use crate::arbitration::ActionBand;
use crate::content::TilePosition;
use crate::events::WorldEvent;
use crate::events::WorldEventKind;
use crate::ground::joined_by_portal;
use crate::ground::law_portal_between_is_the_first_that_joins;
use crate::ground::law_steps_lead_to_neighbours;
use crate::ground::law_walkable_tiles_lie_on_open_floor;
use crate::ground::neighbours_tile;
use crate::ground::on_open_floor;
use crate::identity::PlayerTaskId;
use crate::identity::SimId;
use crate::ord_map::in_order;
use crate::ord_map::lemma_in_order_lists;
use crate::ord_map::lemma_listing_unique;
use crate::route::law_route_exists_iff_reachable;
use crate::route::law_route_is_a_walk;
use crate::route::Journey;
use crate::state::GoToView;
use crate::state::PlayerTaskState;
use crate::state::QueuedPlayerTask;
use crate::state::Resident;
use crate::upkeep::lemma_filter_is_remove;
use crate::village::Village;

verus! {

impl Village {
    // -- Neighbours --------------------------------------------------------

    /// The tile that a walking resident steps to next neighbours the tile it
    /// stands on, and so does the far end of the portal it is inside.
    pub proof fn law_next_tile_is_a_neighbour(self, resident: SimId)
        requires
            self.valid(),
            self.go_to.contains_key(resident),
        ensures
            ({
                let walk = self.go_to[resident];
                let here = self.residents[resident].position;
                &&& walk.traversal is None && 0 <= walk.next_step < walk.path.len()
                    ==> neighbours_tile(self.map, here, walk.path[walk.next_step])
                &&& walk.traversal matches Some(traversal) ==> joined_by_portal(
                    self.map,
                    here,
                    traversal.destination,
                )
            }),
    {
        let walk = self.go_to[resident];
        let here = self.residents[resident].position;
        assert(self.walk_kept(resident, walk));
        if 0 <= walk.next_step < walk.path.len() {
            let next = walk.path[walk.next_step];
            assert(self.map.steps_to(walk.path[walk.next_step - 1], next));
            law_steps_lead_to_neighbours(self.map, here, next);
        }
        if walk.traversal is Some {
            law_portal_between_is_the_first_that_joins(
                self.map,
                here,
                walk.traversal->0.destination,
            );
        }
    }

    /// In one tick a resident stays where it is, or comes to a neighbour of the
    /// tile it stands on.
    pub proof fn law_tick_moves_residents_to_neighbours(self, resident: SimId)
        requires
            self.valid(),
            self.residents.contains_key(resident),
        ensures
            ({
                let here = self.residents[resident].position;
                let there = self.advance().residents[resident].position;
                here == there || neighbours_tile(self.map, here, there)
            }),
    {
        self.lemma_phases_valid();
        self.lemma_phases_go_on();
        self.law_only_walking_moves_residents();
        self.law_tick_keeps_the_authored_world();
        let ready = self.after_dispatch();
        ready.law_residents_move_one_tile_a_tick(resident);
        assert(self.residents.dom().contains(resident));
        assert(self.advance().residents.contains_key(resident));
        if ready.position_of(resident) != self.advance().position_of(resident) {
            if ready.go_to.contains_key(resident) {
                ready.law_next_tile_is_a_neighbour(resident);
            } else {
                ready.lemma_idle_stays(resident);
            }
        }
    }

    /// A resident that has no walk when walking begins stays where it is for
    /// the whole tick; there is nothing to advance for it.
    pub proof fn law_resident_without_a_walk_stays(self, resident: SimId)
        requires
            self.valid(),
            self.residents.contains_key(resident),
            !self.after_dispatch().go_to.contains_key(resident),
        ensures
            self.advance().residents[resident].position == self.residents[resident].position,
            self.after_dispatch().walk(resident) == self.after_dispatch(),
    {
        self.lemma_phases_valid();
        self.law_only_walking_moves_residents();
        self.law_tick_keeps_the_authored_world();
        assert(self.residents.dom().contains(resident));
        assert(self.advance().residents.contains_key(resident));
        self.after_dispatch().lemma_idle_stays(resident);
    }

    /// A resident that does not walk stays where it is.
    proof fn lemma_idle_stays(self, resident: SimId)
        requires
            self.valid(),
            !self.go_to.contains_key(resident),
        ensures
            self.walk_everyone().position_of(resident) == self.position_of(resident),
    {
        let first = self.approved_walkers();
        let later = self.other_walkers();
        self.lemma_walkers_walk();
        assert(!first.contains(resident));
        assert(!later.contains(resident));
        self.lemma_walk_all_spares(first, resident);
        self.walk_all(first).lemma_follow_all_keeps_walk(self, later, resident);
    }

    /// Whoever goes first or follows is walking, the first with a claim that
    /// wins and the others without.
    proof fn lemma_walkers_walk(self)
        requires
            self.valid(),
        ensures
            forall|resident: SimId| #[trigger]
                self.approved_walkers().contains(resident) <==> self.go_to.contains_key(resident)
                    && self.approved(resident),
            forall|resident: SimId| #[trigger]
                self.other_walkers().contains(resident) <==> self.go_to.contains_key(resident)
                    && !self.approved(resident),
    {
        let ids = in_order::<SimId>(self.go_to.dom());
        lemma_in_order_lists::<SimId>(self.go_to.dom());
        lemma_filter_picks(ids, self.goes_first());
        lemma_filter_picks(ids, self.goes_later());
        assert forall|resident: SimId| #[trigger]
            self.approved_walkers().contains(resident) <==> self.go_to.contains_key(resident)
                && self.approved(resident) by {
            assert(ids.contains(resident) <==> self.go_to.dom().contains(resident));
            assert(self.goes_first()(resident) == self.approved(resident));
        }
        assert forall|resident: SimId| #[trigger]
            self.other_walkers().contains(resident) <==> self.go_to.contains_key(resident)
                && !self.approved(resident) by {
            assert(ids.contains(resident) <==> self.go_to.dom().contains(resident));
            assert(self.goes_later()(resident) == !self.approved(resident));
        }
    }

    // -- Steps -------------------------------------------------------------

    /// The queues once the head of one is done: the next order leads, and a
    /// queue that held no other is gone.
    pub open spec fn queues_past_head(self, resident: SimId) -> Map<SimId, Seq<QueuedPlayerTask>> {
        let queue = self.player_task_queue[resident];
        if queue.len() == 1 {
            self.player_task_queue.remove(resident)
        } else {
            self.player_task_queue.insert(resident, queue.skip(1))
        }
    }

    /// Whether a walk has ended and left everything else as it was, but for its
    /// order, which is completed and gone from the head of its queue.
    pub open spec fn walk_ends(self, next: Village, resident: SimId) -> bool {
        &&& next.go_to == self.go_to.remove(resident)
        &&& match self.go_to[resident].player_task {
            Some(task) => {
                &&& next.player_tasks == self.player_tasks.insert(task, PlayerTaskState::Completed)
                &&& next.player_task_queue == self.queues_past_head(resident)
            },
            None => self.same_orders(next),
        }
    }

    /// Whether orders and queues are the same.
    pub open spec fn same_orders(self, next: Village) -> bool {
        next.player_tasks == self.player_tasks && next.player_task_queue == self.player_task_queue
    }

    /// Whether nobody has moved, and tiles and portals are held as before.
    pub open spec fn nobody_moved(self, next: Village) -> bool {
        &&& next.residents == self.residents
        &&& next.occupancy == self.occupancy
        &&& next.portal_occupancy == self.portal_occupancy
    }

    /// Whether only walking has gone on: needs, intentions, objects, uses,
    /// requests and claims are the same.
    pub open spec fn only_walked(self, next: Village) -> bool {
        &&& next.toilet_needs == self.toilet_needs
        &&& next.autonomous_toilet_intentions == self.autonomous_toilet_intentions
        &&& next.urgent_toilet_intentions == self.urgent_toilet_intentions
        &&& next.use_requests == self.use_requests
        &&& next.active_object_uses == self.active_object_uses
        &&& next.object_slot_claims == self.object_slot_claims
        &&& next.capability_claims == self.capability_claims
        &&& next.inbox == self.inbox
        &&& self.same_world(next)
        &&& next.tick == self.tick
    }

    /// The ledger with one more event of the current tick.
    pub open spec fn ledger_with(self, kind: WorldEventKind) -> Seq<WorldEvent> {
        self.ledger.push(WorldEvent { tick: self.tick, kind })
    }

    pub(crate) proof fn lemma_past_head(self, resident: SimId)
        requires
            self.valid(),
            self.player_task_queue.contains_key(resident),
        ensures
            self.unqueue(
                resident,
                self.player_task_queue[resident][0].task,
            ).player_task_queue == self.queues_past_head(resident),
    {
        let queue = self.player_task_queue[resident];
        let task = queue[0].task;
        assert forall|j: int| 0 <= j < queue.len() && j != 0 implies (
        #[trigger] queue[j]).task != task by {
            assert(self.player_task_queue[resident][j] == queue[j]);
            assert(self.player_task_queue[resident][0] == queue[0]);
        }
        lemma_filter_is_remove(queue, 0, task);
        assert(queue.remove(0) =~= queue.skip(1));
    }

    proof fn lemma_walk_ends(self, resident: SimId)
        requires
            self.valid(),
            self.go_to.contains_key(resident),
        ensures
            self.walk_ends(
                self.halt(resident).finish_if_ordered(
                    resident,
                    self.go_to[resident].player_task,
                    PlayerTaskState::Completed,
                ),
                resident,
            ),
    {
        if self.go_to[resident].player_task is Some {
            assert(self.walks_on_order(resident));
            self.lemma_past_head(resident);
        }
    }

    /// A walk without a route fails: it ends where it is, its order is over,
    /// and the failure is published.
    pub proof fn law_walk_without_route_is_given_up(self, resident: SimId)
        requires
            self.valid(),
            self.go_to.contains_key(resident),
            self.go_to[resident].traversal is None,
            self.go_to[resident].path.len() == 0,
        ensures
            self.walk_ends(self.walk(resident), resident),
            self.nobody_moved(self.walk(resident)),
            self.only_walked(self.walk(resident)),
            self.walk(resident).ledger == self.ledger_with(
                WorldEventKind::GoToFailed {
                    resident,
                    destination: self.go_to[resident].destination,
                },
            ),
    {
        self.lemma_walk_ends(resident);
    }

    /// A walk whose resident stands on its destination ends there: its order is
    /// done, and the arrival is published.
    pub proof fn law_walk_at_its_destination_arrives(self, resident: SimId)
        requires
            self.valid(),
            self.go_to.contains_key(resident),
            self.go_to[resident].traversal is None,
            self.go_to[resident].path.len() > 0,
            self.residents[resident].position == self.go_to[resident].destination,
        ensures
            self.walk_ends(self.walk(resident), resident),
            self.nobody_moved(self.walk(resident)),
            self.only_walked(self.walk(resident)),
            self.walk(resident).ledger == self.ledger_with(
                WorldEventKind::GoToArrived {
                    resident,
                    destination: self.go_to[resident].destination,
                },
            ),
    {
        self.lemma_walk_ends(resident);
    }

    /// Whether a resident is on its way to a next tile, outside any portal.
    pub open spec fn approaches_tile(self, resident: SimId, next: TilePosition) -> bool {
        let walk = self.go_to[resident];
        &&& self.go_to.contains_key(resident)
        &&& walk.traversal is None
        &&& self.residents[resident].position != walk.destination
        &&& 0 <= walk.next_step < walk.path.len()
        &&& walk.path[walk.next_step] == next
    }

    /// A walk that has a route but has not come to its destination approaches a
    /// next tile.
    pub proof fn law_unfinished_walk_has_a_next_tile(self, resident: SimId)
        requires
            self.valid(),
            self.go_to.contains_key(resident),
            self.go_to[resident].traversal is None,
            self.go_to[resident].path.len() > 0,
            self.residents[resident].position != self.go_to[resident].destination,
        ensures
            exists|next: TilePosition| #[trigger] self.approaches_tile(resident, next),
    {
        let walk = self.go_to[resident];
        assert(self.walk_kept(resident, walk));
        assert(self.approaches_tile(resident, walk.path[walk.next_step]));
    }

    /// A resident steps onto a next tile that nobody holds and no portal leads
    /// to: it holds that tile in place of the one it leaves, and the walk goes
    /// on to the tile after it, or arrives.
    pub proof fn law_free_tile_is_stepped_onto(self, resident: SimId, next: TilePosition)
        requires
            self.valid(),
            self.approaches_tile(resident, next),
            !self.occupancy.contains_key(next),
            !joined_by_portal(self.map, self.residents[resident].position, next),
        ensures
            ({
                let walk = self.go_to[resident];
                let after = self.walk(resident);
                &&& after.residents == self.residents.insert(
                    resident,
                    Resident { position: next, ..self.residents[resident] },
                )
                &&& after.occupancy == self.occupancy.remove(
                    self.residents[resident].position,
                ).insert(next, resident)
                &&& after.portal_occupancy == self.portal_occupancy
                &&& self.only_walked(after)
                &&& next == walk.destination ==> self.walk_ends(after, resident) && after.ledger
                    == self.ledger_with(
                    WorldEventKind::GoToArrived { resident, destination: walk.destination },
                )
                &&& next != walk.destination ==> {
                    &&& after.go_to == self.go_to.insert(
                        resident,
                        GoToView { next_step: walk.next_step + 1, ..walk },
                    )
                    &&& self.same_orders(after)
                    &&& after.ledger == self.ledger
                }
            }),
    {
        let here = self.residents[resident].position;
        law_portal_between_is_the_first_that_joins(self.map, here, next);
        self.lemma_walk_ends(resident);
        self.lemma_walk_goes_on(resident);
        let walk = self.go_to[resident];
        let after = self.walk(resident);
        if next == walk.destination {
            assert(after.player_task_queue == self.halt(resident).finish_if_ordered(
                resident,
                walk.player_task,
                PlayerTaskState::Completed,
            ).player_task_queue);
        } else {
            assert(after.go_to =~= self.go_to.insert(
                resident,
                GoToView { next_step: walk.next_step + 1, ..walk },
            ));
        }
    }

    /// A resident whose next step leads through a portal that another is inside
    /// waits for that one, and nothing else changes.
    pub proof fn law_taken_portal_is_waited_for(
        self,
        resident: SimId,
        next: TilePosition,
        portal: Seq<char>,
    )
        requires
            self.valid(),
            self.approaches_tile(resident, next),
            !self.occupancy.contains_key(next),
            self.map.spec_portal_between(self.residents[resident].position, next) is Some,
            self.map.spec_portal_between(self.residents[resident].position, next)->0.id@ == portal,
            self.portal_occupancy.contains_key(portal),
        ensures
            ({
                let after = self.walk(resident);
                &&& self.nobody_moved(after)
                &&& self.only_walked(after)
                &&& self.same_orders(after)
                &&& after.go_to == self.go_to
                &&& after.ledger == self.ledger_with(
                    WorldEventKind::GoToWaited {
                        resident,
                        blocked_by: self.portal_occupancy[portal],
                        position: next,
                    },
                )
            }),
    {
        self.lemma_walk_goes_on(resident);
        assert(self.walk(resident).go_to =~= self.go_to);
    }

    /// A resident enters a free portal that its next step leads through: it
    /// stays on its tile, the portal is its own, and it has the portal's ticks
    /// to go, one at least, before it comes out on the next tile.
    pub proof fn law_free_portal_is_entered(self, resident: SimId, next: TilePosition)
        requires
            self.valid(),
            self.approaches_tile(resident, next),
            !self.occupancy.contains_key(next),
            self.map.spec_portal_between(self.residents[resident].position, next) is Some,
            !self.portal_occupancy.contains_key(
                self.map.spec_portal_between(self.residents[resident].position, next)->0.id@,
            ),
        ensures
            ({
                let portal = self.map.spec_portal_between(
                    self.residents[resident].position,
                    next,
                )->0;
                let walk = self.go_to[resident];
                let after = self.walk(resident);
                &&& after.residents == self.residents
                &&& after.occupancy == self.occupancy
                &&& after.portal_occupancy == self.portal_occupancy.insert(portal.id@, resident)
                &&& after.ledger == self.ledger
                &&& self.only_walked(after)
                &&& self.same_orders(after)
                &&& after.go_to.remove(resident) == self.go_to.remove(resident)
                &&& after.go_to.contains_key(resident)
                &&& after.go_to[resident] == (GoToView {
                    traversal: after.go_to[resident].traversal,
                    ..walk
                })
                &&& after.go_to[resident].traversal is Some
                &&& after.go_to[resident].traversal->0.portal == portal.id
                &&& after.go_to[resident].traversal->0.destination == next
                &&& after.go_to[resident].traversal->0.ticks_remaining == (
                if portal.traversal_ticks > 1 {
                    portal.traversal_ticks
                } else {
                    1
                })
            }),
    {
        self.lemma_walk_goes_on(resident);
        assert(self.walk(resident).go_to.remove(resident) =~= self.go_to.remove(resident));
    }

    /// A resident inside a portal comes a tick closer to its far end. With the
    /// last tick it stands on the far end and holds it, the portal is free, and
    /// the walk goes on to the tile after, or arrives.
    pub proof fn law_crossing_ends_on_the_far_tile(self, resident: SimId)
        requires
            self.valid(),
            self.go_to.contains_key(resident),
            self.go_to[resident].traversal is Some,
        ensures
            ({
                let walk = self.go_to[resident];
                let crossing = walk.traversal->0;
                let after = self.walk(resident);
                &&& self.only_walked(after)
                &&& crossing.ticks_remaining > 1 ==> {
                    &&& self.nobody_moved(after)
                    &&& self.same_orders(after)
                    &&& after.ledger == self.ledger
                    &&& after.go_to.remove(resident) == self.go_to.remove(resident)
                    &&& after.go_to.contains_key(resident)
                    &&& after.go_to[resident] == (GoToView {
                        traversal: after.go_to[resident].traversal,
                        ..walk
                    })
                    &&& after.go_to[resident].traversal is Some
                    &&& after.go_to[resident].traversal->0.portal == crossing.portal
                    &&& after.go_to[resident].traversal->0.destination == crossing.destination
                    &&& after.go_to[resident].traversal->0.ticks_remaining
                        == crossing.ticks_remaining - 1
                }
                &&& crossing.ticks_remaining <= 1 ==> {
                    &&& after.residents == self.residents.insert(
                        resident,
                        Resident { position: crossing.destination, ..self.residents[resident] },
                    )
                    &&& after.occupancy == self.occupancy.remove(
                        self.residents[resident].position,
                    ).insert(crossing.destination, resident)
                    &&& after.portal_occupancy == self.portal_occupancy.remove(crossing.portal@)
                    &&& crossing.destination == walk.destination ==> self.walk_ends(after, resident)
                        && after.ledger == self.ledger_with(
                        WorldEventKind::GoToArrived { resident, destination: walk.destination },
                    )
                    &&& crossing.destination != walk.destination ==> {
                        &&& after.go_to == self.go_to.insert(
                            resident,
                            GoToView { traversal: None, next_step: walk.next_step + 1, ..walk },
                        )
                        &&& self.same_orders(after)
                        &&& after.ledger == self.ledger
                    }
                }
            }),
    {
        self.lemma_walk_goes_on(resident);
        self.lemma_walk_ends(resident);
        let walk = self.go_to[resident];
        let crossing = walk.traversal->0;
        let after = self.walk(resident);
        if crossing.ticks_remaining > 1 {
            assert(after.go_to.remove(resident) =~= self.go_to.remove(resident));
        } else if crossing.destination == walk.destination {
            assert(after.player_task_queue == self.halt(resident).finish_if_ordered(
                resident,
                walk.player_task,
                PlayerTaskState::Completed,
            ).player_task_queue);
        } else {
            assert(after.go_to =~= self.go_to.insert(
                resident,
                GoToView { traversal: None, next_step: walk.next_step + 1, ..walk },
            ));
        }
    }

    // -- Detours -----------------------------------------------------------

    /// Whether a walking resident is about to come onto a tile.
    pub open spec fn heads_for(self, resident: SimId, tile: TilePosition) -> bool {
        let walk = self.go_to[resident];
        match walk.traversal {
            Some(traversal) => traversal.destination == tile,
            None => 0 <= walk.next_step < walk.path.len() && walk.path[walk.next_step] == tile,
        }
    }

    /// Whether a tile is clear for a resident: nobody else holds it or is about
    /// to come onto it.
    pub open spec fn clear_for(self, resident: SimId, tile: TilePosition) -> bool {
        &&& self.occupancy.contains_key(tile) ==> self.occupancy[tile] == resident
        &&& forall|other: SimId| #[trigger]
            self.go_to.contains_key(other) && other != resident ==> !self.heads_for(other, tile)
    }

    /// Whether `w` leads a walking resident from where it stands to its
    /// destination, from neighbour to neighbour, over clear tiles only.
    pub open spec fn is_detour(self, resident: SimId, w: Seq<TilePosition>) -> bool {
        &&& w.len() > 0
        &&& w[0] == self.residents[resident].position
        &&& w.last() == self.go_to[resident].destination
        &&& forall|i: int|
            0 < i < w.len() ==> neighbours_tile(self.map, w[i - 1], #[trigger] w[i])
                && self.clear_for(resident, w[i])
    }

    /// The journey around others is made of detours.
    proof fn lemma_detours(self, resident: SimId, w: Seq<TilePosition>)
        requires
            self.valid(),
            self.go_to.contains_key(resident),
        ensures
            (Journey {
                map: self.map,
                closed: self.halt(resident).kept_clear(resident),
                origin: self.residents[resident].position,
                destination: self.go_to[resident].destination,
            }).walks(w, self.go_to[resident].destination) <==> self.is_detour(resident, w),
    {
        let halted = self.halt(resident);
        let journey = Journey {
            map: self.map,
            closed: halted.kept_clear(resident),
            origin: self.residents[resident].position,
            destination: self.go_to[resident].destination,
        };
        assert forall|tile: TilePosition| #[trigger]
            journey.closed.contains(tile) <==> !self.clear_for(resident, tile) by {
            if halted.is_next_target(tile, resident) {
                let other = choose|other: SimId| #[trigger]
                    halted.go_to.contains_key(other) && other != resident && halted.approaches(
                        other,
                        tile,
                    );
                assert(self.go_to.contains_key(other));
                assert(self.heads_for(other, tile));
            }
            if !self.clear_for(resident, tile) {
                if !(self.occupancy.contains_key(tile) && self.occupancy[tile] != resident) {
                    let other = choose|other: SimId| #[trigger]
                        self.go_to.contains_key(other) && other != resident && self.heads_for(
                            other,
                            tile,
                        );
                    assert(halted.go_to.contains_key(other));
                    assert(halted.approaches(other, tile));
                }
            }
        }
        if journey.walks(w, journey.destination) {
            assert forall|i: int| 0 < i < w.len() implies neighbours_tile(
                self.map,
                w[i - 1],
                #[trigger] w[i],
            ) && self.clear_for(resident, w[i]) by {
                assert(journey.steps_to(w[i - 1], w[i]));
                law_steps_lead_to_neighbours(self.map, w[i - 1], w[i]);
                assert(!journey.closed.contains(w[i]));
            }
        }
        if self.is_detour(resident, w) {
            assert forall|i: int| 0 < i < w.len() implies journey.steps_to(
                w[i - 1],
                #[trigger] w[i],
            ) by {
                law_steps_lead_to_neighbours(self.map, w[i - 1], w[i]);
                assert(!journey.closed.contains(w[i]));
            }
        }
    }

    /// A resident's own walk keeps no tile closed to it.
    proof fn lemma_own_walk_is_no_obstacle(self, resident: SimId)
        ensures
            self.halt(resident).kept_clear(resident) == self.kept_clear(resident),
    {
        let halted = self.halt(resident);
        assert forall|tile: TilePosition| #[trigger]
            halted.kept_clear(resident).contains(tile) <==> self.kept_clear(resident).contains(
                tile,
            ) by {
            if halted.is_next_target(tile, resident) {
                let other = choose|other: SimId| #[trigger]
                    halted.go_to.contains_key(other) && other != resident && halted.approaches(
                        other,
                        tile,
                    );
                assert(self.go_to.contains_key(other) && self.approaches(other, tile));
            }
            if self.is_next_target(tile, resident) {
                let other = choose|other: SimId| #[trigger]
                    self.go_to.contains_key(other) && other != resident && self.approaches(
                        other,
                        tile,
                    );
                assert(halted.go_to.contains_key(other) && halted.approaches(other, tile));
            }
        }
        assert(halted.kept_clear(resident) =~= self.kept_clear(resident));
    }

    /// A resident whose next tile is held changes over to a detour, where there
    /// is one: from then on its next tile is the second of the detour, a
    /// neighbour of where it stands, and nothing is published. Where there is
    /// none it waits for whoever holds the tile. It stays where it is either
    /// way.
    pub proof fn law_held_tile_is_walked_around(self, resident: SimId, next: TilePosition)
        requires
            self.valid(),
            self.approaches_tile(resident, next),
            self.occupancy.contains_key(next),
        ensures
            ({
                let here = self.residents[resident].position;
                let walk = self.go_to[resident];
                let after = self.walk(resident);
                let detours = exists|w: Seq<TilePosition>| self.is_detour(resident, w);
                &&& self.nobody_moved(after)
                &&& self.only_walked(after)
                &&& self.same_orders(after)
                &&& after.go_to.remove(resident) == self.go_to.remove(resident)
                &&& after.go_to.contains_key(resident)
                &&& on_open_floor(self.map, here) && on_open_floor(self.map, walk.destination)
                    && detours ==> {
                    let path = after.go_to[resident].path;
                    &&& self.live_route(resident, here, walk.destination) == Some(path)
                    &&& self.is_detour(resident, path)
                    &&& path.len() >= 2
                    &&& path[after.go_to[resident].next_step] == path[1]
                    &&& after.go_to[resident] == (GoToView { path, next_step: 1, ..walk })
                    &&& after.ledger == self.ledger
                }
                &&& !(on_open_floor(self.map, here) && on_open_floor(self.map, walk.destination)
                    && detours) ==> {
                    &&& after.go_to[resident] == walk
                    &&& after.ledger == self.ledger_with(
                        WorldEventKind::GoToWaited {
                            resident,
                            blocked_by: self.occupancy[next],
                            position: next,
                        },
                    )
                }
            }),
    {
        let here = self.residents[resident].position;
        let walk = self.go_to[resident];
        let after = self.walk(resident);
        let halted = self.halt(resident);
        let journey = Journey {
            map: self.map,
            closed: halted.kept_clear(resident),
            origin: here,
            destination: walk.destination,
        };
        self.lemma_walk_goes_on(resident);
        law_route_exists_iff_reachable(journey);
        law_route_is_a_walk(journey);
        law_walkable_tiles_lie_on_open_floor(self.map, here);
        law_walkable_tiles_lie_on_open_floor(self.map, walk.destination);
        assert(after.go_to.remove(resident) =~= self.go_to.remove(resident));
        let route = halted.live_route(resident, here, walk.destination);
        self.lemma_own_walk_is_no_obstacle(resident);
        if route is Some {
            self.lemma_detours(resident, route->0);
            assert(self.is_detour(resident, after.go_to[resident].path));
        } else if on_open_floor(self.map, here) && on_open_floor(self.map, walk.destination)
            && exists|w: Seq<TilePosition>| self.is_detour(resident, w) {
            let w = choose|w: Seq<TilePosition>| self.is_detour(resident, w);
            self.lemma_detours(resident, w);
            assert(journey.walks(w, journey.destination));
            assert(self.clear_for(resident, w[w.len() - 1]));
        }
    }

    // -- Setting out -------------------------------------------------------

    /// Whether `w` leads from one tile to another, from neighbour to neighbour.
    pub open spec fn is_way(
        self,
        origin: TilePosition,
        destination: TilePosition,
        w: Seq<TilePosition>,
    ) -> bool {
        &&& w.len() > 0
        &&& w[0] == origin
        &&& w.last() == destination
        &&& forall|i: int| 0 < i < w.len() ==> neighbours_tile(self.map, w[i - 1], #[trigger] w[i])
    }

    /// A resident that sets out has exactly the walk that was asked for, from
    /// where it stands and dated with the current tick, in place of any walk in
    /// flight; its first step is the second tile of a way to the destination.
    /// There is a route wherever a way joins the two tiles, whoever stands on
    /// it, and none elsewhere. Nothing else changes, and a stranger goes
    /// nowhere.
    pub proof fn law_setting_out_plans_the_walk_asked_for(
        self,
        resident: SimId,
        destination: TilePosition,
        priority: i64,
        band: ActionBand,
        order: Option<PlayerTaskId>,
    )
        ensures
            ({
                let after = self.set_out(resident, destination, priority, band, order);
                let walk = after.go_to[resident];
                let here = self.residents[resident].position;
                let joined = on_open_floor(self.map, here) && on_open_floor(self.map, destination)
                    && exists|w: Seq<TilePosition>| self.is_way(here, destination, w);
                &&& after == (Village { go_to: after.go_to, ..self })
                &&& !self.residents.contains_key(resident) ==> after == self
                &&& self.residents.contains_key(resident) ==> {
                    &&& after.go_to == self.go_to.insert(resident, walk)
                    &&& walk.destination == destination
                    &&& walk.priority == priority
                    &&& walk.band == band
                    &&& walk.player_task == order
                    &&& walk.request_age == self.tick
                    &&& walk.traversal is None
                    &&& walk.next_step == 1
                    &&& joined ==> self.is_way(here, destination, walk.path)
                    &&& !joined ==> walk.path.len() == 0
                }
            }),
    {
        let after = self.set_out(resident, destination, priority, band, order);
        let here = self.residents[resident].position;
        let journey = Journey { map: self.map, closed: Set::empty(), origin: here, destination };
        law_route_exists_iff_reachable(journey);
        law_route_is_a_walk(journey);
        law_walkable_tiles_lie_on_open_floor(self.map, here);
        law_walkable_tiles_lie_on_open_floor(self.map, destination);
        if journey.route() is Some {
            let w = journey.route()->0;
            assert forall|i: int| 0 < i < w.len() implies neighbours_tile(
                self.map,
                w[i - 1],
                #[trigger] w[i],
            ) by {
                assert(journey.steps_to(w[i - 1], w[i]));
                law_steps_lead_to_neighbours(self.map, w[i - 1], w[i]);
            }
            assert(self.is_way(here, destination, w));
        } else if exists|w: Seq<TilePosition>| self.is_way(here, destination, w) {
            let w = choose|w: Seq<TilePosition>| self.is_way(here, destination, w);
            assert forall|i: int| 0 < i < w.len() implies journey.steps_to(
                w[i - 1],
                #[trigger] w[i],
            ) by {
                law_steps_lead_to_neighbours(self.map, w[i - 1], w[i]);
            }
            assert(journey.walks(w, destination));
        }
    }

    /// Dating a walk sets the age of its request and nothing else; a resident
    /// that does not walk has nothing to date.
    pub proof fn law_dating_a_walk_sets_its_age(self, resident: SimId, request_age: u64)
        ensures
            ({
                let after = self.with_request_age(resident, request_age);
                let walk = self.go_to[resident];
                after == if self.go_to.contains_key(resident) {
                    Village {
                        go_to: self.go_to.insert(
                            resident,
                            GoToView {
                                destination: walk.destination,
                                path: walk.path,
                                next_step: walk.next_step,
                                traversal: walk.traversal,
                                priority: walk.priority,
                                band: walk.band,
                                request_age,
                                player_task: walk.player_task,
                            },
                        ),
                        ..self
                    }
                } else {
                    self
                }
            }),
    {
    }

    /// A planned route is a way from one tile to the other, and there is one
    /// exactly where both are walkable and some way joins them.
    pub proof fn law_planned_route_is_a_way(self, origin: TilePosition, destination: TilePosition)
        ensures
            self.static_route(origin, destination) matches Some(path) ==> self.is_way(
                origin,
                destination,
                path,
            ),
            self.static_route(origin, destination) is Some <==> on_open_floor(self.map, origin)
                && on_open_floor(self.map, destination) && exists|w: Seq<TilePosition>|
                self.is_way(origin, destination, w),
    {
        let journey = Journey { map: self.map, closed: Set::empty(), origin, destination };
        law_route_exists_iff_reachable(journey);
        law_route_is_a_walk(journey);
        law_walkable_tiles_lie_on_open_floor(self.map, origin);
        law_walkable_tiles_lie_on_open_floor(self.map, destination);
        if journey.route() is Some {
            let w = journey.route()->0;
            assert forall|i: int| 0 < i < w.len() implies neighbours_tile(
                self.map,
                w[i - 1],
                #[trigger] w[i],
            ) by {
                assert(journey.steps_to(w[i - 1], w[i]));
                law_steps_lead_to_neighbours(self.map, w[i - 1], w[i]);
            }
            assert(self.is_way(origin, destination, w));
        } else if exists|w: Seq<TilePosition>| self.is_way(origin, destination, w) {
            let w = choose|w: Seq<TilePosition>| self.is_way(origin, destination, w);
            assert forall|i: int| 0 < i < w.len() implies journey.steps_to(
                w[i - 1],
                #[trigger] w[i],
            ) by {
                law_steps_lead_to_neighbours(self.map, w[i - 1], w[i]);
            }
            assert(journey.walks(w, destination));
        }
    }

    /// A live route is a way over tiles that are clear for its resident: nobody
    /// else holds them or is about to come onto them. There is one exactly where
    /// nobody else holds the destination, both ends are walkable and some such
    /// way joins them.
    pub proof fn law_live_route_is_a_clear_way(
        self,
        resident: SimId,
        origin: TilePosition,
        destination: TilePosition,
    )
        ensures
            ({
                let route = self.live_route(resident, origin, destination);
                &&& route matches Some(path) ==> self.is_clear_way(
                    resident,
                    origin,
                    destination,
                    path,
                )
                &&& route is Some <==> (self.occupancy.contains_key(destination)
                    ==> self.occupancy[destination] == resident) && on_open_floor(self.map, origin)
                    && on_open_floor(self.map, destination) && exists|w: Seq<TilePosition>|
                    self.is_clear_way(resident, origin, destination, w)
            }),
    {
        let journey = Journey {
            map: self.map,
            closed: self.kept_clear(resident),
            origin,
            destination,
        };
        law_route_exists_iff_reachable(journey);
        law_route_is_a_walk(journey);
        law_walkable_tiles_lie_on_open_floor(self.map, origin);
        law_walkable_tiles_lie_on_open_floor(self.map, destination);
        assert forall|tile: TilePosition| #[trigger]
            journey.closed.contains(tile) <==> !self.clear_for(resident, tile) by {
            if self.is_next_target(tile, resident) {
                let other = choose|other: SimId| #[trigger]
                    self.go_to.contains_key(other) && other != resident && self.approaches(
                        other,
                        tile,
                    );
                assert(self.heads_for(other, tile));
            }
            if !self.clear_for(resident, tile) && !(self.occupancy.contains_key(tile)
                && self.occupancy[tile] != resident) {
                let other = choose|other: SimId| #[trigger]
                    self.go_to.contains_key(other) && other != resident && self.heads_for(
                        other,
                        tile,
                    );
                assert(self.approaches(other, tile));
            }
        }
        if journey.route() is Some {
            let w = journey.route()->0;
            assert forall|i: int| 0 < i < w.len() implies neighbours_tile(
                self.map,
                w[i - 1],
                #[trigger] w[i],
            ) && self.clear_for(resident, w[i]) by {
                assert(journey.steps_to(w[i - 1], w[i]));
                law_steps_lead_to_neighbours(self.map, w[i - 1], w[i]);
                assert(!journey.closed.contains(w[i]));
            }
            assert(self.is_clear_way(resident, origin, destination, w));
        } else if exists|w: Seq<TilePosition>|
            self.is_clear_way(resident, origin, destination, w) {
            let w = choose|w: Seq<TilePosition>|
                self.is_clear_way(resident, origin, destination, w);
            assert forall|i: int| 0 < i < w.len() implies journey.steps_to(
                w[i - 1],
                #[trigger] w[i],
            ) by {
                law_steps_lead_to_neighbours(self.map, w[i - 1], w[i]);
                assert(!journey.closed.contains(w[i]));
            }
            assert(journey.walks(w, destination));
        }
    }

    /// Whether `w` is a way over tiles that are clear for a resident.
    pub open spec fn is_clear_way(
        self,
        resident: SimId,
        origin: TilePosition,
        destination: TilePosition,
        w: Seq<TilePosition>,
    ) -> bool {
        &&& w.len() > 0
        &&& w[0] == origin
        &&& w.last() == destination
        &&& forall|i: int|
            0 < i < w.len() ==> neighbours_tile(self.map, w[i - 1], #[trigger] w[i])
                && self.clear_for(resident, w[i])
    }

    // -- Contested tiles ---------------------------------------------------

    /// Whether a resident may come onto its next tile this tick: it is outside
    /// any portal, nobody holds the tile, and nobody is inside the portal that
    /// leads to it, where one does.
    pub open spec fn may_enter(self, resident: SimId, next: TilePosition) -> bool {
        let walk = self.go_to[resident];
        let portal = self.map.spec_portal_between(self.residents[resident].position, next);
        &&& self.go_to.contains_key(resident)
        &&& walk.traversal is None
        &&& 0 <= walk.next_step < walk.path.len()
        &&& walk.path[walk.next_step] == next
        &&& !self.occupancy.contains_key(next)
        &&& portal is Some ==> !self.portal_occupancy.contains_key(portal->0.id@)
    }

    /// Whether one walk goes before another: its band and fine priority add up
    /// to more, or to as much and it was asked for earlier, or at the same time
    /// and its resident has the lower `SimId`.
    pub open spec fn walks_before(self, a: SimId, b: SimId) -> bool {
        let first = self.go_to[a];
        let second = self.go_to[b];
        let first_sum = first.band.spec_base() + first.priority;
        let second_sum = second.band.spec_base() + second.priority;
        ||| first_sum > second_sum
        ||| first_sum == second_sum && first.request_age < second.request_age
        ||| first_sum == second_sum && first.request_age == second.request_age && a.0 < b.0
    }

    /// Whether a resident goes before everybody else who may come onto a tile.
    pub open spec fn gets_tile(self, resident: SimId, next: TilePosition) -> bool {
        &&& self.may_enter(resident, next)
        &&& forall|other: SimId|
            other != resident && #[trigger] self.may_enter(other, next) ==> self.walks_before(
                resident,
                other,
            )
    }

    /// A claim is made by exactly the residents that may come onto their next
    /// tile.
    proof fn lemma_claims(self, resident: SimId)
        requires
            self.sound(),
            self.go_to.contains_key(resident),
        ensures
            forall|next: TilePosition| #[trigger]
                self.may_enter(resident, next) <==> (self.claim(resident) is Some && self.claim(
                    resident,
                )->0.target == next),
            self.claim(resident) matches Some(claim) ==> claim.resident == resident
                && claim.priority == self.go_to[resident].priority && claim.band
                == self.go_to[resident].band && claim.request_age
                == self.go_to[resident].request_age,
    {
    }

    /// Whoever gets a tile has the approved claim on it.
    proof fn lemma_gets_tile(self, resident: SimId, next: TilePosition)
        requires
            self.valid(),
            self.gets_tile(resident, next),
        ensures
            self.approved(resident),
            self.claim(resident)->0.target == next,
            forall|other: SimId|
                other != resident && #[trigger] self.may_enter(other, next) ==> !self.approved(
                    other,
                ) && self.claim(other) is Some && self.claim(other)->0.target == next
                    && self.winner_over(other) == resident,
    {
        self.lemma_claims(resident);
        assert forall|other: SimId| !#[trigger] self.claims_over(other, resident) by {
            if self.claims_over(other, resident) {
                self.lemma_claims(other);
                assert(self.may_enter(other, next));
                assert(self.walks_before(resident, other));
            }
        }
        assert forall|other: SimId|
            other != resident && #[trigger] self.may_enter(other, next) implies !self.approved(
            other,
        ) && self.claim(other) is Some && self.claim(other)->0.target == next && self.winner_over(
            other,
        ) == resident by {
            self.lemma_claims(other);
            assert(self.walks_before(resident, other));
            assert(self.claims_over(resident, other));
            self.law_losing_claim_waits_for_the_winner(other);
            self.law_one_claim_wins_a_tile(self.winner_over(other), resident);
        }
    }

    /// A tile that nobody holds and another's winning claim is not on stays
    /// free while that other walks.
    proof fn lemma_walk_leaves_free(self, walker: SimId, tile: TilePosition)
        requires
            self.go_to.contains_key(walker),
            self.go_to[walker].traversal is None,
            self.go_to[walker].target() != Some(tile),
            !self.occupancy.contains_key(tile),
        ensures
            !self.walk(walker).occupancy.contains_key(tile),
    {
    }

    /// Whoever gets a tile steps onto it when the approved claims are walked.
    proof fn lemma_winner_steps(self, walkers: Seq<SimId>, resident: SimId, next: TilePosition)
        requires
            self.valid(),
            self.gets_tile(resident, next),
            self.residents[resident].position != self.go_to[resident].destination,
            !joined_by_portal(self.map, self.residents[resident].position, next),
            walkers.no_duplicates(),
            forall|i: int|
                0 <= i < walkers.len() ==> self.go_to.contains_key(#[trigger] walkers[i])
                    && self.approved(walkers[i]),
        ensures
            walkers.contains(resident) ==> self.walk_all(walkers).position_of(resident) == Some(
                next,
            ),
            !walkers.contains(resident) ==> !self.walk_all(walkers).occupancy.contains_key(next),
        decreases walkers.len(),
    {
        if walkers.len() > 0 {
            let rest = walkers.drop_last();
            let last = walkers.last();
            let mid = self.walk_all(rest);
            assert forall|i: int| 0 <= i < rest.len() implies self.go_to.contains_key(
                #[trigger] rest[i],
            ) && self.approved(rest[i]) by {
                assert(rest[i] == walkers[i]);
            }
            self.lemma_winner_steps(rest, resident, next);
            assert(!rest.contains(last)) by {
                if rest.contains(last) {
                    let i = rest.index_of(last);
                    assert(walkers[i] == walkers[walkers.len() - 1]);
                }
            }
            self.lemma_walk_all_spares(rest, last);
            self.lemma_walk_all_valid(rest);
            self.lemma_walk_all_goes_on(rest);
            assert(walkers[walkers.len() - 1] == last);
            assert(self.go_to.contains_key(last) && self.approved(last));
            if last == resident {
                assert(walkers.contains(resident));
                assert(mid.approaches_tile(resident, next));
                mid.law_free_tile_is_stepped_onto(resident, next);
            } else {
                if walkers.contains(resident) {
                    let i = walkers.index_of(resident);
                    assert(rest[i] == resident);
                    mid.lemma_walk_spares(last, resident);
                } else {
                    if rest.contains(resident) {
                        let i = rest.index_of(resident);
                        assert(walkers[i] == resident);
                    }
                    self.lemma_gets_tile(resident, next);
                    self.lemma_claims(last);
                    assert(!self.may_enter(last, next));
                    mid.lemma_walk_leaves_free(last, next);
                }
            }
        }
    }

    /// A resident that lost its tile stays where it is, its walk as it was, and
    /// says whom it waits for.
    proof fn lemma_loser_waits(self, before: Village, followers: Seq<SimId>, loser: SimId)
        requires
            self.valid(),
            followers.no_duplicates(),
            followers.contains(loser),
            before.claim(loser) is Some,
        ensures
            ({
                let after = self.follow_all(before, followers);
                &&& after.position_of(loser) == self.position_of(loser)
                &&& after.go_to.contains_key(loser) == self.go_to.contains_key(loser)
                &&& after.go_to[loser] == self.go_to[loser]
                &&& exists|i: int|
                    self.ledger.len() <= i < after.ledger.len() && #[trigger] after.ledger[i]
                        == (WorldEvent {
                        tick: self.tick,
                        kind: WorldEventKind::GoToWaited {
                            resident: loser,
                            blocked_by: before.winner_over(loser),
                            position: before.claim(loser)->0.target,
                        },
                    })
            }),
        decreases followers.len(),
    {
        let rest = followers.drop_last();
        let last = followers.last();
        let mid = self.follow_all(before, rest);
        let after = self.follow_all(before, followers);
        let told = WorldEvent {
            tick: self.tick,
            kind: WorldEventKind::GoToWaited {
                resident: loser,
                blocked_by: before.winner_over(loser),
                position: before.claim(loser)->0.target,
            },
        };
        self.lemma_follow_all_goes_on(before, rest);
        self.lemma_follow_all_valid(before, rest);
        if last == loser {
            assert(!rest.contains(loser)) by {
                if rest.contains(loser) {
                    let i = rest.index_of(loser);
                    assert(followers[i] == followers[followers.len() - 1]);
                }
            }
            self.lemma_follow_all_keeps_walk(before, rest, loser);
            assert(after.ledger[mid.ledger.len() as int] == told);
        } else {
            let k = followers.index_of(loser);
            assert(rest[k] == loser);
            self.lemma_loser_waits(before, rest, loser);
            mid.lemma_walk_spares(last, loser);
            mid.lemma_walk_goes_on(last);
            let i = choose|i: int|
                self.ledger.len() <= i < mid.ledger.len() && #[trigger] mid.ledger[i] == told;
            assert(after.ledger[i] == told);
        }
    }

    /// Of the residents that may come onto a tile, the one that goes before all
    /// others steps onto it, and every other stays where it is, its walk as it
    /// was, and is told to wait for the one that got the tile. A walk that has
    /// come to its destination already, or whose step leads into a portal,
    /// takes no tile.
    pub proof fn law_contested_tile_goes_to_the_first_in_rank(
        self,
        resident: SimId,
        next: TilePosition,
        other: SimId,
    )
        requires
            self.valid(),
            self.gets_tile(resident, next),
            other != resident,
        ensures
            ({
                let after = self.walk_everyone();
                &&& self.residents[resident].position != self.go_to[resident].destination
                    && !joined_by_portal(self.map, self.residents[resident].position, next)
                    ==> after.residents[resident].position == next
                &&& self.may_enter(other, next) ==> {
                    &&& after.residents[other].position == self.residents[other].position
                    &&& after.go_to.contains_key(other)
                    &&& after.go_to[other] == self.go_to[other]
                    &&& exists|i: int|
                        self.ledger.len() <= i < after.ledger.len() && #[trigger] after.ledger[i]
                            == (WorldEvent {
                            tick: self.tick,
                            kind: WorldEventKind::GoToWaited {
                                resident: other,
                                blocked_by: resident,
                                position: next,
                            },
                        })
                }
            }),
    {
        let first = self.approved_walkers();
        let later = self.other_walkers();
        let mid = self.walk_all(first);
        let after = self.walk_everyone();
        self.lemma_gets_tile(resident, next);
        self.lemma_walkers_apart();
        self.lemma_walkers_walk();
        self.lemma_walk_all_valid(first);
        self.lemma_walk_all_goes_on(first);
        mid.lemma_follow_all_goes_on(self, later);
        assert(first.contains(resident));
        assert(!later.contains(resident));
        assert(self.residents.dom().contains(resident));
        assert(mid.residents.dom().contains(resident));
        if self.residents[resident].position != self.go_to[resident].destination
            && !joined_by_portal(self.map, self.residents[resident].position, next) {
            assert forall|i: int| 0 <= i < first.len() implies self.go_to.contains_key(
                #[trigger] first[i],
            ) && self.approved(first[i]) by {
                assert(first.contains(first[i]));
            }
            self.lemma_winner_steps(first, resident, next);
            mid.lemma_follow_all_keeps_walk(self, later, resident);
        }
        if self.may_enter(other, next) {
            assert(self.residents.dom().contains(other));
            assert(mid.residents.dom().contains(other));
            assert(!first.contains(other));
            assert(later.contains(other));
            self.lemma_walk_all_spares(first, other);
            mid.lemma_loser_waits(self, later, other);
            assert(after.residents.dom().contains(other));
            let told = WorldEvent {
                tick: self.tick,
                kind: WorldEventKind::GoToWaited {
                    resident: other,
                    blocked_by: resident,
                    position: next,
                },
            };
            let i = choose|i: int|
                mid.ledger.len() <= i < after.ledger.len() && #[trigger] after.ledger[i] == told;
            assert(after.ledger[i] == told);
        }
    }

    /// An approved claim gets its tile.
    proof fn lemma_approved_gets_tile(self, resident: SimId)
        requires
            self.sound(),
            self.go_to.contains_key(resident),
            self.approved(resident),
        ensures
            self.gets_tile(resident, self.claim(resident)->0.target),
    {
        let next = self.claim(resident)->0.target;
        self.lemma_claims(resident);
        assert forall|other: SimId|
            other != resident && #[trigger] self.may_enter(other, next) implies self.walks_before(
            resident,
            other,
        ) by {
            self.lemma_claims(other);
            assert(!self.claims_over(other, resident));
        }
    }

    /// Whoever gets a tile is exactly whoever has an approved claim.
    proof fn lemma_approved_gets(self, resident: SimId)
        requires
            self.valid(),
            self.go_to.contains_key(resident),
        ensures
            self.approved(resident) <==> exists|next: TilePosition| #[trigger]
                self.gets_tile(resident, next),
    {
        if self.approved(resident) {
            self.lemma_approved_gets_tile(resident);
        }
        if exists|next: TilePosition| #[trigger] self.gets_tile(resident, next) {
            let next = choose|next: TilePosition| #[trigger] self.gets_tile(resident, next);
            self.lemma_gets_tile(resident, next);
        }
    }

    /// Walks advance by ascending `SimId`: first those of everybody who gets
    /// the tile it is about to come onto, then those of everybody else.
    pub proof fn law_walkers_take_their_turn_by_id(self, first: Seq<SimId>, later: Seq<SimId>)
        requires
            self.valid(),
            Village::lists_by_id(
                first,
                Set::new(
                    |resident: SimId|
                        self.go_to.contains_key(resident) && exists|next: TilePosition| #[trigger]
                            self.gets_tile(resident, next),
                ),
            ),
            Village::lists_by_id(
                later,
                Set::new(
                    |resident: SimId|
                        self.go_to.contains_key(resident) && !exists|next: TilePosition| #[trigger]
                            self.gets_tile(resident, next),
                ),
            ),
        ensures
            self.walk_everyone() == self.walk_all(first).follow_all(self, later),
    {
        let ids = in_order::<SimId>(self.go_to.dom());
        lemma_in_order_lists::<SimId>(self.go_to.dom());
        self.lemma_walkers_walk();
        assert forall|id: SimId| #[trigger] first.contains(id) <==> self.approved_walkers().contains(
            id,
        ) by {
            if self.go_to.contains_key(id) {
                self.lemma_approved_gets(id);
            }
        }
        assert forall|id: SimId| #[trigger] later.contains(id) <==> self.other_walkers().contains(
            id,
        ) by {
            if self.go_to.contains_key(id) {
                self.lemma_approved_gets(id);
            }
        }
        lemma_filter_ascends(ids, self.goes_first());
        lemma_filter_ascends(ids, self.goes_later());
        let of_first = Set::new(|id: SimId| first.contains(id));
        let of_later = Set::new(|id: SimId| later.contains(id));
        lemma_listing_unique::<SimId>(first, self.approved_walkers(), of_first);
        lemma_listing_unique::<SimId>(later, self.other_walkers(), of_later);
    }

    /// A resident that may come onto its next tile but does not get it waits
    /// for the one that does, and nothing else changes; one that may not come
    /// onto its next tile, or has none, goes on with its walk.
    pub proof fn law_followers_wait_or_walk(
        self,
        before: Village,
        resident: SimId,
        next: TilePosition,
        winner: SimId,
    )
        requires
            before.valid(),
            before.go_to.contains_key(resident),
        ensures
            before.may_enter(resident, next) && before.gets_tile(winner, next) && winner != resident
                ==> self.follow(before, resident) == (Village {
                ledger: self.ledger_with(
                    WorldEventKind::GoToWaited { resident, blocked_by: winner, position: next },
                ),
                ..self
            }),
            (forall|tile: TilePosition| !#[trigger] before.may_enter(resident, tile))
                ==> self.follow(before, resident) == self.walk(resident),
    {
        before.lemma_claims(resident);
        if before.may_enter(resident, next) && before.gets_tile(winner, next) && winner
            != resident {
            before.lemma_gets_tile(winner, next);
        }
        if before.claim(resident) is Some {
            assert(before.may_enter(resident, before.claim(resident)->0.target));
        }
    }
}

/// What is picked from an ascending list ascends.
proof fn lemma_filter_ascends(ids: Seq<SimId>, p: spec_fn(SimId) -> bool)
    requires
        forall|i: int, j: int|
            #![trigger ids[i], ids[j]]
            0 <= i < j < ids.len() ==> ids[i].0 < ids[j].0,
    ensures
        forall|i: int, j: int|
            #![trigger ids.filter(p)[i], ids.filter(p)[j]]
            0 <= i < j < ids.filter(p).len() ==> ids.filter(p)[i].0 < ids.filter(p)[j].0,
    decreases ids.len(),
{
    reveal(Seq::filter);
    if ids.len() > 0 {
        let rest = ids.drop_last();
        let kept = rest.filter(p);
        assert forall|i: int, j: int|
            #![trigger rest[i], rest[j]]
            0 <= i < j < rest.len() implies rest[i].0 < rest[j].0 by {
            assert(ids[i].0 < ids[j].0);
        }
        lemma_filter_ascends(rest, p);
        assert forall|i: int| 0 <= i < kept.len() implies (#[trigger] kept[i]).0 < ids.last().0 by {
            assert(kept.contains(kept[i]));
            lemma_filter_is_member(rest, p, kept[i]);
            let k = rest.index_of(kept[i]);
            assert(ids[k].0 < ids[ids.len() - 1].0);
        }
    }
}

/// What is picked is in the list and satisfies the condition, and all such are
/// picked.
proof fn lemma_filter_picks(ids: Seq<SimId>, p: spec_fn(SimId) -> bool)
    ensures
        forall|id: SimId| #[trigger] ids.filter(p).contains(id) <==> p(id) && ids.contains(id),
{
    assert forall|id: SimId| #[trigger] ids.filter(p).contains(id) <==> p(id) && ids.contains(
        id,
    ) by {
        ids.filter_lemma(p);
        if ids.filter(p).contains(id) {
            let i = ids.filter(p).index_of(id);
            assert(ids.filter(p)[i] == id);
            assert(p(ids.filter(p)[i]));
            lemma_filter_is_member(ids, p, id);
        }
        if p(id) && ids.contains(id) {
            let i = ids.index_of(id);
            assert(ids[i] == id);
        }
    }
}

proof fn lemma_filter_is_member(ids: Seq<SimId>, p: spec_fn(SimId) -> bool, id: SimId)
    requires
        ids.filter(p).contains(id),
    ensures
        ids.contains(id),
    decreases ids.len(),
{
    reveal(Seq::filter);
    if ids.len() > 0 {
        let rest = ids.drop_last();
        let i = ids.filter(p).index_of(id);
        if p(ids.last()) && i == rest.filter(p).len() {
            assert(ids[ids.len() - 1] == id);
        } else {
            assert(rest.filter(p)[i] == id);
            lemma_filter_is_member(rest, p, id);
            let k = rest.index_of(id);
            assert(ids[k] == id);
        }
    }
}

} // verus!
