//! What the village promises about movement.

use vstd::prelude::*;

use crate::arbitration::ActionBand;
use crate::arbitration::MovementClaim;
use crate::arbitration::UseRequest;
use crate::content::TilePosition;
use crate::events::PlayerCommand;
use crate::events::WorldEventKind;
use crate::identity::PlayerTaskId;
use crate::identity::SimId;
use crate::ord_map::in_order;
use crate::ord_map::lemma_in_order_lists;
use crate::village::less;
use crate::village::ranked;
use crate::village::takes_tile;
use crate::village::Village;

verus! {

impl Village {
    // -- Claims on tiles ---------------------------------------------------

    /// One claim at most wins a tile.
    pub proof fn law_one_claim_wins_a_tile(self, a: SimId, b: SimId)
        requires
            self.go_to.contains_key(a),
            self.go_to.contains_key(b),
            self.approved(a),
            self.approved(b),
            self.claim(a)->0.target == self.claim(b)->0.target,
        ensures
            a == b,
    {
        if a != b {
            assert(!self.claims_over(a, b));
            assert(!self.claims_over(b, a));
        }
    }

    /// A claim that does not win its tile waits for one that does, and that
    /// outranks it: higher effective priority, then the older request, then
    /// the lower `SimId`.
    pub proof fn law_losing_claim_waits_for_the_winner(self, resident: SimId)
        requires
            self.valid(),
            self.go_to.contains_key(resident),
            self.claim(resident) is Some,
            !self.approved(resident),
        ensures
            ({
                let winner = self.winner_over(resident);
                &&& self.go_to.contains_key(winner)
                &&& self.approved(winner)
                &&& self.claim(winner)->0.target == self.claim(resident)->0.target
                &&& self.claim(winner)->0.standing().outranks(self.claim(resident)->0.standing())
            }),
    {
        let ids = in_order::<SimId>(self.go_to.dom());
        lemma_in_order_lists::<SimId>(self.go_to.dom());
        let claims = Seq::new(ids.len(), |i: int| self.claim(ids[i]));
        assert forall|r: SimId| self.go_to.contains_key(r) <==> ids.contains(r) by {}
        assert(self.lists_walkers(ids));
        assert(ids.contains(resident));
        let i = ids.index_of(resident);
        assert(ids[i] == resident);
        assert(claims[i] == self.claim(ids[i]));
        let w = lemma_best_claim_exists(claims, i, claims.len() as int);
        assert(takes_tile(claims, i, w));
        self.lemma_best_claim(ids, claims, i, w);
        assert(ids.contains(ids[w]));
        assert(claims[w] == self.claim(ids[w]));
        assert(self.claims_over(ids[w], resident));
        assert forall|other: SimId| !#[trigger] self.claims_over(other, ids[w]) by {
            if self.claims_over(other, ids[w]) {
                assert(ids.contains(other));
                let k = ids.index_of(other);
                assert(claims[k] == self.claim(ids[k]));
            }
        }
    }

    /// Setting out plans a route and claims nothing: no tile, no portal.
    pub proof fn law_setting_out_claims_nothing(
        self,
        resident: SimId,
        destination: TilePosition,
        priority: i64,
        band: ActionBand,
        order: Option<PlayerTaskId>,
    )
        ensures
            self.set_out(resident, destination, priority, band, order).occupancy == self.occupancy,
            self.set_out(resident, destination, priority, band, order).portal_occupancy
                == self.portal_occupancy,
            self.set_out(resident, destination, priority, band, order).residents == self.residents,
    {
    }

    /// A portal is crossed by one resident at a time.
    pub proof fn law_portal_has_one_traveller(self, a: SimId, b: SimId)
        requires
            self.valid(),
            self.go_to.contains_key(a),
            self.go_to.contains_key(b),
            self.go_to[a].traversal is Some,
            self.go_to[b].traversal is Some,
            self.go_to[a].traversal->0.portal@ == self.go_to[b].traversal->0.portal@,
        ensures
            a == b,
    {
    }

    /// A walk without a route fails, and says so.
    pub proof fn law_impossible_walk_fails(self, resident: SimId)
        requires
            self.go_to.contains_key(resident),
            self.go_to[resident].traversal is None,
            self.go_to[resident].path.len() == 0,
        ensures
            !self.walk(resident).go_to.contains_key(resident),
            self.walk(resident).residents == self.residents,
            self.walk(resident).ledger.last().kind == (WorldEventKind::GoToFailed {
                resident,
                destination: self.go_to[resident].destination,
            }),
    {
    }

    // -- One tile a tick ---------------------------------------------------

    /// A walk moves nobody else and changes nobody else's walk.
    pub(crate) proof fn lemma_walk_spares(self, walker: SimId, resident: SimId)
        requires
            walker != resident,
        ensures
            self.walk(walker).position_of(resident) == self.position_of(resident),
            self.walk(walker).go_to.contains_key(resident) == self.go_to.contains_key(resident),
            self.walk(walker).go_to[resident] == self.go_to[resident],
    {
    }

    pub(crate) proof fn lemma_walk_all_spares(self, residents: Seq<SimId>, resident: SimId)
        requires
            !residents.contains(resident),
        ensures
            self.walk_all(residents).position_of(resident) == self.position_of(resident),
            self.walk_all(residents).go_to.contains_key(resident) == self.go_to.contains_key(
                resident,
            ),
            self.walk_all(residents).go_to[resident] == self.go_to[resident],
        decreases residents.len(),
    {
        if residents.len() > 0 {
            let rest = residents.drop_last();
            assert forall|i: int| 0 <= i < rest.len() implies rest[i] != resident by {
                assert(residents.contains(residents[i]));
            }
            assert(residents.contains(residents[residents.len() - 1]));
            self.lemma_walk_all_spares(rest, resident);
            self.walk_all(rest).lemma_walk_spares(residents.last(), resident);
        }
    }

    proof fn lemma_follow_all_spares(
        self,
        before: Village,
        residents: Seq<SimId>,
        resident: SimId,
    )
        requires
            !residents.contains(resident),
        ensures
            self.follow_all(before, residents).position_of(resident) == self.position_of(resident),
        decreases residents.len(),
    {
        if residents.len() > 0 {
            let rest = residents.drop_last();
            assert forall|i: int| 0 <= i < rest.len() implies rest[i] != resident by {
                assert(residents.contains(residents[i]));
            }
            assert(residents.contains(residents[residents.len() - 1]));
            self.lemma_follow_all_spares(before, rest, resident);
            self.follow_all(before, rest).lemma_walk_spares(residents.last(), resident);
        }
    }

    /// One walk takes a resident nowhere but to the tile it was committed to.
    proof fn lemma_walk_one_tile(self, resident: SimId)
        requires
            self.sound(),
        ensures
            self.walk(resident).position_of(resident) == self.position_of(resident)
                || self.walk(resident).position_of(resident) == self.go_to[resident].ahead(),
    {
    }

    proof fn lemma_walk_all_one_tile(self, residents: Seq<SimId>, resident: SimId)
        requires
            self.valid(),
            residents.no_duplicates(),
        ensures
            self.walk_all(residents).position_of(resident) == self.position_of(resident)
                || self.walk_all(residents).position_of(resident) == self.go_to[resident].ahead(),
        decreases residents.len(),
    {
        if residents.len() > 0 {
            let rest = residents.drop_last();
            let last = residents.last();
            if last == resident {
                assert(!rest.contains(resident)) by {
                    if rest.contains(resident) {
                        let i = rest.index_of(resident);
                        assert(residents[i] == residents[residents.len() - 1]);
                    }
                }
                self.lemma_walk_all_spares(rest, resident);
                self.lemma_walk_all_valid(rest);
                self.walk_all(rest).lemma_walk_one_tile(resident);
            } else {
                self.lemma_walk_all_one_tile(rest, resident);
                self.walk_all(rest).lemma_walk_spares(last, resident);
            }
        }
    }

    proof fn lemma_follow_all_one_tile(
        self,
        before: Village,
        residents: Seq<SimId>,
        resident: SimId,
    )
        requires
            self.valid(),
            residents.no_duplicates(),
        ensures
            self.follow_all(before, residents).position_of(resident) == self.position_of(resident)
                || self.follow_all(before, residents).position_of(resident)
                == self.go_to[resident].ahead(),
        decreases residents.len(),
    {
        if residents.len() > 0 {
            let rest = residents.drop_last();
            let last = residents.last();
            let mid = self.follow_all(before, rest);
            if last == resident {
                assert(!rest.contains(resident)) by {
                    if rest.contains(resident) {
                        let i = rest.index_of(resident);
                        assert(residents[i] == residents[residents.len() - 1]);
                    }
                }
                self.lemma_follow_all_keeps_walk(before, rest, resident);
                self.lemma_follow_all_valid(before, rest);
                mid.lemma_walk_one_tile(resident);
            } else {
                self.lemma_follow_all_one_tile(before, rest, resident);
                mid.lemma_walk_spares(last, resident);
            }
        }
    }

    pub(crate) proof fn lemma_follow_all_keeps_walk(
        self,
        before: Village,
        residents: Seq<SimId>,
        resident: SimId,
    )
        requires
            !residents.contains(resident),
        ensures
            self.follow_all(before, residents).position_of(resident) == self.position_of(resident),
            self.follow_all(before, residents).go_to.contains_key(resident)
                == self.go_to.contains_key(resident),
            self.follow_all(before, residents).go_to[resident] == self.go_to[resident],
        decreases residents.len(),
    {
        if residents.len() > 0 {
            let rest = residents.drop_last();
            assert forall|i: int| 0 <= i < rest.len() implies rest[i] != resident by {
                assert(residents.contains(residents[i]));
            }
            assert(residents.contains(residents[residents.len() - 1]));
            self.lemma_follow_all_keeps_walk(before, rest, resident);
            self.follow_all(before, rest).lemma_walk_spares(residents.last(), resident);
        }
    }

    /// The walkers that go first and those that follow are different.
    pub(crate) proof fn lemma_walkers_apart(self)
        requires
            self.valid(),
        ensures
            self.approved_walkers().no_duplicates(),
            self.other_walkers().no_duplicates(),
            forall|resident: SimId|
                !(self.approved_walkers().contains(resident) && self.other_walkers().contains(
                    resident,
                )),
    {
        let ids = in_order::<SimId>(self.go_to.dom());
        lemma_in_order_lists::<SimId>(self.go_to.dom());
        lemma_filter_distinct(ids, self.goes_first());
        lemma_filter_distinct(ids, self.goes_later());
        assert forall|resident: SimId|
            !(self.approved_walkers().contains(resident) && self.other_walkers().contains(
                resident,
            )) by {
            if self.approved_walkers().contains(resident) && self.other_walkers().contains(
                resident,
            ) {
                assert(self.goes_first()(resident));
                assert(self.goes_later()(resident));
            }
        }
    }

    /// In one tick of movement a resident stays where it is, or comes to the
    /// tile it was committed to: the next tile of its route, or the far end of
    /// the portal it is inside.
    pub proof fn law_residents_move_one_tile_a_tick(self, resident: SimId)
        requires
            self.valid(),
        ensures
            self.walk_everyone().position_of(resident) == self.position_of(resident)
                || self.walk_everyone().position_of(resident) == self.go_to[resident].ahead(),
    {
        let first = self.approved_walkers();
        let later = self.other_walkers();
        let walked = self.walk_all(first);
        self.lemma_walkers_apart();
        self.lemma_walk_all_valid(first);
        if first.contains(resident) {
            self.lemma_walk_all_one_tile(first, resident);
            assert(!later.contains(resident));
            walked.lemma_follow_all_spares(self, later, resident);
        } else {
            self.lemma_walk_all_spares(first, resident);
            walked.lemma_follow_all_one_tile(self, later, resident);
        }
    }

    // -- No two residents on a tile ----------------------------------------

    /// Every resident holds the tile it stands on.
    pub open spec fn stands_apart(self) -> bool {
        forall|resident: SimId| #[trigger]
            self.residents.contains_key(resident) ==> {
                let tile = self.residents[resident].position;
                self.occupancy.contains_key(tile) && self.occupancy[tile] == resident
            }
    }

    /// Whether a resident is about to come out of a portal onto a tile that
    /// another resident holds.
    pub open spec fn comes_out_on_held_tile(self, resident: SimId) -> bool {
        &&& self.go_to.contains_key(resident)
        &&& match self.go_to[resident].traversal {
            Some(traversal) => less(traversal.ticks_remaining, 1) == 0
                && self.occupancy.contains_key(traversal.destination)
                && self.occupancy[traversal.destination] != resident,
            None => false,
        }
    }

    /// Residents that hold their tiles stand on different tiles.
    pub proof fn law_residents_that_hold_their_tiles_are_apart(self, a: SimId, b: SimId)
        requires
            self.stands_apart(),
            self.residents.contains_key(a),
            self.residents.contains_key(b),
            a != b,
        ensures
            self.residents[a].position != self.residents[b].position,
    {
    }

    /// A walk leaves every resident holding the tile it stands on, unless it
    /// brings one out of a portal onto a tile that another has taken meanwhile.
    pub proof fn law_walk_keeps_residents_apart(self, resident: SimId)
        requires
            self.valid(),
            self.stands_apart(),
            !self.comes_out_on_held_tile(resident),
        ensures
            self.walk(resident).stands_apart(),
    {
        if self.go_to.contains_key(resident) {
            let next = self.walk(resident);
            let origin = self.residents[resident].position;
            assert forall|r: SimId| #[trigger] next.residents.contains_key(r) implies ({
                let tile = next.residents[r].position;
                next.occupancy.contains_key(tile) && next.occupancy[tile] == r
            }) by {
                assert(self.residents.contains_key(r));
                assert(self.occupancy[self.residents[r].position] == r);
                assert(self.occupancy[origin] == resident);
            }
        }
    }

    /// Where residents stand and which tiles they hold.
    pub open spec fn same_places(self, next: Village) -> bool {
        next.residents == self.residents && next.occupancy == self.occupancy
    }

    proof fn lemma_ingest_all_places(self, commands: Seq<PlayerCommand>)
        ensures
            self.same_places(self.ingest_all(commands)),
        decreases commands.len(),
    {
        if commands.len() > 0 {
            self.lemma_ingest_all_places(commands.drop_last());
        }
    }

    proof fn lemma_choose_all_places(self, residents: Seq<SimId>)
        ensures
            self.same_places(self.choose_all(residents)),
        decreases residents.len(),
    {
        if residents.len() > 0 {
            self.lemma_choose_all_places(residents.drop_last());
        }
    }

    proof fn lemma_dispatch_all_places(self, residents: Seq<SimId>)
        ensures
            self.same_places(self.dispatch_all(residents)),
        decreases residents.len(),
    {
        if residents.len() > 0 {
            self.lemma_dispatch_all_places(residents.drop_last());
        }
    }

    proof fn lemma_progress_all_places(self, residents: Seq<SimId>)
        ensures
            self.same_places(self.progress_all(residents)),
        decreases residents.len(),
    {
        if residents.len() > 0 {
            self.lemma_progress_all_places(residents.drop_last());
        }
    }

    proof fn lemma_grant_all_places(self, requests: Seq<UseRequest>)
        ensures
            self.same_places(self.grant_all(requests)),
        decreases requests.len(),
    {
        if requests.len() > 0 {
            self.lemma_grant_all_places(requests.drop_last());
        }
    }

    /// Only walking moves anybody.
    pub proof fn law_only_walking_moves_residents(self)
        ensures
            self.same_places(self.after_dispatch()),
            self.after_walking().same_places(self.advance()),
    {
        let begun = self.begin_tick();
        let emptied = Village { inbox: Seq::empty(), ..begun };
        emptied.lemma_ingest_all_places(begun.inbox);
        let grown = self.after_ingest().age_needs();
        grown.lemma_choose_all_places(in_order::<SimId>(grown.toilet_needs.dom()));
        let lived = self.after_living();
        lived.lemma_dispatch_all_places(in_order::<SimId>(lived.player_task_queue.dom()));
        let walked = self.after_walking();
        walked.lemma_progress_all_places(in_order::<SimId>(walked.active_object_uses.dom()));
        let progressed = walked.progress_everyone();
        let start = Village { use_requests: Seq::empty(), ..progressed };
        start.lemma_grant_all_places(ranked(progressed.use_requests));
    }

    // -- How residents come to share a tile --------------------------------

    /// No two residents stand on one tile.
    pub open spec fn apart(self) -> bool {
        forall|a: SimId, b: SimId|
            #![trigger self.residents.contains_key(a), self.residents.contains_key(b)]
            self.residents.contains_key(a) && self.residents.contains_key(b) && a != b
                ==> self.residents[a].position != self.residents[b].position
    }

    /// Whether a resident's next step brings it to where another stands: it
    /// comes out of a portal there, or it steps onto the tile because nobody
    /// holds it.
    pub open spec fn joins(self, walker: SimId, other: SimId) -> bool {
        let tile = self.residents[other].position;
        &&& walker != other
        &&& self.residents.contains_key(walker)
        &&& self.residents.contains_key(other)
        &&& self.residents[walker].position != tile
        &&& self.go_to.contains_key(walker)
        &&& match self.go_to[walker].traversal {
            Some(traversal) => less(traversal.ticks_remaining, 1) == 0 && traversal.destination
                == tile,
            None => self.go_to[walker].target() == Some(tile) && !self.occupancy.contains_key(
                tile,
            ),
        }
    }

    /// The walking residents in the order in which they take their steps.
    pub open spec fn steppers(self) -> Seq<SimId> {
        self.approved_walkers() + self.other_walkers()
    }

    /// The village before the step of the `k`th walking resident.
    pub open spec fn moment(self, k: int) -> Village {
        let first = self.approved_walkers();
        if k < first.len() {
            self.walk_all(first.take(k))
        } else {
            self.walk_all(first).follow_all(self, self.other_walkers().take(k - first.len()))
        }
    }

    /// Whether the `k`th walking resident joins another in its step, on a given
    /// tile.
    pub open spec fn joined_at(
        self,
        k: int,
        walker: SimId,
        other: SimId,
        tile: TilePosition,
    ) -> bool {
        &&& 0 <= k < self.steppers().len()
        &&& self.steppers()[k] == walker
        &&& self.moment(k).joins(walker, other)
        &&& self.moment(k).residents[other].position == tile
    }

    /// A step that brings a resident to where another stands joins it.
    proof fn lemma_walk_joins(self, walker: SimId, other: SimId)
        requires
            self.sound(),
            self.residents.contains_key(walker),
            self.residents.contains_key(other),
            self.position_of(walker) != self.position_of(other),
            self.walk(walker).position_of(walker) == self.walk(walker).position_of(other),
            walker != other,
        ensures
            self.joins(walker, other),
            self.walk(walker).position_of(other) == self.position_of(other),
    {
        self.lemma_walk_spares(walker, other);
    }

    /// Residents that share a tile after some have walked have shared it since
    /// one of them joined the other.
    proof fn lemma_walk_all_joins(self, residents: Seq<SimId>, a: SimId, b: SimId) -> (k: int)
        requires
            self.valid(),
            a != b,
            self.residents.contains_key(a),
            self.residents.contains_key(b),
            self.position_of(a) != self.position_of(b),
            self.walk_all(residents).position_of(a) == self.walk_all(residents).position_of(b),
        ensures
            0 <= k < residents.len(),
            ({
                let then = self.walk_all(residents.take(k));
                let (walker, other) = if residents[k] == a {
                    (a, b)
                } else {
                    (b, a)
                };
                &&& residents[k] == walker
                &&& then.joins(walker, other)
                &&& then.position_of(other) == self.walk_all(residents).position_of(other)
            }),
        decreases residents.len(),
    {
        let rest = residents.drop_last();
        let last = residents.last();
        let mid = self.walk_all(rest);
        assert(residents.len() > 0);
        self.lemma_walk_all_valid(rest);
        self.lemma_walk_all_goes_on(rest);
        assert(mid.residents.dom().contains(a) && mid.residents.dom().contains(b));
        if mid.position_of(a) == mid.position_of(b) {
            let k = self.lemma_walk_all_joins(rest, a, b);
            assert(rest.take(k) =~= residents.take(k));
            if last != a {
                mid.lemma_walk_spares(last, a);
            }
            if last != b {
                mid.lemma_walk_spares(last, b);
            }
            k
        } else {
            let k = residents.len() - 1;
            assert(residents.take(k) =~= rest);
            if last == a {
                mid.lemma_walk_joins(a, b);
            } else if last == b {
                mid.lemma_walk_joins(b, a);
            } else {
                mid.lemma_walk_spares(last, a);
                mid.lemma_walk_spares(last, b);
            }
            k
        }
    }

    /// Residents that share a tile after some have followed have shared it all
    /// along, or since one of them joined the other.
    proof fn lemma_follow_all_joins(
        self,
        before: Village,
        residents: Seq<SimId>,
        a: SimId,
        b: SimId,
    ) -> (k: Option<int>)
        requires
            self.valid(),
            a != b,
            self.residents.contains_key(a),
            self.residents.contains_key(b),
            self.follow_all(before, residents).position_of(a) == self.follow_all(
                before,
                residents,
            ).position_of(b),
        ensures
            match k {
                None => {
                    &&& self.position_of(a) == self.position_of(b)
                    &&& self.follow_all(before, residents).position_of(a) == self.position_of(a)
                },
                Some(k) => {
                    let then = self.follow_all(before, residents.take(k));
                    let (walker, other) = if residents[k] == a {
                        (a, b)
                    } else {
                        (b, a)
                    };
                    &&& 0 <= k < residents.len()
                    &&& residents[k] == walker
                    &&& then.joins(walker, other)
                    &&& then.position_of(other) == self.follow_all(before, residents).position_of(
                        other,
                    )
                },
            },
        decreases residents.len(),
    {
        if residents.len() == 0 {
            None
        } else {
            let rest = residents.drop_last();
            let last = residents.last();
            let mid = self.follow_all(before, rest);
            self.lemma_follow_all_valid(before, rest);
            self.lemma_follow_all_goes_on(before, rest);
            assert(mid.residents.dom().contains(a) && mid.residents.dom().contains(b));
            if last != a {
                mid.lemma_walk_spares(last, a);
            }
            if last != b {
                mid.lemma_walk_spares(last, b);
            }
            if mid.position_of(a) == mid.position_of(b) {
                let k = self.lemma_follow_all_joins(before, rest, a, b);
                if k is Some {
                    assert(rest.take(k->0) =~= residents.take(k->0));
                }
                k
            } else {
                let k = residents.len() - 1;
                assert(residents.take(k) =~= rest);
                if last == a {
                    mid.lemma_walk_joins(a, b);
                } else {
                    mid.lemma_walk_joins(b, a);
                }
                Some(k)
            }
        }
    }

    /// Two residents that a tick brings onto one tile are brought there by a
    /// step of one of them to where the other stands: it comes out of a portal
    /// there, or it steps onto the tile because nobody holds it, though the
    /// other stands on it.
    pub proof fn law_tile_is_shared_only_by_joining(self, a: SimId, b: SimId)
        requires
            self.valid(),
            a != b,
            self.residents.contains_key(a),
            self.residents.contains_key(b),
            self.residents[a].position != self.residents[b].position,
            self.advance().residents[a].position == self.advance().residents[b].position,
        ensures
            exists|k: int|
                #![trigger self.after_dispatch().moment(k)]
                self.after_dispatch().joined_at(k, a, b, self.advance().residents[a].position)
                    || self.after_dispatch().joined_at(
                    k,
                    b,
                    a,
                    self.advance().residents[a].position,
                ),
    {
        self.lemma_phases_valid();
        self.law_only_walking_moves_residents();
        self.law_tick_keeps_the_authored_world();
        let tile = self.advance().residents[a].position;
        let dispatched = self.after_dispatch();
        let first = dispatched.approved_walkers();
        let later = dispatched.other_walkers();
        let mid = dispatched.walk_all(first);
        let walked = self.after_walking();
        assert(self.residents.dom().contains(a) && self.residents.dom().contains(b));
        assert(walked.residents.contains_key(a) && walked.residents.contains_key(b));
        dispatched.lemma_walk_all_valid(first);
        dispatched.lemma_walk_all_goes_on(first);
        assert(mid.residents.dom().contains(a) && mid.residents.dom().contains(b));
        let j = mid.lemma_follow_all_joins(dispatched, later, a, b);
        let k = match j {
            Some(j) => first.len() + j,
            None => dispatched.lemma_walk_all_joins(first, a, b),
        };
        let then = dispatched.moment(k);
        assert(dispatched.steppers()[k] == match j {
            Some(j) => later[j],
            None => first[k],
        });
        assert(dispatched.joined_at(k, a, b, tile) || dispatched.joined_at(k, b, a, tile));
    }

    /// A tick keeps residents apart, unless in its own step one of them joins
    /// another that is still there when the tick is over.
    pub proof fn law_tick_keeps_residents_apart(self)
        requires
            self.valid(),
            self.apart(),
            forall|k: int, walker: SimId, other: SimId, tile: TilePosition|
                #![trigger self.after_dispatch().joined_at(k, walker, other, tile)]
                self.after_dispatch().joined_at(k, walker, other, tile)
                    ==> self.advance().residents[other].position != tile
                    || self.advance().residents[walker].position != tile,
        ensures
            self.advance().apart(),
    {
        self.law_tick_keeps_the_authored_world();
        let next = self.advance();
        assert forall|a: SimId, b: SimId|
            #![trigger next.residents.contains_key(a), next.residents.contains_key(b)]
            next.residents.contains_key(a) && next.residents.contains_key(b) && a
                != b implies next.residents[a].position != next.residents[b].position by {
            if next.residents[a].position == next.residents[b].position {
                assert(self.residents.dom().contains(a) && self.residents.dom().contains(b));
                assert(self.residents.contains_key(a) && self.residents.contains_key(b));
                self.law_tile_is_shared_only_by_joining(a, b);
            }
        }
    }
}

/// Among claims there is one that takes the tile of claim `i`.
proof fn lemma_best_claim_exists(claims: Seq<Option<MovementClaim>>, i: int, n: int) -> (w: int)
    requires
        0 <= i < claims.len(),
        claims[i] is Some,
        0 <= n <= claims.len(),
    ensures
        0 <= w < claims.len(),
        claims[w] is Some,
        claims[w]->0.target == claims[i]->0.target,
        w == i || claims[w]->0.standing().outranks(claims[i]->0.standing()),
        forall|k: int|
            0 <= k < n && (#[trigger] claims[k]) is Some && claims[k]->0.target
                == claims[i]->0.target ==> !claims[k]->0.standing().outranks(
                claims[w]->0.standing(),
            ),
    decreases n,
{
    if n == 0 {
        i
    } else {
        let v = lemma_best_claim_exists(claims, i, n - 1);
        let last = claims[n - 1];
        if last is Some && last->0.target == claims[i]->0.target && last->0.standing().outranks(
            claims[v]->0.standing(),
        ) {
            n - 1
        } else {
            v
        }
    }
}

/// What is picked from a list without duplicates has none either, and is
/// picked.
proof fn lemma_filter_distinct(ids: Seq<SimId>, p: spec_fn(SimId) -> bool)
    requires
        ids.no_duplicates(),
    ensures
        ids.filter(p).no_duplicates(),
        forall|id: SimId| ids.filter(p).contains(id) ==> p(id) && ids.contains(id),
    decreases ids.len(),
{
    reveal(Seq::filter);
    if ids.len() > 0 {
        let rest = ids.drop_last();
        let last = ids.last();
        lemma_filter_distinct(rest, p);
        let kept = rest.filter(p);
        assert(!rest.contains(last)) by {
            if rest.contains(last) {
                let i = rest.index_of(last);
                assert(ids[i] == ids[ids.len() - 1]);
            }
        }
        assert forall|id: SimId| rest.contains(id) implies ids.contains(id) by {
            let i = rest.index_of(id);
            assert(ids[i] == id);
        }
        assert(ids[ids.len() - 1] == last);
        assert forall|id: SimId| ids.filter(p).contains(id) implies p(id) && ids.contains(id) by {
            let all = ids.filter(p);
            let i = all.index_of(id);
            if i < kept.len() {
                assert(kept[i] == id);
                assert(kept.contains(id));
            }
        }
        if p(last) {
            let all = kept.push(last);
            assert forall|i: int, j: int| 0 <= i < all.len() && 0 <= j < all.len() && i
                != j implies all[i] != all[j] by {
                if i < kept.len() {
                    assert(kept.contains(kept[i]));
                }
                if j < kept.len() {
                    assert(kept.contains(kept[j]));
                }
            }
        }
    }
}

} // verus!
