//! What the village promises about object use and needs.

use vstd::prelude::*;

use crate::arbitration::UseRequest;
use crate::content::Capability;
use crate::events::PlayerCommand;
use crate::identity::SimId;
use crate::ord_map::in_order;
use crate::ord_map::lemma_in_order_lists;
use crate::upkeep::lemma_place_inserts;
use crate::upkeep::lemma_ranked_lists;
use crate::village::place;
use crate::village::ranked;
use crate::village::Village;

verus! {

impl Village {
    // -- Claims ------------------------------------------------------------

    /// A slot is used by one resident at a time.
    pub proof fn law_slot_has_one_user(self, a: SimId, b: SimId)
        requires
            self.valid(),
            self.active_object_uses.contains_key(a),
            self.active_object_uses.contains_key(b),
            self.active_object_uses[a].object@ == self.active_object_uses[b].object@,
            self.active_object_uses[a].slot@ == self.active_object_uses[b].slot@,
        ensures
            a == b,
    {
    }

    /// A slot is claimed exactly while some resident uses it, and by that
    /// resident.
    pub proof fn law_slot_claims_are_uses(
        self,
        object: Seq<char>,
        slot: Seq<char>,
        resident: SimId,
    )
        requires
            self.valid(),
        ensures
            self.object_slot_claims.contains_key((object, slot)) && self.object_slot_claims[(
                object,
                slot,
            )] == resident <==> self.active_object_uses.contains_key(resident)
                && self.active_object_uses[resident].object@ == object
                && self.active_object_uses[resident].slot@ == slot,
    {
    }

    /// A resident's capability is claimed exactly while it uses an object that
    /// needs it, and for that object.
    pub proof fn law_capability_claims_are_uses(self, resident: SimId, capability: Capability)
        requires
            self.valid(),
        ensures
            self.capability_claims.contains_key((resident, capability))
                <==> self.active_object_uses.contains_key(resident)
                && self.active_object_uses[resident].capability == capability,
            self.capability_claims.contains_key((resident, capability)) ==> self.capability_claims[(
                resident,
                capability,
            )] == self.active_object_uses[resident].object@,
    {
    }

    /// Whether a resident holds a slot of an object.
    pub open spec fn holds_slot(self, resident: SimId, object: Seq<char>, slot: Seq<char>) -> bool {
        self.object_slot_claims.contains_key((object, slot)) && self.object_slot_claims[(
            object,
            slot,
        )] == resident
    }

    /// Claims go together: a resident's hands are claimed for an object exactly
    /// while it holds a slot of that object, it holds one slot at most in all,
    /// and it asks for nothing while it uses something.
    pub proof fn law_claims_go_together(
        self,
        resident: SimId,
        object: Seq<char>,
        slot: Seq<char>,
        other: Seq<char>,
        other_slot: Seq<char>,
    )
        requires
            self.valid(),
        ensures
            self.capability_claims.contains_key((resident, Capability::Hands))
                && self.capability_claims[(resident, Capability::Hands)] == object <==> exists|
                held: Seq<char>,
            | #[trigger] self.holds_slot(resident, object, held),
            self.holds_slot(resident, object, slot) && self.holds_slot(resident, other, other_slot)
                ==> object == other && slot == other_slot,
            !(self.active_object_uses.contains_key(resident) && self.has_request(resident)),
    {
        if self.active_object_uses.contains_key(resident) {
            let active = self.active_object_uses[resident];
            assert(self.holds_slot(resident, active.object@, active.slot@));
            assert(active.capability == Capability::Hands);
        }
    }

    /// A request claims nothing.
    pub proof fn law_request_claims_nothing(self, request: UseRequest)
        ensures
            self.request(request).object_slot_claims == self.object_slot_claims,
            self.request(request).capability_claims == self.capability_claims,
            self.request(request).active_object_uses == self.active_object_uses,
    {
    }

    /// Whether no use and no claim has been added.
    pub open spec fn only_releases(self, next: Village) -> bool {
        &&& next.active_object_uses.submap_of(self.active_object_uses)
        &&& next.object_slot_claims.submap_of(self.object_slot_claims)
        &&& next.capability_claims.submap_of(self.capability_claims)
    }

    proof fn lemma_releases_transitive(self, mid: Village, next: Village)
        requires
            self.only_releases(mid),
            mid.only_releases(next),
        ensures
            self.only_releases(next),
    {
        lemma_submap_transitive(
            next.active_object_uses,
            mid.active_object_uses,
            self.active_object_uses,
        );
        lemma_submap_transitive(
            next.object_slot_claims,
            mid.object_slot_claims,
            self.object_slot_claims,
        );
        lemma_submap_transitive(
            next.capability_claims,
            mid.capability_claims,
            self.capability_claims,
        );
    }

    proof fn lemma_ingest_all_releases(self, commands: Seq<PlayerCommand>)
        ensures
            self.only_releases(self.ingest_all(commands)),
        decreases commands.len(),
    {
        if commands.len() > 0 {
            let rest = commands.drop_last();
            self.lemma_ingest_all_releases(rest);
            self.ingest_all(rest).law_submission_never_claims(commands.last());
            self.lemma_releases_transitive(self.ingest_all(rest), self.ingest_all(commands));
        }
    }

    proof fn lemma_choose_all_releases(self, residents: Seq<SimId>)
        ensures
            self.only_releases(self.choose_all(residents)),
        decreases residents.len(),
    {
        if residents.len() > 0 {
            let rest = residents.drop_last();
            let mid = self.choose_all(rest);
            self.lemma_choose_all_releases(rest);
            assert(mid.only_releases(mid.choose_plan(residents.last())));
            self.lemma_releases_transitive(mid, self.choose_all(residents));
        }
    }

    proof fn lemma_dispatch_all_releases(self, residents: Seq<SimId>)
        ensures
            self.only_releases(self.dispatch_all(residents)),
        decreases residents.len(),
    {
        if residents.len() > 0 {
            let rest = residents.drop_last();
            let mid = self.dispatch_all(rest);
            self.lemma_dispatch_all_releases(rest);
            assert(mid.only_releases(mid.dispatch(residents.last())));
            self.lemma_releases_transitive(mid, self.dispatch_all(residents));
        }
    }

    proof fn lemma_walk_all_releases(self, residents: Seq<SimId>)
        ensures
            self.only_releases(self.walk_all(residents)),
        decreases residents.len(),
    {
        if residents.len() > 0 {
            let rest = residents.drop_last();
            let mid = self.walk_all(rest);
            self.lemma_walk_all_releases(rest);
            assert(mid.only_releases(mid.walk(residents.last())));
            self.lemma_releases_transitive(mid, self.walk_all(residents));
        }
    }

    proof fn lemma_follow_all_releases(self, before: Village, residents: Seq<SimId>)
        ensures
            self.only_releases(self.follow_all(before, residents)),
        decreases residents.len(),
    {
        if residents.len() > 0 {
            let rest = residents.drop_last();
            let mid = self.follow_all(before, rest);
            self.lemma_follow_all_releases(before, rest);
            assert(mid.only_releases(mid.follow(before, residents.last())));
            self.lemma_releases_transitive(mid, self.follow_all(before, residents));
        }
    }

    /// Slots and capabilities are acquired only when objects are used: every
    /// earlier phase of a tick adds no use and no claim.
    pub proof fn law_only_object_use_claims(self)
        ensures
            self.only_releases(self.after_ingest()),
            self.only_releases(self.after_living()),
            self.only_releases(self.after_dispatch()),
            self.only_releases(self.after_walking()),
    {
        let begun = self.begin_tick();
        let emptied = Village { inbox: Seq::empty(), ..begun };
        emptied.lemma_ingest_all_releases(begun.inbox);
        self.lemma_releases_transitive(emptied, self.after_ingest());
        let grown = self.after_ingest().age_needs();
        grown.lemma_choose_all_releases(in_order::<SimId>(grown.toilet_needs.dom()));
        self.lemma_releases_transitive(grown, self.after_living());
        let lived = self.after_living();
        lived.lemma_dispatch_all_releases(in_order::<SimId>(lived.player_task_queue.dom()));
        self.lemma_releases_transitive(lived, self.after_dispatch());
        let dispatched = self.after_dispatch();
        let first = dispatched.walk_all(dispatched.approved_walkers());
        dispatched.lemma_walk_all_releases(dispatched.approved_walkers());
        first.lemma_follow_all_releases(dispatched, dispatched.other_walkers());
        self.lemma_releases_transitive(dispatched, first);
        self.lemma_releases_transitive(first, self.after_walking());
    }

    // -- Serving requests --------------------------------------------------

    /// Requests are served by rank: highest effective priority first, then the
    /// oldest, then the lowest `SimId`.
    pub proof fn law_requests_are_served_by_rank(requests: Seq<UseRequest>)
        ensures
            forall|request: UseRequest|
                ranked(requests).contains(request) <==> requests.contains(request),
            forall|i: int, j: int|
                0 <= i < j < ranked(requests).len() ==> !(#[trigger] ranked(
                    requests,
                )[j]).standing().outranks((#[trigger] ranked(requests)[i]).standing()),
        decreases requests.len(),
    {
        lemma_ranked_lists(requests);
        if requests.len() > 0 {
            let rest = requests.drop_last();
            Village::law_requests_are_served_by_rank(rest);
            lemma_place_sorted(ranked(rest), requests.last());
        }
    }

    /// What a request asks for, where its object offers it.
    pub open spec fn slot_asked(self, request: UseRequest) -> (Seq<char>, Seq<char>) {
        (
            request.object@,
            self.affordance(request.object@, request.affordance@)->0.slot@,
        )
    }

    /// Serving leaves every claim, and claims a slot only for a request that
    /// asks for it.
    proof fn lemma_grant_claims(self, request: UseRequest, slot: (Seq<char>, Seq<char>))
        ensures
            self.object_slot_claims.contains_key(slot) ==> self.grant(
                request,
            ).object_slot_claims.contains_key(slot) && self.grant(request).object_slot_claims[slot]
                == self.object_slot_claims[slot],
            !self.object_slot_claims.contains_key(slot) && self.slot_asked(request) != slot
                ==> !self.grant(request).object_slot_claims.contains_key(slot),
            self.grant(request).objects == self.objects,
    {
    }

    proof fn lemma_grant_all_claims(
        self,
        requests: Seq<UseRequest>,
        slot: (Seq<char>, Seq<char>),
    )
        ensures
            self.grant_all(requests).objects == self.objects,
            self.object_slot_claims.contains_key(slot) ==> self.grant_all(
                requests,
            ).object_slot_claims.contains_key(slot) && self.grant_all(
                requests,
            ).object_slot_claims[slot] == self.object_slot_claims[slot],
            !self.object_slot_claims.contains_key(slot) && (forall|i: int|
                0 <= i < requests.len() ==> self.slot_asked(#[trigger] requests[i]) != slot)
                ==> !self.grant_all(requests).object_slot_claims.contains_key(slot),
        decreases requests.len(),
    {
        if requests.len() > 0 {
            let rest = requests.drop_last();
            let mid = self.grant_all(rest);
            self.lemma_grant_all_claims(rest, slot);
            mid.lemma_grant_claims(requests.last(), slot);
            assert(mid.slot_asked(requests.last()) == self.slot_asked(requests.last()));
            if forall|i: int|
                0 <= i < requests.len() ==> self.slot_asked(#[trigger] requests[i]) != slot {
                assert forall|i: int| 0 <= i < rest.len() implies self.slot_asked(
                    #[trigger] rest[i],
                ) != slot by {
                    assert(rest[i] == requests[i]);
                }
                assert(self.slot_asked(requests[requests.len() - 1]) != slot);
            }
        }
    }

    /// Serving adds uses for the residents served, and no other.
    pub(crate) proof fn lemma_grant_all_spares(self, requests: Seq<UseRequest>, resident: SimId)
        requires
            forall|i: int|
                0 <= i < requests.len() ==> (#[trigger] requests[i]).resident != resident,
        ensures
            self.grant_all(requests).active_object_uses.contains_key(resident)
                == self.active_object_uses.contains_key(resident),
            self.grant_all(requests).active_object_uses[resident]
                == self.active_object_uses[resident],
            forall|capability: Capability|
                self.grant_all(requests).capability_claims.contains_key((resident, capability))
                    == self.capability_claims.contains_key((resident, capability)),
        decreases requests.len(),
    {
        if requests.len() > 0 {
            let rest = requests.drop_last();
            assert forall|i: int| 0 <= i < rest.len() implies (
            #[trigger] rest[i]).resident != resident by {
                assert(rest[i] == requests[i]);
            }
            assert(requests[requests.len() - 1].resident != resident);
            self.lemma_grant_all_spares(rest, resident);
        }
    }

    /// Serving in two parts is serving in one.
    proof fn lemma_grant_all_splits(self, a: Seq<UseRequest>, b: Seq<UseRequest>)
        ensures
            self.grant_all(a + b) == self.grant_all(a).grant_all(b),
        decreases b.len(),
    {
        if b.len() == 0 {
            assert(a + b =~= a);
        } else {
            assert((a + b).drop_last() =~= a + b.drop_last());
            assert((a + b).last() == b.last());
            self.lemma_grant_all_splits(a, b.drop_last());
        }
    }

    /// A free slot goes to the request that outranks every other request for
    /// it.
    pub proof fn law_best_request_gets_a_free_slot(self, request: UseRequest)
        requires
            self.valid(),
            self.progress_everyone().use_requests.contains(request),
            !self.progress_everyone().object_slot_claims.contains_key(
                self.progress_everyone().slot_asked(request),
            ),
            forall|other: UseRequest| #[trigger]
                self.progress_everyone().use_requests.contains(other) && other != request
                    && self.progress_everyone().slot_asked(other)
                    == self.progress_everyone().slot_asked(request)
                    ==> request.standing().outranks(other.standing()),
        ensures
            self.use_objects().object_slot_claims.contains_key(
                self.progress_everyone().slot_asked(request),
            ),
            self.use_objects().object_slot_claims[self.progress_everyone().slot_asked(request)]
                == request.resident,
            self.use_objects().active_object_uses.contains_key(request.resident),
            self.use_objects().active_object_uses[request.resident].object == request.object,
            self.use_objects().active_object_uses[request.resident].affordance
                == request.affordance,
    {
        let progressed = self.progress_everyone();
        self.lemma_progressed_valid();
        progressed.lemma_ranked_valid();
        let slot = progressed.slot_asked(request);
        let all = ranked(progressed.use_requests);
        lemma_ranked_lists(progressed.use_requests);
        Village::law_requests_are_served_by_rank(progressed.use_requests);
        let start = Village { use_requests: Seq::empty(), ..progressed };
        assert(all.contains(request));
        let k = all.index_of(request);
        assert(all[k] == request);
        let before = all.take(k);
        let after = all.skip(k + 1);
        assert(all =~= before.push(request) + after);
        start.lemma_grant_all_splits(before.push(request), after);
        assert(before.push(request).drop_last() =~= before);
        assert(before.push(request).last() == request);
        // Nobody before the request asks for its slot.
        assert forall|i: int| 0 <= i < before.len() implies start.slot_asked(#[trigger] before[i])
            != slot by {
            assert(before[i] == all[i]);
            assert(all.contains(all[i]));
            assert(progressed.use_requests.contains(all[i]));
            assert(progressed.slot_asked(all[i]) == start.slot_asked(all[i]));
            assert(!all[k].standing().outranks(all[i].standing()));
            assert(all[i].resident != all[k].resident);
        }
        let ranked_village = progressed.pending_requests(all);
        assert forall|i: int| 0 <= i < before.len() implies (
        #[trigger] before[i]).resident != request.resident by {
            assert(before[i] == all[i]);
            assert(ranked_village.use_requests[i].resident
                != ranked_village.use_requests[k].resident);
        }
        assert(!ranked_village.active_object_uses.contains_key(
            ranked_village.use_requests[k].resident,
        ));
        assert(ranked_village.affordance(
            ranked_village.use_requests[k].object@,
            ranked_village.use_requests[k].affordance@,
        ) is Some);
        start.lemma_grant_all_claims(before, slot);
        start.lemma_grant_all_spares(before, request.resident);
        let mid = start.grant_all(before);
        let affordance = start.affordance(request.object@, request.affordance@)->0;
        assert(mid.affordance(request.object@, request.affordance@) == Some(affordance));
        assert(!start.capability_claims.contains_key((request.resident, affordance.capability)));
        assert(mid.blocker(request, affordance) is None);
        let granted = mid.grant(request);
        granted.lemma_grant_all_claims(after, slot);
        assert forall|i: int| 0 <= i < after.len() implies (
        #[trigger] after[i]).resident != request.resident by {
            assert(after[i] == all[k + 1 + i]);
            assert(ranked_village.use_requests[k].resident != ranked_village.use_requests[k + 1
                + i].resident);
        }
        granted.lemma_grant_all_spares(after, request.resident);
    }

    /// Progress of uses keeps a village valid.
    pub(crate) proof fn lemma_progressed_valid(self)
        requires
            self.valid(),
        ensures
            self.progress_everyone().valid(),
    {
        let ids = in_order::<SimId>(self.active_object_uses.dom());
        lemma_in_order_lists::<SimId>(self.active_object_uses.dom());
        assert forall|i: int| 0 <= i < ids.len() implies self.active_object_uses.contains_key(
            #[trigger] ids[i],
        ) by {
            assert(ids.contains(ids[i]));
        }
        self.lemma_progress_all_valid(ids);
    }

    proof fn lemma_grant_all_keeps_waiting(self, requests: Seq<UseRequest>, request: UseRequest)
        requires
            self.use_requests.contains(request),
        ensures
            self.grant_all(requests).use_requests.contains(request),
        decreases requests.len(),
    {
        if requests.len() > 0 {
            let rest = requests.drop_last();
            self.lemma_grant_all_keeps_waiting(rest, request);
            let mid = self.grant_all(rest);
            let i = mid.use_requests.index_of(request);
            assert(self.grant_all(requests).use_requests[i] == request);
        }
    }

    /// A request is never lost: once it is pending it is either granted or
    /// still pending when objects have been used.
    pub proof fn law_request_waits_until_granted(self, request: UseRequest)
        requires
            self.valid(),
            self.progress_everyone().use_requests.contains(request),
        ensures
            self.use_objects().use_requests.contains(request) || (
            self.use_objects().active_object_uses.contains_key(request.resident)
                && self.use_objects().active_object_uses[request.resident].object == request.object
                && self.use_objects().active_object_uses[request.resident].affordance
                == request.affordance),
    {
        let progressed = self.progress_everyone();
        self.lemma_progressed_valid();
        progressed.lemma_ranked_valid();
        let all = ranked(progressed.use_requests);
        lemma_ranked_lists(progressed.use_requests);
        let start = Village { use_requests: Seq::empty(), ..progressed };
        assert(all.contains(request));
        let k = all.index_of(request);
        assert(all[k] == request);
        let before = all.take(k);
        let after = all.skip(k + 1);
        assert(all =~= before.push(request) + after);
        start.lemma_grant_all_splits(before.push(request), after);
        assert(before.push(request).drop_last() =~= before);
        assert(before.push(request).last() == request);
        let ranked_village = progressed.pending_requests(all);
        assert(ranked_village.affordance(
            ranked_village.use_requests[k].object@,
            ranked_village.use_requests[k].affordance@,
        ) is Some);
        start.lemma_grant_all_claims(before, (request.object@, request.object@));
        let mid = start.grant_all(before);
        assert(mid.affordance(request.object@, request.affordance@) is Some);
        let affordance = mid.affordance(request.object@, request.affordance@)->0;
        let served = mid.grant(request);
        if mid.blocker(request, affordance) is Some {
            assert(served.use_requests[mid.use_requests.len() as int] == request);
            assert(served.use_requests.contains(request));
            served.lemma_grant_all_keeps_waiting(after, request);
        } else {
            assert forall|i: int| 0 <= i < after.len() implies (
            #[trigger] after[i]).resident != request.resident by {
                assert(after[i] == all[k + 1 + i]);
                assert(ranked_village.use_requests[k].resident != ranked_village.use_requests[k + 1
                    + i].resident);
            }
            served.lemma_grant_all_spares(after, request.resident);
        }
    }
}

proof fn lemma_submap_transitive<K, V>(a: Map<K, V>, b: Map<K, V>, c: Map<K, V>)
    requires
        a.submap_of(b),
        b.submap_of(c),
    ensures
        a.submap_of(c),
{
    assert forall|k: K| #[trigger] a.dom().contains(k) implies c.dom().contains(k) && a[k]
        == c[k] by {
        assert(b.dom().contains(k));
    }
}

/// A request is placed behind all that it does not outrank and ahead of all
/// that it outranks.
proof fn lemma_place_sorted(served: Seq<UseRequest>, request: UseRequest)
    requires
        forall|i: int, j: int|
            0 <= i < j < served.len() ==> !(#[trigger] served[j]).standing().outranks(
                (#[trigger] served[i]).standing(),
            ),
    ensures
        forall|i: int, j: int|
            0 <= i < j < place(served, request).len() ==> !(#[trigger] place(
                served,
                request,
            )[j]).standing().outranks((#[trigger] place(served, request)[i]).standing()),
    decreases served.len(),
{
    let all = place(served, request);
    if served.len() > 0 && request.standing().outranks(served.last().standing()) {
        let rest = served.drop_last();
        assert forall|i: int, j: int| 0 <= i < j < rest.len() implies !(
        #[trigger] rest[j]).standing().outranks((#[trigger] rest[i]).standing()) by {
            assert(rest[i] == served[i]);
            assert(rest[j] == served[j]);
        }
        lemma_place_sorted(rest, request);
        let k = lemma_place_inserts(rest, request);
        let sooner = place(rest, request);
        assert(sooner == rest.insert(k, request));
        assert forall|i: int, j: int| 0 <= i < j < all.len() implies !(
        #[trigger] all[j]).standing().outranks((#[trigger] all[i]).standing()) by {
            if j < sooner.len() {
                assert(all[i] == sooner[i]);
                assert(all[j] == sooner[j]);
            } else {
                assert(all[j] == served[served.len() - 1]);
                if i == k {
                    assert(all[i] == request);
                } else {
                    let at = if i < k {
                        i
                    } else {
                        i - 1
                    };
                    assert(all[i] == served[at]);
                }
            }
        }
    } else {
        assert(all == served.push(request));
        assert forall|i: int, j: int| 0 <= i < j < all.len() implies !(
        #[trigger] all[j]).standing().outranks((#[trigger] all[i]).standing()) by {
            assert(all[i] == served[i]);
            if j < served.len() {
                assert(all[j] == served[j]);
            } else {
                let last = served.len() - 1;
                if i < last {
                    assert(!served[last].standing().outranks(served[i].standing()));
                }
            }
        }
    }
}

} // verus!
