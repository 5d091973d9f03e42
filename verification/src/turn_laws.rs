//! Whatever happens to many in one phase of a tick happens to one after the
//! other, in the order they are listed, and to each once.

use vstd::prelude::*;

use crate::arbitration::UseRequest;
use crate::events::PlayerCommand;
use crate::identity::SimId;
use crate::village::Village;

verus! {

impl Village {
    /// Commands are ingested one after the other.
    pub proof fn law_ingest_in_turn(self, one: PlayerCommand, first: Seq<PlayerCommand>, then: Seq<PlayerCommand>)
        ensures
            self.ingest_all(Seq::empty()) == self,
            self.ingest_all(seq![one]) == self.ingest(one),
            self.ingest_all(first + then) == self.ingest_all(first).ingest_all(then),
        decreases then.len(),
    {
        assert(seq![one].drop_last() =~= Seq::<PlayerCommand>::empty());
        assert(self.ingest_all(seq![one]) == self.ingest_all(seq![one].drop_last()).ingest(one));
        if then.len() == 0 {
            assert(first + then =~= first);
        } else {
            assert((first + then).drop_last() =~= first + then.drop_last());
            self.law_ingest_in_turn(one, first, then.drop_last());
        }
    }

    /// Residents choose one after the other.
    pub proof fn law_choose_in_turn(self, one: SimId, first: Seq<SimId>, then: Seq<SimId>)
        ensures
            self.choose_all(Seq::empty()) == self,
            self.choose_all(seq![one]) == self.choose_plan(one),
            self.choose_all(first + then) == self.choose_all(first).choose_all(then),
        decreases then.len(),
    {
        assert(seq![one].drop_last() =~= Seq::<SimId>::empty());
        assert(self.choose_all(seq![one]) == self.choose_all(seq![one].drop_last()).choose_plan(one));
        if then.len() == 0 {
            assert(first + then =~= first);
        } else {
            assert((first + then).drop_last() =~= first + then.drop_last());
            self.law_choose_in_turn(one, first, then.drop_last());
        }
    }

    /// Queues are dispatched one after the other.
    pub proof fn law_dispatch_in_turn(self, one: SimId, first: Seq<SimId>, then: Seq<SimId>)
        ensures
            self.dispatch_all(Seq::empty()) == self,
            self.dispatch_all(seq![one]) == self.dispatch(one),
            self.dispatch_all(first + then) == self.dispatch_all(first).dispatch_all(then),
        decreases then.len(),
    {
        assert(seq![one].drop_last() =~= Seq::<SimId>::empty());
        assert(self.dispatch_all(seq![one]) == self.dispatch_all(seq![one].drop_last()).dispatch(one));
        if then.len() == 0 {
            assert(first + then =~= first);
        } else {
            assert((first + then).drop_last() =~= first + then.drop_last());
            self.law_dispatch_in_turn(one, first, then.drop_last());
        }
    }

    /// Residents walk one after the other.
    pub proof fn law_walk_in_turn(self, one: SimId, first: Seq<SimId>, then: Seq<SimId>)
        ensures
            self.walk_all(Seq::empty()) == self,
            self.walk_all(seq![one]) == self.walk(one),
            self.walk_all(first + then) == self.walk_all(first).walk_all(then),
        decreases then.len(),
    {
        assert(seq![one].drop_last() =~= Seq::<SimId>::empty());
        assert(self.walk_all(seq![one]) == self.walk_all(seq![one].drop_last()).walk(one));
        if then.len() == 0 {
            assert(first + then =~= first);
        } else {
            assert((first + then).drop_last() =~= first + then.drop_last());
            self.law_walk_in_turn(one, first, then.drop_last());
        }
    }

    /// Residents follow one after the other.
    pub proof fn law_follow_in_turn(self, before: Village, one: SimId, first: Seq<SimId>, then: Seq<SimId>)
        ensures
            self.follow_all(before, Seq::empty()) == self,
            self.follow_all(before, seq![one]) == self.follow(before, one),
            self.follow_all(before, first + then) == self.follow_all(before, first).follow_all(before, then),
        decreases then.len(),
    {
        assert(seq![one].drop_last() =~= Seq::<SimId>::empty());
        assert(self.follow_all(before, seq![one]) == self.follow_all(before, seq![one].drop_last()).follow(before, one));
        if then.len() == 0 {
            assert(first + then =~= first);
        } else {
            assert((first + then).drop_last() =~= first + then.drop_last());
            self.law_follow_in_turn(before, one, first, then.drop_last());
        }
    }

    /// Uses progress one after the other.
    pub proof fn law_progress_in_turn(self, one: SimId, first: Seq<SimId>, then: Seq<SimId>)
        ensures
            self.progress_all(Seq::empty()) == self,
            self.progress_all(seq![one]) == self.progress(one),
            self.progress_all(first + then) == self.progress_all(first).progress_all(then),
        decreases then.len(),
    {
        assert(seq![one].drop_last() =~= Seq::<SimId>::empty());
        assert(self.progress_all(seq![one]) == self.progress_all(seq![one].drop_last()).progress(one));
        if then.len() == 0 {
            assert(first + then =~= first);
        } else {
            assert((first + then).drop_last() =~= first + then.drop_last());
            self.law_progress_in_turn(one, first, then.drop_last());
        }
    }

    /// Requests are served one after the other.
    pub proof fn law_grant_in_turn(self, one: UseRequest, first: Seq<UseRequest>, then: Seq<UseRequest>)
        ensures
            self.grant_all(Seq::empty()) == self,
            self.grant_all(seq![one]) == self.grant(one),
            self.grant_all(first + then) == self.grant_all(first).grant_all(then),
        decreases then.len(),
    {
        assert(seq![one].drop_last() =~= Seq::<UseRequest>::empty());
        assert(self.grant_all(seq![one]) == self.grant_all(seq![one].drop_last()).grant(one));
        if then.len() == 0 {
            assert(first + then =~= first);
        } else {
            assert((first + then).drop_last() =~= first + then.drop_last());
            self.law_grant_in_turn(one, first, then.drop_last());
        }
    }
}

} // verus!
