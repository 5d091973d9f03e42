//! Deterministic best-first route planning over the layered map.
//!
//! A search keeps the cheapest known cost of every reached tile and a frontier
//! of `(cost, tile)` pairs. Each step takes the frontier's soonest pair, by
//! estimated total, then cost, then tile, so the outcome is a function of the
//! journey alone.

use vstd::prelude::*;

use crate::content::MapAsset;
use crate::content::TilePosition;
use crate::ground::beside;
use crate::ground::connects;
use crate::ground::tile_listed;
use crate::ord_map::OrdKey;
use crate::ord_map::OrdMap;

verus! {

/// A route question: where to walk, and which tiles may not be entered.
pub ghost struct Journey {
    pub map: MapAsset,
    pub closed: Set<TilePosition>,
    pub origin: TilePosition,
    pub destination: TilePosition,
}

/// The state of a search.
#[verifier::ext_equal]
pub ghost struct Search {
    pub open: Set<(nat, TilePosition)>,
    pub costs: Map<TilePosition, nat>,
    pub came_from: Map<TilePosition, TilePosition>,
    /// What the search found, once it is over.
    pub answer: Option<Option<Seq<TilePosition>>>,
}

/// The absolute difference of two coordinates.
pub open spec fn gap(a: int, b: int) -> nat {
    if a < b {
        (b - a) as nat
    } else {
        (a - b) as nat
    }
}

/// The estimated number of steps between two tiles.
pub open spec fn estimate(a: TilePosition, b: TilePosition) -> nat {
    gap(a.x as int, b.x as int) + gap(a.y as int, b.y as int) + (if a.floor != b.floor {
        1nat
    } else {
        0nat
    })
}

/// The chain of predecessors that ends at `tile`, at most `steps` long.
pub open spec fn trail(
    came_from: Map<TilePosition, TilePosition>,
    tile: TilePosition,
    steps: nat,
) -> Seq<TilePosition>
    decreases steps,
{
    if steps == 0 || !came_from.contains_key(tile) {
        seq![tile]
    } else {
        trail(came_from, came_from[tile], (steps - 1) as nat).push(tile)
    }
}

impl Journey {
    /// Whether this journey may step from `a` to `b`.
    pub open spec fn steps_to(self, a: TilePosition, b: TilePosition) -> bool {
        self.map.steps_to(a, b) && !self.closed.contains(b)
    }

    /// Whether `w` walks from the origin to `to`, one permitted step at a time.
    pub open spec fn walks(self, w: Seq<TilePosition>, to: TilePosition) -> bool {
        &&& w.len() > 0
        &&& w[0] == self.origin
        &&& w.last() == to
        &&& forall|i: int| 0 < i < w.len() ==> self.steps_to(w[i - 1], #[trigger] w[i])
    }

    /// Whether the frontier serves `e` before `f`.
    pub open spec fn sooner(self, e: (nat, TilePosition), f: (nat, TilePosition)) -> bool {
        let e_total = e.0 + estimate(e.1, self.destination);
        let f_total = f.0 + estimate(f.1, self.destination);
        e_total < f_total || (e_total == f_total && (e.0 < f.0 || (e.0 == f.0
            && TilePosition::before(e.1, f.1))))
    }

    /// Whether `e` is the frontier's next pair.
    pub open spec fn is_soonest(
        self,
        open: Set<(nat, TilePosition)>,
        e: (nat, TilePosition),
    ) -> bool {
        open.contains(e) && forall|f: (nat, TilePosition)| #[trigger]
            open.contains(f) && f != e ==> self.sooner(e, f)
    }

    /// The frontier's next pair.
    pub open spec fn soonest(self, open: Set<(nat, TilePosition)>) -> (nat, TilePosition) {
        choose|e: (nat, TilePosition)| self.is_soonest(open, e)
    }

    /// Before the first step, only the origin is reached.
    pub open spec fn start(self) -> Search {
        Search {
            open: Set::empty().insert((0nat, self.origin)),
            costs: Map::empty().insert(self.origin, 0nat),
            came_from: Map::empty(),
            answer: None,
        }
    }

    /// One step of the search; a search that is over stays as it is.
    pub open spec fn advance(self, s: Search) -> Search {
        if s.answer is Some {
            s
        } else if s.open.is_empty() {
            Search { answer: Some(None), ..s }
        } else {
            let e = self.soonest(s.open);
            let popped = Search { open: s.open.remove(e), ..s };
            if e.1 == self.destination {
                Search { answer: Some(Some(trail(s.came_from, e.1, e.0))), ..popped }
            } else if s.costs[e.1] != e.0 {
                popped
            } else {
                popped.relax(e.0, e.1, Set::new(|t: TilePosition| self.steps_to(e.1, t)))
            }
        }
    }

    /// A number of steps from the start.
    pub open spec fn run(self, n: nat) -> Search
        decreases n,
    {
        if n == 0 {
            self.start()
        } else {
            self.advance(self.run((n - 1) as nat))
        }
    }

    /// What the search finds.
    pub open spec fn found(self) -> Option<Seq<TilePosition>> {
        let n = choose|n: nat| (#[trigger] self.run(n)).answer is Some;
        self.run(n).answer->0
    }

    /// The planned route: none where either end is not walkable.
    pub open spec fn route(self) -> Option<Seq<TilePosition>> {
        if self.map.spec_is_walkable(self.origin) && self.map.spec_is_walkable(self.destination) {
            self.found()
        } else {
            None
        }
    }

    /// Whether every portal is at most one estimated step long, so that the
    /// estimate never exceeds the steps that remain.
    pub open spec fn estimate_is_fair(self) -> bool {
        forall|i: int|
            0 <= i < self.map.portals@.len() ==> estimate(
                (#[trigger] self.map.portals@[i]).from,
                self.map.portals@[i].to,
            ) <= 1
    }
}

impl Search {
    /// Whether reaching `t` at `cost` beats what is known of it.
    pub open spec fn improves(self, t: TilePosition, cost: nat) -> bool {
        !self.costs.contains_key(t) || cost < self.costs[t]
    }

    /// Records the tiles of `reached` that one more step from `from` improves.
    pub open spec fn relax(self, cost: nat, from: TilePosition, reached: Set<TilePosition>) -> Search {
        let better = |t: TilePosition| reached.contains(t) && self.improves(t, cost + 1);
        Search {
            open: Set::new(
                |e: (nat, TilePosition)|
                    self.open.contains(e) || (e.0 == cost + 1 && better(e.1)),
            ),
            costs: Map::new(
                |t: TilePosition| self.costs.contains_key(t) || better(t),
                |t: TilePosition|
                    if better(t) {
                        cost + 1
                    } else {
                        self.costs[t]
                    },
            ),
            came_from: Map::new(
                |t: TilePosition| self.came_from.contains_key(t) || better(t),
                |t: TilePosition|
                    if better(t) {
                        from
                    } else {
                        self.came_from[t]
                    },
            ),
            answer: self.answer,
        }
    }
}

// ---------------------------------------------------------------------------
// What every reachable search state satisfies.
// ---------------------------------------------------------------------------

impl Journey {
    /// Whether every step from `t` is already accounted for.
    pub open spec fn expanded(self, s: Search, t: TilePosition) -> bool {
        forall|u: TilePosition| #[trigger]
            self.steps_to(t, u) ==> s.costs.contains_key(u) && s.costs[u] <= s.costs[t] + 1
    }

    /// A repetition-free chain of reached tiles that explains a cost.
    pub open spec fn explains(self, s: Search, w: Seq<TilePosition>, t: TilePosition) -> bool {
        &&& w.len() == s.costs[t] + 1
        &&& w.last() == t
        &&& w.no_duplicates()
        &&& forall|i: int|
            0 <= i < w.len() ==> s.costs.contains_key(#[trigger] w[i]) && s.costs[w[i]] <= i
    }

    /// The invariant of a running search.
    pub open spec fn sound(self, s: Search) -> bool {
        &&& s.answer is None
        &&& s.costs.contains_key(self.origin)
        &&& s.costs[self.origin] == 0
        &&& s.open.finite()
        &&& s.costs.dom().finite()
        &&& forall|t: TilePosition| #[trigger]
            s.costs.contains_key(t) ==> t == self.origin || s.came_from.contains_key(t)
        &&& forall|t: TilePosition| #[trigger]
            s.came_from.contains_key(t) ==> {
                &&& t != self.origin
                &&& s.costs.contains_key(t)
                &&& s.costs.contains_key(s.came_from[t])
                &&& self.steps_to(s.came_from[t], t)
                &&& s.costs[s.came_from[t]] + 1 <= s.costs[t]
            }
        &&& forall|e: (nat, TilePosition)| #[trigger]
            s.open.contains(e) ==> s.costs.contains_key(e.1) && s.costs[e.1] <= e.0
        &&& forall|t: TilePosition| #[trigger]
            s.costs.contains_key(t) ==> s.open.contains((s.costs[t], t)) || (t
                != self.destination && self.expanded(s, t))
        &&& forall|t: TilePosition| #[trigger]
            s.costs.contains_key(t) ==> exists|w: Seq<TilePosition>| self.explains(s, w, t)
    }

    proof fn lemma_start_sound(self)
        ensures
            self.sound(self.start()),
    {
        let s = self.start();
        assert forall|t: TilePosition| #[trigger] s.costs.contains_key(t) implies exists|
            w: Seq<TilePosition>,
        | self.explains(s, w, t) by {
            assert(self.explains(s, seq![t], t));
        }
    }

    /// The frontier's soonest pair exists and is unique.
    proof fn lemma_soonest(self, open: Set<(nat, TilePosition)>)
        requires
            open.finite(),
            !open.is_empty(),
        ensures
            self.is_soonest(open, self.soonest(open)),
        decreases open.len(),
    {
        let e = open.choose();
        let rest = open.remove(e);
        assert(open.contains(e));
        if rest.is_empty() {
            assert forall|f: (nat, TilePosition)| #[trigger] open.contains(f) && f != e implies
                self.sooner(e, f) by {
                assert(rest.contains(f));
            }
            assert(self.is_soonest(open, e));
        } else {
            self.lemma_soonest(rest);
            let b = self.soonest(rest);
            if self.sooner(b, e) {
                assert forall|f: (nat, TilePosition)| #[trigger]
                    open.contains(f) && f != b implies self.sooner(b, f) by {
                    if f != e {
                        assert(rest.contains(f));
                    }
                }
                assert(self.is_soonest(open, b));
            } else {
                assert(self.sooner(e, b));
                assert forall|f: (nat, TilePosition)| #[trigger]
                    open.contains(f) && f != e implies self.sooner(e, f) by {
                    assert(rest.contains(f));
                    if f != b {
                        assert(self.sooner(b, f));
                    }
                }
                assert(self.is_soonest(open, e));
            }
        }
    }

    proof fn lemma_soonest_is(self, open: Set<(nat, TilePosition)>, e: (nat, TilePosition))
        requires
            self.is_soonest(open, e),
        ensures
            self.soonest(open) == e,
    {
        let b = self.soonest(open);
        assert(self.is_soonest(open, b));
        if b != e {
            assert(self.sooner(e, b));
            assert(self.sooner(b, e));
        }
    }

    /// Relaxing every step from the cheapest known visit of a tile keeps the
    /// invariant.
    proof fn lemma_relax_sound(self, s: Search, e: (nat, TilePosition))
        requires
            self.sound(s),
            s.open.contains(e),
            e.1 != self.destination,
            s.costs[e.1] == e.0,
        ensures
            self.sound(
                Search { open: s.open.remove(e), ..s }.relax(
                    e.0,
                    e.1,
                    Set::new(|t: TilePosition| self.steps_to(e.1, t)),
                ),
            ),
    {
        let reached = Set::new(|t: TilePosition| self.steps_to(e.1, t));
        let popped = Search { open: s.open.remove(e), ..s };
        let n = popped.relax(e.0, e.1, reached);
        let better = |t: TilePosition| reached.contains(t) && s.improves(t, e.0 + 1);
        assert forall|t: TilePosition| #[trigger] better(t) == (reached.contains(t)
            && popped.improves(t, e.0 + 1)) by {}
        assert(!better(self.origin));
        assert(!better(e.1));
        lemma_tiles_finite();
        let all = Set::<TilePosition>::full();
        assert(n.costs.dom().subset_of(all));
        vstd::set_lib::lemma_len_subset(n.costs.dom(), all);
        let fresh = all.filter(|t: TilePosition| better(t));
        vstd::set_lib::lemma_len_subset(fresh, all);
        fresh.lemma_map_finite(|t: TilePosition| (e.0 + 1, t));
        let pushed = fresh.map(|t: TilePosition| (e.0 + 1, t));
        assert forall|f: (nat, TilePosition)| n.open.contains(f) implies s.open.union(
            pushed,
        ).contains(f) by {
            if f.0 == e.0 + 1 && better(f.1) {
                assert(fresh.contains(f.1));
                assert(pushed.contains(f));
            }
        }
        vstd::set_lib::lemma_len_subset(n.open, s.open.union(pushed));
        assert forall|t: TilePosition| #[trigger] n.costs.contains_key(t) implies n.open.contains(
            (n.costs[t], t),
        ) || (t != self.destination && self.expanded(n, t)) by {
            if better(t) {
                assert(n.open.contains((n.costs[t], t)));
            } else {
                assert(s.costs.contains_key(t));
                if s.open.contains((s.costs[t], t)) && t != e.1 {
                    assert(n.open.contains((n.costs[t], t)));
                } else if t == e.1 {
                    assert forall|u: TilePosition| #[trigger] self.steps_to(t, u) implies
                        n.costs.contains_key(u) && n.costs[u] <= n.costs[t] + 1 by {
                        assert(reached.contains(u));
                    }
                } else {
                    assert(self.expanded(s, t));
                    assert forall|u: TilePosition| #[trigger] self.steps_to(t, u) implies
                        n.costs.contains_key(u) && n.costs[u] <= n.costs[t] + 1 by {
                        assert(s.costs.contains_key(u));
                        assert(n.costs[u] <= s.costs[u]);
                    }
                }
            }
        }
        assert forall|t: TilePosition| #[trigger] n.costs.contains_key(t) implies exists|
            w: Seq<TilePosition>,
        | self.explains(n, w, t) by {
            if better(t) {
                let w = choose|w: Seq<TilePosition>| self.explains(s, w, e.1);
                assert(self.explains(s, w, e.1));
                let v = w.push(t);
                assert forall|i: int| 0 <= i < w.len() implies #[trigger] w[i] != t by {
                    if w[i] == t {
                        assert(s.costs.contains_key(w[i]));
                    }
                }
                assert forall|i: int| 0 <= i < v.len() implies n.costs.contains_key(
                    #[trigger] v[i],
                ) && n.costs[v[i]] <= i by {
                    if i < w.len() {
                        assert(v[i] == w[i]);
                        assert(s.costs.contains_key(w[i]));
                    }
                }
                assert(v.no_duplicates());
                assert(self.explains(n, v, t));
            } else {
                assert(s.costs.contains_key(t));
                let w = choose|w: Seq<TilePosition>| self.explains(s, w, t);
                assert(self.explains(s, w, t));
                assert forall|i: int| 0 <= i < w.len() implies n.costs.contains_key(
                    #[trigger] w[i],
                ) && n.costs[w[i]] <= i by {
                    assert(s.costs.contains_key(w[i]));
                }
                assert(self.explains(n, w, t));
            }
        }
        assert forall|f: (nat, TilePosition)| #[trigger] n.open.contains(f) implies
            n.costs.contains_key(f.1) && n.costs[f.1] <= f.0 by {
            if s.open.contains(f) {
                assert(s.costs.contains_key(f.1));
            }
        }
        assert forall|t: TilePosition| #[trigger] n.came_from.contains_key(t) implies {
            &&& t != self.origin
            &&& n.costs.contains_key(t)
            &&& n.costs.contains_key(n.came_from[t])
            &&& self.steps_to(n.came_from[t], t)
            &&& n.costs[n.came_from[t]] + 1 <= n.costs[t]
        } by {
            if better(t) {
                assert(n.came_from[t] == e.1);
                assert(s.costs.contains_key(e.1));
            } else {
                assert(s.came_from.contains_key(t));
                assert(s.costs.contains_key(s.came_from[t]));
            }
        }
    }

    /// A reached tile costs less than the number of reached tiles.
    proof fn lemma_cost_bound(self, s: Search, t: TilePosition)
        requires
            self.sound(s),
            s.costs.contains_key(t),
        ensures
            s.costs[t] < s.costs.dom().len(),
    {
        let w = choose|w: Seq<TilePosition>| self.explains(s, w, t);
        assert(self.explains(s, w, t));
        w.unique_seq_to_set();
        assert forall|u: TilePosition| w.to_set().contains(u) implies s.costs.dom().contains(u) by {
            let i = choose|i: int| 0 <= i < w.len() && w[i] == u;
            assert(s.costs.contains_key(w[i]));
        }
        vstd::set_lib::lemma_len_subset(w.to_set(), s.costs.dom());
    }

    /// The predecessor chain of a reached tile walks to it from the origin,
    /// over tiles that cost less and less on the way back.
    proof fn lemma_trail(self, s: Search, t: TilePosition, steps: nat)
        requires
            self.sound(s),
            s.costs.contains_key(t),
            s.costs[t] <= steps,
        ensures
            self.walks(trail(s.came_from, t, steps), t),
            trail(s.came_from, t, steps).len() <= s.costs[t] + 1,
            trail(s.came_from, t, steps).no_duplicates(),
            forall|i: int|
                0 <= i < trail(s.came_from, t, steps).len() ==> s.costs[#[trigger] trail(
                    s.came_from,
                    t,
                    steps,
                )[i]] <= s.costs[t],
        decreases steps,
    {
        if s.came_from.contains_key(t) {
            let p = s.came_from[t];
            assert(s.costs.contains_key(p));
            self.lemma_trail(s, p, (steps - 1) as nat);
            let w = trail(s.came_from, p, (steps - 1) as nat);
            let v = w.push(t);
            assert forall|i: int, j: int|
                0 <= i < v.len() && 0 <= j < v.len() && i != j implies v[i] != v[j] by {
                assert(i < w.len() ==> s.costs[w[i]] < s.costs[t]);
                assert(j < w.len() ==> s.costs[w[j]] < s.costs[t]);
            }
            assert forall|i: int| 0 < i < v.len() implies self.steps_to(
                v[i - 1],
                #[trigger] v[i],
            ) by {
                if i < w.len() {
                    assert(v[i] == w[i] && v[i - 1] == w[i - 1]);
                }
            }
        } else {
            assert(t == self.origin);
        }
    }

    /// On any walk to the destination some frontier pair is no dearer than
    /// the walk itself.
    proof fn lemma_frontier(self, s: Search, w: Seq<TilePosition>, k: int) -> (i: int)
        requires
            self.sound(s),
            self.walks(w, self.destination),
            0 <= k < w.len(),
            s.costs.contains_key(w[k]),
            s.costs[w[k]] <= k,
        ensures
            k <= i < w.len(),
            s.costs.contains_key(w[i]),
            s.costs[w[i]] <= i,
            s.open.contains((s.costs[w[i]], w[i])),
        decreases w.len() - k,
    {
        if s.open.contains((s.costs[w[k]], w[k])) {
            k
        } else {
            assert(self.expanded(s, w[k]));
            assert(k + 1 < w.len());
            assert(self.steps_to(w[k + 1 - 1], w[k + 1]));
            self.lemma_frontier(s, w, k + 1)
        }
    }

    /// With a fair estimate, the estimate to the destination never exceeds
    /// the steps of a walk that remain.
    proof fn lemma_fair(self, w: Seq<TilePosition>, i: int)
        requires
            self.estimate_is_fair(),
            self.walks(w, self.destination),
            0 <= i < w.len(),
        ensures
            estimate(w[i], self.destination) <= w.len() - 1 - i,
        decreases w.len() - i,
    {
        if i < w.len() - 1 {
            self.lemma_fair(w, i + 1);
            assert(self.steps_to(w[i + 1 - 1], w[i + 1]));
            let a = w[i];
            let b = w[i + 1];
            assert(estimate(a, b) <= 1) by {
                if !beside(a, b) {
                    let j = choose|j: int|
                        0 <= j < self.map.portals@.len() && #[trigger] connects(a, b)(
                            self.map.portals@[j],
                        );
                    assert(estimate(self.map.portals@[j].from, self.map.portals@[j].to) <= 1);
                }
            }
        }
    }

    /// How a search ends.
    pub open spec fn settles(self, answer: Option<Seq<TilePosition>>) -> bool {
        match answer {
            Some(w) => {
                &&& self.walks(w, self.destination)
                &&& w.no_duplicates()
                &&& self.estimate_is_fair() ==> forall|v: Seq<TilePosition>| #[trigger]
                    self.walks(v, self.destination) ==> w.len() <= v.len()
            },
            None => forall|v: Seq<TilePosition>| !#[trigger] self.walks(v, self.destination),
        }
    }

    /// One step keeps the invariant and makes progress, or ends the search.
    proof fn lemma_advance(self, s: Search)
        requires
            self.sound(s),
        ensures
            match self.advance(s).answer {
                Some(answer) => self.settles(answer),
                None => {
                    &&& self.sound(self.advance(s))
                    &&& decreases_to!(
                        remaining(s), s.open.len() => remaining(self.advance(s)), self.advance(s).open.len())
                },
            },
    {
        let n = self.advance(s);
        if s.open.is_empty() {
            assert forall|v: Seq<TilePosition>| !#[trigger] self.walks(v, self.destination) by {
                if self.walks(v, self.destination) {
                    let i = self.lemma_frontier(s, v, 0);
                }
            }
        } else {
            self.lemma_soonest(s.open);
            let e = self.soonest(s.open);
            assert(s.open.contains(e));
            if e.1 == self.destination {
                self.lemma_trail(s, e.1, e.0);
                let w = trail(s.came_from, e.1, e.0);
                if self.estimate_is_fair() {
                    assert forall|v: Seq<TilePosition>| #[trigger]
                        self.walks(v, self.destination) implies w.len() <= v.len() by {
                        let i = self.lemma_frontier(s, v, 0);
                        self.lemma_fair(v, i);
                        let f = (s.costs[v[i]], v[i]);
                        assert(f == e || self.sooner(e, f));
                    }
                }
            } else if s.costs[e.1] != e.0 {
                assert forall|t: TilePosition| #[trigger] n.costs.contains_key(t) implies
                    n.open.contains((n.costs[t], t)) || (t != self.destination && self.expanded(
                    n,
                    t,
                )) by {
                    if !s.open.contains((s.costs[t], t)) {
                        assert(self.expanded(s, t));
                        assert(self.expanded(n, t));
                    }
                }
                assert forall|t: TilePosition| #[trigger] n.costs.contains_key(t) implies exists|
                    w: Seq<TilePosition>,
                | self.explains(n, w, t) by {
                    let w = choose|w: Seq<TilePosition>| self.explains(s, w, t);
                    assert(self.explains(s, w, t));
                    assert(self.explains(n, w, t));
                }
                assert(self.sound(n));
            } else {
                self.lemma_relax_sound(s, e);
                let reached = Set::new(|t: TilePosition| self.steps_to(e.1, t));
                if exists|t: TilePosition| reached.contains(t) && s.improves(t, e.0 + 1) {
                    let t = choose|t: TilePosition|
                        reached.contains(t) && s.improves(t, e.0 + 1);
                    self.lemma_remaining(s, n, t);
                } else {
                    assert(n.costs =~= s.costs);
                    assert(n.open =~= s.open.remove(e));
                }
            }
        }
    }

    /// Improving a tile lowers what remains to be improved.
    proof fn lemma_remaining(self, s: Search, n: Search, t: TilePosition)
        requires
            self.sound(s),
            self.sound(n),
            forall|u: TilePosition| #[trigger]
                s.costs.contains_key(u) ==> n.costs.contains_key(u) && n.costs[u] <= s.costs[u],
            n.costs.contains_key(t),
            !s.costs.contains_key(t) || n.costs[t] < s.costs[t],
        ensures
            remaining(n) < remaining(s),
    {
        lemma_tiles_finite();
        let all = Set::<TilePosition>::full();
        let list = all.to_seq();
        all.lemma_to_seq_to_set_id();
        assert(list.to_set().contains(t));
        assert forall|u: TilePosition| #[trigger] s.costs.contains_key(u) implies s.costs[u]
            < all.len() by {
            self.lemma_cost_bound(s, u);
            vstd::set_lib::lemma_len_subset(s.costs.dom(), all);
        }
        assert forall|u: TilePosition| #[trigger] n.costs.contains_key(u) implies n.costs[u]
            < all.len() by {
            self.lemma_cost_bound(n, u);
            vstd::set_lib::lemma_len_subset(n.costs.dom(), all);
        }
        lemma_total(list, s.costs, n.costs, all.len(), t);
    }

    /// A search that has ended stays ended.
    proof fn lemma_run_stays(self, n: nat, m: nat)
        requires
            n <= m,
            self.run(n).answer is Some,
        ensures
            self.run(m) == self.run(n),
        decreases m - n,
    {
        if n < m {
            self.lemma_run_stays(n, (m - 1) as nat);
        }
    }

    /// The outcome of a search does not depend on how long it is run.
    proof fn lemma_found(self, n: nat)
        requires
            self.run(n).answer is Some,
        ensures
            self.run(n).answer == Some(self.found()),
    {
        let m = choose|m: nat| (#[trigger] self.run(m)).answer is Some;
        if n <= m {
            self.lemma_run_stays(n, m);
        } else {
            self.lemma_run_stays(m, n);
        }
    }

    /// From a sound state the search ends.
    proof fn lemma_ends(self, n: nat) -> (m: nat)
        requires
            self.sound(self.run(n)),
        ensures
            match self.run(m).answer {
                Some(answer) => self.settles(answer),
                None => false,
            },
        decreases remaining(self.run(n)), self.run(n).open.len(),
    {
        self.lemma_advance(self.run(n));
        assert(self.run((n + 1) as nat) == self.advance(self.run(n)));
        if self.run((n + 1) as nat).answer is Some {
            (n + 1) as nat
        } else {
            self.lemma_ends((n + 1) as nat)
        }
    }

    /// Every search ends, and ends as it should.
    proof fn lemma_found_settles(self)
        ensures
            self.settles(self.found()),
    {
        self.lemma_start_sound();
        let m = self.lemma_ends(0);
        self.lemma_found(m);
    }
}

/// The costs of `tiles`, an unreached tile counting `top`.
pub open spec fn total(tiles: Seq<TilePosition>, costs: Map<TilePosition, nat>, top: nat) -> nat
    decreases tiles.len(),
{
    if tiles.len() == 0 {
        0
    } else {
        total(tiles.drop_last(), costs, top) + (if costs.contains_key(tiles.last()) {
            costs[tiles.last()]
        } else {
            top
        })
    }
}

/// A bound on the improvements a search can still make.
pub open spec fn remaining(s: Search) -> nat {
    total(Set::<TilePosition>::full().to_seq(), s.costs, Set::<TilePosition>::full().len())
}

proof fn lemma_total(
    tiles: Seq<TilePosition>,
    s: Map<TilePosition, nat>,
    n: Map<TilePosition, nat>,
    top: nat,
    t: TilePosition,
)
    requires
        forall|u: TilePosition| #[trigger]
            s.contains_key(u) ==> n.contains_key(u) && n[u] <= s[u],
        forall|u: TilePosition| #[trigger] n.contains_key(u) ==> n[u] < top,
        n.contains_key(t),
        !s.contains_key(t) || n[t] < s[t],
    ensures
        total(tiles, n, top) <= total(tiles, s, top),
        tiles.contains(t) ==> total(tiles, n, top) < total(tiles, s, top),
    decreases tiles.len(),
{
    if tiles.len() > 0 {
        lemma_total(tiles.drop_last(), s, n, top, t);
        if tiles.contains(t) && tiles.last() != t {
            let i = choose|i: int| 0 <= i < tiles.len() && tiles[i] == t;
            assert(tiles.drop_last()[i] == t);
        }
    }
}

/// There are finitely many tiles.
proof fn lemma_tiles_finite()
    ensures
        Set::<TilePosition>::full().finite(),
{
    let range = vstd::set_lib::set_int_range(0, 0x100_0000_0000_0000_0000);
    vstd::set_lib::lemma_int_range(0, 0x100_0000_0000_0000_0000);
    let decode = |n: int|
        TilePosition {
            floor: (n / 0x1_0000_0000_0000_0000) as u8,
            x: (n / 0x1_0000_0000 % 0x1_0000_0000 - 0x8000_0000) as i32,
            y: (n % 0x1_0000_0000 - 0x8000_0000) as i32,
        };
    range.lemma_map_finite(decode);
    assert forall|t: TilePosition| #[trigger] range.map(decode).contains(t) by {
        let n = t.floor * 0x1_0000_0000_0000_0000 + (t.x + 0x8000_0000) * 0x1_0000_0000 + (t.y
            + 0x8000_0000);
        assert(range.contains(n));
        assert(decode(n) == t);
    }
    assert(range.map(decode) =~= Set::<TilePosition>::full());
}

// ---------------------------------------------------------------------------
// The executable search.
// ---------------------------------------------------------------------------

/// A frontier entry with its estimated total.
#[derive(Clone, Copy)]
struct Frontier {
    total: u128,
    cost: u64,
    tile: TilePosition,
}

impl Frontier {
    spec fn pair(self) -> (nat, TilePosition) {
        (self.cost as nat, self.tile)
    }
}

/// Whether executable search data represent a search state.
spec fn represents(
    journey: Journey,
    open: Seq<Frontier>,
    costs: Map<TilePosition, u64>,
    came_from: Map<TilePosition, TilePosition>,
    s: Search,
) -> bool {
    &&& s.came_from == came_from
    &&& s.costs.dom() == costs.dom()
    &&& forall|t: TilePosition| #[trigger] costs.contains_key(t) ==> s.costs[t] == costs[t]
    &&& forall|i: int|
        0 <= i < open.len() ==> s.open.contains((#[trigger] open[i]).pair()) && open[i].total
            == open[i].cost + estimate(open[i].tile, journey.destination)
    &&& forall|e: (nat, TilePosition)| #[trigger]
        s.open.contains(e) ==> exists|i: int| 0 <= i < open.len() && (#[trigger] open[i]).pair() == e
    &&& forall|i: int, j: int|
        0 <= i < j < open.len() ==> (#[trigger] open[i]).pair() != (#[trigger] open[j]).pair()
}

/// The absolute difference of two coordinates.
fn coordinate_gap(a: i32, b: i32) -> (r: u64)
    ensures
        r == gap(a as int, b as int),
        r <= 0xffff_ffff,
{
    let a: i64 = a as i64;
    let b: i64 = b as i64;
    if a < b {
        (b - a) as u64
    } else {
        (a - b) as u64
    }
}

/// The estimated number of steps between two tiles.
pub fn heuristic(from: TilePosition, to: TilePosition) -> (r: u64)
    ensures
        r == estimate(from, to),
        r <= 0x2_0000_0000,
{
    let floors: u64 = if from.floor != to.floor {
        1
    } else {
        0
    };
    coordinate_gap(from.x, to.x) + coordinate_gap(from.y, to.y) + floors
}

/// The index of the frontier's soonest entry.
fn soonest_index(Ghost(journey): Ghost<Journey>, open: &Vec<Frontier>) -> (r: usize)
    requires
        open@.len() > 0,
        forall|i: int|
            0 <= i < open@.len() ==> (#[trigger] open@[i]).total == open@[i].cost + estimate(
                open@[i].tile,
                journey.destination,
            ),
        forall|i: int, j: int|
            0 <= i < j < open@.len() ==> (#[trigger] open@[i]).pair() != (#[trigger] open@[j]).pair(),
    ensures
        r < open@.len(),
        forall|i: int|
            0 <= i < open@.len() && i != r ==> journey.sooner(
                open@[r as int].pair(),
                (#[trigger] open@[i]).pair(),
            ),
{
    let mut best: usize = 0;
    let mut i: usize = 1;
    while i < open.len()
        invariant
            best < i <= open@.len(),
            forall|k: int|
                0 <= k < open@.len() ==> (#[trigger] open@[k]).total == open@[k].cost + estimate(
                    open@[k].tile,
                    journey.destination,
                ),
            forall|k: int, j: int|
                0 <= k < j < open@.len() ==> (#[trigger] open@[k]).pair() != (
                #[trigger] open@[j]).pair(),
            forall|k: int|
                0 <= k < i && k != best ==> journey.sooner(
                    open@[best as int].pair(),
                    (#[trigger] open@[k]).pair(),
                ),
        decreases open@.len() - i,
    {
        let challenger = open[i];
        let holder = open[best];
        assert(open@[best as int].pair() != open@[i as int].pair());
        if challenger.total < holder.total || (challenger.total == holder.total && (challenger.cost
            < holder.cost || (challenger.cost == holder.cost && challenger.tile.precedes(
            &holder.tile,
        )))) {
            best = i;
        }
        i = i + 1;
    }
    best
}

/// Reads a found route back from its last tile.
fn read_back(
    Ghost(journey): Ghost<Journey>,
    Ghost(s): Ghost<Search>,
    came_from: &OrdMap<TilePosition, TilePosition>,
    last: TilePosition,
    Ghost(steps): Ghost<nat>,
) -> (r: Vec<TilePosition>)
    requires
        came_from.wf(),
        came_from@ == s.came_from,
        journey.sound(s),
        s.costs.contains_key(last),
        s.costs[last] <= steps,
    ensures
        r@ == trail(s.came_from, last, steps),
{
    let mut back: Vec<TilePosition> = Vec::new();
    back.push(last);
    let mut cursor: TilePosition = last;
    let ghost mut left: nat = steps;
    assert(back@.drop_last().reverse() =~= Seq::<TilePosition>::empty());
    assert(trail(s.came_from, last, steps) =~= trail(s.came_from, cursor, left)
        + back@.drop_last().reverse());
    loop
        invariant_except_break
            came_from.wf(),
            came_from@ == s.came_from,
            journey.sound(s),
            s.costs.contains_key(cursor),
            s.costs[cursor] <= left,
            back@.len() > 0,
            back@.last() == cursor,
            trail(s.came_from, last, steps) == trail(s.came_from, cursor, left)
                + back@.drop_last().reverse(),
        ensures
            back@.reverse() == trail(s.came_from, last, steps),
        decreases left,
    {
        match came_from.get(&cursor) {
            Some(previous) => {
                let previous: TilePosition = *previous;
                let ghost was = back@;
                assert(s.came_from.contains_key(cursor));
                assert(left > 0);
                back.push(previous);
                assert(back@.drop_last() =~= was);
                assert(was =~= was.drop_last().push(cursor));
                assert(was.reverse() =~= seq![cursor] + was.drop_last().reverse());
                assert(trail(s.came_from, cursor, left) =~= trail(
                    s.came_from,
                    previous,
                    (left - 1) as nat,
                ) + seq![cursor]);
                assert(trail(s.came_from, last, steps) =~= trail(
                    s.came_from,
                    previous,
                    (left - 1) as nat,
                ) + was.reverse());
                cursor = previous;
                proof {
                    left = (left - 1) as nat;
                }
            },
            None => {
                assert(trail(s.came_from, cursor, left) =~= seq![cursor]);
                assert(back@.reverse() =~= seq![cursor] + back@.drop_last().reverse());
                break;
            },
        }
    }
    let mut path: Vec<TilePosition> = Vec::new();
    let mut i: usize = back.len();
    while i > 0
        invariant
            i <= back@.len(),
            path@ == back@.reverse().take(back@.len() - i),
        decreases i,
    {
        i = i - 1;
        path.push(back[i]);
        assert(path@ =~= back@.reverse().take(back@.len() - i));
    }
    assert(path@ =~= back@.reverse());
    path
}

/// Plans the deterministic route from `origin` to `destination` that enters
/// no tile of `closed`.
pub fn plan_route(
    map: &MapAsset,
    closed: &Vec<TilePosition>,
    origin: TilePosition,
    destination: TilePosition,
) -> (r: Option<Vec<TilePosition>>)
    ensures
        ({
            let journey = Journey { map: *map, closed: closed@.to_set(), origin, destination };
            match r {
                Some(path) => journey.route() == Some(path@),
                None => journey.route() is None,
            }
        }),
{
    if !map.is_walkable(origin) || !map.is_walkable(destination) {
        return None;
    }
    let ghost journey = Journey { map: *map, closed: closed@.to_set(), origin, destination };
    let mut open: Vec<Frontier> = Vec::new();
    let mut costs: OrdMap<TilePosition, u64> = OrdMap::new();
    let mut came_from: OrdMap<TilePosition, TilePosition> = OrdMap::new();
    costs.insert(origin, 0);
    open.push(Frontier { total: heuristic(origin, destination) as u128, cost: 0, tile: origin });
    let ghost mut s = journey.start();
    let ghost mut n: nat = 0;
    proof {
        journey.lemma_start_sound();
        assert(s.costs.dom() =~= costs@.dom());
        assert(s.came_from =~= came_from@);
        assert(open@[0].pair() == (0nat, origin));
        assert(represents(journey, open@, costs@, came_from@, s));
    }
    loop
        invariant
            journey == (Journey { map: *map, closed: closed@.to_set(), origin, destination }),
            map.spec_is_walkable(origin),
            map.spec_is_walkable(destination),
            costs.wf(),
            came_from.wf(),
            represents(journey, open@, costs@, came_from@, s),
            journey.sound(s),
            s == journey.run(n),
        decreases remaining(s), s.open.len(),
    {
        proof {
            journey.lemma_advance(s);
            assert(journey.run(n + 1) == journey.advance(s));
        }
        if open.len() == 0 {
            proof {
                assert(s.open =~= Set::empty());
                journey.lemma_found(n + 1);
            }
            return None;
        }
        let index: usize = soonest_index(Ghost(journey), &open);
        let ghost before = open@;
        let entry: Frontier = open.remove(index);
        let ghost e = entry.pair();
        let ghost popped = Search { open: s.open.remove(e), ..s };
        proof {
            assert(before[index as int] == entry);
            assert(s.open.contains(e));
            assert forall|f: (nat, TilePosition)| #[trigger]
                s.open.contains(f) && f != e implies journey.sooner(e, f) by {
                let i = choose|i: int|
                    0 <= i < before.len() && (#[trigger] before[i]).pair() == f;
                assert(journey.sooner(before[index as int].pair(), before[i].pair()));
            }
            assert(journey.is_soonest(s.open, e));
            journey.lemma_soonest_is(s.open, e);
            lemma_popped(journey, before, costs@, came_from@, s, index as int);
        }
        if entry.tile == destination {
            let path = read_back(
                Ghost(journey),
                Ghost(s),
                &came_from,
                entry.tile,
                Ghost(e.0),
            );
            proof {
                journey.lemma_found(n + 1);
            }
            return Some(path);
        }
        assert(costs@.contains_key(entry.tile));
        let known: u64 = match costs.get(&entry.tile) {
            Some(cost) => *cost,
            None => 0,
        };
        if known != entry.cost {
            proof {
                s = popped;
                n = n + 1;
            }
            continue;
        }
        expand(
            map,
            closed,
            Ghost(journey),
            Ghost(s),
            entry,
            destination,
            &mut open,
            &mut costs,
            &mut came_from,
        );
        proof {
            s = journey.advance(s);
            n = n + 1;
        }
    }
}

/// Records every step from the frontier's soonest tile.
fn expand(
    map: &MapAsset,
    closed: &Vec<TilePosition>,
    Ghost(journey): Ghost<Journey>,
    Ghost(s): Ghost<Search>,
    entry: Frontier,
    destination: TilePosition,
    open: &mut Vec<Frontier>,
    costs: &mut OrdMap<TilePosition, u64>,
    came_from: &mut OrdMap<TilePosition, TilePosition>,
)
    requires
        journey.map == *map,
        journey.closed == closed@.to_set(),
        journey.destination == destination,
        journey.sound(s),
        journey.is_soonest(s.open, entry.pair()),
        entry.tile != destination,
        s.costs[entry.tile] == entry.cost,
        old(costs).wf(),
        old(came_from).wf(),
        represents(
            journey,
            old(open)@,
            old(costs)@,
            old(came_from)@,
            (Search { open: s.open.remove(entry.pair()), ..s }),
        ),
    ensures
        final(costs).wf(),
        final(came_from).wf(),
        represents(
            journey,
            final(open)@,
            final(costs)@,
            final(came_from)@,
            journey.advance(s),
        ),
{
    let ghost e = entry.pair();
    let ghost popped = Search { open: s.open.remove(e), ..s };
    let steps = map.neighbours(entry.tile);
    let reached_count: usize = costs.len();
    assert(entry.cost < reached_count) by {
        journey.lemma_cost_bound(s, entry.tile);
        costs.lemma_keys();
        assert(s.costs.dom() == costs@.dom());
    }
    let next_cost: u64 = entry.cost + 1;
    let mut i: usize = 0;
    let ghost mut reached: Set<TilePosition> = Set::empty();
    proof {
        lemma_relax_nothing(popped, e.0, e.1);
    }
    while i < steps.len()
        invariant
            i <= steps@.len(),
            journey.destination == destination,
            journey.sound(s),
            s.open.contains(e),
            popped == (Search { open: s.open.remove(e), ..s }),
            e == (entry.cost as nat, entry.tile),
            s.costs[entry.tile] == entry.cost,
            next_cost == entry.cost + 1,
            costs.wf(),
            came_from.wf(),
            represents(journey, open@, costs@, came_from@, popped.relax(e.0, e.1, reached)),
            forall|t: TilePosition|
                #[trigger] reached.contains(t) <==> steps@.take(i as int).contains(t)
                    && !closed@.contains(t),
        decreases steps@.len() - i,
    {
        let tile: TilePosition = steps[i];
        let ghost was = popped.relax(e.0, e.1, reached);
        let ghost wider = reached.insert(tile);
        let ghost is = popped.relax(e.0, e.1, wider);
        let ghost open_was = open@;
        let ghost costs_was = costs@;
        let ghost came_was = came_from@;
        assert(steps@.take(i + 1) =~= steps@.take(i as int).push(tile));
        if !tile_listed(closed, tile) {
            let better: bool = match costs.get(&tile) {
                Some(cost) => next_cost < *cost,
                None => true,
            };
            if better {
                costs.insert(tile, next_cost);
                came_from.insert(tile, entry.tile);
                let total: u128 = next_cost as u128 + heuristic(tile, destination) as u128;
                open.push(Frontier { total, cost: next_cost, tile });
                proof {
                    assert(!reached.contains(tile) || !popped.improves(tile, e.0 + 1));
                    lemma_relaxed(
                        journey,
                        s,
                        e,
                        reached,
                        open_was,
                        costs_was,
                        came_was,
                        open@.last(),
                    );
                }
            } else {
                proof {
                    assert(is.open =~= was.open);
                    assert(is.costs =~= was.costs);
                    assert(is.came_from =~= was.came_from);
                }
            }
            proof {
                assert forall|t: TilePosition| #[trigger]
                    wider.contains(t) <==> steps@.take(i + 1).contains(t)
                        && !closed@.contains(t) by {
                    lemma_contains_push(steps@.take(i as int), tile, t);
                }
                reached = wider;
            }
        } else {
            proof {
                assert forall|t: TilePosition| #[trigger]
                    reached.contains(t) <==> steps@.take(i + 1).contains(t)
                        && !closed@.contains(t) by {
                    lemma_contains_push(steps@.take(i as int), tile, t);
                }
            }
        }
        i = i + 1;
    }
    proof {
        assert(steps@.take(i as int) =~= steps@);
        assert forall|t: TilePosition| #[trigger] reached.contains(t) <==> journey.steps_to(
            e.1,
            t,
        ) by {
            assert(closed@.to_set().contains(t) <==> closed@.contains(t));
            assert(steps@.contains(t) <==> map.steps_to(entry.tile, t));
        }
        lemma_advance_expands(journey, s, e, reached);
    }
}

proof fn lemma_relax_nothing(s: Search, cost: nat, from: TilePosition)
    ensures
        s.relax(cost, from, Set::empty()) == s,
{
    let r = s.relax(cost, from, Set::empty());
    assert(r.open =~= s.open);
    assert(r.costs =~= s.costs);
    assert(r.came_from =~= s.came_from);
}

proof fn lemma_advance_expands(
    journey: Journey,
    s: Search,
    e: (nat, TilePosition),
    reached: Set<TilePosition>,
)
    requires
        s.answer is None,
        journey.is_soonest(s.open, e),
        e.1 != journey.destination,
        s.costs[e.1] == e.0,
        forall|t: TilePosition| #[trigger] reached.contains(t) <==> journey.steps_to(e.1, t),
    ensures
        journey.advance(s) == (Search { open: s.open.remove(e), ..s }).relax(e.0, e.1, reached),
{
    journey.lemma_soonest_is(s.open, e);
    assert(reached =~= Set::new(|t: TilePosition| journey.steps_to(e.1, t)));
    assert(s.open.contains(e));
}

proof fn lemma_contains_push<T>(s: Seq<T>, x: T, t: T)
    ensures
        s.push(x).contains(t) <==> s.contains(t) || t == x,
{
    if s.contains(t) {
        let i = choose|i: int| 0 <= i < s.len() && s[i] == t;
        assert(s.push(x)[i] == t);
    }
    assert(s.push(x)[s.len() as int] == x);
    if s.push(x).contains(t) && t != x {
        let i = choose|i: int| 0 <= i < s.push(x).len() && s.push(x)[i] == t;
        assert(s[i] == t);
    }
}

/// Taking an entry out of the frontier represents the smaller frontier.
proof fn lemma_popped(
    journey: Journey,
    open: Seq<Frontier>,
    costs: Map<TilePosition, u64>,
    came_from: Map<TilePosition, TilePosition>,
    s: Search,
    index: int,
)
    requires
        represents(journey, open, costs, came_from, s),
        0 <= index < open.len(),
    ensures
        represents(
            journey,
            open.remove(index),
            costs,
            came_from,
            Search { open: s.open.remove(open[index].pair()), ..s },
        ),
{
    let e = open[index].pair();
    let left = open.remove(index);
    let p = Search { open: s.open.remove(e), ..s };
    assert forall|i: int| 0 <= i < left.len() implies p.open.contains((#[trigger] left[i]).pair())
        && left[i].total == left[i].cost + estimate(left[i].tile, journey.destination) by {
        let k = if i < index { i } else { i + 1 };
        assert(left[i] == open[k]);
        if k < index {
            assert(open[k].pair() != open[index].pair());
        } else {
            assert(open[index].pair() != open[k].pair());
        }
    }
    assert forall|f: (nat, TilePosition)| #[trigger] p.open.contains(f) implies exists|i: int|
        0 <= i < left.len() && (#[trigger] left[i]).pair() == f by {
        let k = choose|k: int| 0 <= k < open.len() && (#[trigger] open[k]).pair() == f;
        let i = if k < index { k } else { k - 1 };
        assert(left[i] == open[k]);
    }
    assert forall|i: int, j: int| 0 <= i < j < left.len() implies (#[trigger] left[i]).pair() != (
    #[trigger] left[j]).pair() by {
        let a = if i < index { i } else { i + 1 };
        let b = if j < index { j } else { j + 1 };
        assert(left[i] == open[a]);
        assert(left[j] == open[b]);
    }
}

/// Recording one improved tile represents the wider relaxation.
proof fn lemma_relaxed(
    journey: Journey,
    s: Search,
    e: (nat, TilePosition),
    reached: Set<TilePosition>,
    open: Seq<Frontier>,
    costs: Map<TilePosition, u64>,
    came_from: Map<TilePosition, TilePosition>,
    entry: Frontier,
)
    requires
        journey.sound(s),
        s.open.contains(e),
        represents(
            journey,
            open,
            costs,
            came_from,
            Search { open: s.open.remove(e), ..s }.relax(e.0, e.1, reached),
        ),
        entry.cost == e.0 + 1,
        entry.total == entry.cost + estimate(entry.tile, journey.destination),
        !costs.contains_key(entry.tile) || entry.cost < costs[entry.tile],
    ensures
        represents(
            journey,
            open.push(entry),
            costs.insert(entry.tile, entry.cost),
            came_from.insert(entry.tile, e.1),
            Search { open: s.open.remove(e), ..s }.relax(e.0, e.1, reached.insert(entry.tile)),
        ),
{
    let popped = Search { open: s.open.remove(e), ..s };
    let was = popped.relax(e.0, e.1, reached);
    let is = popped.relax(e.0, e.1, reached.insert(entry.tile));
    let t = entry.tile;
    let more = open.push(entry);
    assert(was.costs.contains_key(t) ==> entry.cost < was.costs[t]);
    assert(popped.improves(t, e.0 + 1));
    assert(!reached.contains(t));
    assert(!was.open.contains(entry.pair())) by {
        if popped.open.contains(entry.pair()) {
            assert(s.open.contains(entry.pair()));
            assert(s.costs.contains_key(t) && s.costs[t] <= entry.cost);
        }
    }
    assert(is.costs =~= was.costs.insert(t, entry.cost as nat));
    assert(is.came_from =~= was.came_from.insert(t, e.1));
    assert(is.open =~= was.open.insert(entry.pair()));
    assert(is.costs.dom() =~= costs.insert(t, entry.cost).dom());
    assert forall|i: int| 0 <= i < more.len() implies is.open.contains((#[trigger] more[i]).pair())
        && more[i].total == more[i].cost + estimate(more[i].tile, journey.destination) by {
        if i < open.len() {
            assert(more[i] == open[i]);
        }
    }
    assert forall|f: (nat, TilePosition)| #[trigger] is.open.contains(f) implies exists|i: int|
        0 <= i < more.len() && (#[trigger] more[i]).pair() == f by {
        if f == entry.pair() {
            assert(more[open.len() as int].pair() == f);
        } else {
            assert(was.open.contains(f));
            let i = choose|i: int| 0 <= i < open.len() && (#[trigger] open[i]).pair() == f;
            assert(more[i] == open[i]);
        }
    }
    assert forall|i: int, j: int| 0 <= i < j < more.len() implies (#[trigger] more[i]).pair() != (
    #[trigger] more[j]).pair() by {
        assert(more[i] == open[i]);
        if j < open.len() {
            assert(more[j] == open[j]);
        } else {
            assert(was.open.contains(open[i].pair()));
        }
    }
}

// ---------------------------------------------------------------------------
// Laws of planned routes.
// ---------------------------------------------------------------------------

/// A planned route starts at the origin, ends at the destination and takes
/// one permitted step at a time.
pub proof fn law_route_is_a_walk(journey: Journey)
    ensures
        journey.route() matches Some(w) ==> journey.walks(w, journey.destination),
{
    journey.lemma_found_settles();
}

/// A route is planned exactly where both ends are walkable and some permitted
/// walk joins them.
pub proof fn law_route_exists_iff_reachable(journey: Journey)
    ensures
        journey.route() is Some <==> journey.map.spec_is_walkable(journey.origin)
            && journey.map.spec_is_walkable(journey.destination) && exists|w: Seq<TilePosition>|
            journey.walks(w, journey.destination),
{
    journey.lemma_found_settles();
    if journey.route() is Some {
        assert(journey.walks(journey.route()->0, journey.destination));
    }
}

/// A planned route never enters a closed tile.
pub proof fn law_route_avoids_closed_tiles(journey: Journey)
    ensures
        journey.route() matches Some(w) ==> forall|i: int|
            0 < i < w.len() ==> !journey.closed.contains(#[trigger] w[i]),
{
    journey.lemma_found_settles();
    if journey.route() is Some {
        let w = journey.route()->0;
        assert forall|i: int| 0 < i < w.len() implies !journey.closed.contains(#[trigger] w[i]) by {
            assert(journey.steps_to(w[i - 1], w[i]));
        }
    }
}

/// A planned route comes to no tile twice, however far its portals reach.
pub proof fn law_route_visits_no_tile_twice(journey: Journey)
    ensures
        journey.route() matches Some(w) ==> w.no_duplicates(),
{
    journey.lemma_found_settles();
}

/// Where every portal joins tiles at most one estimated step apart, as a
/// stairwell does, no permitted walk is shorter than the planned route.
pub proof fn law_route_is_shortest(journey: Journey, other: Seq<TilePosition>)
    requires
        journey.estimate_is_fair(),
        journey.walks(other, journey.destination),
    ensures
        journey.route() matches Some(w) ==> w.len() <= other.len(),
{
    journey.lemma_found_settles();
}

/// The estimate between two tiles is how far apart they are west to east plus
/// how far north to south, and one more where they lie on different storeys.
pub proof fn law_estimate_is_the_distance_over_the_floor(a: TilePosition, b: TilePosition)
    ensures
        a.x <= b.x && a.y <= b.y && a.floor == b.floor ==> estimate(a, b) == (b.x - a.x) + (b.y
            - a.y),
        a.x <= b.x && a.y <= b.y && a.floor != b.floor ==> estimate(a, b) == (b.x - a.x) + (b.y
            - a.y) + 1,
        a.x <= b.x && a.y >= b.y && a.floor == b.floor ==> estimate(a, b) == (b.x - a.x) + (a.y
            - b.y),
        a.x <= b.x && a.y >= b.y && a.floor != b.floor ==> estimate(a, b) == (b.x - a.x) + (a.y
            - b.y) + 1,
        estimate(a, b) == estimate(b, a),
{
}

/// The search goes on with the tile that promises the shortest way in all;
/// among those with the one it has come the shortest way to; and among those
/// with the one on the lowest storey, the furthest west there and the furthest
/// north of these.
pub proof fn law_search_goes_on_with_the_most_promising_tile(
    journey: Journey,
    e: (nat, TilePosition),
    f: (nat, TilePosition),
)
    ensures
        ({
            let first = e.0 + estimate(e.1, journey.destination);
            let second = f.0 + estimate(f.1, journey.destination);
            let (a, b) = (e.1, f.1);
            &&& first < second ==> journey.sooner(e, f)
            &&& first > second ==> !journey.sooner(e, f)
            &&& first == second && e.0 < f.0 ==> journey.sooner(e, f)
            &&& first == second && e.0 > f.0 ==> !journey.sooner(e, f)
            &&& first == second && e.0 == f.0 ==> (journey.sooner(e, f) <==> a.floor < b.floor || (
            a.floor == b.floor && a.x < b.x) || (a.floor == b.floor && a.x == b.x && a.y < b.y))
        }),
{
}

/// From a tile the search reaches on to every tile one step away that it did
/// not know, or knew only a longer way to, and remembers the tile as the way
/// there. The first of two equally short ways is kept.
pub proof fn law_search_keeps_the_first_of_equal_ways(
    s: Search,
    cost: nat,
    from: TilePosition,
    reached: Set<TilePosition>,
    t: TilePosition,
)
    ensures
        ({
            let after = s.relax(cost, from, reached);
            let better = reached.contains(t) && (!s.costs.contains_key(t) || cost + 1 < s.costs[t]);
            &&& better ==> after.costs.contains_key(t) && after.costs[t] == cost + 1
                && after.came_from.contains_key(t) && after.came_from[t] == from
                && after.open.contains((cost + 1, t))
            &&& !better ==> after.costs.contains_key(t) == s.costs.contains_key(t) && (
            s.costs.contains_key(t) ==> after.costs[t] == s.costs[t])
                && after.came_from.contains_key(t) == s.came_from.contains_key(t) && (
            s.came_from.contains_key(t) ==> after.came_from[t] == s.came_from[t])
                && after.open.contains((cost + 1, t)) == s.open.contains((cost + 1, t))
        }),
{
}

} // verus!
