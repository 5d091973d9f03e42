//! An ordered association list: the keyed collection behind every index of
//! the simulation. Entries are kept in strictly ascending key order, so a walk
//! by index is a walk in key order.

use vstd::prelude::*;

verus! {

/// A key type whose views are strictly and totally ordered.
pub trait OrdKey: View + Sized {
    /// Whether the key viewed as `a` stands before the one viewed as `b`.
    spec fn before(a: Self::V, b: Self::V) -> bool;

    /// The order is strict, total and transitive.
    proof fn order_laws()
        ensures
            forall|a: Self::V| !#[trigger] Self::before(a, a),
            forall|a: Self::V, b: Self::V|
                #![trigger Self::before(a, b)]
                #![trigger Self::before(b, a)]
                Self::before(a, b) || Self::before(b, a) || a == b,
            forall|a: Self::V, b: Self::V, c: Self::V|
                #![trigger Self::before(a, b), Self::before(b, c)]
                Self::before(a, b) && Self::before(b, c) ==> Self::before(a, c),
    ;

    /// Whether this key stands before `other`.
    fn precedes(&self, other: &Self) -> (r: bool)
        ensures
            r == Self::before(self@, other@),
    ;

    /// A key with the same view.
    fn copy_key(&self) -> (r: Self)
        ensures
            r@ == self@,
    ;
}

/// Whether `q` lists the members of `s` in ascending order, each once.
pub open spec fn lists<K: OrdKey>(q: Seq<K::V>, s: Set<K::V>) -> bool {
    &&& forall|i: int, j: int|
        #![trigger q[i], q[j]]
        0 <= i < j < q.len() ==> K::before(q[i], q[j])
    &&& forall|k: K::V| s.contains(k) <==> q.contains(k)
}

/// The members of `s` in ascending order.
pub open spec fn in_order<K: OrdKey>(s: Set<K::V>) -> Seq<K::V> {
    choose|q: Seq<K::V>| lists::<K>(q, s)
}

/// A set has at most one ascending listing.
pub proof fn lemma_listing_unique<K: OrdKey>(p: Seq<K::V>, q: Seq<K::V>, s: Set<K::V>)
    requires
        lists::<K>(p, s),
        lists::<K>(q, s),
    ensures
        p == q,
    decreases p.len(),
{
    K::order_laws();
    if p.len() == 0 {
        if q.len() > 0 {
            assert(q.contains(q[0]));
            assert(s.contains(q[0]));
            assert(p.contains(q[0]));
        }
        assert(p =~= q);
    } else {
        assert(p.contains(p.last()));
        assert(s.contains(p.last()));
        assert(q.contains(p.last()));
        assert(q.len() > 0);
        let jq = choose|j: int| 0 <= j < q.len() && q[j] == p.last();
        assert(q.contains(q.last()));
        assert(s.contains(q.last()));
        assert(p.contains(q.last()));
        let jp = choose|j: int| 0 <= j < p.len() && p[j] == q.last();
        if p.last() != q.last() {
            assert(jq < q.len() - 1);
            assert(K::before(q[jq], q[q.len() - 1]));
            assert(jp < p.len() - 1);
            assert(K::before(p[jp], p[p.len() - 1]));
            assert(false);
        }
        let rest = s.remove(p.last());
        assert forall|k: K::V| rest.contains(k) <==> p.drop_last().contains(k) by {
            if rest.contains(k) {
                assert(p.contains(k));
                let i = choose|i: int| 0 <= i < p.len() && p[i] == k;
                assert(p.drop_last()[i] == k);
            }
            if p.drop_last().contains(k) {
                let i = choose|i: int| 0 <= i < p.drop_last().len() && p.drop_last()[i] == k;
                assert(p[i] == k);
                assert(p.contains(k));
                assert(K::before(p[i], p[p.len() - 1]));
            }
        }
        assert forall|k: K::V| rest.contains(k) <==> q.drop_last().contains(k) by {
            if rest.contains(k) {
                assert(q.contains(k));
                let i = choose|i: int| 0 <= i < q.len() && q[i] == k;
                assert(q.drop_last()[i] == k);
            }
            if q.drop_last().contains(k) {
                let i = choose|i: int| 0 <= i < q.drop_last().len() && q.drop_last()[i] == k;
                assert(q[i] == k);
                assert(q.contains(k));
                assert(K::before(q[i], q[q.len() - 1]));
            }
        }
        lemma_listing_unique::<K>(p.drop_last(), q.drop_last(), rest);
        assert(p =~= p.drop_last().push(p.last()));
        assert(q =~= q.drop_last().push(q.last()));
    }
}

/// An ascending listing of a set is the listing of that set.
pub proof fn lemma_in_order<K: OrdKey>(q: Seq<K::V>, s: Set<K::V>)
    requires
        lists::<K>(q, s),
    ensures
        in_order::<K>(s) == q,
{
    lemma_listing_unique::<K>(q, in_order::<K>(s), s);
}

/// A finite set that is not empty has a last member.
proof fn lemma_last_member<K: OrdKey>(s: Set<K::V>) -> (m: K::V)
    requires
        s.finite(),
        s.len() > 0,
    ensures
        s.contains(m),
        forall|k: K::V| s.contains(k) ==> k == m || K::before(k, m),
    decreases s.len(),
{
    K::order_laws();
    let x = s.choose();
    let rest = s.remove(x);
    if rest.len() == 0 {
        assert forall|k: K::V| s.contains(k) implies k == x by {
            if k != x {
                assert(rest.contains(k));
            }
        }
        x
    } else {
        let m = lemma_last_member::<K>(rest);
        if K::before(m, x) {
            assert forall|k: K::V| s.contains(k) implies k == x || K::before(k, x) by {
                if k != x {
                    assert(rest.contains(k));
                    if k != m {
                        assert(K::before(k, m));
                    }
                }
            }
            x
        } else {
            assert(K::before(x, m) || x == m);
            assert forall|k: K::V| s.contains(k) implies k == m || K::before(k, m) by {
                if k != x {
                    assert(rest.contains(k));
                }
            }
            m
        }
    }
}

/// A finite set has an ascending listing.
pub proof fn lemma_in_order_lists<K: OrdKey>(s: Set<K::V>)
    requires
        s.finite(),
    ensures
        lists::<K>(in_order::<K>(s), s),
        in_order::<K>(s).no_duplicates(),
{
    let q = lemma_listing_exists::<K>(s);
    assert(lists::<K>(q, s));
    K::order_laws();
    let p = in_order::<K>(s);
    assert forall|i: int, j: int| 0 <= i < p.len() && 0 <= j < p.len() && i != j implies p[i]
        != p[j] by {
        if i < j {
            assert(K::before(p[i], p[j]));
        } else {
            assert(K::before(p[j], p[i]));
        }
    }
}

proof fn lemma_listing_exists<K: OrdKey>(s: Set<K::V>) -> (q: Seq<K::V>)
    requires
        s.finite(),
    ensures
        lists::<K>(q, s),
    decreases s.len(),
{
    if s.len() == 0 {
        let q = Seq::<K::V>::empty();
        assert forall|k: K::V| s.contains(k) <==> q.contains(k) by {
            if s.contains(k) {
                assert(s.remove(k).len() < s.len());
            }
        }
        q
    } else {
        let m = lemma_last_member::<K>(s);
        let rest = s.remove(m);
        let p = lemma_listing_exists::<K>(rest);
        let q = p.push(m);
        assert forall|i: int, j: int|
            #![trigger q[i], q[j]]
            0 <= i < j < q.len() implies K::before(q[i], q[j]) by {
            assert(q[i] == p[i]);
            if j == p.len() {
                assert(p.contains(p[i]));
                assert(rest.contains(p[i]));
            } else {
                assert(q[j] == p[j]);
            }
        }
        assert forall|k: K::V| s.contains(k) <==> q.contains(k) by {
            if s.contains(k) {
                if k == m {
                    assert(q[p.len() as int] == k);
                } else {
                    assert(p.contains(k));
                    let i = p.index_of(k);
                    assert(q[i] == k);
                }
            }
            if q.contains(k) {
                let i = q.index_of(k);
                if i < p.len() {
                    assert(p[i] == k);
                    assert(p.contains(k));
                }
            }
        }
        q
    }
}

/// An association list in strictly ascending key order.
pub struct OrdMap<K, V> {
    entries: Vec<(K, V)>,
}

impl<K: OrdKey, V: View> View for OrdMap<K, V> {
    type V = Map<K::V, V::V>;

    closed spec fn view(&self) -> Map<K::V, V::V> {
        Map::new(
            |k: K::V| self.keys().contains(k),
            |k: K::V| self.entries@[self.keys().index_of(k)].1@,
        )
    }
}

impl<K: OrdKey, V: View> OrdMap<K, V> {
    /// The keys, first to last.
    pub closed spec fn keys(&self) -> Seq<K::V> {
        Seq::new(self.entries@.len(), |i: int| self.entries@[i].0@)
    }

    /// The entries stand in strictly ascending key order.
    pub closed spec fn wf(&self) -> bool {
        forall|i: int, j: int|
            #![trigger self.keys()[i], self.keys()[j]]
            0 <= i < j < self.keys().len() ==> K::before(self.keys()[i], self.keys()[j])
    }

    /// The keys of a well-formed map are its domain in ascending order.
    pub proof fn lemma_keys(&self)
        requires
            self.wf(),
        ensures
            self.keys() == in_order::<K>(self@.dom()),
            lists::<K>(self.keys(), self@.dom()),
            self.keys().no_duplicates(),
            self@.dom().finite(),
            self@.dom().len() == self.keys().len(),
    {
        K::order_laws();
        lemma_in_order::<K>(self.keys(), self@.dom());
        self.keys().unique_seq_to_set();
        assert(self.keys().to_set() =~= self@.dom());
    }

    proof fn lemma_value_at(&self, i: int)
        requires
            self.wf(),
            0 <= i < self.entries@.len(),
        ensures
            self@.contains_key(self.entries@[i].0@),
            self@[self.entries@[i].0@] == self.entries@[i].1@,
    {
        self.lemma_keys();
        let k = self.entries@[i].0@;
        assert(self.keys()[i] == k);
        assert(self.keys().contains(k));
        assert(self.keys().index_of(k) == i);
    }

    /// An empty map.
    pub fn new() -> (r: Self)
        ensures
            r.wf(),
            r@ == Map::<K::V, V::V>::empty(),
    {
        let r = OrdMap { entries: Vec::new() };
        assert(r@ =~= Map::<K::V, V::V>::empty());
        r
    }

    /// How many entries there are.
    pub fn len(&self) -> (n: usize)
        ensures
            n == self.keys().len(),
    {
        self.entries.len()
    }

    /// Whether there are no entries.
    pub fn is_empty(&self) -> (r: bool)
        requires
            self.wf(),
        ensures
            r == (self@ == Map::<K::V, V::V>::empty()),
    {
        let r: bool = self.entries.len() == 0;
        proof {
            if r {
                assert(self@ =~= Map::<K::V, V::V>::empty());
            } else {
                self.lemma_value_at(0);
            }
        }
        r
    }

    /// The key at `i`.
    pub fn key_at(&self, i: usize) -> (k: &K)
        requires
            i < self.keys().len(),
        ensures
            k@ == self.keys()[i as int],
    {
        &self.entries[i].0
    }

    /// Copies of the keys, first to last.
    pub fn key_list(&self) -> (r: Vec<K>)
        requires
            self.wf(),
        ensures
            r@.len() == self.keys().len(),
            forall|i: int| 0 <= i < r@.len() ==> (#[trigger] r@[i])@ == self.keys()[i],
    {
        let mut list: Vec<K> = Vec::new();
        let mut i: usize = 0;
        while i < self.entries.len()
            invariant
                i <= self.entries@.len(),
                list@.len() == i,
                self.keys().len() == self.entries@.len(),
                forall|j: int| 0 <= j < i ==> (#[trigger] list@[j])@ == self.keys()[j],
            decreases self.entries@.len() - i,
        {
            list.push(self.entries[i].0.copy_key());
            i = i + 1;
        }
        list
    }

    /// The value at `i`.
    pub fn value_at(&self, i: usize) -> (v: &V)
        requires
            self.wf(),
            i < self.keys().len(),
        ensures
            self@.contains_key(self.keys()[i as int]),
            v@ == self@[self.keys()[i as int]],
    {
        proof {
            self.lemma_value_at(i as int);
        }
        &self.entries[i].1
    }

    /// The first index whose key does not stand before `k`.
    fn lower_bound(&self, k: &K) -> (r: usize)
        requires
            self.wf(),
        ensures
            r <= self.keys().len(),
            forall|i: int| 0 <= i < r ==> K::before(#[trigger] self.keys()[i], k@),
            forall|i: int| r <= i < self.keys().len() ==> !K::before(#[trigger] self.keys()[i], k@),
    {
        let mut low: usize = 0;
        let mut high: usize = self.entries.len();
        proof {
            K::order_laws();
        }
        while low < high
            invariant
                self.wf(),
                low <= high <= self.keys().len(),
                self.keys().len() == self.entries@.len(),
                forall|i: int| 0 <= i < low ==> K::before(#[trigger] self.keys()[i], k@),
                forall|i: int|
                    high <= i < self.keys().len() ==> !K::before(#[trigger] self.keys()[i], k@),
            decreases high - low,
        {
            let middle: usize = low + (high - low) / 2;
            proof {
                K::order_laws();
            }
            assert(self.keys()[middle as int] == self.entries@[middle as int].0@);
            if self.entries[middle].0.precedes(k) {
                assert forall|i: int| 0 <= i < middle + 1 implies K::before(
                    #[trigger] self.keys()[i],
                    k@,
                ) by {
                    if i < middle {
                        assert(K::before(self.keys()[i], self.keys()[middle as int]));
                    }
                }
                low = middle + 1;
            } else {
                assert forall|i: int| middle <= i < self.keys().len() implies !K::before(
                    #[trigger] self.keys()[i],
                    k@,
                ) by {
                    if middle < i {
                        assert(K::before(self.keys()[middle as int], self.keys()[i]));
                    }
                }
                high = middle;
            }
        }
        low
    }

    /// The index of `k`, where it is a key.
    fn find(&self, k: &K) -> (r: Option<usize>)
        requires
            self.wf(),
        ensures
            match r {
                Some(i) => i < self.keys().len() && self.keys()[i as int] == k@,
                None => !self.keys().contains(k@),
            },
    {
        let i: usize = self.lower_bound(k);
        proof {
            K::order_laws();
        }
        if i < self.entries.len() {
            assert(self.keys()[i as int] == self.entries@[i as int].0@);
            if !k.precedes(&self.entries[i].0) {
                return Some(i);
            }
        }
        assert forall|j: int| 0 <= j < self.keys().len() implies self.keys()[j] != k@ by {
            if j > i {
                assert(K::before(self.keys()[i as int], self.keys()[j]));
            }
        }
        None
    }

    /// The value of `k`, where it is a key.
    pub fn get(&self, k: &K) -> (r: Option<&V>)
        requires
            self.wf(),
        ensures
            match r {
                Some(v) => self@.contains_key(k@) && v@ == self@[k@],
                None => !self@.contains_key(k@),
            },
    {
        match self.find(k) {
            Some(i) => {
                proof {
                    self.lemma_value_at(i as int);
                }
                Some(&self.entries[i].1)
            },
            None => None,
        }
    }

    /// Whether `k` is a key.
    pub fn contains_key(&self, k: &K) -> (r: bool)
        requires
            self.wf(),
        ensures
            r == self@.contains_key(k@),
    {
        match self.find(k) {
            Some(i) => {
                assert(self.keys().contains(k@));
                true
            },
            None => false,
        }
    }

    /// Maps `k` to `v`, in place of any value it had.
    pub fn insert(&mut self, k: K, v: V)
        requires
            old(self).wf(),
        ensures
            final(self).wf(),
            final(self)@ == old(self)@.insert(k@, v@),
    {
        let i: usize = self.lower_bound(&k);
        let ghost was = *self;
        let ghost key = k@;
        let ghost value = v@;
        proof {
            K::order_laws();
            was.lemma_keys();
        }
        if i < self.entries.len() {
            assert(self.keys()[i as int] == self.entries@[i as int].0@);
            if !k.precedes(&self.entries[i].0) {
                self.entries.set(i, (k, v));
                assert(self.keys() =~= was.keys());
                proof {
                    self.lemma_replaced(was, i as int, key, value);
                }
                return;
            }
        }
        self.entries.insert(i, (k, v));
        assert(self.keys() =~= was.keys().insert(i as int, key));
        proof {
            self.lemma_inserted(was, i as int, key, value);
        }
    }

    /// Removes `k`, and returns the value it had.
    pub fn remove(&mut self, k: &K) -> (r: Option<V>)
        requires
            old(self).wf(),
        ensures
            final(self).wf(),
            final(self)@ == old(self)@.remove(k@),
            match r {
                Some(v) => old(self)@.contains_key(k@) && v@ == old(self)@[k@],
                None => !old(self)@.contains_key(k@),
            },
    {
        let ghost was = *self;
        match self.find(k) {
            Some(i) => {
                let entry = self.entries.remove(i);
                proof {
                    was.lemma_value_at(i as int);
                    assert(self.keys() =~= was.keys().remove(i as int));
                    self.lemma_removed(was, i as int);
                }
                Some(entry.1)
            },
            None => {
                assert(self@ =~= old(self)@.remove(k@));
                None
            },
        }
    }

    proof fn lemma_replaced(&self, was: Self, i: int, k: K::V, v: V::V)
        requires
            was.wf(),
            0 <= i < was.entries@.len(),
            was.keys()[i] == k,
            self.keys() == was.keys(),
            self.entries@.len() == was.entries@.len(),
            self.entries@[i].1@ == v,
            forall|j: int|
                0 <= j < was.entries@.len() && j != i ==> self.entries@[j] == was.entries@[j],
        ensures
            self.wf(),
            self@ == was@.insert(k, v),
    {
        was.lemma_keys();
        assert forall|x: K::V| self@.contains_key(x) implies self@[x] == was@.insert(k, v)[x] by {
            let j = self.keys().index_of(x);
            assert(self.keys()[j] == x);
            self.lemma_value_at(j);
            was.lemma_value_at(j);
        }
        assert(was.keys().contains(k));
        assert(self@ =~= was@.insert(k, v));
    }

    proof fn lemma_inserted(&self, was: Self, i: int, k: K::V, v: V::V)
        requires
            was.wf(),
            0 <= i <= was.entries@.len(),
            forall|j: int| 0 <= j < i ==> K::before(#[trigger] was.keys()[j], k),
            forall|j: int| i <= j < was.keys().len() ==> K::before(k, #[trigger] was.keys()[j]),
            self.keys() == was.keys().insert(i, k),
            self.entries@.len() == was.entries@.len() + 1,
            self.entries@[i].1@ == v,
            forall|j: int| 0 <= j < i ==> self.entries@[j] == was.entries@[j],
            forall|j: int| i <= j < was.entries@.len() ==> self.entries@[j + 1] == was.entries@[j],
        ensures
            self.wf(),
            self@ == was@.insert(k, v),
    {
        K::order_laws();
        was.lemma_keys();
        assert forall|a: int, b: int|
            #![trigger self.keys()[a], self.keys()[b]]
            0 <= a < b < self.keys().len() implies K::before(self.keys()[a], self.keys()[b]) by {
            let x = if a < i { a } else { a - 1 };
            let y = if b < i { b } else { b - 1 };
            if a != i {
                assert(self.keys()[a] == was.keys()[x]);
            }
            if b != i {
                assert(self.keys()[b] == was.keys()[y]);
            }
            if a != i && b != i {
                assert(K::before(was.keys()[x], was.keys()[y]));
            }
        }
        assert(self.wf());
        assert forall|x: K::V| self@.contains_key(x) <==> was@.insert(k, v).contains_key(x) by {
            if self.keys().contains(x) {
                let j = self.keys().index_of(x);
                assert(self.keys()[j] == x);
                if j < i {
                    assert(was.keys()[j] == x);
                } else if j > i {
                    assert(was.keys()[j - 1] == x);
                }
            }
            if was.keys().contains(x) {
                let j = was.keys().index_of(x);
                assert(was.keys()[j] == x);
                if j < i {
                    assert(self.keys()[j] == x);
                } else {
                    assert(self.keys()[j + 1] == x);
                }
            }
            assert(self.keys()[i] == k);
        }
        assert forall|x: K::V| self@.contains_key(x) implies self@[x] == was@.insert(k, v)[x] by {
            let j = self.keys().index_of(x);
            assert(self.keys()[j] == x);
            self.lemma_value_at(j);
            if j < i {
                assert(was.keys()[j] == x);
                was.lemma_value_at(j);
            } else if j > i {
                assert(was.keys()[j - 1] == x);
                was.lemma_value_at(j - 1);
                assert(self.entries@[(j - 1) + 1] == was.entries@[j - 1]);
            }
        }
        assert(self@ =~= was@.insert(k, v));
    }

    proof fn lemma_removed(&self, was: Self, i: int)
        requires
            was.wf(),
            0 <= i < was.entries@.len(),
            self.keys() == was.keys().remove(i),
            self.entries@ == was.entries@.remove(i),
        ensures
            self.wf(),
            self@ == was@.remove(was.keys()[i]),
    {
        K::order_laws();
        was.lemma_keys();
        let k = was.keys()[i];
        assert forall|a: int, b: int|
            #![trigger self.keys()[a], self.keys()[b]]
            0 <= a < b < self.keys().len() implies K::before(self.keys()[a], self.keys()[b]) by {
            let x = if a < i { a } else { a + 1 };
            let y = if b < i { b } else { b + 1 };
            assert(self.keys()[a] == was.keys()[x]);
            assert(self.keys()[b] == was.keys()[y]);
        }
        assert forall|x: K::V| self@.contains_key(x) <==> was@.remove(k).contains_key(x) by {
            if self.keys().contains(x) {
                let j = self.keys().index_of(x);
                assert(self.keys()[j] == x);
                let y = if j < i { j } else { j + 1 };
                assert(was.keys()[y] == x);
            }
            if was.keys().contains(x) && x != k {
                let j = was.keys().index_of(x);
                assert(was.keys()[j] == x);
                let y = if j < i { j } else { j - 1 };
                assert(self.keys()[y] == x);
            }
        }
        assert forall|x: K::V| self@.contains_key(x) implies self@[x] == was@.remove(k)[x] by {
            let j = self.keys().index_of(x);
            assert(self.keys()[j] == x);
            self.lemma_value_at(j);
            let y = if j < i { j } else { j + 1 };
            assert(was.keys()[y] == x);
            was.lemma_value_at(y);
        }
        assert(self@ =~= was@.remove(k));
    }
}

} // verus!
