//! The identifiers of the village: authored definition names, spawned
//! instances and the player's orders.

use vstd::prelude::*;

use crate::ord_map::OrdKey;

verus! {

/// A readable authored identifier, such as `person.newcomer_a`.
#[derive(Debug, Eq, Ord, PartialEq, PartialOrd)]
pub struct DefinitionId(pub String);

/// A stable, monotonic identifier for a spawned simulation instance.
#[derive(Clone, Copy, Debug, Eq, Ord, PartialEq, PartialOrd, Structural)]
pub struct SimId(pub u64);

/// A caller-stable identifier for an order in the player's household queue.
///
/// The client chooses this value before submitting a command, so later
/// cancellation does not depend on anything private to the simulation.
#[derive(Clone, Copy, Debug, Eq, Ord, PartialEq, PartialOrd, Structural)]
pub struct PlayerTaskId(pub u64);

impl View for DefinitionId {
    type V = Seq<char>;

    open spec fn view(&self) -> Seq<char> {
        self.0@
    }
}

impl Clone for DefinitionId {
    fn clone(&self) -> (r: Self)
        ensures
            r == *self,
    {
        DefinitionId(self.0.clone())
    }
}

impl DefinitionId {
    /// The identifier that reads `value`.
    #[must_use]
    pub fn new(value: &str) -> (r: Self)
        ensures
            r@ == value@,
    {
        DefinitionId(value.to_owned())
    }

    /// Whether two identifiers read the same.
    pub fn same(&self, other: &DefinitionId) -> (r: bool)
        ensures
            r == (self@ == other@),
    {
        self.0 == other.0
    }
}

/// Dictionary order of character sequences by code point.
pub open spec fn reads_before(a: Seq<char>, b: Seq<char>) -> bool
    decreases a.len(),
{
    if b.len() == 0 {
        false
    } else if a.len() == 0 {
        true
    } else if a[0] != b[0] {
        (a[0] as int) < (b[0] as int)
    } else {
        reads_before(a.drop_first(), b.drop_first())
    }
}

proof fn lemma_reads_before_irreflexive(a: Seq<char>)
    ensures
        !reads_before(a, a),
    decreases a.len(),
{
    if a.len() > 0 {
        lemma_reads_before_irreflexive(a.drop_first());
    }
}

proof fn lemma_reads_before_total(a: Seq<char>, b: Seq<char>)
    ensures
        reads_before(a, b) || reads_before(b, a) || a == b,
    decreases a.len(),
{
    if a.len() > 0 && b.len() > 0 {
        lemma_reads_before_total(a.drop_first(), b.drop_first());
        if a[0] == b[0] && a.drop_first() == b.drop_first() {
            assert forall|i: int| 0 <= i < a.len() implies a[i] == b[i] by {
                if i > 0 {
                    assert(a[i] == a.drop_first()[i - 1]);
                    assert(b[i] == b.drop_first()[i - 1]);
                }
            }
            assert(a.len() == a.drop_first().len() + 1);
            assert(a =~= b);
        }
    } else if a.len() == 0 && b.len() == 0 {
        assert(a =~= b);
    }
}

proof fn lemma_reads_before_transitive(a: Seq<char>, b: Seq<char>, c: Seq<char>)
    requires
        reads_before(a, b),
        reads_before(b, c),
    ensures
        reads_before(a, c),
    decreases a.len(),
{
    if a.len() > 0 && b.len() > 0 && c.len() > 0 && a[0] == b[0] && b[0] == c[0] {
        lemma_reads_before_transitive(a.drop_first(), b.drop_first(), c.drop_first());
    }
}

impl OrdKey for DefinitionId {
    open spec fn before(a: Seq<char>, b: Seq<char>) -> bool {
        reads_before(a, b)
    }

    proof fn order_laws() {
        assert forall|a: Seq<char>| !#[trigger] Self::before(a, a) by {
            lemma_reads_before_irreflexive(a);
        }
        assert forall|a: Seq<char>, b: Seq<char>|
            #![trigger Self::before(a, b)]
            #![trigger Self::before(b, a)]
            Self::before(a, b) || Self::before(b, a) || a == b by {
            lemma_reads_before_total(a, b);
        }
        assert forall|a: Seq<char>, b: Seq<char>, c: Seq<char>|
            #![trigger Self::before(a, b), Self::before(b, c)]
            Self::before(a, b) && Self::before(b, c) implies Self::before(a, c) by {
            lemma_reads_before_transitive(a, b, c);
        }
    }

    fn precedes(&self, other: &Self) -> (r: bool) {
        let left: &str = self.0.as_str();
        let right: &str = other.0.as_str();
        let left_len: usize = left.unicode_len();
        let right_len: usize = right.unicode_len();
        let mut i: usize = 0;
        assert(left@.skip(0) =~= left@);
        assert(right@.skip(0) =~= right@);
        while i < left_len && i < right_len
            invariant
                i <= left_len,
                i <= right_len,
                left_len == left@.len(),
                right_len == right@.len(),
                reads_before(left@, right@) == reads_before(
                    left@.skip(i as int),
                    right@.skip(i as int),
                ),
                left@ == self@,
                right@ == other@,
            decreases left_len - i,
        {
            let a: u32 = left.get_char(i) as u32;
            let b: u32 = right.get_char(i) as u32;
            assert(left@.skip(i as int)[0] == left@[i as int]);
            assert(right@.skip(i as int)[0] == right@[i as int]);
            if a != b {
                return a < b;
            }
            assert(left@.skip(i as int).drop_first() =~= left@.skip(i + 1));
            assert(right@.skip(i as int).drop_first() =~= right@.skip(i + 1));
            i = i + 1;
        }
        i < right_len
    }

    fn copy_key(&self) -> (r: Self) {
        self.clone()
    }
}

impl View for SimId {
    type V = SimId;

    open spec fn view(&self) -> SimId {
        *self
    }
}

impl OrdKey for SimId {
    open spec fn before(a: SimId, b: SimId) -> bool {
        a.0 < b.0
    }

    proof fn order_laws() {
    }

    fn precedes(&self, other: &Self) -> (r: bool) {
        self.0 < other.0
    }

    fn copy_key(&self) -> (r: Self) {
        *self
    }
}

impl View for PlayerTaskId {
    type V = PlayerTaskId;

    open spec fn view(&self) -> PlayerTaskId {
        *self
    }
}

impl OrdKey for PlayerTaskId {
    open spec fn before(a: PlayerTaskId, b: PlayerTaskId) -> bool {
        a.0 < b.0
    }

    proof fn order_laws() {
    }

    fn precedes(&self, other: &Self) -> (r: bool) {
        self.0 < other.0
    }

    fn copy_key(&self) -> (r: Self) {
        *self
    }
}

impl<A: OrdKey, B: OrdKey> OrdKey for (A, B) {
    open spec fn before(a: (A::V, B::V), b: (A::V, B::V)) -> bool {
        A::before(a.0, b.0) || (a.0 == b.0 && B::before(a.1, b.1))
    }

    proof fn order_laws() {
        A::order_laws();
        B::order_laws();
    }

    fn precedes(&self, other: &Self) -> (r: bool) {
        proof {
            A::order_laws();
        }
        if self.0.precedes(&other.0) {
            true
        } else if other.0.precedes(&self.0) {
            false
        } else {
            self.1.precedes(&other.1)
        }
    }

    fn copy_key(&self) -> (r: Self) {
        (self.0.copy_key(), self.1.copy_key())
    }
}

/// Names are ordered as in a dictionary: where two first differ, by the
/// character there, and a name comes before every longer one that it begins.
pub proof fn law_names_are_ordered_as_in_a_dictionary(a: Seq<char>, b: Seq<char>, k: int)
    requires
        0 <= k <= a.len(),
        k <= b.len(),
        forall|i: int| 0 <= i < k ==> #[trigger] a[i] == b[i],
    ensures
        k < a.len() && k < b.len() && a[k] != b[k] ==> (reads_before(a, b) <==> (a[k] as int) < (
        b[k] as int)),
        k == a.len() ==> (reads_before(a, b) <==> a.len() < b.len()),
        k == b.len() ==> !reads_before(a, b),
    decreases a.len(),
{
    if k > 0 {
        let c = a.drop_first();
        let d = b.drop_first();
        assert(a[0] == b[0]);
        assert forall|i: int| 0 <= i < k - 1 implies #[trigger] c[i] == d[i] by {
            assert(a[i + 1] == b[i + 1]);
        }
        law_names_are_ordered_as_in_a_dictionary(c, d, k - 1);
        if k < a.len() && k < b.len() {
            assert(c[k - 1] == a[k]);
            assert(d[k - 1] == b[k]);
        }
    }
}

} // verus!
