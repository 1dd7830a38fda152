//! The grow-only set itself: insertion, membership test, merge, and the
//! join-semilattice laws that make independently updated replicas converge.

use vstd::prelude::*;

verus! {

/// Holds iff `s` is strictly increasing, i.e. sorted and duplicate-free.
pub open spec fn strictly_increasing(s: Seq<u64>) -> bool {
    forall|i: int, j: int| 0 <= i < j < s.len() ==> s[i] < s[j]
}

/// A grow-only set of `u64` elements.
///
/// The only mutations are `insert` and `merge`, so the element set of a
/// replica never shrinks. The elements are kept as a strictly increasing
/// vector: one element set has exactly one representation, so the derived
/// `==` agrees with set equality and the encoded form is deterministic.
#[derive(Debug, PartialEq, Eq, Hash)]
pub struct GSet {
    value: Vec<u64>,
}

impl Clone for GSet {
    /// A copy of the replica, holding the same elements.
    fn clone(&self) -> (r: GSet)
        ensures
            r@ == self@,
            r.ordered() == self.ordered(),
    {
        GSet { value: self.to_vec() }
    }
}

impl View for GSet {
    type V = Set<u64>;

    /// The abstract value of a `GSet`: the set of elements it holds.
    closed spec fn view(&self) -> Set<u64> {
        self.value@.to_set()
    }
}

/// Strictly increasing sequences have no duplicates, so they carry as
/// many elements as they are long.
proof fn lemma_strictly_increasing_unique(s: Seq<u64>)
    requires
        strictly_increasing(s),
    ensures
        s.to_set().finite(),
        s.to_set().len() == s.len(),
{
    assert(s.no_duplicates()) by {
        assert forall|i: int, j: int|
            0 <= i < s.len() && 0 <= j < s.len() && i != j implies s[i] != s[j] by {
            if i < j {
                assert(s[i] < s[j]);
            } else {
                assert(s[j] < s[i]);
            }
        }
    }
    s.unique_seq_to_set();
}

/// Inserting `e` at position `i` of a strictly increasing sequence, with
/// everything before `i` below `e` and everything from `i` on above it,
/// keeps the sequence strictly increasing and adds exactly `e` to its
/// element set.
proof fn lemma_sorted_insert(s: Seq<u64>, i: int, e: u64)
    requires
        strictly_increasing(s),
        0 <= i <= s.len(),
        forall|k: int| 0 <= k < i ==> s[k] < e,
        forall|k: int| i <= k < s.len() ==> e < s[k],
    ensures
        strictly_increasing(s.insert(i, e)),
        s.insert(i, e).to_set() == s.to_set().insert(e),
{
    let t = s.insert(i, e);
    assert forall|a: int| 0 <= a < t.len() implies #[trigger] t[a] == (if a < i {
        s[a]
    } else if a == i {
        e
    } else {
        s[a - 1]
    }) by {
        assert(t == s.subrange(0, i).push(e) + s.subrange(i, s.len() as int));
    }
    assert forall|a: int, b: int| 0 <= a < b < t.len() implies t[a] < t[b] by {
        if a < i && b > i {
            assert(s[a] < e && e < s[b - 1]);
        }
    }
    assert forall|x: u64| t.contains(x) implies (s.contains(x) || x == e) by {
        let j = choose|j: int| 0 <= j < t.len() && t[j] == x;
        if j < i {
            assert(s[j] == x);
        } else if j > i {
            assert(s[j - 1] == x);
        }
    }
    assert forall|x: u64| s.contains(x) implies t.contains(x) by {
        let j = choose|j: int| 0 <= j < s.len() && s[j] == x;
        if j < i {
            assert(t[j] == x);
        } else {
            assert(t[j + 1] == x);
        }
    }
    assert(t.contains(e)) by {
        assert(t[i] == e);
    }
    assert(t.to_set() =~= s.to_set().insert(e));
}

impl GSet {
    #[verifier::type_invariant]
    spec fn inv(&self) -> bool {
        strictly_increasing(self.value@)
    }

    /// The elements in increasing order; this is the sequence `encode`
    /// writes out.
    pub closed spec fn ordered(&self) -> Seq<u64> {
        self.value@
    }

    /// Instantiates an empty `GSet`.
    pub fn new() -> (s: GSet)
        ensures
            s@ == Set::<u64>::empty(),
    {
        let s = GSet { value: Vec::new() };
        proof {
            assert(s.value@.to_set() =~= Set::<u64>::empty());
        }
        s
    }

    /// Returns `true` if the `GSet` contains the element.
    pub fn contains(&self, element: &u64) -> (r: bool)
        ensures
            r == self@.contains(*element),
    {
        let mut i: usize = 0;
        while i < self.value.len()
            invariant
                0 <= i <= self.value.len(),
                forall|k: int| 0 <= k < i ==> self.value@[k] != *element,
            decreases self.value.len() - i,
        {
            if self.value[i] == *element {
                proof {
                    assert(self.value@.contains(*element));
                }
                return true;
            }
            i += 1;
        }
        proof {
            assert(!self.value@.contains(*element));
        }
        false
    }

    /// Inserts an element into this `GSet`.
    ///
    /// A no-op if the element is already present: inserting the same
    /// element twice leaves the same set as inserting it once.
    pub fn insert(&mut self, element: u64)
        ensures
            final(self)@ == old(self)@.insert(element),
    {
        proof {
            use_type_invariant(&*self);
        }
        let mut v: Vec<u64> = Vec::new();
        std::mem::swap(&mut v, &mut self.value);
        let ghost s = v@;
        let mut i: usize = 0;
        while i < v.len() && v[i] < element
            invariant
                v@ == s,
                0 <= i <= v.len(),
                strictly_increasing(s),
                forall|k: int| 0 <= k < i ==> s[k] < element,
            decreases v.len() - i,
        {
            i += 1;
        }
        if i < v.len() && v[i] == element {
            proof {
                assert(s.contains(element));
                assert(s.to_set() =~= s.to_set().insert(element));
            }
        } else {
            proof {
                assert forall|k: int| i <= k < s.len() implies element < s[k] by {
                    if k > i {
                        assert(s[i as int] < s[k]);
                    }
                }
                lemma_sorted_insert(s, i as int, element);
            }
            v.insert(i, element);
        }
        self.value = v;
    }

    /// Merges another `GSet` into this one, consuming it.
    ///
    /// Afterwards the receiver holds the union of both element sets;
    /// nothing is ever removed.
    pub fn merge(&mut self, other: GSet)
        ensures
            final(self)@ == old(self)@.union(other@),
    {
        let ghost o = other.value@;
        proof {
            assert(o.take(0).to_set() =~= Set::<u64>::empty());
            assert(old(self)@.union(o.take(0).to_set()) =~= old(self)@);
        }
        let mut i: usize = 0;
        while i < other.value.len()
            invariant
                other.value@ == o,
                0 <= i <= o.len(),
                self@ == old(self)@.union(o.take(i as int).to_set()),
            decreases o.len() - i,
        {
            let e = other.value[i];
            self.insert(e);
            proof {
                assert(o.take(i as int + 1) =~= o.take(i as int).push(e));
                o.take(i as int).lemma_push_to_set_commute(e);
                assert(old(self)@.union(o.take(i as int).to_set()).insert(e) =~= old(
                    self,
                )@.union(o.take(i as int + 1).to_set()));
            }
            i += 1;
        }
        proof {
            assert(o.take(o.len() as int) =~= o);
        }
    }

    /// The number of elements currently present.
    pub fn len(&self) -> (n: usize)
        ensures
            n == self@.len(),
    {
        proof {
            use_type_invariant(self);
            lemma_strictly_increasing_unique(self.value@);
        }
        self.value.len()
    }

    /// The elements in increasing order, as a fresh vector: strictly
    /// increasing, and carrying exactly the elements of the set, one
    /// position each.
    pub fn to_vec(&self) -> (r: Vec<u64>)
        ensures
            r@ == self.ordered(),
            strictly_increasing(r@),
            r@.to_set() == self@,
            r@.len() == self@.len(),
    {
        proof {
            use_type_invariant(self);
            lemma_strictly_increasing_unique(self.value@);
        }
        let mut r: Vec<u64> = Vec::new();
        proof {
            assert(r@ =~= self.value@.take(0));
        }
        let mut i: usize = 0;
        while i < self.value.len()
            invariant
                0 <= i <= self.value.len(),
                r@ == self.value@.take(i as int),
            decreases self.value.len() - i,
        {
            r.push(self.value[i]);
            proof {
                assert(self.value@.take(i as int + 1) =~= self.value@.take(i as int).push(
                    self.value@[i as int],
                ));
            }
            i += 1;
        }
        proof {
            assert(self.value@.take(self.value.len() as int) =~= self.value@);
        }
        r
    }

    /// Returns `true` iff the two instances hold exactly the same
    /// elements, irrespective of the order in which they were inserted.
    pub fn equals(&self, other: &GSet) -> (r: bool)
        ensures
            r <==> self@ == other@,
    {
        let mut i: usize = 0;
        while i < self.value.len()
            invariant
                0 <= i <= self.value.len(),
                forall|k: int| 0 <= k < i ==> other@.contains(#[trigger] self.value@[k]),
            decreases self.value.len() - i,
        {
            if !other.contains(&self.value[i]) {
                proof {
                    assert(self.value@.contains(self.value@[i as int]));
                    assert(self@.contains(self.value@[i as int]));
                }
                return false;
            }
            i += 1;
        }
        let mut j: usize = 0;
        while j < other.value.len()
            invariant
                0 <= j <= other.value.len(),
                forall|k: int| 0 <= k < self.value@.len() ==> other@.contains(
                    #[trigger] self.value@[k],
                ),
                forall|k: int| 0 <= k < j ==> self@.contains(#[trigger] other.value@[k]),
            decreases other.value.len() - j,
        {
            if !self.contains(&other.value[j]) {
                proof {
                    assert(other.value@.contains(other.value@[j as int]));
                    assert(other@.contains(other.value@[j as int]));
                }
                return false;
            }
            j += 1;
        }
        proof {
            assert forall|x: u64| self@.contains(x) implies other@.contains(x) by {
                let k = choose|k: int| 0 <= k < self.value@.len() && self.value@[k] == x;
                assert(other@.contains(self.value@[k]));
            }
            assert forall|x: u64| other@.contains(x) implies self@.contains(x) by {
                let k = choose|k: int| 0 <= k < other.value@.len() && other.value@[k] == x;
                assert(self@.contains(other.value@[k]));
            }
            assert(self@ =~= other@);
        }
        true
    }
}

/// Dropping the last element of a nonempty strictly increasing sequence
/// removes exactly its greatest element.
proof fn lemma_drop_last(s: Seq<u64>)
    requires
        strictly_increasing(s),
        s.len() > 0,
    ensures
        strictly_increasing(s.drop_last()),
        s.to_set().contains(s.last()),
        s.drop_last().to_set() == s.to_set().remove(s.last()),
        forall|x: u64| s.to_set().contains(x) ==> x <= s.last(),
{
    assert(s.contains(s.last())) by {
        assert(s[s.len() - 1] == s.last());
    }
    assert forall|x: u64| s.to_set().contains(x) implies x <= s.last() by {
        let j = choose|j: int| 0 <= j < s.len() && s[j] == x;
        if j < s.len() - 1 {
            assert(s[j] < s[s.len() - 1]);
        }
    }
    assert forall|x: u64| s.drop_last().contains(x) implies (s.contains(x) && x != s.last()) by {
        let j = choose|j: int| 0 <= j < s.len() - 1 && s.drop_last()[j] == x;
        assert(s[j] == x);
        assert(s[j] < s[s.len() - 1]);
    }
    assert forall|x: u64| s.contains(x) && x != s.last() implies s.drop_last().contains(x) by {
        let j = choose|j: int| 0 <= j < s.len() && s[j] == x;
        assert(j != s.len() - 1);
        assert(s.drop_last()[j] == x);
    }
    assert(s.drop_last().to_set() =~= s.to_set().remove(s.last()));
}

/// An element set has exactly one strictly increasing ordering, so a
/// replica's ordered sequence — and with it its encoded form — is
/// determined by its element set alone.
pub proof fn lemma_canonical_order(a: Seq<u64>, b: Seq<u64>)
    requires
        strictly_increasing(a),
        strictly_increasing(b),
        a.to_set() == b.to_set(),
    ensures
        a == b,
    decreases a.len(),
{
    if a.len() == 0 {
        if b.len() > 0 {
            assert(b.contains(b[0]));
            assert(b.to_set().contains(b[0]));
            assert(a.to_set().contains(b[0]));
            assert(a.contains(b[0]));
        }
        assert(a =~= b);
    } else {
        lemma_drop_last(a);
        if b.len() == 0 {
            assert(b.to_set().contains(a.last()));
            assert(b.contains(a.last()));
        }
        lemma_drop_last(b);
        assert(a.last() == b.last());
        lemma_canonical_order(a.drop_last(), b.drop_last());
        assert forall|k: int| 0 <= k < a.len() implies a[k] == b[k] by {
            if k < a.len() - 1 {
                assert(a.drop_last()[k] == b.drop_last()[k]);
            }
        }
        assert(a =~= b);
    }
}

/// Inserting an element twice yields the same set as inserting it once,
/// and the element is contained after either.
pub proof fn lemma_insert_idempotent(a: GSet, e: u64)
    ensures
        a@.insert(e).insert(e) == a@.insert(e),
        a@.insert(e).contains(e),
{
    assert(a@.insert(e).insert(e) =~= a@.insert(e));
}

/// Insertion is monotone: every element contained before an insertion is
/// still contained after it, so `contains` never goes from true to false.
pub proof fn lemma_insert_monotone(a: GSet, e: u64)
    ensures
        a@.subset_of(a@.insert(e)),
{
}

/// Merge is idempotent: merging a replica with a copy of itself leaves
/// its element set unchanged.
pub proof fn lemma_merge_idempotent(a: GSet)
    ensures
        a@.union(a@) == a@,
{
    assert(a@.union(a@) =~= a@);
}

/// Merging a replica whose elements are already fully incorporated
/// changes nothing.
pub proof fn lemma_merge_absorbs(a: GSet, b: GSet)
    requires
        b@.subset_of(a@),
    ensures
        a@.union(b@) == a@,
{
    assert(a@.union(b@) =~= a@);
}

/// Merge is commutative: whichever replica merges the other, the
/// resulting element set is the union of both originals.
pub proof fn lemma_merge_commutative(a: GSet, b: GSet)
    ensures
        a@.union(b@) == b@.union(a@),
{
    assert(a@.union(b@) =~= b@.union(a@));
}

/// Merge is associative: merging in either grouping yields the union of
/// all three element sets.
pub proof fn lemma_merge_associative(a: GSet, b: GSet, c: GSet)
    ensures
        a@.union(b@).union(c@) == a@.union(b@.union(c@)),
{
    assert(a@.union(b@).union(c@) =~= a@.union(b@.union(c@)));
}

/// Merge is monotone: after a merge the receiver still contains every
/// element either input contained, so nothing is ever removed.
pub proof fn lemma_merge_monotone(a: GSet, b: GSet)
    ensures
        a@.subset_of(a@.union(b@)),
        b@.subset_of(a@.union(b@)),
{
}

} // verus!
