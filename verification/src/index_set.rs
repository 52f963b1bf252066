//! Dense sets of 32-bit indices, stored as one flag per index.

use vstd::prelude::*;

verus! {

/// How many flags of `bits` are raised.
pub open spec fn count_set(bits: Seq<bool>) -> nat
    decreases bits.len(),
{
    if bits.len() == 0 {
        0
    } else {
        count_set(bits.drop_last()) + if bits.last() { 1nat } else { 0nat }
    }
}

/// No more flags are raised than there are flags.
pub proof fn lemma_count_bound(bits: Seq<bool>)
    ensures
        count_set(bits) <= bits.len(),
    decreases bits.len(),
{
    if bits.len() > 0 {
        lemma_count_bound(bits.drop_last());
    }
}

/// Raising one flag that was down adds exactly one to the count.
pub proof fn lemma_count_raise(bits: Seq<bool>, i: int)
    requires
        0 <= i < bits.len(),
        !bits[i],
    ensures
        count_set(bits.update(i, true)) == count_set(bits) + 1,
    decreases bits.len(),
{
    let raised = bits.update(i, true);
    if i == bits.len() - 1 {
        assert(raised.drop_last() =~= bits.drop_last());
    } else {
        lemma_count_raise(bits.drop_last(), i);
        assert(raised.drop_last() =~= bits.drop_last().update(i, true));
    }
}

/// A set of indices below a fixed capacity.
pub struct IndexSet {
    bits: Vec<bool>,
}

impl IndexSet {
    /// The members of the set.
    pub closed spec fn view(&self) -> Set<u32> {
        Set::new(|i: u32| (i as int) < self.bits@.len() && self.bits@[i as int])
    }

    /// The exclusive upper bound of the indices the set can hold.
    pub closed spec fn capacity(&self) -> nat {
        self.bits@.len()
    }

    /// The number of members.
    pub closed spec fn count(&self) -> nat {
        count_set(self.bits@)
    }

    /// The number of indices below the capacity that are not members.
    pub open spec fn vacancy(&self) -> nat {
        (self.capacity() - self.count()) as nat
    }

    /// Members lie below the capacity, and there are at most `capacity` of them.
    pub proof fn lemma_bounds(&self)
        ensures
            self.count() <= self.capacity(),
            forall|i: u32| #[trigger] self@.contains(i) ==> (i as nat) < self.capacity(),
    {
        lemma_count_bound(self.bits@);
    }

    /// The empty set with the given capacity.
    pub fn new(capacity: u32) -> (s: IndexSet)
        ensures
            s@ == Set::<u32>::empty(),
            s.capacity() == capacity,
            s.count() == 0,
    {
        let mut bits: Vec<bool> = Vec::new();
        let mut i: u32 = 0;
        while i < capacity
            invariant
                i <= capacity,
                bits@.len() == i,
                forall|j: int| 0 <= j < i ==> !bits@[j],
                count_set(bits@) == 0,
            decreases capacity - i,
        {
            proof {
                assert(bits@.push(false).drop_last() =~= bits@);
            }
            bits.push(false);
            i = i + 1;
        }
        let s = IndexSet { bits };
        assert(s@ =~= Set::<u32>::empty());
        s
    }

    /// The capacity the set was made with.
    pub fn size(&self) -> (n: usize)
        ensures
            n == self.capacity(),
    {
        self.bits.len()
    }

    /// Whether `i` is a member.
    pub fn contains(&self, i: u32) -> (r: bool)
        ensures
            r == self@.contains(i),
    {
        let k: usize = i as usize;
        k < self.bits.len() && self.bits[k]
    }

    /// Adds `i`; reports whether the set grew.
    pub fn insert(&mut self, i: u32) -> (changed: bool)
        requires
            (i as nat) < old(self).capacity(),
        ensures
            final(self)@ == old(self)@.insert(i),
            final(self).capacity() == old(self).capacity(),
            changed == !old(self)@.contains(i),
            final(self).count() == old(self).count() + if changed { 1nat } else { 0nat },
    {
        let k: usize = i as usize;
        if self.bits[k] {
            assert(self@ =~= old(self)@.insert(i));
            false
        } else {
            proof {
                lemma_count_raise(self.bits@, k as int);
            }
            self.bits.set(k, true);
            assert(self@ =~= old(self)@.insert(i));
            true
        }
    }

    /// Adds every member of `other`; reports whether the set grew.
    pub fn union_with(&mut self, other: &IndexSet) -> (changed: bool)
        requires
            other.capacity() == old(self).capacity(),
            old(self).capacity() <= u32::MAX,
        ensures
            final(self)@ == old(self)@.union(other@),
            final(self).capacity() == old(self).capacity(),
            changed == (final(self)@ != old(self)@),
            final(self).count() >= old(self).count(),
            changed ==> final(self).count() > old(self).count(),
    {
        let n: usize = self.bits.len();
        let ghost orig: Seq<bool> = self.bits@;
        let ghost add: Seq<bool> = other.bits@;
        let mut changed = false;
        let mut k: usize = 0;
        while k < n
            invariant
                k <= n,
                n == self.bits@.len(),
                n == add.len(),
                n == orig.len(),
                add == other.bits@,
                forall|j: int| 0 <= j < k ==> #[trigger] self.bits@[j] == (orig[j] || add[j]),
                forall|j: int| k <= j < n ==> #[trigger] self.bits@[j] == orig[j],
                count_set(self.bits@) >= count_set(orig),
                changed ==> count_set(self.bits@) > count_set(orig),
                changed <==> exists|j: int| 0 <= j < k && #[trigger] add[j] && !orig[j],
            decreases n - k,
        {
            let ghost prev: Seq<bool> = self.bits@;
            let ghost was: bool = changed;
            if other.bits[k] && !self.bits[k] {
                proof {
                    lemma_count_raise(self.bits@, k as int);
                }
                self.bits.set(k, true);
                changed = true;
            }
            proof {
                assert forall|j: int| 0 <= j < k + 1 implies #[trigger] self.bits@[j] == (orig[j]
                    || add[j]) by {
                    if j < k {
                        assert(prev[j] == (orig[j] || add[j]));
                    }
                }
                assert forall|j: int| k + 1 <= j < n implies #[trigger] self.bits@[j] == orig[j] by {
                    assert(prev[j] == orig[j]);
                }
                if changed {
                    if was {
                        let j = choose|j: int| 0 <= j < k && #[trigger] add[j] && !orig[j];
                        assert(0 <= j < k + 1 && add[j] && !orig[j]);
                    } else {
                        assert(prev[k as int] == orig[k as int]);
                        assert(0 <= k < k + 1 && add[k as int] && !orig[k as int]);
                    }
                } else {
                    assert(prev[k as int] == orig[k as int]);
                    assert forall|j: int| 0 <= j < k + 1 && #[trigger] add[j] implies orig[j] by {}
                }
            }
            k = k + 1;
        }
        proof {
            assert forall|t: u32| self@.contains(t) == old(self)@.union(other@).contains(t) by {
                if (t as int) < n {
                    assert(self.bits@[t as int] == (orig[t as int] || add[t as int]));
                }
            }
            assert(self@ =~= old(self)@.union(other@));
            if changed {
                let j = choose|j: int| 0 <= j < n && #[trigger] add[j] && !orig[j];
                assert(self.bits@[j]);
                assert(self@.contains(j as u32));
                assert(!old(self)@.contains(j as u32));
            } else {
                assert forall|j: int| 0 <= j < n implies self.bits@[j] == orig[j] by {
                    if add[j] && !orig[j] {
                        assert(false);
                    }
                }
                assert(self.bits@ =~= orig);
            }
        }
        changed
    }

    /// The members in increasing order.
    pub fn to_vec(&self) -> (v: Vec<u32>)
        requires
            self.capacity() <= u32::MAX,
        ensures
            forall|t: u32| self@.contains(t) <==> v@.contains(t),
            forall|a: int, b: int| 0 <= a < b < v@.len() ==> v@[a] < v@[b],
    {
        let n: usize = self.bits.len();
        let mut v: Vec<u32> = Vec::new();
        let mut k: usize = 0;
        while k < n
            invariant
                k <= n,
                n == self.bits@.len(),
                n <= u32::MAX,
                forall|t: u32| (self@.contains(t) && t < k) <==> v@.contains(t),
                forall|a: int, b: int| 0 <= a < b < v@.len() ==> v@[a] < v@[b],
                forall|a: int| 0 <= a < v@.len() ==> v@[a] < k,
            decreases n - k,
        {
            if self.bits[k] {
                let ghost before = v@;
                v.push(k as u32);
                proof {
                    assert forall|t: u32| (self@.contains(t) && t < k + 1) <==> v@.contains(t) by {
                        if v@.contains(t) {
                            let a = choose|a: int| 0 <= a < v@.len() && v@[a] == t;
                            if a < before.len() {
                                assert(before[a] == t);
                                assert(before.contains(t));
                            }
                        }
                        if self@.contains(t) && t < k + 1 {
                            if t < k {
                                assert(before.contains(t));
                                let a = choose|a: int| 0 <= a < before.len() && before[a] == t;
                                assert(v@[a] == t);
                            } else {
                                assert(v@[before.len() as int] == t);
                            }
                        }
                    }
                }
            }
            k = k + 1;
        }
        v
    }

    /// A copy of the set.
    pub fn duplicate(&self) -> (s: IndexSet)
        ensures
            s@ == self@,
            s.capacity() == self.capacity(),
            s.count() == self.count(),
    {
        let n: usize = self.bits.len();
        let mut bits: Vec<bool> = Vec::new();
        let mut k: usize = 0;
        while k < n
            invariant
                k <= n,
                n == self.bits@.len(),
                bits@ == self.bits@.subrange(0, k as int),
            decreases n - k,
        {
            bits.push(self.bits[k]);
            proof {
                assert(bits@ =~= self.bits@.subrange(0, k + 1));
            }
            k = k + 1;
        }
        proof {
            assert(bits@ =~= self.bits@);
        }
        IndexSet { bits }
    }

    /// The indices below the capacity that are not members.
    pub fn complement(&self) -> (s: IndexSet)
        requires
            self.capacity() <= u32::MAX,
        ensures
            s.capacity() == self.capacity(),
            forall|i: u32| s@.contains(i) <==> ((i as nat) < self.capacity() && !self@.contains(i)),
    {
        let n: usize = self.bits.len();
        let mut bits: Vec<bool> = Vec::new();
        let mut k: usize = 0;
        while k < n
            invariant
                k <= n,
                n == self.bits@.len(),
                bits@.len() == k,
                forall|j: int| 0 <= j < k ==> #[trigger] bits@[j] == !self.bits@[j],
            decreases n - k,
        {
            bits.push(!self.bits[k]);
            k = k + 1;
        }
        IndexSet { bits }
    }

    /// The members that are not members of `other`.
    pub fn minus(&self, other: &IndexSet) -> (s: IndexSet)
        requires
            other.capacity() == self.capacity(),
        ensures
            s.capacity() == self.capacity(),
            forall|i: u32| s@.contains(i) <==> (self@.contains(i) && !other@.contains(i)),
    {
        let n: usize = self.bits.len();
        let mut bits: Vec<bool> = Vec::new();
        let mut k: usize = 0;
        while k < n
            invariant
                k <= n,
                n == self.bits@.len(),
                n == other.bits@.len(),
                bits@.len() == k,
                forall|j: int|
                    0 <= j < k ==> #[trigger] bits@[j] == (self.bits@[j] && !other.bits@[j]),
            decreases n - k,
        {
            bits.push(self.bits[k] && !other.bits[k]);
            k = k + 1;
        }
        IndexSet { bits }
    }
}

} // verus!
