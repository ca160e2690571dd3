//! Maps from packages to values: the value of the key at a position of
//! the key set stands at that position of a vector.

use crate::dep_tree::ascending;
use crate::pkg_set::{
    packages, set_get, set_index_of, set_insert, set_len, set_new, set_sort, PackageSet,
};
use crate::Package;
use vstd::prelude::*;

verus! {

/// Puts a set without a repeat in ascending order.
pub(crate) fn sort_set(set: &mut PackageSet)
    requires
        packages(*old(set)).no_duplicates(),
    ensures
        ascending(packages(*final(set))),
        packages(*final(set)).len() == packages(*old(set)).len(),
        forall|p: Package|
            packages(*final(set)).contains(p) <==> packages(*old(set)).contains(p),
{
    let ghost before = packages(*set);
    set_sort(set);
    proof {
        let after = packages(*set);
        broadcast use vstd::seq_lib::group_to_multiset_ensures;

        before.lemma_multiset_has_no_duplicates();
        after.lemma_multiset_has_no_duplicates_conv();
        assert forall|a: int, b: int| 0 <= a < b < after.len() implies (#[trigger] after[a]).precedes(
            #[trigger] after[b],
        ) by {
            assert(!after[b].precedes(after[a]));
            assert(after[a] != after[b]);
        }
        assert forall|p: Package| after.contains(p) <==> before.contains(p) by {
            assert(after.contains(p) <==> after.to_multiset().count(p) > 0);
            assert(before.contains(p) <==> before.to_multiset().count(p) > 0);
        }
        assert(after.to_multiset().len() == before.to_multiset().len());
    }
}

/// The items of a set without a repeat, in ascending order.
pub(crate) fn sorted_copy(set: &PackageSet) -> (sorted: PackageSet)
    requires
        packages(*set).no_duplicates(),
    ensures
        ascending(packages(sorted)),
        packages(sorted).len() == packages(*set).len(),
        forall|p: Package| packages(sorted).contains(p) <==> packages(*set).contains(p),
{
    let ghost items = packages(*set);
    let n = set_len(set);
    let mut sorted = set_new();
    let mut i: usize = 0;
    while i < n
        invariant
            items == packages(*set),
            items.no_duplicates(),
            n == items.len(),
            i <= n,
            packages(sorted) == items.take(i as int),
        decreases n - i,
    {
        let item = set_get(set, i);
        proof {
            if items.take(i as int).contains(item) {
                let j = items.take(i as int).index_of(item);
                assert(items[j] == items[i as int]);
            }
            assert(items.take(i as int).push(item) =~= items.take(i + 1));
        }
        let _ = set_insert(&mut sorted, item);
        i += 1;
    }
    assert(items.take(n as int) =~= items);
    sort_set(&mut sorted);
    sorted
}

#[derive(Debug)]
pub(crate) struct PackageMap<V> {
    pub(crate) keys: PackageSet,
    pub(crate) values: Vec<V>,
}

impl<V> PackageMap<V> {
    /// The keys, in the order in which they came.
    pub(crate) open spec fn order(&self) -> Seq<Package> {
        packages(self.keys)
    }

    /// No key stands twice, and each has its value.
    pub(crate) open spec fn wf(&self) -> bool {
        self.order().no_duplicates() && self.order().len() == self.values@.len()
    }

    /// The value of each key.
    pub(crate) open spec fn entries(&self) -> Map<Package, V> {
        Map::new(
            |p: Package| self.order().contains(p),
            |p: Package| self.values@[self.order().index_of(p)],
        )
    }

    /// The value at a position is the value of the key at that position.
    pub(crate) proof fn lemma_at(&self, i: int)
        requires
            self.wf(),
            0 <= i < self.values@.len(),
        ensures
            self.entries().contains_key(self.order()[i]),
            self.entries()[self.order()[i]] == self.values@[i],
    {
        let keys = self.order();
        assert(keys.contains(keys[i]));
        let j = keys.index_of(keys[i]);
        assert(0 <= j < keys.len() && keys[j] == keys[i]);
    }

    /// A change of the value at one position changes the value of the key
    /// at that position.
    pub(crate) proof fn lemma_update(before: &Self, after: &Self, at: int)
        requires
            before.wf(),
            0 <= at < before.values@.len(),
            after.order() == before.order(),
            after.values@.len() == before.values@.len(),
            forall|i: int|
                0 <= i < before.values@.len() && i != at ==> after.values@[i] == before.values@[i],
        ensures
            after.wf(),
            after.entries() == before.entries().insert(before.order()[at], after.values@[at]),
    {
        let keys = before.order();
        let target = before.entries().insert(keys[at], after.values@[at]);
        assert(keys.contains(keys[at]));
        assert forall|q: Package| #[trigger] after.entries().contains_key(q) implies after.entries()[q]
            == target[q] by {
            let j = keys.index_of(q);
            if j != at {
                assert(keys[j] != keys[at]);
            }
        }
        assert(after.entries() =~= target);
    }

    pub(crate) fn new() -> (map: Self)
        ensures
            map.wf(),
            map.order() == Seq::<Package>::empty(),
            map.entries() == Map::<Package, V>::empty(),
    {
        let map = PackageMap { keys: set_new(), values: Vec::new() };
        assert(map.entries() =~= Map::<Package, V>::empty());
        map
    }

    pub(crate) fn len(&self) -> (n: usize)
        ensures
            n == self.order().len(),
    {
        set_len(&self.keys)
    }

    /// The position of a key.
    pub(crate) fn position(&self, p: &Package) -> (at: Option<usize>)
        requires
            self.wf(),
        ensures
            at is Some <==> self.entries().contains_key(*p),
            at matches Some(i) ==> i < self.order().len() && self.order()[i as int] == *p
                && self.entries()[*p] == self.values@[i as int],
    {
        let at = set_index_of(&self.keys, p);
        proof {
            if let Some(i) = at {
                self.lemma_at(i as int);
            }
        }
        at
    }

    /// The key at a position.
    pub(crate) fn key(&self, at: usize) -> (p: Package)
        requires
            at < self.order().len(),
        ensures
            p == self.order()[at as int],
    {
        set_get(&self.keys, at)
    }

    /// Gives a key that the map does not hold its value, at the end.
    pub(crate) fn append(&mut self, p: Package, value: V)
        requires
            old(self).wf(),
            !old(self).entries().contains_key(p),
        ensures
            final(self).wf(),
            final(self).order() == old(self).order().push(p),
            final(self).values@ == old(self).values@.push(value),
            final(self).entries() == old(self).entries().insert(p, value),
    {
        let ghost before = *self;
        let _ = set_insert(&mut self.keys, p);
        self.values.push(value);
        proof {
            let keys = self.order();
            let at = keys.len() - 1;
            let target = before.entries().insert(p, value);
            assert(keys[at] == p);
            assert forall|q: Package| self.entries().contains_key(q) == target.contains_key(
                q,
            ) by {
                if before.order().contains(q) {
                    let j = before.order().index_of(q);
                    assert(keys[j] == q);
                }
            }
            assert forall|q: Package| #[trigger] self.entries().contains_key(q) implies self.entries()[q]
                == target[q] by {
                let k = keys.index_of(q);
                assert(0 <= k < keys.len() && keys[k] == q);
                if q != p {
                    let j = before.order().index_of(q);
                    assert(keys[j] == q);
                    assert(k == j);
                } else {
                    assert(k == at);
                }
            }
            assert(self.entries() =~= target);
        }
    }
}

} // verus!
