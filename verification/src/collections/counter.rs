//! A counter of equal items.
//!
//! A [`Counter`] is made from a collection of items and tells how often each
//! item occurs in it. It keeps the counts in a hash table, so what it promises
//! holds for the key types whose hashing and equality the model of hash tables
//! covers.

use std::borrow::Borrow;
use std::collections::HashMap;
use std::hash::Hash;
use std::ops::{Deref, Index};
use vstd::prelude::*;
use vstd::std_specs::hash::{
    contains_borrowed_key, group_hash_axioms, maps_borrowed_key_to_value, obeys_key_model,
};

verus! {

/// How often `item` occurs in `items`.
pub open spec fn occurrences<T>(items: Seq<T>, item: T) -> nat
    decreases items.len(),
{
    if items.len() == 0 {
        0
    } else {
        occurrences(items.drop_last(), item) + if items.last() == item {
            1nat
        } else {
            0nat
        }
    }
}

/// No item occurs more often than there are items.
pub proof fn lemma_occurrences_bound<T>(items: Seq<T>, item: T)
    ensures
        occurrences(items, item) <= items.len(),
    decreases items.len(),
{
    if items.len() > 0 {
        lemma_occurrences_bound(items.drop_last(), item);
    }
}

/// How often the items occur that a collection held.
pub struct Counter<T> {
    inner: HashMap<T, usize>,
}

impl<T: Eq + Hash> Counter<T> {
    /// The counts of the items that occur at all.
    pub closed spec fn counts(&self) -> Map<T, usize> {
        self.inner@
    }

    /// How often `item` was counted.
    pub open spec fn count_of(&self, item: T) -> nat {
        if self.counts().contains_key(item) {
            self.counts()[item] as nat
        } else {
            0
        }
    }

    /// Whether the counter holds the counts of `items`: every item that
    /// occurs has its count, and no other item has one.
    pub open spec fn counts_items(&self, items: Seq<T>) -> bool {
        forall|item: T|
            #![trigger self.counts().contains_key(item)]
            #![trigger occurrences(items, item)]
            {
                &&& self.counts().contains_key(item) <==> occurrences(items, item) > 0
                &&& self.count_of(item) == occurrences(items, item)
            }
    }

    /// Counts the items of a vector.
    pub fn from_iter(items: Vec<T>) -> (counter: Counter<T>)
        requires
            obeys_key_model::<T>(),
        ensures
            counter.counts_items(items@),
    {
        broadcast use group_hash_axioms;

        let ghost all = items@;
        let len = items.len();
        let mut counter = Counter { inner: HashMap::new() };
        for item in it: items.into_iter()
            invariant
                obeys_key_model::<T>(),
                it.seq() == all,
                all.len() == len,
                counter.counts_items(all.take(it.index() as int)),
        {
            let ghost done = all.take(it.index() as int);
            let ghost next = all.take(it.index() + 1);
            let ghost before = counter;
            let ghost current = item;
            proof {
                assert(next.drop_last() == done);
                assert(next.last() == current);
                lemma_occurrences_bound(done, item);
            }
            counter.count(item);
            proof {
                assert forall|k: T|
                    #![trigger counter.counts().contains_key(k)]
                    #![trigger occurrences(next, k)]
                    {
                        &&& counter.counts().contains_key(k) <==> occurrences(next, k) > 0
                        &&& counter.count_of(k) == occurrences(next, k)
                    } by {
                    assert(before.counts().contains_key(k) <==> occurrences(done, k) > 0);
                    assert(before.count_of(k) == occurrences(done, k));
                }
            }
        }
        proof {
            assert(all.take(all.len() as int) == all);
        }
        counter
    }

    /// Counts the items of a slice. The counter holds references to them.
    pub fn from_slice(slice: &[T]) -> (counter: Counter<&T>)
        requires
            obeys_key_model::<&T>(),
        ensures
            counter.counts_items(slice@.map_values(|item: T| &item)),
    {
        let ghost all = slice@.map_values(|item: T| &item);
        let mut counter: Counter<&T> = Counter { inner: HashMap::new() };
        let mut i: usize = 0;
        while i < slice.len()
            invariant
                obeys_key_model::<&T>(),
                i <= slice@.len(),
                all == slice@.map_values(|item: T| &item),
                counter.counts_items(all.take(i as int)),
            decreases slice@.len() - i,
        {
            let item = &slice[i];
            let ghost done = all.take(i as int);
            let ghost next = all.take(i + 1);
            let ghost before = counter;
            proof {
                assert(next.drop_last() == done);
                assert(next.last() == item);
                lemma_occurrences_bound(done, item);
            }
            counter.count(item);
            proof {
                assert forall|k: &T|
                    #![trigger counter.counts().contains_key(k)]
                    #![trigger occurrences(next, k)]
                    {
                        &&& counter.counts().contains_key(k) <==> occurrences(next, k) > 0
                        &&& counter.count_of(k) == occurrences(next, k)
                    } by {
                    assert(before.counts().contains_key(k) <==> occurrences(done, k) > 0);
                    assert(before.count_of(k) == occurrences(done, k));
                }
            }
            i += 1;
        }
        proof {
            assert(all.take(all.len() as int) == all);
        }
        counter
    }

    /// Counts one more item.
    fn count(&mut self, item: T)
        requires
            obeys_key_model::<T>(),
            old(self).count_of(item) < usize::MAX,
        ensures
            final(self).counts() == old(self).counts().insert(item, (old(self).count_of(item) + 1) as usize),
    {
        broadcast use group_hash_axioms;

        let before = match self.inner.get(&item) {
            Some(count) => *count,
            None => 0,
        };
        self.inner.insert(item, before + 1);
    }

    /// Returns how often the item was counted.
    pub fn get<Q: ?Sized>(&self, index: &Q) -> (count: &usize) where Q: Eq + Hash, T: Borrow<Q>
        ensures
            obeys_key_model::<T>() ==> maps_borrowed_key_to_value(self.counts(), index, *count) || (
            !contains_borrowed_key(self.counts(), index) && *count == 0),
    {
        broadcast use group_hash_axioms;

        match self.inner.get(index) {
            Some(count) => count,
            None => &0,
        }
    }
}

impl<'a, T: Eq + Hash, Q: ?Sized> Index<&'a Q> for Counter<T> where Q: Eq + Hash, T: Borrow<Q> {
    type Output = usize;

    /// Returns how often the item was counted.
    fn index(&self, index: &Q) -> (count: &usize)
        ensures
            obeys_key_model::<T>() ==> maps_borrowed_key_to_value(self.counts(), index, *count) || (
            !contains_borrowed_key(self.counts(), index) && *count == 0),
    {
        self.get(index)
    }
}

impl<'a, T: Eq + Hash, Q: ?Sized> vstd::std_specs::core::IndexSpecImpl<&'a Q> for Counter<T> where Q: Eq + Hash, T: Borrow<Q> {
    open spec fn index_req(&self, index: &&'a Q) -> bool {
        true
    }
}

/// Whether `targets` holds, for each item of `items`, what the item
/// dereferences to.
pub open spec fn dereferenced<T: Deref>(items: Seq<T>, targets: Seq<&<T as Deref>::Target>) -> bool {
    &&& targets.len() == items.len()
    &&& forall|i: int|
        0 <= i < items.len() ==> call_ensures(<T as Deref>::deref, (&#[trigger] items[i],), targets[i])
}

impl<T> Counter<T> where T: Deref, <T as Deref>::Target: Eq + Hash {
    /// Counts the items of a slice by what they dereference to, so that a
    /// slice of `String` gives a counter of `&str`.
    pub fn from_slice_deref(slice: &[T]) -> (counter: Counter<&<T as Deref>::Target>)
        requires
            obeys_key_model::<&<T as Deref>::Target>(),
        ensures
            exists|targets: Seq<&<T as Deref>::Target>|
                dereferenced(slice@, targets) && #[trigger] counter.counts_items(targets),
    {
        let mut counter: Counter<&<T as Deref>::Target> = Counter { inner: HashMap::new() };
        let ghost mut targets: Seq<&<T as Deref>::Target> = Seq::empty();
        let mut i: usize = 0;
        while i < slice.len()
            invariant
                obeys_key_model::<&<T as Deref>::Target>(),
                i <= slice@.len(),
                targets.len() == i,
                forall|k: int|
                    0 <= k < i ==> call_ensures(<T as Deref>::deref, (&#[trigger] slice@[k],), targets[k]),
                counter.counts_items(targets),
            decreases slice@.len() - i,
        {
            let item = slice[i].deref();
            let ghost done = targets;
            let ghost next = targets.push(item);
            let ghost before = counter;
            proof {
                assert(next.drop_last() == done);
                assert(next.last() == item);
                lemma_occurrences_bound(done, item);
            }
            counter.count(item);
            proof {
                assert forall|k: &<T as Deref>::Target|
                    #![trigger counter.counts().contains_key(k)]
                    #![trigger occurrences(next, k)]
                    {
                        &&& counter.counts().contains_key(k) <==> occurrences(next, k) > 0
                        &&& counter.count_of(k) == occurrences(next, k)
                    } by {
                    assert(before.counts().contains_key(k) <==> occurrences(done, k) > 0);
                    assert(before.count_of(k) == occurrences(done, k));
                }
                targets = next;
            }
            i += 1;
        }
        proof {
            assert(dereferenced(slice@, targets) && counter.counts_items(targets));
        }
        counter
    }
}

} // verus!
