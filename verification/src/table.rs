//! A map from integers.

use std::collections::HashMap;
use vstd::prelude::*;
use vstd::std_specs::iter::IteratorSpec;

verus! {

broadcast use vstd::std_specs::hash::group_hash_axioms;

/// A map from integers.
pub struct Table<V> {
    map: HashMap<u64, V>,
}

impl<V> View for Table<V> {
    type V = Map<u64, V>;

    closed spec fn view(&self) -> Map<u64, V> {
        self.map@
    }
}

impl<V> Table<V> {
    pub fn new() -> (r: Self)
        ensures
            r@ == Map::<u64, V>::empty(),
    {
        Table { map: HashMap::new() }
    }

    /// The keys, each once, in some order.
    pub fn keys(&self) -> (r: Vec<u64>)
        ensures
            r@.no_duplicates(),
            forall|k: u64| r@.contains(k) <==> #[trigger] self@.dom().contains(k),
    {
        let mut r: Vec<u64> = Vec::new();
        let ghost all = vstd::std_specs::hash::spec_keys_iter(&self.map).remaining();
        for k in it: self.map.keys()
            invariant
                it.seq() == all,
                r@.len() == it.index(),
                forall|i: int| 0 <= i < r@.len() ==> r@[i] == *all[i],
        {
            r.push(*k);
        }
        proof {
            assert(r@ =~= all.unref());
            assert forall|k: u64| r@.contains(k) <==> #[trigger] self@.dom().contains(k) by {
                assert(r@.to_set().contains(k) <==> self@.dom().contains(k));
            }
        }
        r
    }

    pub fn contains(&self, k: u64) -> (r: bool)
        ensures
            r == self@.dom().contains(k),
    {
        self.map.contains_key(&k)
    }

    pub fn get(&self, k: u64) -> (r: Option<&V>)
        ensures
            match r {
                Some(v) => self@.dom().contains(k) && *v == self@[k],
                None => !self@.dom().contains(k),
            },
    {
        self.map.get(&k)
    }

    /// Sets the value of a key, and drops whatever it was before.
    pub fn insert(&mut self, k: u64, v: V)
        ensures
            final(self)@ == old(self)@.insert(k, v),
    {
        let before = self.map.insert(k, v);
    }

    /// Sets the value of a key that has none yet; the value of one that has stays.
    pub fn insert_new(&mut self, k: u64, v: V)
        ensures
            final(self)@ == (if old(self)@.dom().contains(k) {
                old(self)@
            } else {
                old(self)@.insert(k, v)
            }),
    {
        if !self.contains(k) {
            self.insert(k, v);
        }
    }

    /// Drops a key.
    pub fn remove(&mut self, k: u64)
        ensures
            final(self)@ == old(self)@.remove(k),
    {
        let before = self.map.remove(&k);
    }

    /// Drops every key below a bound.
    pub fn retain_from(&mut self, cutoff: u64)
        ensures
            final(self)@ == old(self)@.restrict(Set::new(|k: u64| k >= cutoff)),
    {
        let ghost m0 = self@;
        let all: Vec<u64> = self.keys();
        let n: usize = all.len();
        for i in 0..n
            invariant
                n == all@.len(),
                forall|k: u64| all@.contains(k) <==> #[trigger] m0.dom().contains(k),
                forall|k: u64| #[trigger]
                    self@.dom().contains(k) ==> m0.dom().contains(k) && self@[k] == m0[k],
                forall|k: u64| #[trigger] m0.dom().contains(k) && k >= cutoff ==> self@.dom().contains(k),
                forall|j: int| 0 <= j < i && #[trigger] all@[j] < cutoff ==> !self@.dom().contains(all@[j]),
        {
            if all[i] < cutoff {
                self.remove(all[i]);
            }
        }
        proof {
            assert forall|k: u64| #[trigger] self@.dom().contains(k) implies k >= cutoff by {
                assert(m0.dom().contains(k));
                let j = choose|j: int| 0 <= j < all@.len() && all@[j] == k;
                assert(all@[j] == k);
            }
            assert(self@ =~= m0.restrict(Set::new(|k: u64| k >= cutoff)));
        }
    }
}

} // verus!
