//! A map keyed by `u64` identifiers whose keys can be walked in a fixed order.
use std::collections::HashMap;
use vstd::prelude::*;

verus! {

broadcast use vstd::std_specs::hash::group_hash_axioms;

/// A map from `u64` identifiers to values that also keeps the list of its keys, each once,
/// so that verified loops can walk over its entries.
pub struct IdMap<V> {
    map: HashMap<u64, V>,
    keys: Vec<u64>,
}

impl<V> View for IdMap<V> {
    type V = Map<u64, V>;

    closed spec fn view(&self) -> Map<u64, V> {
        self.map@
    }
}

impl<V> IdMap<V> {
    /// The keys of the map, in the order in which a walk visits them.
    pub closed spec fn key_seq(&self) -> Seq<u64> {
        self.keys@
    }

    /// Each key of the map is listed once in `key_seq`, and nothing else is.
    pub closed spec fn wf(&self) -> bool {
        &&& self.keys@.no_duplicates()
        &&& forall|k: u64| self.map@.contains_key(k) <==> self.keys@.contains(k)
    }

    pub fn new() -> (r: IdMap<V>)
        ensures
            r@ == Map::<u64, V>::empty(),
            r.wf(),
    {
        let r = IdMap { map: HashMap::new(), keys: Vec::new() };
        assert(r.map@ =~= Map::<u64, V>::empty());
        r
    }

    pub fn len(&self) -> (r: usize)
        ensures
            r == self@.len(),
    {
        self.map.len()
    }

    pub fn is_empty(&self) -> (r: bool)
        ensures
            r == (self@.len() == 0),
    {
        self.map.len() == 0
    }

    pub fn contains_key(&self, k: u64) -> (r: bool)
        ensures
            r == self@.contains_key(k),
    {
        self.map.contains_key(&k)
    }

    pub fn get(&self, k: u64) -> (r: Option<&V>)
        ensures
            match r {
                Some(v) => self@.contains_key(k) && *v == self@[k],
                None => !self@.contains_key(k),
            },
    {
        self.map.get(&k)
    }

    /// The keys of the map, each once.
    pub fn keys(&self) -> (r: &Vec<u64>)
        requires
            self.wf(),
        ensures
            r@ == self.key_seq(),
            r@.no_duplicates(),
            forall|k: u64| self@.contains_key(k) <==> #[trigger] r@.contains(k),
    {
        &self.keys
    }

    pub fn insert(&mut self, k: u64, v: V)
        requires
            old(self).wf(),
        ensures
            final(self).wf(),
            final(self)@ == old(self)@.insert(k, v),
    {
        if !self.map.contains_key(&k) {
            self.keys.push(k);
            proof {
                assert forall|a: int, b: int| 0 <= a < b < self.keys@.len() implies self.keys@[a] != self.keys@[b] by {
                    if b == self.keys@.len() - 1 {
                        assert(old(self).keys@.contains(self.keys@[a]));
                    }
                }
                assert forall|x: u64| self.keys@.contains(x) <==> (old(self).keys@.contains(x) || x == k) by {
                    if x == k {
                        assert(self.keys@[self.keys@.len() - 1] == k);
                    }
                    if old(self).keys@.contains(x) {
                        let j = choose|j: int| 0 <= j < old(self).keys@.len() && old(self).keys@[j] == x;
                        assert(self.keys@[j] == x);
                    }
                }
            }
        }
        self.map.insert(k, v);
    }

    pub fn remove(&mut self, k: u64) -> (r: Option<V>)
        requires
            old(self).wf(),
        ensures
            final(self).wf(),
            final(self)@ == old(self)@.remove(k),
            match r {
                Some(v) => old(self)@.contains_key(k) && v == old(self)@[k],
                None => !old(self)@.contains_key(k),
            },
    {
        let r = self.map.remove(&k);
        if r.is_some() {
            let mut i: usize = 0;
            assert(self.keys@.contains(k));
            let n = self.keys.len();
            while self.keys[i] != k
                invariant
                    n == self.keys@.len(),
                    0 <= i < self.keys@.len(),
                    self.keys@.contains(k),
                    forall|j: int| 0 <= j < i ==> self.keys@[j] != k,
                decreases self.keys@.len() - i,
            {
                i = i + 1;
                proof {
                    if i == self.keys@.len() {
                        let j = choose|j: int| 0 <= j < self.keys@.len() && self.keys@[j] == k;
                        assert(self.keys@[j] != k);
                    }
                }
            }
            let ghost before = self.keys@;
            self.keys.remove(i);
            proof {
                let after = self.keys@;
                assert forall|a: int, b: int| 0 <= a < b < after.len() implies after[a] != after[b] by {
                    let a2 = if a < i { a } else { a + 1 };
                    let b2 = if b < i { b } else { b + 1 };
                    assert(after[a] == before[a2]);
                    assert(after[b] == before[b2]);
                }
                assert forall|x: u64| after.contains(x) <==> (before.contains(x) && x != k) by {
                    if after.contains(x) {
                        let j = choose|j: int| 0 <= j < after.len() && after[j] == x;
                        let j2 = if j < i { j } else { j + 1 };
                        assert(before[j2] == x);
                        assert(j2 != i);
                    }
                    if before.contains(x) && x != k {
                        let j = choose|j: int| 0 <= j < before.len() && before[j] == x;
                        assert(j != i);
                        let j2 = if j < i { j } else { j - 1 };
                        assert(after[j2] == x);
                    }
                }
            }
        }
        r
    }

    pub fn clear(&mut self)
        ensures
            final(self).wf(),
            final(self)@ == Map::<u64, V>::empty(),
    {
        self.map.clear();
        self.keys.clear();
        assert(self.map@ =~= Map::<u64, V>::empty());
    }
}

} // verus!
