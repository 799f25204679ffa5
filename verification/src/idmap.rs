//! A finite map keyed by index, stored in increasing key order so that
//! walking it is deterministic.

use vstd::prelude::*;

verus! {

/// The keys grow strictly from left to right.
pub open spec fn strictly_increasing(keys: Seq<usize>) -> bool {
    forall|i: int, j: int| 0 <= i < j < keys.len() ==> keys[i] < keys[j]
}

/// A map from `usize` keys to values. Entries are held in increasing key
/// order; [`IdMap::key_at`] and [`IdMap::value_at`] walk them in that order.
#[derive(Debug)]
pub struct IdMap<V> {
    keys: Vec<usize>,
    vals: Vec<V>,
}

impl<V> View for IdMap<V> {
    type V = Map<usize, V>;

    closed spec fn view(&self) -> Map<usize, V> {
        Map::new(
            |k: usize| self.keys@.contains(k),
            |k: usize| self.vals@[self.keys@.index_of(k)],
        )
    }
}

impl<V> IdMap<V> {
    #[verifier::type_invariant]
    spec fn inv(&self) -> bool {
        &&& self.keys.len() == self.vals.len()
        &&& strictly_increasing(self.keys@)
    }

    /// The keys in the order in which the entries are stored.
    pub closed spec fn keys(&self) -> Seq<usize> {
        self.keys@
    }

    /// The values in the order in which the entries are stored.
    pub closed spec fn values(&self) -> Seq<V> {
        self.vals@
    }

    /// What holds of every map: one value per key, keys in increasing
    /// order, and the view made of exactly these entries.
    pub open spec fn wf(&self) -> bool {
        &&& self.keys().len() == self.values().len()
        &&& strictly_increasing(self.keys())
        &&& forall|k: usize| self@.contains_key(k) <==> self.keys().contains(k)
        &&& forall|i: int|
            0 <= i < self.keys().len() ==> self@[#[trigger] self.keys()[i]] == self.values()[i]
    }

    /// The invariant of the type makes the map well formed.
    proof fn lemma_wf(&self)
        requires
            self.inv(),
        ensures
            self.wf(),
    {
        assert forall|i: int| 0 <= i < self.keys().len() implies self@[#[trigger] self.keys()[i]]
            == self.values()[i] by {
            let k = self.keys@[i];
            assert(self.keys@.contains(k));
            let j = self.keys@.index_of(k);
            assert(0 <= j < self.keys@.len() && self.keys@[j] == k);
            assert(j == i);
        }
    }

    /// The empty map.
    pub fn new() -> (m: IdMap<V>)
        ensures
            m@ == Map::<usize, V>::empty(),
            m.keys().len() == 0,
            m.wf(),
    {
        let m = IdMap { keys: Vec::new(), vals: Vec::new() };
        proof {
            m.lemma_wf();
            assert(m@ =~= Map::<usize, V>::empty());
        }
        m
    }

    /// The number of entries.
    pub fn len(&self) -> (n: usize)
        ensures
            n == self.keys().len(),
            self.wf(),
    {
        proof {
            use_type_invariant(self);
            self.lemma_wf();
        }
        self.keys.len()
    }

    /// The position of the first key that is not below `key`.
    fn lower_bound(&self, key: usize) -> (p: usize)
        ensures
            p <= self.keys().len(),
            forall|i: int| 0 <= i < p ==> self.keys()[i] < key,
            forall|i: int| p <= i < self.keys().len() ==> self.keys()[i] >= key,
    {
        proof {
            use_type_invariant(self);
        }
        let mut lo: usize = 0;
        let mut hi: usize = self.keys.len();
        while lo < hi
            invariant
                lo <= hi <= self.keys.len(),
                strictly_increasing(self.keys@),
                forall|i: int| 0 <= i < lo ==> self.keys@[i] < key,
                forall|i: int| hi <= i < self.keys@.len() ==> self.keys@[i] >= key,
            decreases hi - lo,
        {
            let mid = lo + (hi - lo) / 2;
            if self.keys[mid] < key {
                assert forall|i: int| 0 <= i < mid + 1 implies self.keys@[i] < key by {
                    if i < mid {
                        assert(self.keys@[i] < self.keys@[mid as int]);
                    }
                }
                lo = mid + 1;
            } else {
                assert forall|i: int| mid <= i < self.keys@.len() implies self.keys@[i] >= key by {
                    if i > mid {
                        assert(self.keys@[mid as int] < self.keys@[i]);
                    }
                }
                hi = mid;
            }
        }
        lo
    }

    /// The value stored under `key`, if there is one.
    pub fn get(&self, key: usize) -> (r: Option<&V>)
        ensures
            self.wf(),
            match r {
                Some(v) => self@.contains_key(key) && *v == self@[key],
                None => !self@.contains_key(key),
            },
    {
        proof {
            use_type_invariant(self);
            self.lemma_wf();
        }
        let p = self.lower_bound(key);
        if p < self.keys.len() && self.keys[p] == key {
            Some(&self.vals[p])
        } else {
            None
        }
    }

    /// Whether `key` has an entry.
    pub fn contains_key(&self, key: usize) -> (r: bool)
        ensures
            r == self@.contains_key(key),
    {
        self.get(key).is_some()
    }

    /// Stores `value` under `key`, replacing what was there.
    pub fn insert(&mut self, key: usize, value: V)
        ensures
            final(self)@ == old(self)@.insert(key, value),
            final(self).wf(),
    {
        proof {
            use_type_invariant(&*self);
            self.lemma_wf();
        }
        let p = self.lower_bound(key);
        let ghost before = *self;
        let mut taken = IdMap { keys: Vec::new(), vals: Vec::new() };
        core::mem::swap(self, &mut taken);
        let IdMap { keys: mut keys, vals: mut vals } = taken;
        if p < keys.len() && keys[p] == key {
            vals[p] = value;
            *self = IdMap { keys, vals };
            proof {
                self.lemma_wf();
                assert forall|k: usize| #[trigger] self@.contains_key(k) implies self@[k]
                    == before@.insert(key, value)[k] by {
                    let i = self.keys@.index_of(k);
                    assert(before.keys@[i] == k);
                }
                assert(self@ =~= before@.insert(key, value));
            }
        } else {
            keys.insert(p, key);
            vals.insert(p, value);
            proof {
                assert(strictly_increasing(keys@)) by {
                    assert forall|i: int, j: int| 0 <= i < j < keys@.len() implies keys@[i]
                        < keys@[j] by {
                        let a = if i < p { i } else { i - 1 };
                        let b = if j < p { j } else { j - 1 };
                        if i != p && j != p {
                            assert(before.keys@[a] < before.keys@[b]);
                        }
                    }
                }
            }
            *self = IdMap { keys, vals };
            proof {
                self.lemma_wf();
                assert forall|k: usize| self@.contains_key(k) <==> before@.insert(
                    key,
                    value,
                ).contains_key(k) by {
                    if before.keys@.contains(k) {
                        let i = before.keys@.index_of(k);
                        let i2 = if i < p { i } else { i + 1 };
                        assert(self.keys@[i2] == k);
                    }
                    if k == key {
                        assert(self.keys@[p as int] == k);
                    }
                    if self.keys@.contains(k) && k != key {
                        let i = self.keys@.index_of(k);
                        let i0 = if i < p { i } else { i - 1 };
                        assert(before.keys@[i0] == k);
                    }
                }
                assert forall|k: usize| #[trigger] self@.contains_key(k) implies self@[k]
                    == before@.insert(key, value)[k] by {
                    let i = self.keys@.index_of(k);
                    if k != key {
                        let i0 = if i < p { i } else { i - 1 };
                        assert(before.keys@[i0] == k);
                        assert(before@[before.keys()[i0]] == before.values()[i0]);
                    } else {
                        assert(self.keys@[p as int] == k);
                    }
                }
                assert(self@ =~= before@.insert(key, value));
            }
        }
    }

    /// The key of the `i`-th entry in increasing key order.
    pub fn key_at(&self, i: usize) -> (k: usize)
        requires
            i < self.keys().len(),
        ensures
            k == self.keys()[i as int],
    {
        self.keys[i]
    }

    /// The value of the `i`-th entry in increasing key order.
    pub fn value_at(&self, i: usize) -> (v: &V)
        requires
            i < self.keys().len(),
        ensures
            *v == self.values()[i as int],
            self.wf(),
    {
        proof {
            use_type_invariant(self);
            self.lemma_wf();
        }
        &self.vals[i]
    }
}

} // verus!
