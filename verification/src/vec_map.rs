//! A map kept as a vector of entries in insertion order, for keys that the
//! library compares by their views.
use vstd::prelude::*;

verus! {

/// Keys that can be compared and copied with a proved meaning.
pub trait MapKey: View + Sized {
    /// Whether the two keys have the same view.
    fn same_key(&self, other: &Self) -> (same: bool)
        ensures
            same == (self@ == other@),
    ;

    /// A copy of the key.
    fn copy_key(&self) -> (copy: Self)
        ensures
            copy@ == self@,
    ;
}

/// A finite map from keys to values that remembers the order in which its keys
/// were first inserted.
pub struct VecMap<K, V> {
    entries: Vec<(K, V)>,
}

impl<K: MapKey, V: View> View for VecMap<K, V> {
    type V = Map<K::V, V::V>;

    closed spec fn view(&self) -> Map<K::V, V::V> {
        Map::new(
            |k: K::V| self.keys().contains(k),
            |k: K::V| self.entries@[self.keys().index_of(k)].1@,
        )
    }
}

impl<K: MapKey, V: View> VecMap<K, V> {
    /// The keys in the order of their first insertion.
    pub closed spec fn keys(&self) -> Seq<K::V> {
        self.entries@.map_values(|e: (K, V)| e.0@)
    }

    /// Each key occurs once.
    pub closed spec fn wf(&self) -> bool {
        self.keys().no_duplicates()
    }

    proof fn lemma_index_of(&self, i: int)
        requires
            self.wf(),
            0 <= i < self.keys().len(),
        ensures
            self.keys().contains(self.keys()[i]),
            self.keys().index_of(self.keys()[i]) == i,
            self@.dom().contains(self.keys()[i]),
            self@[self.keys()[i]] == self.entries@[i].1@,
    {
        let k = self.keys()[i];
        assert(self.keys()[i] == k);
        let j = self.keys().index_of(k);
        assert(0 <= j < self.keys().len() && self.keys()[j] == k);
    }

    /// The keys of the map are exactly the keys of its view, each once.
    pub proof fn lemma_keys_match(&self)
        requires
            self.wf(),
        ensures
            self.keys().no_duplicates(),
            forall|k: K::V| #[trigger] self@.dom().contains(k) <==> self.keys().contains(k),
    {
    }

    /// The empty map.
    pub fn new() -> (m: Self)
        ensures
            m.wf(),
            m@ == Map::<K::V, V::V>::empty(),
            m.keys() == Seq::<K::V>::empty(),
    {
        let m = VecMap { entries: Vec::new() };
        assert(m.keys() =~= Seq::<K::V>::empty());
        assert(m@ =~= Map::<K::V, V::V>::empty());
        m
    }

    /// The number of entries.
    pub fn len(&self) -> (n: usize)
        ensures
            n == self.keys().len(),
    {
        self.entries.len()
    }

    /// The position of `k` among the keys, if it is there.
    pub fn find(&self, k: &K) -> (idx: Option<usize>)
        requires
            self.wf(),
        ensures
            idx is None <==> !self@.dom().contains(k@),
            idx matches Some(i) ==> i < self.keys().len() && self.keys()[i as int] == k@,
    {
        let mut i: usize = 0;
        while i < self.entries.len()
            invariant
                i <= self.entries@.len(),
                forall|j: int| 0 <= j < i ==> self.keys()[j] != k@,
            decreases self.entries@.len() - i,
        {
            if self.entries[i].0.same_key(k) {
                assert(self.keys()[i as int] == k@);
                return Some(i);
            }
            i = i + 1;
        }
        None
    }

    /// Whether `k` has an entry.
    pub fn contains_key(&self, k: &K) -> (found: bool)
        requires
            self.wf(),
        ensures
            found == self@.dom().contains(k@),
    {
        self.find(k).is_some()
    }

    /// The value stored under `k`, if any.
    pub fn get(&self, k: &K) -> (v: Option<&V>)
        requires
            self.wf(),
        ensures
            v is None <==> !self@.dom().contains(k@),
            v matches Some(v) ==> v@ == self@[k@],
    {
        match self.find(k) {
            Some(i) => {
                proof {
                    self.lemma_index_of(i as int);
                }
                Some(&self.entries[i].1)
            },
            None => None,
        }
    }

    /// The key at position `i`.
    pub fn key_at(&self, i: usize) -> (k: &K)
        requires
            i < self.keys().len(),
        ensures
            k@ == self.keys()[i as int],
    {
        &self.entries[i].0
    }

    /// The value at position `i`.
    pub fn value_at(&self, i: usize) -> (v: &V)
        requires
            self.wf(),
            i < self.keys().len(),
        ensures
            v@ == self@[self.keys()[i as int]],
    {
        proof {
            self.lemma_index_of(i as int);
        }
        &self.entries[i].1
    }

    /// Stores `v` under `k`, in place of the value that was there; a new key goes last.
    pub fn insert(&mut self, k: K, v: V)
        requires
            old(self).wf(),
        ensures
            final(self).wf(),
            final(self)@ == old(self)@.insert(k@, v@),
            final(self).keys() == (if old(self)@.dom().contains(k@) {
                old(self).keys()
            } else {
                old(self).keys().push(k@)
            }),
    {
        let ghost old_keys = self.keys();
        let ghost kv = k@;
        let ghost vv = v@;
        match self.find(&k) {
            Some(i) => {
                self.entries.set(i, (k, v));
                assert(self.keys() =~= old_keys);
                assert forall|j: int| 0 <= j < self.keys().len() && j != i implies self.entries@[j] == old(self).entries@[j] by {}
                assert(self@ =~= old(self)@.insert(kv, vv)) by {
                    assert forall|k2: K::V| #[trigger] self@.dom().contains(k2) implies self@[k2] == old(self)@.insert(kv, vv)[k2] by {
                        let j = self.keys().index_of(k2);
                        assert(0 <= j < self.keys().len() && self.keys()[j] == k2);
                        self.lemma_index_of(j);
                        old(self).lemma_index_of(j);
                    }
                }
            },
            None => {
                self.entries.push((k, v));
                assert(self.keys() =~= old_keys.push(kv));
                let ghost n = old_keys.len() as int;
                assert(self.wf()) by {
                    assert forall|a: int, b: int| 0 <= a < self.keys().len() && 0 <= b < self.keys().len() && a != b implies self.keys()[a] != self.keys()[b] by {
                        if a == n {
                            assert(old_keys.contains(self.keys()[b]) ==> old(self)@.dom().contains(kv) || self.keys()[b] != kv);
                        } else if b == n {
                            assert(self.keys()[a] == old_keys[a]);
                        }
                    }
                }
                assert(self@ =~= old(self)@.insert(kv, vv)) by {
                    assert forall|k2: K::V| #[trigger] self@.dom().contains(k2) implies self@[k2] == old(self)@.insert(kv, vv)[k2] by {
                        let j = self.keys().index_of(k2);
                        assert(0 <= j < self.keys().len() && self.keys()[j] == k2);
                        self.lemma_index_of(j);
                        if j < n {
                            old(self).lemma_index_of(j);
                        }
                    }
                    assert forall|k2: K::V| #[trigger] old(self)@.insert(kv, vv).dom().contains(k2) implies self@.dom().contains(k2) by {
                        if k2 != kv {
                            let j = old_keys.index_of(k2);
                            assert(0 <= j < old_keys.len() && old_keys[j] == k2);
                            assert(self.keys()[j] == k2);
                        } else {
                            assert(self.keys()[n] == kv);
                        }
                    }
                }
            },
        }
    }

    /// Removes the entry of `k` and returns its value, if there was one; the other
    /// keys keep their order.
    pub fn remove(&mut self, k: &K) -> (v: Option<V>)
        requires
            old(self).wf(),
        ensures
            final(self).wf(),
            final(self)@ == old(self)@.remove(k@),
            v is None <==> !old(self)@.dom().contains(k@),
            v matches Some(v) ==> v@ == old(self)@[k@],
            final(self).keys() == (if old(self)@.dom().contains(k@) {
                old(self).keys().remove(old(self).keys().index_of(k@))
            } else {
                old(self).keys()
            }),
    {
        let ghost old_keys = self.keys();
        match self.find(k) {
            Some(i) => {
                proof {
                    old(self).lemma_index_of(i as int);
                }
                let (_, v) = self.entries.remove(i);
                let ghost ii = i as int;
                assert(self.keys() =~= old_keys.remove(ii));
                assert(self.wf()) by {
                    assert forall|a: int, b: int| 0 <= a < self.keys().len() && 0 <= b < self.keys().len() && a != b implies self.keys()[a] != self.keys()[b] by {
                        let oa = if a < ii { a } else { a + 1 };
                        let ob = if b < ii { b } else { b + 1 };
                        assert(self.keys()[a] == old_keys[oa]);
                        assert(self.keys()[b] == old_keys[ob]);
                    }
                }
                assert(self@ =~= old(self)@.remove(k@)) by {
                    assert forall|k2: K::V| #[trigger] self@.dom().contains(k2) implies old(self)@.remove(k@).dom().contains(k2) && self@[k2] == old(self)@.remove(k@)[k2] by {
                        let j = self.keys().index_of(k2);
                        assert(0 <= j < self.keys().len() && self.keys()[j] == k2);
                        self.lemma_index_of(j);
                        let oj = if j < ii { j } else { j + 1 };
                        assert(self.keys()[j] == old_keys[oj]);
                        assert(self.entries@[j] == old(self).entries@[oj]);
                        old(self).lemma_index_of(oj);
                    }
                    assert forall|k2: K::V| #[trigger] old(self)@.remove(k@).dom().contains(k2) implies self@.dom().contains(k2) by {
                        let oj = old_keys.index_of(k2);
                        assert(0 <= oj < old_keys.len() && old_keys[oj] == k2);
                        assert(oj != ii);
                        let j = if oj < ii { oj } else { oj - 1 };
                        assert(self.keys()[j] == k2);
                    }
                }
                Some(v)
            },
            None => None,
        }
    }

    /// Removes every entry.
    pub fn clear(&mut self)
        ensures
            final(self).wf(),
            final(self)@ == Map::<K::V, V::V>::empty(),
            final(self).keys() == Seq::<K::V>::empty(),
    {
        self.entries.clear();
        assert(self.keys() =~= Seq::<K::V>::empty());
        assert(self@ =~= Map::<K::V, V::V>::empty());
    }
}

impl<K: MapKey> VecMap<K, u64> {
    /// Whether every value is at most `bound`.
    pub fn values_at_most(&self, bound: u64) -> (ok: bool)
        requires
            self.wf(),
        ensures
            ok == (forall|k: K::V| #[trigger] self@.dom().contains(k) ==> self@[k] <= bound),
    {
        let mut i: usize = 0;
        while i < self.entries.len()
            invariant
                self.wf(),
                i <= self.entries@.len(),
                forall|j: int| 0 <= j < i ==> self.entries@[j].1 <= bound,
            decreases self.entries@.len() - i,
        {
            if self.entries[i].1 > bound {
                proof {
                    self.lemma_index_of(i as int);
                }
                return false;
            }
            i = i + 1;
        }
        proof {
            assert forall|k: K::V| #[trigger] self@.dom().contains(k) implies self@[k] <= bound by {
                let j = self.keys().index_of(k);
                assert(0 <= j < self.keys().len() && self.keys()[j] == k);
                self.lemma_index_of(j);
            }
        }
        true
    }
}

} // verus!
