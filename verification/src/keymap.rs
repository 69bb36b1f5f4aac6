//! A small map from `u64` keys to values, backed by a vector of pairs.
//!
//! The map is the storage under each side of the double-buffered fields. Its
//! abstract value is a `Map<u64, V>`, carried alongside the pairs as a ghost
//! field and kept in lock-step by every operation.

use vstd::prelude::*;

verus! {

/// A map from `u64` keys to values of type `V`.
pub struct KeyMap<V> {
    pairs: Vec<(u64, V)>,
    model: Ghost<Map<u64, V>>,
}

impl<V> KeyMap<V> {
    /// The abstract contents.
    pub closed spec fn view(&self) -> Map<u64, V> {
        self.model@
    }

    /// The pairs carry each key once, and agree with the abstract map.
    pub closed spec fn wf(&self) -> bool {
        &&& forall|i: int, j: int|
            0 <= i < j < self.pairs@.len() ==> self.pairs@[i].0 != self.pairs@[j].0
        &&& forall|i: int|
            0 <= i < self.pairs@.len() ==> self@.contains_key(#[trigger] self.pairs@[i].0)
                && self@[self.pairs@[i].0] == self.pairs@[i].1
        &&& forall|k: u64|
            self@.contains_key(k) ==> exists|i: int|
                0 <= i < self.pairs@.len() && (#[trigger] self.pairs@[i]).0 == k
        &&& self@.dom().finite()
        &&& self@.dom().len() == self.pairs@.len()
    }

    pub fn new() -> (m: KeyMap<V>)
        ensures
            m.wf(),
            m@ == Map::<u64, V>::empty(),
    {
        KeyMap { pairs: Vec::new(), model: Ghost(Map::empty()) }
    }

    /// The number of keys.
    pub fn len(&self) -> (n: usize)
        requires
            self.wf(),
        ensures
            n == self@.dom().len(),
    {
        self.pairs.len()
    }

    /// The index at which `k` sits, if it does.
    fn find(&self, k: u64) -> (r: Option<usize>)
        requires
            self.wf(),
        ensures
            match r {
                Some(i) => i < self.pairs@.len() && self.pairs@[i as int].0 == k,
                None => !self@.contains_key(k),
            },
    {
        let n = self.pairs.len();
        let mut i: usize = 0;
        while i < n
            invariant
                self.wf(),
                n == self.pairs@.len(),
                i <= n,
                forall|j: int| 0 <= j < i ==> self.pairs@[j].0 != k,
            decreases n - i,
        {
            if self.pairs[i].0 == k {
                return Some(i);
            }
            i += 1;
        }
        None
    }

    pub fn contains_key(&self, k: u64) -> (r: bool)
        requires
            self.wf(),
        ensures
            r == self@.contains_key(k),
    {
        self.find(k).is_some()
    }

    pub fn get(&self, k: u64) -> (r: Option<&V>)
        requires
            self.wf(),
        ensures
            match r {
                Some(v) => self@.contains_key(k) && *v == self@[k],
                None => !self@.contains_key(k),
            },
    {
        match self.find(k) {
            Some(i) => Some(&self.pairs[i].1),
            None => None,
        }
    }

    /// Put `v` under `k`, replacing what the key held.
    pub fn insert(&mut self, k: u64, v: V)
        requires
            old(self).wf(),
        ensures
            final(self).wf(),
            final(self)@ == old(self)@.insert(k, v),
    {
        match self.find(k) {
            Some(i) => {
                let ghost old_pairs = self.pairs@;
                self.pairs.remove(i);
                self.pairs.push((k, v));
                self.model = Ghost(self.model@.insert(k, v));
                proof {
                    assert forall|a: int, b: int|
                        0 <= a < b < self.pairs@.len() implies self.pairs@[a].0
                        != self.pairs@[b].0 by {
                        if b + 1 == self.pairs@.len() {
                            if a < i {
                                assert(old_pairs[a] == self.pairs@[a]);
                            } else {
                                assert(old_pairs[a + 1] == self.pairs@[a]);
                            }
                            assert(old_pairs[i as int].0 == k);
                        } else {
                            if a < i {
                                assert(old_pairs[a] == self.pairs@[a]);
                            } else {
                                assert(old_pairs[a + 1] == self.pairs@[a]);
                            }
                            if b < i {
                                assert(old_pairs[b] == self.pairs@[b]);
                            } else {
                                assert(old_pairs[b + 1] == self.pairs@[b]);
                            }
                        }
                    }
                    assert forall|j: int|
                        0 <= j < self.pairs@.len() implies self@.contains_key(
                        (#[trigger] self.pairs@[j]).0) && self@[self.pairs@[j].0]
                        == self.pairs@[j].1 by {
                        if j + 1 == self.pairs@.len() {
                        } else if j < i {
                            assert(old_pairs[j] == self.pairs@[j]);
                            assert(old_pairs[i as int].0 == k && old_pairs[j].0 != k);
                        } else {
                            assert(old_pairs[j + 1] == self.pairs@[j]);
                            assert(old_pairs[i as int].0 == k && old_pairs[j + 1].0 != k);
                        }
                    }
                    assert forall|kk: u64| self@.contains_key(kk) implies exists|j: int|
                        0 <= j < self.pairs@.len() && (#[trigger] self.pairs@[j]).0 == kk by {
                        if kk == k {
                            assert(self.pairs@[self.pairs@.len() - 1].0 == kk);
                        } else {
                            let jj = choose|jj: int|
                                0 <= jj < old_pairs.len() && (#[trigger] old_pairs[jj]).0 == kk;
                            if jj < i {
                                assert(self.pairs@[jj].0 == kk);
                            } else {
                                assert(self.pairs@[jj - 1].0 == kk);
                            }
                        }
                    }
                    assert(self@.dom() =~= old(self)@.dom().insert(k));
                    assert(old(self)@.dom().contains(k));
                    assert(self@.dom() =~= old(self)@.dom());
                }
            },
            None => {
                let ghost old_pairs = self.pairs@;
                self.pairs.push((k, v));
                self.model = Ghost(self.model@.insert(k, v));
                proof {
                    assert forall|kk: u64| self@.contains_key(kk) implies exists|j: int|
                        0 <= j < self.pairs@.len() && (#[trigger] self.pairs@[j]).0 == kk by {
                        if kk == k {
                            assert(self.pairs@[self.pairs@.len() - 1].0 == kk);
                        } else {
                            let jj = choose|jj: int|
                                0 <= jj < old_pairs.len() && (#[trigger] old_pairs[jj]).0 == kk;
                            assert(self.pairs@[jj].0 == kk);
                        }
                    }
                    assert(self@.dom() =~= old(self)@.dom().insert(k));
                }
            },
        }
    }

    /// Drop `k` and whatever it held.
    pub fn remove(&mut self, k: u64)
        requires
            old(self).wf(),
        ensures
            final(self).wf(),
            final(self)@ == old(self)@.remove(k),
    {
        match self.find(k) {
            Some(i) => {
                self.pairs.remove(i);
                self.model = Ghost(self.model@.remove(k));
                proof {
                    let ghost old_pairs = old(self).pairs@;
                    assert forall|j: int| 0 <= j < self.pairs@.len() implies (
                    #[trigger] self.pairs@[j]).0 != k by {
                        if j < i {
                            assert(old_pairs[j] == self.pairs@[j]);
                        } else {
                            assert(old_pairs[j + 1] == self.pairs@[j]);
                        }
                    }
                    assert forall|kk: u64| self@.contains_key(kk) implies exists|j: int|
                        0 <= j < self.pairs@.len() && (#[trigger] self.pairs@[j]).0 == kk by {
                        let jj = choose|jj: int|
                            0 <= jj < old_pairs.len() && (#[trigger] old_pairs[jj]).0 == kk;
                        if jj < i {
                            assert(self.pairs@[jj].0 == kk);
                        } else {
                            assert(self.pairs@[jj - 1].0 == kk);
                        }
                    }
                    assert(self@.dom() =~= old(self)@.dom().remove(k));
                }
            },
            None => {
                proof {
                    assert(self@ =~= old(self)@.remove(k));
                }
            },
        }
    }

    /// Empty the map.
    pub fn clear(&mut self)
        ensures
            final(self).wf(),
            final(self)@ == Map::<u64, V>::empty(),
    {
        self.pairs.clear();
        self.model = Ghost(Map::empty());
    }

    /// Take out some pair; `None` only when the map is empty.
    pub fn pop(&mut self) -> (r: Option<(u64, V)>)
        requires
            old(self).wf(),
        ensures
            final(self).wf(),
            match r {
                Some(p) => old(self)@.contains_key(p.0) && old(self)@[p.0] == p.1 && final(self)@
                    == old(self)@.remove(p.0),
                None => old(self)@ == Map::<u64, V>::empty() && final(self)@ == old(self)@,
            },
    {
        let popped = self.pairs.pop();
        match popped {
            Some(p) => {
                self.model = Ghost(self.model@.remove(p.0));
                proof {
                    let ghost old_pairs = old(self).pairs@;
                    assert(old_pairs[old_pairs.len() - 1] == p);
                    assert forall|kk: u64| self@.contains_key(kk) implies exists|j: int|
                        0 <= j < self.pairs@.len() && (#[trigger] self.pairs@[j]).0 == kk by {
                        let jj = choose|jj: int|
                            0 <= jj < old_pairs.len() && (#[trigger] old_pairs[jj]).0 == kk;
                        assert(self.pairs@[jj].0 == kk);
                    }
                    assert(self@.dom() =~= old(self)@.dom().remove(p.0));
                }
                Some(p)
            },
            None => {
                proof {
                    assert(self@.dom() =~= Set::<u64>::empty());
                    assert(self@ =~= Map::<u64, V>::empty());
                }
                None
            },
        }
    }

    /// A well-formed map has a finite domain.
    pub proof fn lemma_dom_finite(&self)
        requires
            self.wf(),
        ensures
            self@.dom().finite(),
    {
    }

    /// A map of length zero holds nothing.
    pub proof fn lemma_len_zero_is_empty(&self)
        requires
            self.wf(),
            self@.dom().len() == 0,
        ensures
            self@ == Map::<u64, V>::empty(),
    {
        assert forall|k: u64| !self@.contains_key(k) by {
            if self@.contains_key(k) {
                let i = choose|i: int|
                    0 <= i < self.pairs@.len() && (#[trigger] self.pairs@[i]).0 == k;
                assert(false);
            }
        }
        assert(self@ =~= Map::<u64, V>::empty());
    }

    /// The keys, each once.
    pub fn keys(&self) -> (r: Vec<u64>)
        requires
            self.wf(),
        ensures
            r@.no_duplicates(),
            forall|j: int| 0 <= j < r@.len() ==> self@.contains_key(#[trigger] r@[j]),
            forall|k: u64| #[trigger] self@.contains_key(k) ==> r@.contains(k),
            r@.len() == self@.dom().len(),
    {
        let n = self.pairs.len();
        let mut r: Vec<u64> = Vec::new();
        let mut i: usize = 0;
        while i < n
            invariant
                self.wf(),
                n == self.pairs@.len(),
                i <= n,
                r@.len() == i,
                forall|j: int| 0 <= j < i ==> r@[j] == self.pairs@[j].0,
            decreases n - i,
        {
            r.push(self.pairs[i].0);
            i += 1;
        }
        proof {
            assert forall|k: u64| self@.contains_key(k) implies r@.contains(k) by {
                let jj = choose|jj: int|
                    0 <= jj < self.pairs@.len() && (#[trigger] self.pairs@[jj]).0 == k;
                assert(r@[jj] == k);
            }
        }
        r
    }
}

} // verus!
