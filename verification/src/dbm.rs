//! A key-to-value mapping with a read side and a write side.
//!
//! Agents running inside a tick look things up on the read view, a snapshot
//! frozen at the previous publication; their writes go to the write view. The
//! explicit [`DoubleBufferedMap::update`] is the publication barrier: it
//! promotes the write view to be the next read view. Right after a
//! publication the two views agree, so staged mutation starts from the
//! promoted state and untouched entries carry over from tick to tick.

use vstd::prelude::*;

use crate::keymap::KeyMap;

verus! {

/// A double-buffered map from `u64` keys to values of type `V`.
pub struct DoubleBufferedMap<V> {
    base: KeyMap<V>,
    staged: KeyMap<V>,
    removed: Vec<u64>,
    cleared: bool,
    dirty: bool,
}

impl<V> DoubleBufferedMap<V> {
    /// The snapshot that lookups see: untouched by writes until `update`.
    pub closed spec fn read_view(&self) -> Map<u64, V> {
        self.base@
    }

    /// The pending state: what the read view will become at the next
    /// `update`.
    pub closed spec fn write_view(&self) -> Map<u64, V> {
        if self.cleared {
            self.staged@
        } else {
            self.base@.remove_keys(self.removed@.to_set()).union_prefer_right(self.staged@)
        }
    }

    pub closed spec fn wf(&self) -> bool {
        &&& self.base.wf()
        &&& self.staged.wf()
        &&& self.removed@.no_duplicates()
        &&& !self.dirty ==> self.staged@.dom() =~= Set::<u64>::empty() && self.removed@.len() == 0
            && !self.cleared
    }

    /// Both domains are finite.
    pub proof fn lemma_views_finite(&self)
        requires
            self.wf(),
        ensures
            self.read_view().dom().finite(),
            self.write_view().dom().finite(),
    {
        self.base.lemma_dom_finite();
        self.staged.lemma_dom_finite();
        if !self.cleared {
            let merged = self.base@.remove_keys(self.removed@.to_set()).union_prefer_right(
                self.staged@,
            );
            let shape = self.base@.dom().difference(self.removed@.to_set()).union(
                self.staged@.dom(),
            );
            assert(merged.dom() =~= shape);
            assert(shape.finite());
        }
    }

    pub fn new() -> (m: DoubleBufferedMap<V>)
        ensures
            m.wf(),
            m.read_view() == Map::<u64, V>::empty(),
            m.write_view() == Map::<u64, V>::empty(),
    {
        let m = DoubleBufferedMap {
            base: KeyMap::new(),
            staged: KeyMap::new(),
            removed: Vec::new(),
            cleared: false,
            dirty: false,
        };
        proof {
            assert(m.write_view() =~= Map::<u64, V>::empty());
        }
        m
    }

    /// Read-view lookup.
    pub fn get(&self, k: u64) -> (r: Option<&V>)
        requires
            self.wf(),
        ensures
            match r {
                Some(v) => self.read_view().contains_key(k) && *v == self.read_view()[k],
                None => !self.read_view().contains_key(k),
            },
    {
        self.base.get(k)
    }

    /// The read view's keys, each once.
    pub fn keys(&self) -> (r: Vec<u64>)
        requires
            self.wf(),
        ensures
            r@.no_duplicates(),
            forall|j: int| 0 <= j < r@.len() ==> self.read_view().contains_key(#[trigger] r@[j]),
            forall|k: u64| #[trigger] self.read_view().contains_key(k) ==> r@.contains(k),
            r@.len() == self.read_view().dom().len(),
    {
        self.base.keys()
    }

    /// Whether `k` is queued for removal at the next `update`.
    fn is_removed(&self, k: u64) -> (r: bool)
        ensures
            r == self.removed@.to_set().contains(k),
    {
        let n = self.removed.len();
        let mut i: usize = 0;
        while i < n
            invariant
                n == self.removed@.len(),
                i <= n,
                forall|j: int| 0 <= j < i ==> self.removed@[j] != k,
            decreases n - i,
        {
            if self.removed[i] == k {
                return true;
            }
            i += 1;
        }
        false
    }

    /// Write-view lookup: the value `k` will hold after the next `update`.
    pub fn get_write(&self, k: u64) -> (r: Option<&V>)
        requires
            self.wf(),
        ensures
            match r {
                Some(v) => self.write_view().contains_key(k) && *v == self.write_view()[k],
                None => !self.write_view().contains_key(k),
            },
    {
        match self.staged.get(k) {
            Some(v) => Some(v),
            None => {
                if self.cleared {
                    None
                } else if self.is_removed(k) {
                    None
                } else {
                    self.base.get(k)
                }
            },
        }
    }

    /// The write view's keys, each once.
    pub fn w_keys(&self) -> (r: Vec<u64>)
        requires
            self.wf(),
        ensures
            r@.no_duplicates(),
            forall|j: int| 0 <= j < r@.len() ==> self.write_view().contains_key(#[trigger] r@[j]),
            forall|k: u64| #[trigger] self.write_view().contains_key(k) ==> r@.contains(k),
    {
        broadcast use vstd::seq_lib::lemma_seq_contains_after_push;

        let mut r = self.staged.keys();
        let ghost staged_keys = r@;
        if !self.cleared {
            let base_keys = self.base.keys();
            let n = base_keys.len();
            let mut i: usize = 0;
            let ghost mut extra: Seq<u64> = Seq::empty();
            proof {
                assert(r@ =~= staged_keys + extra);
            }
            while i < n
                invariant
                    self.wf(),
                    !self.cleared,
                    n == base_keys@.len(),
                    i <= n,
                    base_keys@.no_duplicates(),
                    forall|j: int|
                        0 <= j < n ==> self.read_view().contains_key(#[trigger] base_keys@[j]),
                    staged_keys.no_duplicates(),
                    forall|k: u64| #[trigger]
                        self.staged@.contains_key(k) ==> staged_keys.contains(k),
                    forall|j: int|
                        0 <= j < staged_keys.len() ==> self.staged@.contains_key(
                            #[trigger] staged_keys[j],
                        ),
                    r@ == staged_keys + extra,
                    extra.no_duplicates(),
                    forall|j: int|
                        0 <= j < extra.len() ==> !self.staged@.contains_key(#[trigger] extra[j])
                            && !self.removed@.to_set().contains(extra[j])
                            && self.read_view().contains_key(extra[j]),
                    forall|j: int|
                        0 <= j < extra.len() ==> exists|jj: int|
                            0 <= jj < i && base_keys@[jj] == #[trigger] extra[j],
                    forall|j: int|
                        0 <= j < i ==> (self.write_view().contains_key(#[trigger] base_keys@[j])
                            ==> staged_keys.contains(base_keys@[j]) || extra.contains(
                            base_keys@[j],
                        )),
                    forall|k: u64| #[trigger]
                        self.read_view().contains_key(k) ==> base_keys@.contains(k),
                decreases n - i,
            {
                let k = base_keys[i];
                if !self.staged.contains_key(k) && !self.is_removed(k) {
                    proof {
                        if extra.contains(k) {
                            let j = choose|j: int| 0 <= j < extra.len() && extra[j] == k;
                            let jj = choose|jj: int| 0 <= jj < i && base_keys@[jj] == extra[j];
                            assert(base_keys@[jj] == base_keys@[i as int]);
                            assert(false);
                        }
                    }
                    r.push(k);
                    proof {
                        let ghost prev = extra;
                        extra = extra.push(k);
                        assert(r@ =~= staged_keys + extra);
                        assert forall|a: int, b: int|
                            0 <= a < extra.len() && 0 <= b < extra.len() && a != b implies extra[a]
                            != extra[b] by {
                            if a < prev.len() && b < prev.len() {
                            } else if a < prev.len() {
                                assert(prev.contains(prev[a]));
                            } else if b < prev.len() {
                                assert(prev.contains(prev[b]));
                            }
                        }
                        assert forall|j: int| 0 <= j < extra.len() implies exists|jj: int|
                            0 <= jj < i + 1 && base_keys@[jj] == #[trigger] extra[j] by {
                            if j < prev.len() {
                                let jj = choose|jj: int|
                                    0 <= jj < i && base_keys@[jj] == #[trigger] prev[j];
                                assert(base_keys@[jj] == extra[j]);
                            } else {
                                assert(base_keys@[i as int] == extra[j]);
                            }
                        }
                        assert forall|j: int|
                            0 <= j < i + 1 && self.write_view().contains_key(
                                #[trigger] base_keys@[j],
                            ) implies staged_keys.contains(base_keys@[j]) || extra.contains(
                            base_keys@[j],
                        ) by {
                            if j == i {
                                assert(extra[prev.len() as int] == k);
                                assert(extra.contains(k));
                            } else if !staged_keys.contains(base_keys@[j]) {
                                assert(prev.contains(base_keys@[j]));
                                let jj = choose|jj: int|
                                    0 <= jj < prev.len() && prev[jj] == base_keys@[j];
                                assert(extra[jj] == base_keys@[j]);
                            }
                        }
                    }
                } else {
                    proof {
                        if self.write_view().contains_key(k) && !self.staged@.contains_key(k) {
                            assert(!self.removed@.to_set().contains(k));
                            assert(false);
                        }
                    }
                }
                i += 1;
            }
            proof {
                assert forall|j: int| 0 <= j < r@.len() implies self.write_view().contains_key(
                    #[trigger] r@[j],
                ) by {
                    if j < staged_keys.len() {
                        assert(self.staged@.contains_key(staged_keys[j]));
                        assert(r@[j] == staged_keys[j]);
                    } else {
                        assert(r@[j] == extra[j - staged_keys.len()]);
                    }
                }
                assert forall|a: int, b: int|
                    0 <= a < staged_keys.len() && 0 <= b < extra.len() implies staged_keys[a]
                    != extra[b] by {
                    assert(self.staged@.contains_key(staged_keys[a]));
                }
                vstd::seq_lib::lemma_no_dup_in_concat(staged_keys, extra);
                assert forall|k: u64| self.write_view().contains_key(k) implies r@.contains(k) by {
                    if self.staged@.contains_key(k) {
                        let jj = choose|jj: int|
                            0 <= jj < staged_keys.len() && staged_keys[jj] == k;
                        assert(r@[jj] == k);
                    } else {
                        assert(self.read_view().contains_key(k));
                        let jj = choose|jj: int|
                            0 <= jj < base_keys@.len() && base_keys@[jj] == k;
                        if staged_keys.contains(k) {
                            let aa = choose|aa: int|
                                0 <= aa < staged_keys.len() && staged_keys[aa] == k;
                            assert(self.staged@.contains_key(staged_keys[aa]));
                            assert(false);
                        } else {
                            let bb = choose|bb: int| 0 <= bb < extra.len() && extra[bb] == k;
                            assert(r@[staged_keys.len() + bb] == k);
                        }
                    }
                }
            }
        } else {
            proof {
                assert forall|k: u64| self.write_view().contains_key(k) implies r@.contains(k) by {
                    assert(self.staged@.contains_key(k));
                    assert(staged_keys.contains(k));
                    let jj = choose|jj: int| 0 <= jj < staged_keys.len() && staged_keys[jj] == k;
                    assert(r@[jj] == k);
                }
            }
        }
        r
    }

    /// Stage `v` under `k`; visible on the read side only after `update`.
    pub fn insert(&mut self, k: u64, v: V)
        requires
            old(self).wf(),
        ensures
            final(self).wf(),
            final(self).read_view() == old(self).read_view(),
            final(self).write_view() == old(self).write_view().insert(k, v),
    {
        self.staged.insert(k, v);
        self.dirty = true;
        proof {
            assert(self.write_view() =~= old(self).write_view().insert(k, v));
        }
    }

    /// Stage the removal of `k`; the read side keeps it until `update`.
    pub fn remove(&mut self, k: u64)
        requires
            old(self).wf(),
        ensures
            final(self).wf(),
            final(self).read_view() == old(self).read_view(),
            final(self).write_view() == old(self).write_view().remove(k),
    {
        self.staged.remove(k);
        if !self.cleared && !self.is_removed(k) {
            self.removed.push(k);
        }
        self.dirty = true;
        proof {
            if !self.cleared && !old(self).removed@.to_set().contains(k) {
                Seq::lemma_push_to_set_commute(old(self).removed@, k);
                assert(self.removed@.to_set() =~= old(self).removed@.to_set().insert(k));
            }
            assert(self.write_view() =~= old(self).write_view().remove(k));
        }
    }

    /// Empty the pending write view; the read side is untouched until
    /// `update`.
    pub fn clear(&mut self)
        requires
            old(self).wf(),
        ensures
            final(self).wf(),
            final(self).read_view() == old(self).read_view(),
            final(self).write_view() == Map::<u64, V>::empty(),
    {
        self.staged.clear();
        self.removed.clear();
        self.cleared = true;
        self.dirty = true;
    }

    /// The publication barrier: the write view becomes the read view, and the
    /// two views agree until the next staged write.
    pub fn update(&mut self)
        requires
            old(self).wf(),
        ensures
            final(self).wf(),
            final(self).read_view() == old(self).write_view(),
            final(self).write_view() == old(self).write_view(),
    {
        let ghost target = self.write_view();
        if self.cleared {
            self.base.clear();
            self.removed.clear();
        } else {
            while self.removed.len() > 0
                invariant
                    self.base.wf(),
                    self.staged.wf(),
                    self.removed@.no_duplicates(),
                    !self.cleared,
                    self.staged == old(self).staged,
                    self.base@.remove_keys(self.removed@.to_set()) == old(
                        self,
                    ).base@.remove_keys(old(self).removed@.to_set()),
                decreases self.removed@.len(),
            {
                let ghost pre_seq = self.removed@;
                let ghost pre_base = self.base@;
                let popped = self.removed.pop();
                match popped {
                    Some(k) => {
                        self.base.remove(k);
                        proof {
                            assert(pre_seq =~= self.removed@.push(k));
                            Seq::lemma_push_to_set_commute(self.removed@, k);
                            assert(self.base@.remove_keys(self.removed@.to_set())
                                =~= pre_base.remove_keys(pre_seq.to_set()));
                        }
                    },
                    None => {
                        proof {
                            assert(false);
                        }
                    },
                }
            }
            proof {
                assert(self.removed@.to_set() =~= Set::<u64>::empty());
                assert(self.base@.remove_keys(self.removed@.to_set()) =~= self.base@);
            }
        }
        proof {
            assert(self.base@.union_prefer_right(self.staged@) =~= target);
        }
        while self.staged.len() > 0
            invariant
                self.base.wf(),
                self.staged.wf(),
                self.base@.union_prefer_right(self.staged@) == target,
            decreases self.staged@.dom().len(),
        {
            let ghost pre_base = self.base@;
            let ghost pre_staged = self.staged@;
            proof {
                self.staged.lemma_dom_finite();
            }
            let popped = self.staged.pop();
            match popped {
                Some(p) => {
                    self.base.insert(p.0, p.1);
                    proof {
                        assert(pre_staged =~= self.staged@.insert(p.0, p.1));
                        assert(self.base@.union_prefer_right(self.staged@)
                            =~= pre_base.union_prefer_right(pre_staged));
                        assert(self.staged@.dom() =~= pre_staged.dom().remove(p.0));
                    }
                },
                None => {
                    proof {
                        assert(false);
                    }
                },
            }
        }
        self.removed.clear();
        self.cleared = false;
        self.dirty = false;
        proof {
            self.staged.lemma_len_zero_is_empty();
            assert(self.base@.union_prefer_right(self.staged@) =~= self.base@);
            assert(self.write_view() =~= self.base@);
        }
    }

    /// `update`, skipped when nothing was staged since the last publication;
    /// the views come out as `update` would leave them either way.
    pub fn lazy_update(&mut self)
        requires
            old(self).wf(),
        ensures
            final(self).wf(),
            final(self).read_view() == old(self).write_view(),
            final(self).write_view() == old(self).write_view(),
    {
        if self.dirty {
            self.update();
        } else {
            proof {
                assert(self.write_view() =~= self.base@);
            }
        }
    }
}

/// The double-buffer law: one publication settles the views, and a second
/// publication with no intervening staged write changes nothing. `w0` is
/// the write view before the first `update`; the pairs are the (read,
/// write) views after each of the two `update` calls, related as
/// `update`'s contract relates them.
pub proof fn law_update_idempotent<V>(
    w0: Map<u64, V>,
    r1: Map<u64, V>,
    w1: Map<u64, V>,
    r2: Map<u64, V>,
    w2: Map<u64, V>,
)
    requires
        r1 == w0 && w1 == w0,
        r2 == w1 && w2 == w1,
    ensures
        r2 == r1,
        w2 == w1,
{
}

/// The publication barrier law: a staged write leaves the read view as it
/// was, and the value becomes visible to readers exactly at the next
/// publication. The maps are the view pairs before the write, after the
/// write, and after the following `update`, related as the contracts of
/// `insert` and `update` relate them.
pub proof fn law_publication_barrier<V>(
    r0: Map<u64, V>,
    w0: Map<u64, V>,
    r1: Map<u64, V>,
    w1: Map<u64, V>,
    r2: Map<u64, V>,
    w2: Map<u64, V>,
    k: u64,
    v: V,
)
    requires
        r1 == r0 && w1 == w0.insert(k, v),
        r2 == w1 && w2 == w1,
    ensures
        r1 == r0,
        r2.contains_key(k) && r2[k] == v,
{
}

} // verus!
