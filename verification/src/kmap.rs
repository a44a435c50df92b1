//! A small map from `u64` keys to copyable values, backed by an association
//! list with pairwise-distinct keys.

use vstd::prelude::*;
use vstd::pervasive::VecAdditionalExecFns;

verus! {

pub struct KeyMap<V> {
    pub pairs: Vec<(u64, V)>,
}

impl<V: Copy> KeyMap<V> {
    /// Keys are pairwise distinct.
    pub open spec fn wf(self) -> bool {
        forall|i: int, j: int|
            0 <= i < j < self.pairs@.len() ==> (#[trigger] self.pairs@[i]).0 != (
            #[trigger] self.pairs@[j]).0
    }

    pub open spec fn spec_contains(self, k: u64) -> bool {
        exists|i: int| 0 <= i < self.pairs@.len() && (#[trigger] self.pairs@[i]).0 == k
    }

    /// The value stored under `k` (meaningful only when the key is present).
    pub open spec fn spec_at(self, k: u64) -> V {
        self.pairs@[choose|i: int| 0 <= i < self.pairs@.len() && (#[trigger] self.pairs@[i]).0
            == k].1
    }

    pub open spec fn spec_get(self, k: u64) -> Option<V> {
        if self.spec_contains(k) {
            Some(self.spec_at(k))
        } else {
            None
        }
    }

    pub fn new() -> (m: KeyMap<V>)
        ensures
            m.wf(),
            m.pairs@.len() == 0,
            forall|k: u64| !m.spec_contains(k),
    {
        KeyMap { pairs: Vec::new() }
    }

    pub fn get(&self, k: u64) -> (r: Option<V>)
        requires
            self.wf(),
        ensures
            r == self.spec_get(k),
    {
        let mut i: usize = 0;
        while i < self.pairs.len()
            invariant
                self.wf(),
                i <= self.pairs@.len(),
                forall|j: int| 0 <= j < i ==> (#[trigger] self.pairs@[j]).0 != k,
            decreases self.pairs@.len() - i,
        {
            if self.pairs[i].0 == k {
                proof {
                    lemma_unique_key_index(*self, k, i as int);
                }
                return Some(self.pairs[i].1);
            }
            i = i + 1;
        }
        None
    }

    pub fn contains_key(&self, k: u64) -> (r: bool)
        requires
            self.wf(),
        ensures
            r == self.spec_contains(k),
    {
        self.get(k).is_some()
    }

    /// Binds `k` to `v`, replacing any earlier binding.
    pub fn insert(&mut self, k: u64, v: V)
        requires
            old(self).wf(),
        ensures
            final(self).wf(),
            final(self).spec_get(k) == Some(v),
            forall|k2: u64| k2 != k ==> final(self).spec_get(k2) == old(self).spec_get(k2),
            old(self).pairs@.len() <= final(self).pairs@.len() <= old(self).pairs@.len() + 1,
            final(self).pairs@.len() == old(self).pairs@.len() + 1 <==> !old(self).spec_contains(
                k,
            ),
    {
        let mut i: usize = 0;
        while i < self.pairs.len()
            invariant
                self.wf(),
                *self == *old(self),
                i <= self.pairs@.len(),
                forall|j: int| 0 <= j < i ==> (#[trigger] self.pairs@[j]).0 != k,
            decreases self.pairs@.len() - i,
        {
            if self.pairs[i].0 == k {
                proof {
                    lemma_unique_key_index(*self, k, i as int);
                }
                self.pairs.set(i, (k, v));
                proof {
                    assert(self.wf()) by {
                        assert forall|a: int, b: int|
                            0 <= a < b < self.pairs@.len() implies (#[trigger] self.pairs@[a]).0
                            != (#[trigger] self.pairs@[b]).0 by {
                            assert(old(self).pairs@[a].0 != old(self).pairs@[b].0);
                        }
                    }
                    lemma_unique_key_index(*self, k, i as int);
                    assert forall|k2: u64| k2 != k implies self.spec_get(k2) == old(
                        self,
                    ).spec_get(k2) by {
                        if old(self).spec_contains(k2) {
                            let j = choose|j: int|
                                0 <= j < old(self).pairs@.len() && (#[trigger] old(
                                    self,
                                ).pairs@[j]).0 == k2;
                            assert(self.pairs@[j] == old(self).pairs@[j]);
                            lemma_unique_key_index(*self, k2, j);
                            lemma_unique_key_index(*old(self), k2, j);
                        } else {
                            if self.spec_contains(k2) {
                                let j = choose|j: int|
                                    0 <= j < self.pairs@.len() && (#[trigger] self.pairs@[j]).0
                                        == k2;
                                assert(old(self).pairs@[j].0 == k2);
                            }
                        }
                    }
                }
                return ;
            }
            i = i + 1;
        }
        let ghost pre = *self;
        self.pairs.push((k, v));
        proof {
            assert(self.wf()) by {
                assert forall|a: int, b: int|
                    0 <= a < b < self.pairs@.len() implies (#[trigger] self.pairs@[a]).0 != (
                #[trigger] self.pairs@[b]).0 by {
                    if b < pre.pairs@.len() {
                        assert(pre.pairs@[a].0 != pre.pairs@[b].0);
                    } else {
                        assert(self.pairs@[b].0 == k);
                        assert(pre.pairs@[a].0 != k);
                    }
                }
            }
            lemma_unique_key_index(*self, k, self.pairs@.len() - 1);
            assert forall|k2: u64| k2 != k implies self.spec_get(k2) == pre.spec_get(k2) by {
                if pre.spec_contains(k2) {
                    let j = choose|j: int|
                        0 <= j < pre.pairs@.len() && (#[trigger] pre.pairs@[j]).0 == k2;
                    assert(self.pairs@[j] == pre.pairs@[j]);
                    lemma_unique_key_index(*self, k2, j);
                    lemma_unique_key_index(pre, k2, j);
                } else {
                    if self.spec_contains(k2) {
                        let j = choose|j: int|
                            0 <= j < self.pairs@.len() && (#[trigger] self.pairs@[j]).0 == k2;
                        assert(j < pre.pairs@.len());
                        assert(pre.pairs@[j].0 == k2);
                    }
                }
            }
        }
    }

    /// Drops the binding of `k`, if any, returning the bound value.
    pub fn remove(&mut self, k: u64) -> (r: Option<V>)
        requires
            old(self).wf(),
        ensures
            final(self).wf(),
            r == old(self).spec_get(k),
            !final(self).spec_contains(k),
            forall|k2: u64| k2 != k ==> final(self).spec_get(k2) == old(self).spec_get(k2),
            !old(self).spec_contains(k) ==> *final(self) == *old(self),
    {
        let mut i: usize = 0;
        while i < self.pairs.len()
            invariant
                self.wf(),
                *self == *old(self),
                i <= self.pairs@.len(),
                forall|j: int| 0 <= j < i ==> (#[trigger] self.pairs@[j]).0 != k,
            decreases self.pairs@.len() - i,
        {
            if self.pairs[i].0 == k {
                proof {
                    lemma_unique_key_index(*self, k, i as int);
                }
                let p = self.pairs.remove(i);
                proof {
                    let ghost pre = *old(self);
                    assert(self.pairs@ == pre.pairs@.remove(i as int));
                    assert(self.wf()) by {
                        assert forall|a: int, b: int|
                            0 <= a < b < self.pairs@.len() implies (#[trigger] self.pairs@[a]).0
                            != (#[trigger] self.pairs@[b]).0 by {
                            let a0: int = if a < i {
                                a
                            } else {
                                a + 1
                            };
                            let b0: int = if b < i {
                                b
                            } else {
                                b + 1
                            };
                            assert(self.pairs@[a] == pre.pairs@[a0]);
                            assert(self.pairs@[b] == pre.pairs@[b0]);
                            assert(pre.pairs@[a0].0 != pre.pairs@[b0].0);
                        }
                    }
                    assert(!self.spec_contains(k)) by {
                        if self.spec_contains(k) {
                            let j = choose|j: int|
                                0 <= j < self.pairs@.len() && (#[trigger] self.pairs@[j]).0 == k;
                            let j0: int = if j < i {
                                j
                            } else {
                                j + 1
                            };
                            assert(pre.pairs@[j0].0 == k);
                            assert(pre.pairs@[i as int].0 == k);
                        }
                    }
                    assert forall|k2: u64| k2 != k implies self.spec_get(k2) == pre.spec_get(
                        k2,
                    ) by {
                        if pre.spec_contains(k2) {
                            let j = choose|j: int|
                                0 <= j < pre.pairs@.len() && (#[trigger] pre.pairs@[j]).0 == k2;
                            let jp: int = if j < i {
                                j
                            } else {
                                j - 1
                            };
                            assert(j != i);
                            assert(self.pairs@[jp] == pre.pairs@[j]);
                            lemma_unique_key_index(*self, k2, jp);
                            lemma_unique_key_index(pre, k2, j);
                        } else {
                            if self.spec_contains(k2) {
                                let j = choose|j: int|
                                    0 <= j < self.pairs@.len() && (#[trigger] self.pairs@[j]).0
                                        == k2;
                                let j0: int = if j < i {
                                    j
                                } else {
                                    j + 1
                                };
                                assert(pre.pairs@[j0].0 == k2);
                            }
                        }
                    }
                }
                return Some(p.1);
            }
            i = i + 1;
        }
        None
    }
}

/// With pairwise-distinct keys, the entry at any index holding `k` is the
/// map's binding of `k`.
proof fn lemma_unique_key_index<V: Copy>(m: KeyMap<V>, k: u64, i: int)
    requires
        m.wf(),
        0 <= i < m.pairs@.len(),
        m.pairs@[i].0 == k,
    ensures
        m.spec_contains(k),
        m.spec_at(k) == m.pairs@[i].1,
{
    let j = choose|j: int| 0 <= j < m.pairs@.len() && (#[trigger] m.pairs@[j]).0 == k;
    if j != i {
        assert(m.pairs@[i].0 != m.pairs@[j].0);
        assert(false);
    }
}

} // verus!
