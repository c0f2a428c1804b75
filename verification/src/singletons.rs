//! The type-keyed singleton store used alongside the entity store: at most
//! one value per type key.

use vstd::prelude::*;

verus! {

/// A store of at most one value per 64-bit type key. Viewed in specifications
/// as the map from key to stored value. The value type is the one sum type
/// `S` the store is instantiated at.
pub struct Singletons<S> {
    /// The entries, in no particular order; keys are distinct.
    pub map: Vec<(u64, S)>,
}

impl<S> Singletons<S> {
    /// The entries as a sequence of key/value pairs.
    pub open spec fn entries(self) -> Seq<(u64, S)> {
        self.map@
    }

    /// Keys are pairwise distinct.
    pub open spec fn wf(self) -> bool {
        forall|i: int, j: int|
            0 <= i < j < self.entries().len() ==> (#[trigger] self.entries()[i]).0 != (
            #[trigger] self.entries()[j]).0
    }

    /// Whether a value is stored under `key`.
    pub open spec fn has_key(self, key: u64) -> bool {
        exists|i: int| 0 <= i < self.entries().len() && (#[trigger] self.entries()[i]).0 == key
    }

    /// The entry position of `key`.
    pub open spec fn key_index(self, key: u64) -> int {
        choose|i: int| 0 <= i < self.entries().len() && (#[trigger] self.entries()[i]).0 == key
    }

    /// Under distinct keys, `key_index` is the one position of `key`.
    pub proof fn lemma_key_index(self, key: u64)
        requires
            self.wf(),
            self.has_key(key),
        ensures
            0 <= self.key_index(key) < self.entries().len(),
            self.entries()[self.key_index(key)].0 == key,
            forall|i: int|
                0 <= i < self.entries().len() && (#[trigger] self.entries()[i]).0 == key ==> i
                    == self.key_index(key),
    {
        let ki = self.key_index(key);
        assert(0 <= ki < self.entries().len() && self.entries()[ki].0 == key);
        assert forall|i: int|
            0 <= i < self.entries().len() && (#[trigger] self.entries()[i]).0 == key implies i
            == ki by {
            if i < ki {
                assert(self.entries()[i].0 != self.entries()[ki].0);
            } else if ki < i {
                assert(self.entries()[ki].0 != self.entries()[i].0);
            }
        }
    }

    /// An empty store.
    pub fn new() -> (r: Self)
        ensures
            r.wf(),
            r@ == Map::<u64, S>::empty(),
    {
        let r = Singletons { map: Vec::new() };
        proof {
            assert(r@ =~= Map::<u64, S>::empty());
        }
        r
    }

    /// The entry position of `key`, scanning the entries.
    fn find_key(&self, key: u64) -> (r: Option<usize>)
        ensures
            match r {
                Some(i) => i < self.entries().len() && self.entries()[i as int].0 == key,
                None => !self.has_key(key),
            },
    {
        let n = self.map.len();
        let mut i: usize = 0;
        while i < n
            invariant
                n == self.entries().len(),
                i <= n,
                forall|k: int| 0 <= k < i ==> (#[trigger] self.entries()[k]).0 != key,
            decreases n - i,
        {
            if self.map[i].0 == key {
                return Some(i);
            }
            i = i + 1;
        }
        None
    }

    /// Stores `data` under `key`, handing back the value that was there
    /// before, if any.
    pub fn insert(&mut self, key: u64, data: S) -> (r: Option<S>)
        requires
            old(self).wf(),
            old(self).entries().len() < usize::MAX,
        ensures
            final(self).wf(),
            final(self)@ == old(self)@.insert(key, data),
            match r {
                Some(v) => old(self).has_key(key) && v == old(self)@[key],
                None => !old(self).has_key(key),
            },
    {
        let ghost o = *old(self);
        match self.find_key(key) {
            Some(i) => {
                proof {
                    o.lemma_key_index(key);
                }
                let old_entry = self.map.swap_remove(i);
                self.map.push((key, data));
                proof {
                    let n = *self;
                    self.lemma_view_shape(o, key, data, i as int);
                }
                Some(old_entry.1)
            },
            None => {
                self.map.push((key, data));
                proof {
                    let n = *self;
                    assert forall|i: int, j: int|
                        0 <= i < j < n.entries().len() implies (#[trigger] n.entries()[i]).0 != (
                    #[trigger] n.entries()[j]).0 by {
                        if j == n.entries().len() - 1 {
                            assert(n.entries()[i] == o.entries()[i]);
                            assert(!o.has_key(key));
                        } else {
                            assert(n.entries()[i] == o.entries()[i] && n.entries()[j]
                                == o.entries()[j]);
                        }
                    }
                    assert forall|k2: u64|
            #![trigger n.has_key(k2)]
            #![trigger o.has_key(k2)]
            true implies n.value_state(k2) == (if k2
                        == key {
                        Some(data)
                    } else {
                        o.value_state(k2)
                    }) by {
                        let len = o.entries().len();
                        if k2 == key {
                            assert(n.entries()[len as int].0 == key);
                            assert(n.has_key(key));
                            n.lemma_key_index(key);
                            assert(n.key_index(key) == len as int);
                        } else {
                            if o.has_key(k2) {
                                o.lemma_key_index(k2);
                                let j0 = o.key_index(k2);
                                assert(n.entries()[j0] == o.entries()[j0]);
                                assert(n.has_key(k2));
                                n.lemma_key_index(k2);
                                assert(n.key_index(k2) == j0);
                            } else {
                                if n.has_key(k2) {
                                    let j1 = choose|j: int|
                                        0 <= j < n.entries().len() && (#[trigger] n.entries()[j]).0
                                            == k2;
                                    assert(j1 < len);
                                    assert(n.entries()[j1] == o.entries()[j1]);
                                    assert(o.has_key(k2));
                                    assert(false);
                                }
                            }
                        }
                    }
                    assert(n@ =~= o@.insert(key, data));
                }
                None
            },
        }
    }

    /// Removes and hands back the value stored under `key`, if any.
    pub fn remove(&mut self, key: u64) -> (r: Option<S>)
        requires
            old(self).wf(),
        ensures
            final(self).wf(),
            final(self)@ == old(self)@.remove(key),
            match r {
                Some(v) => old(self).has_key(key) && v == old(self)@[key],
                None => !old(self).has_key(key),
            },
    {
        let ghost o = *old(self);
        match self.find_key(key) {
            Some(i) => {
                proof {
                    o.lemma_key_index(key);
                }
                let old_entry = self.map.swap_remove(i);
                proof {
                    let n = *self;
                    assert forall|i2: int, j2: int|
                        0 <= i2 < j2 < n.entries().len() implies (#[trigger] n.entries()[i2]).0
                            != (#[trigger] n.entries()[j2]).0 by {
                        let s1: int = if i2 == i as int {
                            o.entries().len() - 1
                        } else {
                            i2
                        };
                        let s2: int = if j2 == i as int {
                            o.entries().len() - 1
                        } else {
                            j2
                        };
                        assert(n.entries()[i2] == o.entries()[s1]);
                        assert(n.entries()[j2] == o.entries()[s2]);
                        if s1 < s2 {
                            assert(o.entries()[s1].0 != o.entries()[s2].0);
                        } else {
                            assert(s2 < s1);
                            assert(o.entries()[s2].0 != o.entries()[s1].0);
                        }
                    }
                    assert forall|k2: u64|
            #![trigger n.has_key(k2)]
            #![trigger o.has_key(k2)]
            true implies n.value_state(k2) == (if k2
                        == key {
                        None
                    } else {
                        o.value_state(k2)
                    }) by {
                        n.lemma_removed_state(o, key, i as int, k2);
                    }
                    assert(n@ =~= o@.remove(key));
                }
                Some(old_entry.1)
            },
            None => {
                proof {
                    assert(self@ =~= o@.remove(key));
                }
                None
            },
        }
    }

    /// The value stored under `key`, if any.
    pub fn get(&self, key: u64) -> (r: Option<&S>)
        requires
            self.wf(),
        ensures
            match r {
                Some(v) => self@.contains_key(key) && *v == self@[key],
                None => !self@.contains_key(key),
            },
    {
        match self.find_key(key) {
            Some(i) => {
                proof {
                    self.lemma_key_index(key);
                }
                Some(&self.map[i].1)
            },
            None => None,
        }
    }

    /// Mutably borrows the value stored under `key`. Asking for an absent key
    /// is a programmer error and is excluded; test with [`Singletons::get`]
    /// first.
    pub fn get_mut(&mut self, key: u64) -> (r: &mut S)
        requires
            old(self).wf(),
            old(self)@.contains_key(key),
        ensures
            *r == old(self)@[key],
            exists|i: int|
                {
                    &&& 0 <= i < old(self).entries().len()
                    &&& old(self).entries()[i].0 == key
                    &&& #[trigger] final(self).entries() == old(self).entries().update(
                        i,
                        (key, *final(r)),
                    )
                },
    {
        let ghost o = *old(self);
        let i = match self.find_key(key) {
            Some(i) => i,
            None => unreached(),
        };
        proof {
            o.lemma_key_index(key);
            assert(i as int == o.key_index(key));
        }
        let entry = vstd::std_specs::vec::vec_index_mut(&mut self.map, i);
        &mut entry.1
    }

    /// Replacing the value at `key`'s entry, in place, updates the view at
    /// `key` alone; this is the shape [`Singletons::get_mut`] leaves behind
    /// once its borrow expires.
    pub proof fn lemma_update_view(o: Singletons<S>, n: Singletons<S>, key: u64, i: int, v: S)
        requires
            o.wf(),
            0 <= i < o.entries().len(),
            o.entries()[i].0 == key,
            n.entries() == o.entries().update(i, (key, v)),
        ensures
            n.wf(),
            n@ == o@.insert(key, v),
    {
        assert forall|i2: int, j2: int|
            0 <= i2 < j2 < n.entries().len() implies (#[trigger] n.entries()[i2]).0 != (
        #[trigger] n.entries()[j2]).0 by {
            assert(n.entries()[i2].0 == o.entries()[i2].0);
            assert(n.entries()[j2].0 == o.entries()[j2].0);
        }
        assert forall|k2: u64|
            #![trigger n.has_key(k2)]
            #![trigger o.has_key(k2)]
            true implies n.value_state(k2) == (if k2 == key {
            Some(v)
        } else {
            o.value_state(k2)
        }) by {
            n.lemma_updated_state(o, key, i, k2);
        }
        assert(n@ =~= o@.insert(key, v));
    }

    /// The stored value under `key`, if any, as a spec-level option.
    pub open spec fn value_state(self, key: u64) -> Option<S> {
        if self.has_key(key) {
            Some(self.entries()[self.key_index(key)].1)
        } else {
            None
        }
    }

    /// After a swap-remove-and-push replacement at `i`, only `key` changed.
    proof fn lemma_view_shape(self, o: Singletons<S>, key: u64, data: S, i: int)
        requires
            o.wf(),
            0 <= i < o.entries().len(),
            o.entries()[i].0 == key,
            self.entries() == o.entries().update(i, o.entries().last()).drop_last().push(
                (key, data),
            ),
        ensures
            self.wf(),
            self@ == o@.insert(key, data),
    {
        let n = self;
        let len = o.entries().len();
        o.lemma_key_index(key);
        assert forall|i2: int, j2: int|
            0 <= i2 < j2 < n.entries().len() implies (#[trigger] n.entries()[i2]).0 != (
        #[trigger] n.entries()[j2]).0 by {
            if j2 == n.entries().len() - 1 {
                let s1: int = if i2 == i {
                    len - 1
                } else {
                    i2
                };
                assert(n.entries()[i2] == o.entries()[s1]);
                assert(n.entries()[j2].0 == key);
                if o.entries()[s1].0 == key {
                    assert(s1 == i);
                }
            } else {
                let s1: int = if i2 == i {
                    len - 1
                } else {
                    i2
                };
                let s2: int = if j2 == i {
                    len - 1
                } else {
                    j2
                };
                assert(n.entries()[i2] == o.entries()[s1]);
                assert(n.entries()[j2] == o.entries()[s2]);
                if s1 < s2 {
                    assert(o.entries()[s1].0 != o.entries()[s2].0);
                } else {
                    assert(s2 < s1);
                    assert(o.entries()[s2].0 != o.entries()[s1].0);
                }
            }
        }
        assert forall|k2: u64|
            #![trigger n.has_key(k2)]
            #![trigger o.has_key(k2)]
            true implies n.value_state(k2) == (if k2 == key {
            Some(data)
        } else {
            o.value_state(k2)
        }) by {
            if k2 == key {
                assert(n.entries()[n.entries().len() - 1].0 == key);
                assert(n.has_key(key));
                n.lemma_key_index(key);
                assert(n.key_index(key) == n.entries().len() - 1);
            } else {
                if o.has_key(k2) {
                    o.lemma_key_index(k2);
                    let j0 = o.key_index(k2);
                    assert(j0 != i);
                    let j1: int = if j0 == len - 1 {
                        i
                    } else {
                        j0
                    };
                    if j0 == len - 1 && i == len - 1 {
                        assert(false);
                    }
                    assert(n.entries()[j1] == o.entries()[j0]);
                    assert(n.has_key(k2));
                    n.lemma_key_index(k2);
                    assert(n.key_index(k2) == j1);
                } else {
                    if n.has_key(k2) {
                        n.lemma_key_index(k2);
                        let j1 = n.key_index(k2);
                        assert(j1 < n.entries().len() - 1);
                        let s1: int = if j1 == i {
                            len - 1
                        } else {
                            j1
                        };
                        assert(n.entries()[j1] == o.entries()[s1]);
                        assert(o.has_key(k2));
                        assert(false);
                    }
                }
            }
        }
        assert(n@ =~= o@.insert(key, data));
    }

    /// After a swap-remove at `i`, only `key` is gone.
    proof fn lemma_removed_state(self, o: Singletons<S>, key: u64, i: int, k2: u64)
        requires
            o.wf(),
            0 <= i < o.entries().len(),
            o.entries()[i].0 == key,
            self.entries() == o.entries().update(i, o.entries().last()).drop_last(),
        ensures
            self.value_state(k2) == (if k2 == key {
                None
            } else {
                o.value_state(k2)
            }),
    {
        let n = self;
        let len = o.entries().len();
        o.lemma_key_index(key);
        if k2 == key {
            if n.has_key(key) {
                let j1 = choose|j: int|
                    0 <= j < n.entries().len() && (#[trigger] n.entries()[j]).0 == key;
                let s1: int = if j1 == i {
                    len - 1
                } else {
                    j1
                };
                assert(n.entries()[j1] == o.entries()[s1]);
                assert(o.entries()[s1].0 == key);
                assert(s1 == i);
                assert(j1 != i ==> s1 == j1);
                assert(false);
            }
        } else {
            if o.has_key(k2) {
                o.lemma_key_index(k2);
                let j0 = o.key_index(k2);
                assert(j0 != i);
                let j1: int = if j0 == len - 1 {
                    i
                } else {
                    j0
                };
                if j0 == len - 1 && i == len - 1 {
                    assert(false);
                }
                assert(n.entries()[j1] == o.entries()[j0]);
                assert(n.has_key(k2)) by {
                    assert(n.entries()[j1].0 == k2);
                }
                assert forall|i2: int, j2: int|
                    0 <= i2 < j2 < n.entries().len() implies (#[trigger] n.entries()[i2]).0 != (
                #[trigger] n.entries()[j2]).0 by {
                    let s2: int = if i2 == i {
                        len - 1
                    } else {
                        i2
                    };
                    let s3: int = if j2 == i {
                        len - 1
                    } else {
                        j2
                    };
                    assert(n.entries()[i2] == o.entries()[s2]);
                    assert(n.entries()[j2] == o.entries()[s3]);
                    if s2 < s3 {
                        assert(o.entries()[s2].0 != o.entries()[s3].0);
                    } else {
                        assert(s3 < s2);
                        assert(o.entries()[s3].0 != o.entries()[s2].0);
                    }
                }
                n.lemma_key_index(k2);
                assert(n.key_index(k2) == j1);
            } else {
                if n.has_key(k2) {
                    let j1 = choose|j: int|
                        0 <= j < n.entries().len() && (#[trigger] n.entries()[j]).0 == k2;
                    let s1: int = if j1 == i {
                        len - 1
                    } else {
                        j1
                    };
                    assert(n.entries()[j1] == o.entries()[s1]);
                    assert(o.has_key(k2));
                    assert(false);
                }
            }
        }
    }

    /// After an in-place update at `i`, only `key`'s value changed.
    proof fn lemma_updated_state(self, o: Singletons<S>, key: u64, i: int, k2: u64)
        requires
            o.wf(),
            0 <= i < o.entries().len(),
            o.entries()[i].0 == key,
            self.entries().len() == o.entries().len(),
            self.entries()[i].0 == key,
            forall|j: int|
                0 <= j < o.entries().len() && j != i ==> (#[trigger] self.entries()[j])
                    == o.entries()[j],
        ensures
            self.value_state(k2) == (if k2 == key {
                Some(self.entries()[i].1)
            } else {
                o.value_state(k2)
            }),
    {
        let n = self;
        o.lemma_key_index(key);
        assert(n.wf()) by {
            assert forall|i2: int, j2: int|
                0 <= i2 < j2 < n.entries().len() implies (#[trigger] n.entries()[i2]).0 != (
            #[trigger] n.entries()[j2]).0 by {
                assert(n.entries()[i2].0 == o.entries()[i2].0);
                assert(n.entries()[j2].0 == o.entries()[j2].0);
            }
        }
        if k2 == key {
            assert(n.has_key(key)) by {
                assert(n.entries()[i].0 == key);
            }
            n.lemma_key_index(key);
            assert(n.key_index(key) == i);
        } else {
            if o.has_key(k2) {
                o.lemma_key_index(k2);
                let j0 = o.key_index(k2);
                assert(j0 != i);
                assert(n.entries()[j0] == o.entries()[j0]);
                assert(n.has_key(k2));
                n.lemma_key_index(k2);
                assert(n.key_index(k2) == j0);
            } else {
                if n.has_key(k2) {
                    let j1 = choose|j: int|
                        0 <= j < n.entries().len() && (#[trigger] n.entries()[j]).0 == k2;
                    assert(j1 != i);
                    assert(n.entries()[j1] == o.entries()[j1]);
                    assert(o.has_key(k2));
                    assert(false);
                }
            }
        }
    }
}

impl<S> View for Singletons<S> {
    type V = Map<u64, S>;

    /// The store as the map from type key to stored value.
    open spec fn view(&self) -> Map<u64, S> {
        Map::new(|k: u64| self.has_key(k), |k: u64| self.entries()[self.key_index(k)].1)
    }
}

} // verus!
