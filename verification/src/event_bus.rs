//! The type-keyed event/listener registry used alongside the entity store.

use vstd::prelude::*;

use crate::singletons::Singletons;

verus! {

/// Marker for a type usable as an event payload.
pub trait WorldEvent {

}

/// Per event kind (a 64-bit type key), an ordered list of listener handles.
/// Listeners are named by caller-chosen 64-bit handles; dispatch hands each
/// handle, in registration order, to a caller-supplied dispatcher.
pub struct EventBus {
    /// The listener lists, keyed by event kind.
    pub map: Singletons<Vec<u64>>,
}

impl EventBus {
    /// The registry as the map from event kind to its listener list.
    pub open spec fn lists(self) -> Map<u64, Seq<u64>> {
        Map::new(|k: u64| self.map@.contains_key(k), |k: u64| self.map@[k]@)
    }

    /// The listeners registered for `kind`, in registration order; empty when
    /// none were ever added.
    pub open spec fn listeners_for(self, kind: u64) -> Seq<u64> {
        if self.lists().contains_key(kind) {
            self.lists()[kind]
        } else {
            Seq::empty()
        }
    }

    /// The key table is well-formed.
    pub open spec fn wf(self) -> bool {
        self.map.wf()
    }

    /// An empty registry.
    pub fn new() -> (r: Self)
        ensures
            r.wf(),
            forall|kind: u64| #[trigger] r.listeners_for(kind) == Seq::<u64>::empty(),
    {
        let r = EventBus { map: Singletons::new() };
        proof {
            assert(forall|kind: u64| !(#[trigger] r.lists().contains_key(kind)));
        }
        r
    }

    /// Appends one listener handle to an event kind's list; no other kind
    /// changes. Registration order is dispatch order.
    pub fn add_listener(&mut self, kind: u64, listener: u64)
        requires
            old(self).wf(),
            old(self).listeners_for(kind).len() < usize::MAX,
            old(self).map.entries().len() < usize::MAX,
        ensures
            final(self).wf(),
            final(self).listeners_for(kind) == old(self).listeners_for(kind).push(listener),
            forall|k2: u64|
                k2 != kind ==> #[trigger] final(self).listeners_for(k2) == old(
                    self,
                ).listeners_for(k2),
    {
        let ghost o = *old(self);
        let absent = match self.map.get(kind) {
            Some(_) => false,
            None => true,
        };
        if absent {
            let _ = self.map.insert(kind, Vec::new());
        }
        let ghost mid = self.map;
        proof {
            assert(mid@.contains_key(kind));
            if absent {
                assert(mid@[kind]@ =~= o.listeners_for(kind));
            }
        }
        let list = self.map.get_mut(kind);
        list.push(listener);
        proof {
            let i = choose|i: int|
                {
                    &&& 0 <= i < mid.entries().len()
                    &&& mid.entries()[i].0 == kind
                    &&& #[trigger] self.map.entries() == mid.entries().update(
                        i,
                        (kind, self.map.entries()[i].1),
                    )
                };
            Singletons::lemma_update_view(mid, self.map, kind, i, self.map.entries()[i].1);
            assert(self.map@ == mid@.insert(kind, self.map.entries()[i].1));
            assert(self.map.entries()[i].1@ == mid@[kind]@.push(listener));
            assert(self.listeners_for(kind) =~= o.listeners_for(kind).push(listener));
            assert forall|k2: u64|
                k2 != kind implies #[trigger] self.listeners_for(k2) == o.listeners_for(k2) by {
                assert(self.map@.contains_key(k2) == o.map@.contains_key(k2));
                if o.map@.contains_key(k2) {
                    assert(self.map@[k2] == o.map@[k2]);
                }
            }
        }
    }

    /// Removes the first occurrence of a listener handle from an event
    /// kind's list, if it is there; otherwise nothing changes.
    pub fn remove_listener(&mut self, kind: u64, listener: u64)
        requires
            old(self).wf(),
        ensures
            final(self).wf(),
            if old(self).listeners_for(kind).contains(listener) {
                exists|idx: int|
                    {
                        &&& 0 <= idx < old(self).listeners_for(kind).len()
                        &&& old(self).listeners_for(kind)[idx] == listener
                        &&& forall|i: int|
                            0 <= i < idx ==> old(self).listeners_for(kind)[i] != listener
                        &&& #[trigger] final(self).listeners_for(kind) == old(self).listeners_for(
                            kind,
                        ).remove(idx)
                    }
            } else {
                final(self).listeners_for(kind) == old(self).listeners_for(kind)
            },
            forall|k2: u64|
                k2 != kind ==> #[trigger] final(self).listeners_for(k2) == old(
                    self,
                ).listeners_for(k2),
    {
        let ghost o = *old(self);
        let found = match self.map.get(kind) {
            Some(list) => {
                let n = list.len();
                let mut i: usize = 0;
                let mut position: Option<usize> = None;
                while i < n
                    invariant
                        n == list@.len(),
                        i <= n,
                        match position {
                            Some(p) => p < i && list@[p as int] == listener && forall|k: int|
                                0 <= k < p ==> list@[k] != listener,
                            None => forall|k: int| 0 <= k < i ==> list@[k] != listener,
                        },
                    decreases n - i,
                {
                    if position.is_none() && list[i] == listener {
                        position = Some(i);
                    }
                    i = i + 1;
                }
                position
            },
            None => None,
        };
        match found {
            Some(idx) => {
                let ghost mid = self.map;
                let list = self.map.get_mut(kind);
                let _ = list.remove(idx);
                proof {
                    let i = choose|i: int|
                        {
                            &&& 0 <= i < mid.entries().len()
                            &&& mid.entries()[i].0 == kind
                            &&& #[trigger] self.map.entries() == mid.entries().update(
                                i,
                                (kind, self.map.entries()[i].1),
                            )
                        };
                    Singletons::lemma_update_view(mid, self.map, kind, i, self.map.entries()[i].1);
                    assert(self.map@ == mid@.insert(kind, self.map.entries()[i].1));
                    assert(self.map.entries()[i].1@ == mid@[kind]@.remove(idx as int));
                    assert(o.listeners_for(kind).contains(listener)) by {
                        assert(o.listeners_for(kind)[idx as int] == listener);
                    }
                    assert(self.listeners_for(kind) == o.listeners_for(kind).remove(idx as int));
                    assert forall|k2: u64|
                        k2 != kind implies #[trigger] self.listeners_for(k2) == o.listeners_for(
                        k2,
                    ) by {
                        assert(self.map@.contains_key(k2) == o.map@.contains_key(k2));
                        if o.map@.contains_key(k2) {
                            assert(self.map@[k2] == o.map@[k2]);
                        }
                    }
                }
            },
            None => {
                proof {
                    if o.listeners_for(kind).contains(listener) {
                        assert(false);
                    }
                }
            },
        }
    }

    /// A copy of the listener list for `kind`: `Some` exactly when listeners
    /// were ever registered for it.
    pub fn get_list(&self, kind: u64) -> (r: Option<Vec<u64>>)
        requires
            self.wf(),
        ensures
            match r {
                Some(l) => self.lists().contains_key(kind) && l@ == self.listeners_for(kind),
                None => !self.lists().contains_key(kind),
            },
    {
        match self.map.get(kind) {
            Some(list) => {
                let n = list.len();
                let mut out: Vec<u64> = Vec::new();
                let mut i: usize = 0;
                while i < n
                    invariant
                        n == list@.len(),
                        i <= n,
                        out@ == list@.take(i as int),
                    decreases n - i,
                {
                    out.push(list[i]);
                    proof {
                        assert(out@ =~= list@.take(i + 1));
                    }
                    i = i + 1;
                }
                proof {
                    assert(out@ =~= list@);
                }
                Some(out)
            },
            None => None,
        }
    }
}

} // verus!
