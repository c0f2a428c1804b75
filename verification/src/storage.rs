//! The shared state handed to every system: the entity store, the singleton
//! store and the event registry, bundled.

use vstd::prelude::*;

use crate::event_bus::EventBus;
use crate::event_bus::WorldEvent;
use crate::singletons::Singletons;
use crate::world::World;

verus! {

/// The one mutably-owned shared state: the world, the singleton store and
/// the event bus. Systems receive it whole and exclusively.
pub struct Storage<C, S> {
    /// The entity/component store.
    pub world: World<C>,
    /// The type-keyed singleton store.
    pub singletons: Singletons<S>,
    /// The type-keyed event/listener registry.
    pub event_bus: EventBus,
}

impl<C, S> Storage<C, S> {
    /// All three parts are well-formed.
    pub open spec fn inv(self) -> bool {
        &&& self.world.inv()
        &&& self.singletons.wf()
        &&& self.event_bus.wf()
    }

    /// A fresh storage: an empty world, no singletons, no listeners.
    pub fn new() -> (r: Self)
        ensures
            r.inv(),
            r.world@ == Map::<crate::entity::EntityId, Map<int, C>>::empty(),
            r.singletons@ == Map::<u64, S>::empty(),
            forall|kind: u64| #[trigger] r.event_bus.listeners_for(kind) == Seq::<u64>::empty(),
    {
        Storage { world: World::new(), singletons: Singletons::new(), event_bus: EventBus::new() }
    }

    /// Registers a listener handle for an event kind; dispatch order is
    /// registration order.
    pub fn add_listener(&mut self, kind: u64, listener: u64)
        requires
            old(self).event_bus.wf(),
            old(self).event_bus.listeners_for(kind).len() < usize::MAX,
            old(self).event_bus.map.entries().len() < usize::MAX,
        ensures
            final(self).event_bus.wf(),
            final(self).event_bus.listeners_for(kind) == old(self).event_bus.listeners_for(
                kind,
            ).push(listener),
            forall|k2: u64|
                k2 != kind ==> #[trigger] final(self).event_bus.listeners_for(k2) == old(self).event_bus.listeners_for(k2),
            final(self).world == old(self).world,
            final(self).singletons == old(self).singletons,
    {
        self.event_bus.add_listener(kind, listener);
    }

    /// Unregisters the first occurrence of a listener handle for an event
    /// kind, if it is there.
    pub fn remove_listener(&mut self, kind: u64, listener: u64)
        requires
            old(self).event_bus.wf(),
        ensures
            final(self).event_bus.wf(),
            old(self).event_bus.listeners_for(kind).contains(listener) ==> exists|idx: int|
                {
                    &&& 0 <= idx < old(self).event_bus.listeners_for(kind).len()
                    &&& old(self).event_bus.listeners_for(kind)[idx] == listener
                    &&& forall|i: int|
                        0 <= i < idx ==> old(self).event_bus.listeners_for(kind)[i] != listener
                    &&& #[trigger] final(self).event_bus.listeners_for(kind) == old(self).event_bus.listeners_for(kind).remove(idx)
                },
            !old(self).event_bus.listeners_for(kind).contains(listener) ==> final(self).event_bus.listeners_for(kind) == old(self).event_bus.listeners_for(kind),
            forall|k2: u64|
                k2 != kind ==> #[trigger] final(self).event_bus.listeners_for(k2) == old(self).event_bus.listeners_for(k2),
            final(self).world == old(self).world,
            final(self).singletons == old(self).singletons,
    {
        self.event_bus.remove_listener(kind, listener);
    }

    /// Emits one event: every listener registered for `kind` at the moment of
    /// the call runs synchronously, in registration order, each handed the
    /// whole storage by the dispatcher and the event by reference. Listeners
    /// added during the emit do not run. The result is witnessed by a chain
    /// of intermediate states, one per listener, each step allowed by the
    /// dispatcher's contract.
    pub fn emit<E: WorldEvent>(
        self,
        kind: u64,
        event: &E,
        dispatch: impl Fn(Storage<C, S>, u64, &E) -> Storage<C, S>,
    ) -> (r: Storage<C, S>)
        requires
            self.event_bus.wf(),
            forall|st: Storage<C, S>, id: u64|
                self.event_bus.listeners_for(kind).contains(id) ==> call_requires(
                    dispatch,
                    (st, id, event),
                ),
        ensures
            exists|chain: Seq<Storage<C, S>>|
                {
                    &&& chain.len() == self.event_bus.listeners_for(kind).len() + 1
                    &&& chain[0] == self
                    &&& chain[chain.len() - 1] == r
                    &&& forall|i: int|
                        0 <= i < self.event_bus.listeners_for(kind).len() ==> call_ensures(
                            dispatch,
                            (chain[i], self.event_bus.listeners_for(kind)[i], event),
                            #[trigger] chain[i + 1],
                        )
                },
            self.event_bus.listeners_for(kind).len() == 0 ==> r == self,
    {
        let ghost list_spec = self.event_bus.listeners_for(kind);
        let list = match self.event_bus.get_list(kind) {
            Some(l) => l,
            None => Vec::new(),
        };
        proof {
            assert(list@ == list_spec);
        }
        let n = list.len();
        let mut state = self;
        let ghost mut chain: Seq<Storage<C, S>> = seq![state];
        let mut m: usize = 0;
        while m < n
            invariant
                n == list@.len(),
                list@ == list_spec,
                forall|st: Storage<C, S>, id: u64|
                    list_spec.contains(id) ==> call_requires(dispatch, (st, id, event)),
                m <= n,
                chain.len() == m + 1,
                chain[0] == self,
                chain[m as int] == state,
                forall|i: int|
                    0 <= i < m ==> call_ensures(
                        dispatch,
                        (chain[i], list_spec[i], event),
                        #[trigger] chain[i + 1],
                    ),
            decreases n - m,
        {
            let id = list[m];
            proof {
                assert(list_spec[m as int] == id);
                assert(list_spec.contains(id));
            }
            state = dispatch(state, id, event);
            proof {
                chain = chain.push(state);
            }
            m = m + 1;
        }
        proof {
            assert(chain[chain.len() - 1] == state);
        }
        state
    }
}

} // verus!
