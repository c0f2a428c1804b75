//! Entity handles and their allocator.

use vstd::prelude::*;

verus! {

/// A 64-bit entity handle. Handles are allocated monotonically, are unique for
/// the lifetime of a world, and are never reused.
#[derive(Debug, Eq, PartialEq, Clone, Copy, Hash, Structural)]
pub struct EntityId(pub u64);

impl EntityId {
    /// Wraps a raw 64-bit handle.
    pub fn new(id: u64) -> (r: Self)
        ensures
            r.0 == id,
    {
        EntityId(id)
    }
}

/// A by-reference view of an entity; carries no data of its own.
pub struct EntityRef {}

/// Allocates entity handles by counting upward from zero.
pub struct Entities {
    counter: u64,
}

impl Entities {
    /// How many handles have been given out so far; also the next handle.
    pub closed spec fn spec_counter(self) -> u64 {
        self.counter
    }

    /// A fresh allocator whose first handle will be 0.
    pub fn new() -> (r: Self)
        ensures
            r.spec_counter() == 0,
    {
        Entities { counter: 0 }
    }

    /// Hands out the next handle. Every handle returned is distinct from all
    /// earlier ones, since the counter only grows.
    pub fn get_new_entity_id(&mut self) -> (r: EntityId)
        requires
            old(self).spec_counter() < u64::MAX,
        ensures
            r.0 == old(self).spec_counter(),
            final(self).spec_counter() == old(self).spec_counter() + 1,
    {
        let id = self.counter;
        self.counter = self.counter + 1;
        EntityId(id)
    }
}

} // verus!
