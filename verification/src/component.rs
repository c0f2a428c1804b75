//! Component kind registration and the homogeneous columns they live in.
//!
//! Every distinct component kind gets a small stable id on first registration.
//! The registry is keyed by a caller-chosen 64-bit type key, one per kind. A
//! column stores one kind's values for one archetype; its element type is the
//! single payload sum type a world is instantiated at, so one column
//! implementation serves every kind.

use vstd::prelude::*;

verus! {

/// A component kind's small stable id: assigned on first registration,
/// unique per kind, never reused. At most 256 kinds may ever be registered.
#[derive(Eq, PartialEq, Debug, Clone, Copy, Hash, Structural)]
pub struct ComponentTypeId(pub u8);

/// An identifier for a single component value; reserved for callers that
/// want to track individual values.
#[derive(Eq, PartialEq, Debug, Clone, Copy, Hash, Structural)]
pub struct ComponentId(pub u32);

/// Marker for a type usable as the component payload of a world. A world's
/// payload is one sum type covering every component kind of the application.
pub trait Component {

}

/// A growable column of one component kind's values for one archetype. The
/// concrete kind is erased to the payload type `C`; callers address values by
/// the kind's [`ComponentTypeId`], never by a compile-time type.
pub struct TypeErasedComponentVec<C> {
    vec: Vec<C>,
}

impl<C> View for TypeErasedComponentVec<C> {
    type V = Seq<C>;

    closed spec fn view(&self) -> Seq<C> {
        self.vec@
    }
}

impl<C> TypeErasedComponentVec<C> {
    /// An empty column.
    pub fn new() -> (r: Self)
        ensures
            r@ == Seq::<C>::empty(),
    {
        TypeErasedComponentVec { vec: Vec::new() }
    }

    /// Borrows the values.
    pub fn get(&self) -> (r: &Vec<C>)
        ensures
            r@ == self@,
    {
        &self.vec
    }

    /// Mutably borrows the values.
    pub fn get_mut(&mut self) -> (r: &mut Vec<C>)
        ensures
            r@ == old(self)@,
            final(self)@ == final(r)@,
    {
        &mut self.vec
    }

    /// Appends one value.
    pub fn push(&mut self, data: C)
        requires
            old(self)@.len() < usize::MAX,
        ensures
            final(self)@ == old(self)@.push(data),
    {
        self.vec.push(data);
    }

    /// Inserts one value at `index`, shifting later rows up.
    pub fn insert(&mut self, data: C, index: usize)
        requires
            index <= old(self)@.len(),
            old(self)@.len() < usize::MAX,
        ensures
            final(self)@ == old(self)@.insert(index as int, data),
    {
        self.vec.insert(index, data);
    }

    /// Removes the value at `index`, shifting later rows down.
    pub fn remove(&mut self, index: usize)
        requires
            index < old(self)@.len(),
        ensures
            final(self)@ == old(self)@.remove(index as int),
    {
        self.vec.remove(index);
    }

    /// Removes the value at `index`; the last row moves into the freed slot.
    pub fn swap_remove(&mut self, index: usize)
        requires
            index < old(self)@.len(),
        ensures
            final(self)@ == old(self)@.update(index as int, old(self)@.last()).drop_last(),
    {
        let _ = self.vec.swap_remove(index);
    }

    /// Moves the value at `src_index` out of `src` (by swap-remove) and
    /// appends it to `dest`.
    pub fn migrate_push(src: &mut Self, dest: &mut Self, src_index: usize)
        requires
            src_index < old(src)@.len(),
            old(dest)@.len() < usize::MAX,
        ensures
            final(src)@ == old(src)@.update(src_index as int, old(src)@.last()).drop_last(),
            final(dest)@ == old(dest)@.push(old(src)@[src_index as int]),
    {
        let element = src.vec.swap_remove(src_index);
        dest.vec.push(element);
    }

    /// Moves the value at `src_index` out of `src` (by swap-remove) and
    /// inserts it into `dest` at `dest_index`.
    pub fn migrate_insert(src: &mut Self, dest: &mut Self, src_index: usize, dest_index: usize)
        requires
            src_index < old(src)@.len(),
            dest_index <= old(dest)@.len(),
            old(dest)@.len() < usize::MAX,
        ensures
            final(src)@ == old(src)@.update(src_index as int, old(src)@.last()).drop_last(),
            final(dest)@ == old(dest)@.insert(dest_index as int, old(src)@[src_index as int]),
    {
        let element = src.vec.swap_remove(src_index);
        dest.vec.insert(dest_index, element);
    }
}

/// The per-kind operator table over erased columns. With the payload erased to
/// one sum type, every kind shares a single column implementation, so the
/// table of per-kind function pointers collapses to one uniform dispatcher;
/// the registry still hands one out per registered kind.
#[derive(Eq, PartialEq, Debug, Clone, Copy, Structural)]
pub struct ComponentVecOperator;

impl ComponentVecOperator {
    /// The operator table for one registered kind.
    pub fn new() -> (r: Self)
        ensures
            r == (ComponentVecOperator),
    {
        ComponentVecOperator
    }

    /// Creates an empty column for this kind.
    pub fn create_column<C>(&self) -> (r: TypeErasedComponentVec<C>)
        ensures
            r@ == Seq::<C>::empty(),
    {
        TypeErasedComponentVec::new()
    }

    /// Appends one value to a column of this kind.
    pub fn push_value<C>(&self, column: &mut TypeErasedComponentVec<C>, data: C)
        requires
            old(column)@.len() < usize::MAX,
        ensures
            final(column)@ == old(column)@.push(data),
    {
        column.push(data);
    }

    /// Removes the row at `index` from a column, shifting later rows down.
    pub fn remove_at<C>(&self, column: &mut TypeErasedComponentVec<C>, index: usize)
        requires
            index < old(column)@.len(),
        ensures
            final(column)@ == old(column)@.remove(index as int),
    {
        column.remove(index);
    }

    /// Removes the row at `index` from a column; the last row moves into the
    /// freed slot.
    pub fn swap_remove_at<C>(&self, column: &mut TypeErasedComponentVec<C>, index: usize)
        requires
            index < old(column)@.len(),
        ensures
            final(column)@ == old(column)@.update(index as int, old(column)@.last()).drop_last(),
    {
        column.swap_remove(index);
    }

    /// Moves one row from `src` to the end of `dest`.
    pub fn migrate_one<C>(
        &self,
        src: &mut TypeErasedComponentVec<C>,
        dest: &mut TypeErasedComponentVec<C>,
        src_index: usize,
    )
        requires
            src_index < old(src)@.len(),
            old(dest)@.len() < usize::MAX,
        ensures
            final(src)@ == old(src)@.update(src_index as int, old(src)@.last()).drop_last(),
            final(dest)@ == old(dest)@.push(old(src)@[src_index as int]),
    {
        TypeErasedComponentVec::migrate_push(src, dest, src_index);
    }

    /// Inserts one row from `src` into `dest` at `dest_index`.
    pub fn insert_at<C>(
        &self,
        src: &mut TypeErasedComponentVec<C>,
        dest: &mut TypeErasedComponentVec<C>,
        src_index: usize,
        dest_index: usize,
    )
        requires
            src_index < old(src)@.len(),
            dest_index <= old(dest)@.len(),
            old(dest)@.len() < usize::MAX,
        ensures
            final(src)@ == old(src)@.update(src_index as int, old(src)@.last()).drop_last(),
            final(dest)@ == old(dest)@.insert(dest_index as int, old(src)@[src_index as int]),
    {
        TypeErasedComponentVec::migrate_insert(src, dest, src_index, dest_index);
    }
}

/// The component registry: assigns each distinct type key a stable
/// [`ComponentTypeId`] on first registration and keeps, per kind, a display
/// name and an operator table.
pub struct Components {
    keys: Vec<u64>,
    names: Vec<String>,
    operators: Vec<ComponentVecOperator>,
}

impl Components {
    /// The registered type keys in registration order; a kind's id is its
    /// position here.
    pub closed spec fn keys_seq(self) -> Seq<u64> {
        self.keys@
    }

    /// The registered display names, parallel to `keys_seq`.
    pub closed spec fn names_seq(self) -> Seq<Seq<char>> {
        self.names@.map_values(|s: String| s@)
    }

    /// How many kinds are registered.
    pub open spec fn num_registered(self) -> int {
        self.keys_seq().len() as int
    }

    /// Registered type keys are distinct, at most 256 kinds exist, and the
    /// side tables stay parallel to the key table.
    pub open spec fn wf(self) -> bool {
        &&& forall|i: int, j: int|
            0 <= i < j < self.keys_seq().len() ==> self.keys_seq()[i] != self.keys_seq()[j]
        &&& self.keys_seq().len() <= 256
        &&& self.names_seq().len() == self.keys_seq().len()
        &&& self.spec_operator_count() == self.keys_seq().len()
    }

    /// How many operator tables are stored.
    pub closed spec fn spec_operator_count(self) -> int {
        self.operators@.len() as int
    }

    /// Whether `key` has been registered.
    pub open spec fn registered_key(self, key: u64) -> bool {
        self.keys_seq().contains(key)
    }

    /// Whether `id` names a registered kind.
    pub open spec fn registered_id(self, id: ComponentTypeId) -> bool {
        id.0 < self.num_registered()
    }

    /// An empty registry.
    pub fn new() -> (r: Self)
        ensures
            r.wf(),
            r.keys_seq() == Seq::<u64>::empty(),
    {
        Components { keys: Vec::new(), names: Vec::new(), operators: Vec::new() }
    }

    /// Registers the kind with the given type key, or finds it if it was
    /// registered before: the same key always yields the same id, and a new
    /// key gets the next id. At most 256 distinct kinds may ever be
    /// registered; registering a 257th is a programmer error and is excluded.
    pub fn register_component(&mut self, key: u64, name: String) -> (r: ComponentTypeId)
        requires
            old(self).wf(),
            old(self).registered_key(key) || old(self).num_registered() < 256,
        ensures
            final(self).wf(),
            final(self).registered_key(key),
            final(self).keys_seq()[r.0 as int] == key,
            r.0 < final(self).num_registered(),
            old(self).registered_key(key) ==> *final(self) == *old(self),
            !old(self).registered_key(key) ==> {
                &&& final(self).keys_seq() == old(self).keys_seq().push(key)
                &&& final(self).names_seq() == old(self).names_seq().push(name@)
                &&& r.0 == old(self).num_registered()
            },
    {
        let n = self.keys.len();
        let mut i: usize = 0;
        while i < n
            invariant
                *self == *old(self),
                self.wf(),
                n == self.keys@.len(),
                i <= n,
                forall|k: int| 0 <= k < i ==> self.keys@[k] != key,
            decreases n - i,
        {
            if self.keys[i] == key {
                proof {
                    assert(i < 256);
                    assert(self.keys_seq().contains(key)) by {
                        assert(self.keys_seq()[i as int] == key);
                    }
                }
                return ComponentTypeId(i as u8);
            }
            i = i + 1;
        }
        let id = ComponentTypeId(n as u8);
        self.keys.push(key);
        self.names.push(name);
        self.operators.push(ComponentVecOperator::new());
        proof {
            assert(self.names_seq() =~= old(self).names_seq().push(self.names@.last()@));
            assert(self.keys_seq().last() == key);
        }
        id
    }

    /// Looks the type key up: `Some` exactly when the key was registered, and
    /// then the id it was assigned.
    pub fn get_component_id(&self, key: u64) -> (r: Option<ComponentTypeId>)
        requires
            self.wf(),
        ensures
            match r {
                Some(id) => self.registered_id(id) && self.keys_seq()[id.0 as int] == key,
                None => !self.registered_key(key),
            },
    {
        let n = self.keys.len();
        let mut i: usize = 0;
        while i < n
            invariant
                self.wf(),
                n == self.keys@.len(),
                i <= n,
                forall|k: int| 0 <= k < i ==> self.keys@[k] != key,
            decreases n - i,
        {
            if self.keys[i] == key {
                proof {
                    assert(i < 256);
                }
                return Some(ComponentTypeId(i as u8));
            }
            i = i + 1;
        }
        proof {
            assert(!self.keys_seq().contains(key));
        }
        None
    }

    /// The operator table for a kind: `Some` exactly when the id is
    /// registered.
    pub fn get_component_vec_operator(&self, id: &ComponentTypeId) -> (r: Option<
        &ComponentVecOperator,
    >)
        requires
            self.wf(),
        ensures
            r.is_some() == self.registered_id(*id),
    {
        if (id.0 as usize) < self.operators.len() {
            Some(&self.operators[id.0 as usize])
        } else {
            None
        }
    }

    /// The display name a registered kind was given. Asking for an
    /// unregistered kind is a programmer error and is excluded.
    pub fn get_name(&self, id: &ComponentTypeId) -> (r: &String)
        requires
            self.wf(),
            self.registered_id(*id),
        ensures
            r@ == self.names_seq()[id.0 as int],
    {
        &self.names[id.0 as usize]
    }
}

} // verus!
