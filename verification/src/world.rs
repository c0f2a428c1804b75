//! The world: component registry, archetype table and entity index, with the
//! insert, remove, migrate and query operations over them.
//!
//! In specifications a world is viewed as the map from each live entity to its
//! component map (component id to value). Every operation's contract says how
//! it changes that view.

use std::collections::HashMap;

use vstd::prelude::*;

use crate::archetype::Archetype;
use crate::archetype::pair_value;
use crate::archetype::pairs_has;
use crate::archetype::pairs_map;
use crate::bitset::BitSet;
use crate::component::ComponentTypeId;
use crate::component::Components;
use crate::entity::Entities;
use crate::entity::EntityId;
use crate::stage::SystemStage;

verus! {

broadcast use vstd::std_specs::hash::group_hash_axioms, crate::archetype::lemma_spec_len_nonneg;

/// The reserved type key under which the entity-id column kind is registered
/// as the very first component kind (id 0) of every world.
pub const ENTITY_TYPE_KEY: u64 = 0;

/// The position of the archetype whose bit set is `b`, if one is there.
pub open spec fn arch_index_in<C>(archs: Seq<Archetype<C>>, b: BitSet) -> int {
    choose|k: int| 0 <= k < archs.len() && (#[trigger] archs[k]).spec_bitset() == b
}

/// Whether some archetype in `archs` has bit set `b`.
pub open spec fn has_arch_in<C>(archs: Seq<Archetype<C>>, b: BitSet) -> bool {
    exists|k: int| 0 <= k < archs.len() && (#[trigger] archs[k]).spec_bitset() == b
}

/// The row of entity `e` in archetype `a`.
pub open spec fn row_in<C>(a: Archetype<C>, e: EntityId) -> int {
    choose|j: int| 0 <= j < a.entities().len() && (#[trigger] a.entities()[j]) == e
}

/// Under pairwise distinct bit sets, `arch_index_in` is the one position of
/// the archetype with bit set `b`.
pub proof fn lemma_arch_index_unique<C>(archs: Seq<Archetype<C>>, b: BitSet)
    requires
        forall|k1: int, k2: int|
            0 <= k1 < k2 < archs.len() ==> (#[trigger] archs[k1]).spec_bitset() != (
            #[trigger] archs[k2]).spec_bitset(),
        has_arch_in(archs, b),
    ensures
        0 <= arch_index_in(archs, b) < archs.len(),
        archs[arch_index_in(archs, b)].spec_bitset() == b,
        forall|k: int|
            0 <= k < archs.len() && (#[trigger] archs[k]).spec_bitset() == b ==> k == arch_index_in(
                archs,
                b,
            ),
{
    let ki = arch_index_in(archs, b);
    assert(0 <= ki < archs.len() && archs[ki].spec_bitset() == b);
    assert forall|k: int|
        0 <= k < archs.len() && (#[trigger] archs[k]).spec_bitset() == b implies k == ki by {
        if k < ki {
            assert(archs[k].spec_bitset() != archs[ki].spec_bitset());
        } else if ki < k {
            assert(archs[ki].spec_bitset() != archs[k].spec_bitset());
        }
    }
}

/// Under a duplicate-free entity column, `row_in` is the one row holding `e`.
pub proof fn lemma_row_unique<C>(a: Archetype<C>, e: EntityId)
    requires
        forall|j1: int, j2: int|
            0 <= j1 < j2 < a.entities().len() ==> (#[trigger] a.entities()[j1]) != (
            #[trigger] a.entities()[j2]),
        a.entities().contains(e),
    ensures
        0 <= row_in(a, e) < a.entities().len(),
        a.entities()[row_in(a, e)] == e,
        forall|j: int|
            0 <= j < a.entities().len() && (#[trigger] a.entities()[j]) == e ==> j == row_in(a, e),
{
    let jw = choose|j: int| 0 <= j < a.entities().len() && a.entities()[j] == e;
    assert(0 <= row_in(a, e) < a.entities().len() && a.entities()[row_in(a, e)] == e);
    let ji = row_in(a, e);
    assert forall|j: int|
        0 <= j < a.entities().len() && (#[trigger] a.entities()[j]) == e implies j == ji by {
        if j < ji {
            assert(a.entities()[j] != a.entities()[ji]);
        } else if ji < j {
            assert(a.entities()[ji] != a.entities()[j]);
        }
    }
}

/// Dropping the pair at `pos` from a duplicate-free pair row removes exactly
/// its component id from the row's map.
proof fn lemma_pairs_remove<C>(s: Seq<(ComponentTypeId, C)>, pos: int)
    requires
        0 <= pos < s.len(),
        forall|m1: int, m2: int|
            0 <= m1 < m2 < s.len() ==> (#[trigger] s[m1]).0.0 != (#[trigger] s[m2]).0.0,
    ensures
        pairs_map(s.remove(pos)) == pairs_map(s).remove(s[pos].0.0 as int),
{
    let t = s.remove(pos);
    let c0 = s[pos].0.0 as int;
    assert forall|c: int| #[trigger] pairs_has(t, c) == (pairs_has(s, c) && c != c0) by {
        if pairs_has(t, c) {
            let m = choose|m: int| 0 <= m < t.len() && (#[trigger] t[m]).0.0 == c;
            let m2: int = if m < pos {
                m
            } else {
                m + 1
            };
            assert(t[m] == s[m2]);
            assert(pairs_has(s, c));
            if c == c0 {
                if m2 < pos {
                    assert(s[m2].0.0 != s[pos].0.0);
                } else {
                    assert(s[pos].0.0 != s[m2].0.0);
                }
                assert(false);
            }
        }
        if pairs_has(s, c) && c != c0 {
            let m = choose|m: int| 0 <= m < s.len() && (#[trigger] s[m]).0.0 == c;
            assert(m != pos);
            let m2: int = if m < pos {
                m
            } else {
                m - 1
            };
            assert(t[m2] == s[m]);
            assert(pairs_has(t, c));
        }
    }
    assert forall|c: int| pairs_has(t, c) implies #[trigger] pair_value(t, c) == pair_value(
        s,
        c,
    ) by {
        let m = crate::archetype::pair_index(t, c);
        assert(0 <= m < t.len() && t[m].0.0 == c);
        let m2: int = if m < pos {
            m
        } else {
            m + 1
        };
        assert(t[m] == s[m2]);
        let m3 = crate::archetype::pair_index(s, c);
        assert(0 <= m3 < s.len() && s[m3].0.0 == c);
        if m2 < m3 {
            assert(s[m2].0.0 != s[m3].0.0);
        } else if m3 < m2 {
            assert(s[m3].0.0 != s[m2].0.0);
        }
        assert(m2 == m3);
    }
    assert(pairs_map(t) =~= pairs_map(s).remove(c0));
}

/// The position of the pair carrying component id `id` in a pair row.
fn find_pair<C>(pairs: &Vec<(ComponentTypeId, C)>, id: ComponentTypeId) -> (r: Option<usize>)
    ensures
        match r {
            Some(p) => p < pairs@.len() && pairs@[p as int].0 == id,
            None => !pairs_has(pairs@, id.0 as int),
        },
{
    let n = pairs.len();
    let mut i: usize = 0;
    while i < n
        invariant
            n == pairs@.len(),
            i <= n,
            forall|m: int| 0 <= m < i ==> (#[trigger] pairs@[m]).0.0 != id.0,
        decreases n - i,
    {
        if pairs[i].0 == id {
            return Some(i);
        }
        proof {
            assert(pairs@[i as int].0.0 != id.0);
        }
        i = i + 1;
    }
    None
}

/// The total number of rows over all archetypes.
pub open spec fn total_rows<C>(archs: Seq<Archetype<C>>) -> int
    decreases archs.len(),
{
    if archs.len() == 0 {
        0
    } else {
        total_rows(archs.drop_last()) + archs.last().spec_len()
    }
}

/// Appending an archetype adds its rows to the total.
proof fn lemma_total_rows_push<C>(archs: Seq<Archetype<C>>, a: Archetype<C>)
    ensures
        total_rows(archs.push(a)) == total_rows(archs) + a.spec_len(),
{
    assert(archs.push(a).drop_last() =~= archs);
    assert(archs.push(a).last() == a);
}

/// Replacing one archetype changes the total by the difference in row count.
proof fn lemma_total_rows_update<C>(archs: Seq<Archetype<C>>, k: int, a: Archetype<C>)
    requires
        0 <= k < archs.len(),
    ensures
        total_rows(archs.update(k, a)) == total_rows(archs) - archs[k].spec_len() + a.spec_len(),
    decreases archs.len(),
{
    let upd = archs.update(k, a);
    if k == archs.len() - 1 {
        assert(upd.drop_last() =~= archs.drop_last());
        assert(upd.last() == a);
    } else {
        assert(upd.drop_last() =~= archs.drop_last().update(k, a));
        assert(upd.last() == archs.last());
        lemma_total_rows_update(archs.drop_last(), k, a);
    }
}

/// Every archetype's rows are at most the total, when no count is negative.
proof fn lemma_total_rows_bound<C>(archs: Seq<Archetype<C>>, k: int)
    requires
        0 <= k < archs.len(),
    ensures
        archs[k].spec_len() <= total_rows(archs),
        total_rows(archs) >= 0,
    decreases archs.len(),
{
    if k == archs.len() - 1 {
        lemma_total_rows_nonneg(archs.drop_last());
    } else {
        lemma_total_rows_bound(archs.drop_last(), k);
        assert(archs[k] == archs.drop_last()[k]);
    }
}

/// Total row count is never negative.
proof fn lemma_total_rows_nonneg<C>(archs: Seq<Archetype<C>>)
    ensures
        total_rows(archs) >= 0,
    decreases archs.len(),
{
    if archs.len() > 0 {
        lemma_total_rows_nonneg(archs.drop_last());
    }
}

/// The archetype-based entity/component store: a registry of component kinds,
/// a table of archetypes, and the index from each live entity to the bit set
/// of its archetype.
pub struct World<C> {
    /// The component registry.
    pub components: Components,
    /// The entity handle allocator.
    pub entities: Entities,
    /// The archetypes, in creation order.
    pub archetype_id_map: Vec<Archetype<C>>,
    /// Maps each live entity to its archetype's bit set.
    pub entity_archetype_map: HashMap<u64, BitSet>,
    /// The id the entity-id column kind was registered under: always 0.
    pub entity_id_id: ComponentTypeId,
}

impl<C> World<C> {
    /// The archetypes, in creation order.
    pub open spec fn archs(self) -> Seq<Archetype<C>> {
        self.archetype_id_map@
    }

    /// The entity index: each live entity's archetype bit set.
    pub open spec fn index_map(self) -> Map<u64, BitSet> {
        self.entity_archetype_map@
    }

    /// The id under which the entity-id column kind was registered.
    pub open spec fn spec_entity_id_id(self) -> ComponentTypeId {
        self.entity_id_id
    }

    /// Whether entity `e` is alive: created and not yet removed.
    pub open spec fn live(self, e: EntityId) -> bool {
        self.index_map().contains_key(e.0)
    }

    /// Whether an archetype with bit set `b` exists.
    pub open spec fn has_arch(self, b: BitSet) -> bool {
        has_arch_in(self.archs(), b)
    }

    /// The archetype holding live entity `e`.
    pub open spec fn arch_of(self, e: EntityId) -> Archetype<C> {
        self.archs()[arch_index_in(self.archs(), self.index_map()[e.0])]
    }

    /// Live entity `e`'s components: the map from component id to value.
    pub open spec fn components_of(self, e: EntityId) -> Map<int, C> {
        self.arch_of(e).row_map(row_in(self.arch_of(e), e))
    }

    /// The row count of the archetype with bit set `b`; 0 if none exists.
    pub open spec fn arch_len_at(self, b: BitSet) -> int {
        if has_arch_in(self.archs(), b) {
            self.archs()[arch_index_in(self.archs(), b)].spec_len()
        } else {
            0
        }
    }

    /// The world invariant.
    ///
    /// The registry is well-formed with the entity kind at id 0; every
    /// archetype is well-formed with columns of equal row count, their bit
    /// sets are pairwise distinct, and each column's id is registered; the
    /// index and the entity columns agree exactly: an entity is indexed if
    /// and only if it owns exactly one row, in the archetype whose bit set
    /// the index names; and every stored handle is below the allocator's
    /// counter.
    pub open spec fn inv(self) -> bool {
        &&& self.components.wf()
        &&& self.components.num_registered() >= 1
        &&& self.components.keys_seq()[0] == ENTITY_TYPE_KEY
        &&& self.spec_entity_id_id() == (ComponentTypeId(0))
        &&& forall|k: int| 0 <= k < self.archs().len() ==> (#[trigger] self.archs()[k]).wf()
        &&& forall|k1: int, k2: int|
            0 <= k1 < k2 < self.archs().len() ==> (#[trigger] self.archs()[k1]).spec_bitset() != (
            #[trigger] self.archs()[k2]).spec_bitset()
        &&& forall|k: int, c: int|
            #![trigger self.archs()[k].has_col(c)]
            0 <= k < self.archs().len() && self.archs()[k].has_col(c) ==> 0 < c
                < self.components.num_registered()
        &&& forall|e: u64|
            #[trigger] self.index_map().contains_key(e) ==> {
                &&& self.has_arch(self.index_map()[e])
                &&& self.archs()[arch_index_in(self.archs(), self.index_map()[e])].entities(
                ).contains(EntityId(e))
                &&& e < self.entities.spec_counter()
            }
        &&& forall|k: int, j: int|
            #![trigger self.archs()[k].entities()[j]]
            0 <= k < self.archs().len() && 0 <= j < self.archs()[k].entities().len() ==> {
                &&& self.index_map().contains_key(self.archs()[k].entities()[j].0)
                &&& self.index_map()[self.archs()[k].entities()[j].0] == self.archs()[
                    k].spec_bitset()
            }
        &&& forall|k: int, j1: int, j2: int|
            #![trigger self.archs()[k].entities()[j1], self.archs()[k].entities()[j2]]
            0 <= k < self.archs().len() && 0 <= j1 < j2 < self.archs()[k].entities().len()
                ==> self.archs()[k].entities()[j1] != self.archs()[k].entities()[j2]
        &&& total_rows(self.archs()) <= self.entities.spec_counter()
    }

    /// Under distinct bit sets, `arch_index_in` is the one position of `b`.
    pub proof fn lemma_arch_index(self, b: BitSet)
        requires
            self.inv(),
            self.has_arch(b),
        ensures
            0 <= arch_index_in(self.archs(), b) < self.archs().len(),
            self.archs()[arch_index_in(self.archs(), b)].spec_bitset() == b,
            forall|k: int|
                0 <= k < self.archs().len() && (#[trigger] self.archs()[k]).spec_bitset() == b ==> k
                    == arch_index_in(self.archs(), b),
    {
        let ki = arch_index_in(self.archs(), b);
        assert(0 <= ki < self.archs().len() && self.archs()[ki].spec_bitset() == b);
        assert forall|k: int|
            0 <= k < self.archs().len() && (#[trigger] self.archs()[k]).spec_bitset() == b implies k
            == ki by {
            if k < ki {
                assert(self.archs()[k].spec_bitset() != self.archs()[ki].spec_bitset());
            } else if ki < k {
                assert(self.archs()[ki].spec_bitset() != self.archs()[k].spec_bitset());
            }
        }
    }

    /// For a live entity, `row_in` is the one row holding it in its
    /// archetype.
    pub proof fn lemma_row_of(self, e: EntityId)
        requires
            self.inv(),
            self.live(e),
        ensures
            0 <= row_in(self.arch_of(e), e) < self.arch_of(e).entities().len(),
            self.arch_of(e).entities()[row_in(self.arch_of(e), e)] == e,
            forall|j: int|
                0 <= j < self.arch_of(e).entities().len() && (#[trigger] self.arch_of(e).entities(
                )[j]) == e ==> j == row_in(self.arch_of(e), e),
    {
        self.lemma_arch_index(self.index_map()[e.0]);
        let a = self.arch_of(e);
        let ki = arch_index_in(self.archs(), self.index_map()[e.0]);
        assert(a.entities().contains(EntityId(e.0)));
        let jw = choose|j: int| 0 <= j < a.entities().len() && a.entities()[j] == EntityId(e.0);
        assert(EntityId(e.0) == e);
        assert(0 <= row_in(a, e) < a.entities().len() && a.entities()[row_in(a, e)] == e);
        let ji = row_in(a, e);
        assert forall|j: int|
            0 <= j < a.entities().len() && (#[trigger] a.entities()[j]) == e implies j == ji by {
            if j < ji {
                assert(self.archs()[ki].entities()[j] != self.archs()[ki].entities()[ji]);
            } else if ji < j {
                assert(self.archs()[ki].entities()[ji] != self.archs()[ki].entities()[j]);
            }
        }
    }

    /// A fresh world: no entities, no archetypes, and the entity-id column
    /// kind registered as component kind 0.
    pub fn new() -> (r: Self)
        ensures
            r.inv(),
            r@ == Map::<EntityId, Map<int, C>>::empty(),
            r.entities.spec_counter() == 0,
            r.components.num_registered() == 1,
            r.archs().len() == 0,
    {
        let mut components = Components::new();
        let entity_id_id = components.register_component(ENTITY_TYPE_KEY, String::new());
        let r = World {
            entities: Entities::new(),
            archetype_id_map: Vec::new(),
            entity_archetype_map: HashMap::new(),
            components,
            entity_id_id,
        };
        proof {
            assert(r@ =~= Map::<EntityId, Map<int, C>>::empty());
        }
        r
    }

    /// Hands out the next entity handle.
    fn get_new_entity_id(&mut self) -> (r: EntityId)
        requires
            old(self).entities.spec_counter() < u64::MAX,
        ensures
            r.0 == old(self).entities.spec_counter(),
            final(self).entities.spec_counter() == old(self).entities.spec_counter() + 1,
            final(self).components == old(self).components,
            final(self).archs() == old(self).archs(),
            final(self).index_map() == old(self).index_map(),
            final(self).spec_entity_id_id() == old(self).spec_entity_id_id(),
    {
        self.entities.get_new_entity_id()
    }

    /// Registers a component kind under the caller's type key, or finds it if
    /// that key was registered before. The world's contents are unchanged.
    pub fn register_component(&mut self, key: u64, name: String) -> (r: ComponentTypeId)
        requires
            old(self).inv(),
            old(self).components.registered_key(key) || old(self).components.num_registered()
                < 256,
        ensures
            final(self).inv(),
            final(self)@ == old(self)@,
            final(self).components.registered_key(key),
            final(self).components.keys_seq()[r.0 as int] == key,
            r.0 < final(self).components.num_registered(),
            old(self).components.registered_key(key) ==> final(self).components == old(
                self,
            ).components,
            !old(self).components.registered_key(key) ==> final(self).components.keys_seq() == old(
                self,
            ).components.keys_seq().push(key),
            final(self).entities == old(self).entities,
            final(self).archs() == old(self).archs(),
            final(self).index_map() == old(self).index_map(),
    {
        let r = self.components.register_component(key, name);
        proof {
            assert(self@ =~= old(self)@);
            assert(total_rows(self.archs()) == total_rows(old(self).archs()));
            assert forall|e: u64| #[trigger] self.index_map().contains_key(e) implies {
                &&& self.has_arch(self.index_map()[e])
                &&& self.archs()[arch_index_in(self.archs(), self.index_map()[e])].entities(
                ).contains(EntityId(e))
                &&& e < self.entities.spec_counter()
            } by {
                assert(old(self).index_map().contains_key(e));
                assert(old(self).has_arch(old(self).index_map()[e]));
            }
            assert(self.inv());
        }
        r
    }

    /// The bit set holding exactly the given component ids.
    fn get_bit_set_id(&self, type_ids: &Vec<ComponentTypeId>) -> (r: BitSet)
        ensures
            forall|c: int|
                #![trigger r@.contains(c)]
                r@.contains(c) <==> exists|m: int|
                    0 <= m < type_ids@.len() && (#[trigger] type_ids@[m]).0 == c,
    {
        let mut bitset = BitSet::new();
        let n = type_ids.len();
        let mut m: usize = 0;
        while m < n
            invariant
                n == type_ids@.len(),
                m <= n,
                forall|c: int|
                    #![trigger bitset@.contains(c)]
                    bitset@.contains(c) <==> exists|m2: int|
                        0 <= m2 < m && (#[trigger] type_ids@[m2]).0 == c,
            decreases n - m,
        {
            let ghost prev = bitset;
            bitset.insert_id(type_ids[m].0);
            proof {
                let c0 = type_ids@[m as int].0 as int;
                assert forall|c: int| #![trigger bitset@.contains(c)] bitset@.contains(c) <==> (
                exists|m2: int| 0 <= m2 < m + 1 && (#[trigger] type_ids@[m2]).0 == c) by {
                    assert(bitset@.contains(c) <==> (prev@.contains(c) || c == c0));
                    if bitset@.contains(c) {
                        if prev@.contains(c) {
                            let m2 = choose|m2: int|
                                0 <= m2 < m && (#[trigger] type_ids@[m2]).0 == c;
                            assert(0 <= m2 < m + 1 && type_ids@[m2].0 == c);
                        } else {
                            assert(type_ids@[m as int].0 == c);
                        }
                    }
                    if exists|m2: int| 0 <= m2 < m + 1 && (#[trigger] type_ids@[m2]).0 == c {
                        let m2 = choose|m2: int| 0 <= m2 < m + 1 && (#[trigger] type_ids@[m2]).0 == c;
                        if m2 < m {
                            assert(prev@.contains(c));
                        } else {
                            assert(c == c0);
                        }
                    }
                }
            }
            m = m + 1;
        }
        bitset
    }

    /// The position of the archetype with bit set `bitset`, if one exists.
    fn find_archetype(&self, bitset: &BitSet) -> (r: Option<usize>)
        ensures
            match r {
                Some(k) => k < self.archs().len() && self.archs()[k as int].spec_bitset()
                    == *bitset,
                None => !self.has_arch(*bitset),
            },
    {
        let n = self.archetype_id_map.len();
        let mut k: usize = 0;
        while k < n
            invariant
                n == self.archs().len(),
                k <= n,
                forall|k2: int| 0 <= k2 < k ==> (#[trigger] self.archs()[k2]).spec_bitset() != *bitset,
            decreases n - k,
        {
            if self.archetype_id_map[k].get_bitset() == *bitset {
                return Some(k);
            }
            k = k + 1;
        }
        None
    }

    /// A fresh, empty archetype with one column per given id, plus the entity
    /// column.
    fn create_archetype_from_type_ids(&mut self, type_ids: &Vec<ComponentTypeId>) -> (r: Archetype<
        C,
    >)
        requires
            old(self).components.wf(),
            forall|m1: int, m2: int|
                0 <= m1 < m2 < type_ids@.len() ==> (#[trigger] type_ids@[m1]).0 != (
                #[trigger] type_ids@[m2]).0,
            forall|m: int| 0 <= m < type_ids@.len() ==> (#[trigger] type_ids@[m]).0 != 0,
            forall|m: int|
                0 <= m < type_ids@.len() ==> old(self).components.registered_id(
                    #[trigger] type_ids@[m],
                ),
        ensures
            *final(self) == *old(self),
            r.wf(),
            r.spec_len() == 0,
            r.entities() == Seq::<EntityId>::empty(),
            r.ids() == type_ids@,
            forall|c: int|
                #![trigger r.spec_bitset()@.contains(c)]
                r.spec_bitset()@.contains(c) <==> (c == 0 || exists|m: int|
                    0 <= m < type_ids@.len() && (#[trigger] type_ids@[m]).0 == c),
    {
        let mut archetype = Archetype::new();
        let n = type_ids.len();
        let mut m: usize = 0;
        while m < n
            invariant
                *self == *old(self),
                self.components.wf(),
                n == type_ids@.len(),
                m <= n,
                forall|m1: int, m2: int|
                    0 <= m1 < m2 < type_ids@.len() ==> (#[trigger] type_ids@[m1]).0 != (
                    #[trigger] type_ids@[m2]).0,
                forall|m2: int| 0 <= m2 < type_ids@.len() ==> (#[trigger] type_ids@[m2]).0 != 0,
                forall|m2: int|
                    0 <= m2 < type_ids@.len() ==> self.components.registered_id(
                        #[trigger] type_ids@[m2],
                    ),
                archetype.wf(),
                archetype.spec_len() == 0,
                archetype.entities() == Seq::<EntityId>::empty(),
                archetype.ids() == type_ids@.take(m as int),
            decreases n - m,
        {
            let id = type_ids[m];
            proof {
                if archetype.has_col(id.0 as int) {
                    let k = choose|k: int|
                        0 <= k < archetype.ids().len() && (#[trigger] archetype.ids()[k]).0 == id.0;
                    assert(type_ids@.take(m as int)[k] == type_ids@[k]);
                    assert(type_ids@[k].0 == type_ids@[m as int].0);
                    assert(false);
                }
            }
            let operator = match self.components.get_component_vec_operator(&id) {
                Some(op) => *op,
                None => unreached(),
            };
            let column = operator.create_column();
            archetype.insert_column(id, column);
            proof {
                assert(archetype.ids() =~= type_ids@.take(m as int + 1));
            }
            m = m + 1;
        }
        proof {
            assert(archetype.ids() =~= type_ids@);
            assert forall|c: int|
                #![trigger archetype.spec_bitset()@.contains(c)]
                archetype.spec_bitset()@.contains(c) <==> (c == 0 || exists|m2: int|
                    0 <= m2 < type_ids@.len() && (#[trigger] type_ids@[m2]).0 == c) by {
                assert(archetype.spec_bitset()@.contains(c) <==> (c == 0 || archetype.has_col(c)));
                if archetype.has_col(c) {
                    let k = choose|k: int|
                        0 <= k < archetype.ids().len() && (#[trigger] archetype.ids()[k]).0 == c;
                    assert(type_ids@[k].0 == c);
                }
                if exists|m2: int| 0 <= m2 < type_ids@.len() && (#[trigger] type_ids@[m2]).0 == c {
                    let m2 = choose|m2: int|
                        0 <= m2 < type_ids@.len() && (#[trigger] type_ids@[m2]).0 == c;
                    assert(archetype.ids()[m2].0 == c);
                    assert(archetype.has_col(c));
                }
            }
        }
        archetype
    }
}

impl<C> World<C> {
    /// Creates one entity from `(id, value)` pairs, one pair per distinct
    /// registered component kind: allocates a fresh handle, finds or lazily
    /// creates the archetype for exactly that kind set, appends one row to
    /// every column, and points the entity index at it. Returns the handle.
    /// Afterwards the world maps the new entity to exactly the given pairs.
    pub fn insert_entity(&mut self, component_set: Vec<(ComponentTypeId, C)>) -> (r: EntityId)
        requires
            old(self).inv(),
            old(self).entities.spec_counter() < usize::MAX as u64,
            forall|m1: int, m2: int|
                0 <= m1 < m2 < component_set@.len() ==> (#[trigger] component_set@[m1]).0.0 != (
                #[trigger] component_set@[m2]).0.0,
            forall|m: int|
                0 <= m < component_set@.len() ==> (#[trigger] component_set@[m]).0.0 != 0,
            forall|m: int|
                0 <= m < component_set@.len() ==> old(self).components.registered_id(
                    (#[trigger] component_set@[m]).0,
                ),
        ensures
            final(self).inv(),
            r.0 == old(self).entities.spec_counter(),
            !old(self).live(r),
            final(self).live(r),
            final(self)@ == old(self)@.insert(r, pairs_map(component_set@)),
            final(self).entities.spec_counter() == old(self).entities.spec_counter() + 1,
            final(self).components == old(self).components,
            final(self).spec_entity_id_id() == old(self).spec_entity_id_id(),
    {
        let ghost o = *old(self);
        let ghost cs = component_set@;
        let entity_id = self.get_new_entity_id();
        let ghost s1 = *self;
        let mut type_ids: Vec<ComponentTypeId> = Vec::new();
        let n = component_set.len();
        let mut m: usize = 0;
        while m < n
            invariant
                *self == s1,
                n == cs.len(),
                m <= n,
                component_set@ == cs,
                type_ids@.len() == m as int,
                forall|i: int| 0 <= i < m ==> (#[trigger] type_ids@[i]) == cs[i].0,
            decreases n - m,
        {
            let id = component_set[m].0;
            type_ids.push(id);
            m = m + 1;
        }
        proof {
            assert forall|m1: int, m2: int|
                0 <= m1 < m2 < type_ids@.len() implies (#[trigger] type_ids@[m1]).0 != (
            #[trigger] type_ids@[m2]).0 by {
                assert(type_ids@[m1] == cs[m1].0 && type_ids@[m2] == cs[m2].0);
            }
            assert forall|i: int| 0 <= i < type_ids@.len() implies (#[trigger] type_ids@[i]).0
                != 0 && o.components.registered_id(type_ids@[i]) by {
                assert(type_ids@[i] == cs[i].0);
            }
        }
        let mut bitset = self.get_bit_set_id(&type_ids);
        bitset.insert_id(self.entity_id_id.0);
        proof {
            assert(self.entity_id_id == (ComponentTypeId(0)));
            assert forall|c: int|
                #![trigger bitset@.contains(c)]
                bitset@.contains(c) <==> (c == 0 || pairs_has(cs, c)) by {
                if pairs_has(cs, c) {
                    let mm = choose|mm: int| 0 <= mm < cs.len() && (#[trigger] cs[mm]).0.0 == c;
                    assert(type_ids@[mm].0 == c);
                }
                if exists|m2: int| 0 <= m2 < type_ids@.len() && (#[trigger] type_ids@[m2]).0 == c {
                    let m2 = choose|m2: int|
                        0 <= m2 < type_ids@.len() && (#[trigger] type_ids@[m2]).0 == c;
                    assert(cs[m2].0.0 == c);
                    assert(pairs_has(cs, c));
                }
            }
        }
        let found = self.find_archetype(&bitset);
        match found {
            Some(kk) => {
                let ghost prior = self.archs()[kk as int];
                proof {
                    lemma_total_rows_bound(o.archs(), kk as int);
                    assert(prior.spec_len() < usize::MAX);
                    assert forall|m2: int|
                        0 <= m2 < cs.len() implies prior.has_col(
                        (#[trigger] cs[m2]).0.0 as int,
                    ) by {
                        assert(pairs_has(cs, cs[m2].0.0 as int));
                        assert(bitset@.contains(cs[m2].0.0 as int));
                    }
                    assert forall|k2: int|
                        0 <= k2 < prior.ids().len() implies pairs_has(
                        cs,
                        (#[trigger] prior.ids()[k2]).0 as int,
                    ) by {
                        assert(prior.ids()[k2].0 == prior.ids()[k2].0);
                        assert(prior.has_col(prior.ids()[k2].0 as int));
                        assert(bitset@.contains(prior.ids()[k2].0 as int));
                        assert(prior.ids()[k2].0 != 0);
                    }
                }
                let a = vstd::std_specs::vec::vec_index_mut(&mut self.archetype_id_map, kk);
                a.push_row(entity_id, component_set);
                self.entity_archetype_map.insert(entity_id.0, bitset);
                proof {
                    lemma_total_rows_update(o.archs(), kk as int, self.archs()[kk as int]);
                    assert(self.archs() == o.archs().update(kk as int, self.archs()[kk as int]));
                    assert(!o.index_map().contains_key(entity_id.0));
                    assert(total_rows(self.archs()) <= self.entities.spec_counter());
                    lemma_insert_shape(o, *self, entity_id, cs, bitset, kk as int, prior);
                }
                entity_id
            },
            None => {
                let mut a = self.create_archetype_from_type_ids(&type_ids);
                let ghost prior = a;
                proof {
                    assert(a.spec_bitset()@ =~= bitset@) by {
                        assert forall|c: int|
                            a.spec_bitset()@.contains(c) == bitset@.contains(c) by {
                            assert(a.spec_bitset()@.contains(c) <==> (c == 0 || exists|m2: int|
                                0 <= m2 < type_ids@.len() && (#[trigger] type_ids@[m2]).0 == c));
                            assert(bitset@.contains(c) <==> (c == 0 || pairs_has(cs, c)));
                            if pairs_has(cs, c) {
                                let mm = choose|mm: int|
                                    0 <= mm < cs.len() && (#[trigger] cs[mm]).0.0 == c;
                                assert(type_ids@[mm].0 == c);
                            }
                            if exists|m2: int|
                                0 <= m2 < type_ids@.len() && (#[trigger] type_ids@[m2]).0 == c {
                                let m2 = choose|m2: int|
                                    0 <= m2 < type_ids@.len() && (#[trigger] type_ids@[m2]).0 == c;
                                assert(cs[m2].0.0 == c);
                                assert(pairs_has(cs, c));
                            }
                        }
                    }
                    crate::bitset::BitSet::lemma_view_ext(a.spec_bitset(), bitset);
                    assert forall|m2: int|
                        0 <= m2 < cs.len() implies prior.has_col(
                        (#[trigger] cs[m2]).0.0 as int,
                    ) by {
                        assert(type_ids@[m2].0 == cs[m2].0.0);
                        assert(prior.ids()[m2].0 == cs[m2].0.0);
                    }
                    assert forall|k2: int|
                        0 <= k2 < prior.ids().len() implies pairs_has(
                        cs,
                        (#[trigger] prior.ids()[k2]).0 as int,
                    ) by {
                        assert(prior.ids()[k2] == type_ids@[k2]);
                        assert(cs[k2].0.0 == prior.ids()[k2].0 as int);
                        assert(pairs_has(cs, prior.ids()[k2].0 as int));
                    }
                }
                a.push_row(entity_id, component_set);
                let ghost pushed = a;
                self.archetype_id_map.push(a);
                self.entity_archetype_map.insert(entity_id.0, bitset);
                proof {
                    lemma_total_rows_push(o.archs(), pushed);
                    assert(self.archs() == o.archs().push(pushed));
                    assert(!o.index_map().contains_key(entity_id.0));
                    assert(total_rows(self.archs()) <= self.entities.spec_counter());
                    lemma_insert_shape(
                        o,
                        *self,
                        entity_id,
                        cs,
                        bitset,
                        o.archs().len() as int,
                        prior,
                    );
                }
                entity_id
            },
        }
    }
}

impl<C> World<C> {
    /// Moves a migrated row into the archetype for `dest_bitset`, creating it
    /// if absent, and repoints the entity index: the heart of a component
    /// add/remove migration. `comps` must carry exactly the kinds named by
    /// the destination bit set, and the entity must currently own no row.
    fn migrate_components(
        &mut self,
        entity_id: EntityId,
        comps: Vec<(ComponentTypeId, C)>,
        dest_bitset: BitSet,
    )
        requires
            old(self).inv(),
            !old(self).index_map().contains_key(entity_id.0),
            entity_id.0 < old(self).entities.spec_counter(),
            total_rows(old(self).archs()) < old(self).entities.spec_counter(),
            old(self).entities.spec_counter() <= usize::MAX as u64,
            forall|m1: int, m2: int|
                0 <= m1 < m2 < comps@.len() ==> (#[trigger] comps@[m1]).0.0 != (
                #[trigger] comps@[m2]).0.0,
            forall|m: int| 0 <= m < comps@.len() ==> (#[trigger] comps@[m]).0.0 != 0,
            forall|m: int|
                0 <= m < comps@.len() ==> 0 < (#[trigger] comps@[m]).0.0 < old(
                    self,
                ).components.num_registered(),
            forall|c: int|
                #![trigger dest_bitset@.contains(c)]
                dest_bitset@.contains(c) <==> (c == 0 || pairs_has(comps@, c)),
        ensures
            final(self).inv(),
            final(self).live(entity_id),
            final(self)@ == old(self)@.insert(entity_id, pairs_map(comps@)),
            final(self).index_map() == old(self).index_map().insert(entity_id.0, dest_bitset),
            final(self).entities == old(self).entities,
            final(self).components == old(self).components,
            final(self).spec_entity_id_id() == old(self).spec_entity_id_id(),
            final(self).arch_len_at(dest_bitset) == old(self).arch_len_at(dest_bitset) + 1,
            forall|k3: int|
                0 <= k3 < old(self).archs().len() && (#[trigger] old(
                    self,
                ).archs()[k3]).spec_bitset() != dest_bitset ==> k3 < final(self).archs().len()
                    && final(self).archs()[k3] == old(self).archs()[k3],
            total_rows(final(self).archs()) == total_rows(old(self).archs()) + 1,
    {
        let ghost cs = comps@;
        let mut rem_ids: Vec<ComponentTypeId> = Vec::new();
        let nr = comps.len();
        let mut m: usize = 0;
        while m < nr
            invariant
                nr == comps@.len(),
                m <= nr,
                comps@ == cs,
                rem_ids@.len() == m as int,
                forall|i: int| 0 <= i < m ==> (#[trigger] rem_ids@[i]) == cs[i].0,
            decreases nr - m,
        {
            let id = comps[m].0;
            rem_ids.push(id);
            m = m + 1;
        }
        let found = self.find_archetype(&dest_bitset);
        match found {
            Some(k2) => {
                let ghost prior2 = self.archs()[k2 as int];
                proof {
                    lemma_total_rows_bound(old(self).archs(), k2 as int);
                    assert(prior2.spec_len() < usize::MAX);
                    assert forall|m2: int|
                        0 <= m2 < cs.len() implies prior2.has_col(
                        (#[trigger] cs[m2]).0.0 as int,
                    ) by {
                        assert(pairs_has(cs, cs[m2].0.0 as int));
                        assert(dest_bitset@.contains(cs[m2].0.0 as int));
                    }
                    assert forall|k3: int|
                        0 <= k3 < prior2.ids().len() implies pairs_has(
                        cs,
                        (#[trigger] prior2.ids()[k3]).0 as int,
                    ) by {
                        assert(prior2.ids()[k3].0 == prior2.ids()[k3].0);
                        assert(prior2.has_col(prior2.ids()[k3].0 as int));
                        assert(dest_bitset@.contains(prior2.ids()[k3].0 as int));
                        assert(prior2.ids()[k3].0 != 0);
                    }
                }
                let a2 = vstd::std_specs::vec::vec_index_mut(&mut self.archetype_id_map, k2);
                a2.push_row(entity_id, comps);
                self.entity_archetype_map.insert(entity_id.0, dest_bitset);
                proof {
                    lemma_total_rows_update(old(self).archs(), k2 as int, self.archs()[k2 as int]);
                    assert(self.archs() == old(self).archs().update(k2 as int, self.archs()[k2 as int]));
                    assert(!old(self).index_map().contains_key(entity_id.0));
                    assert(entity_id.0 < old(self).entities.spec_counter());
                    assert(total_rows(self.archs()) <= self.entities.spec_counter());
                    lemma_insert_shape(*old(self), *self, entity_id, cs, dest_bitset, k2 as int, prior2);
                    let n = *self;
                    assert(has_arch_in(n.archs(), dest_bitset)) by {
                        assert(n.archs()[k2 as int].spec_bitset() == dest_bitset);
                    }
                    lemma_arch_index_unique(n.archs(), dest_bitset);
                    assert(arch_index_in(n.archs(), dest_bitset) == k2 as int);
                    assert(n.arch_len_at(dest_bitset) == prior2.spec_len() + 1);
                    assert(has_arch_in(old(self).archs(), dest_bitset)) by {
                        assert(old(self).archs()[k2 as int].spec_bitset() == dest_bitset);
                    }
                    lemma_arch_index_unique(old(self).archs(), dest_bitset);
                    assert(arch_index_in(old(self).archs(), dest_bitset) == k2 as int);
                    assert(old(self).arch_len_at(dest_bitset) == prior2.spec_len());
                    assert forall|k3: int|
                        0 <= k3 < old(self).archs().len() && (#[trigger] old(
                            self,
                        ).archs()[k3]).spec_bitset() != dest_bitset implies k3 < n.archs().len()
                        && n.archs()[k3] == old(self).archs()[k3] by {
                        assert(k3 != k2 as int);
                    }
                }
            },
            None => {
                let mut a2 = self.create_archetype_from_type_ids(&rem_ids);
                let ghost prior2 = a2;
                proof {
                    assert(a2.spec_bitset()@ =~= dest_bitset@) by {
                        assert forall|c: int|
                            a2.spec_bitset()@.contains(c) == dest_bitset@.contains(c) by {
                            assert(a2.spec_bitset()@.contains(c) <==> (c == 0 || exists|m2: int|
                                0 <= m2 < rem_ids@.len() && (#[trigger] rem_ids@[m2]).0 == c));
                            if pairs_has(cs, c) {
                                let mm = choose|mm: int|
                                    0 <= mm < cs.len() && (#[trigger] cs[mm]).0.0 == c;
                                assert(rem_ids@[mm].0 == c);
                            }
                            if exists|m2: int|
                                0 <= m2 < rem_ids@.len() && (#[trigger] rem_ids@[m2]).0 == c {
                                let m2 = choose|m2: int|
                                    0 <= m2 < rem_ids@.len() && (#[trigger] rem_ids@[m2]).0 == c;
                                assert(cs[m2].0.0 == c);
                                assert(pairs_has(cs, c));
                            }
                        }
                    }
                    crate::bitset::BitSet::lemma_view_ext(a2.spec_bitset(), dest_bitset);
                    assert forall|m2: int|
                        0 <= m2 < cs.len() implies prior2.has_col(
                        (#[trigger] cs[m2]).0.0 as int,
                    ) by {
                        assert(rem_ids@[m2].0 == cs[m2].0.0);
                        assert(prior2.ids()[m2].0 == cs[m2].0.0);
                    }
                    assert forall|k3: int|
                        0 <= k3 < prior2.ids().len() implies pairs_has(
                        cs,
                        (#[trigger] prior2.ids()[k3]).0 as int,
                    ) by {
                        assert(prior2.ids()[k3] == rem_ids@[k3]);
                        assert(cs[k3].0.0 == prior2.ids()[k3].0 as int);
                        assert(pairs_has(cs, prior2.ids()[k3].0 as int));
                    }
                }
                a2.push_row(entity_id, comps);
                let ghost pushed = a2;
                self.archetype_id_map.push(a2);
                self.entity_archetype_map.insert(entity_id.0, dest_bitset);
                proof {
                    lemma_total_rows_push(old(self).archs(), pushed);
                    assert(self.archs() == old(self).archs().push(pushed));
                    assert(!old(self).index_map().contains_key(entity_id.0));
                    assert(entity_id.0 < old(self).entities.spec_counter());
                    assert(total_rows(self.archs()) <= self.entities.spec_counter());
                    lemma_insert_shape(
                        *old(self),
                        *self,
                        entity_id,
                        cs,
                        dest_bitset,
                        old(self).archs().len() as int,
                        prior2,
                    );
                    let n = *self;
                    let kt = old(self).archs().len() as int;
                    assert(has_arch_in(n.archs(), dest_bitset)) by {
                        assert(n.archs()[kt].spec_bitset() == dest_bitset);
                    }
                    lemma_arch_index_unique(n.archs(), dest_bitset);
                    assert(arch_index_in(n.archs(), dest_bitset) == kt);
                    assert(n.arch_len_at(dest_bitset) == 1);
                    assert(!has_arch_in(old(self).archs(), dest_bitset));
                    assert(old(self).arch_len_at(dest_bitset) == 0);
                    assert forall|k3: int|
                        0 <= k3 < old(self).archs().len() && (#[trigger] old(
                            self,
                        ).archs()[k3]).spec_bitset() != dest_bitset implies k3 < n.archs().len()
                        && n.archs()[k3] == old(self).archs()[k3] by {}
                }
            },
        }
    }

    /// Detaches one component from a live entity by migration: its row is
    /// swap-removed from the source archetype, the target component's value
    /// is discarded, the remaining values move to the archetype holding
    /// exactly the remaining kinds (created if absent), and the index is
    /// repointed. The entity keeps its handle; the source archetype shrinks
    /// by one row and the destination grows by one.
    pub fn remove_component(&mut self, entity_id: EntityId, target_id: ComponentTypeId)
        requires
            old(self).inv(),
            old(self).live(entity_id),
            old(self).components_of(entity_id).dom().contains(target_id.0 as int),
            old(self).entities.spec_counter() <= usize::MAX as u64,
        ensures
            final(self).inv(),
            final(self).live(entity_id),
            final(self)@ == old(self)@.insert(
                entity_id,
                old(self)@[entity_id].remove(target_id.0 as int),
            ),
            final(self)@.dom() == old(self)@.dom(),
            final(self).index_map()[entity_id.0]@ == old(self).index_map()[entity_id.0]@.remove(
                target_id.0 as int,
            ),
            final(self).arch_len_at(old(self).index_map()[entity_id.0]) == old(self).arch_len_at(
                old(self).index_map()[entity_id.0],
            ) - 1,
            final(self).arch_len_at(final(self).index_map()[entity_id.0]) == old(self).arch_len_at(
                final(self).index_map()[entity_id.0],
            ) + 1,
            final(self).entities == old(self).entities,
            final(self).components == old(self).components,
            final(self).spec_entity_id_id() == old(self).spec_entity_id_id(),
    {
        let ghost o = *old(self);
        let b = match self.entity_archetype_map.get(&entity_id.0) {
            Some(b) => *b,
            None => unreached(),
        };
        proof {
            assert(o.index_map().contains_key(entity_id.0));
            assert(o.has_arch(b));
        }
        let kk = match self.find_archetype(&b) {
            Some(k) => k,
            None => unreached(),
        };
        let ghost prior = self.archs()[kk as int];
        proof {
            lemma_arch_index_unique(o.archs(), b);
            assert(kk as int == arch_index_in(o.archs(), b));
            assert(o.arch_of(entity_id) == prior);
            assert(prior.entities().contains(EntityId(entity_id.0)));
            assert(EntityId(entity_id.0) == entity_id);
            assert(prior.has_col(target_id.0 as int));
            assert(target_id.0 != 0) by {
                let k = choose|k: int|
                    0 <= k < prior.ids().len() && (#[trigger] prior.ids()[k]).0 == target_id.0;
                assert(prior.ids()[k].0 != 0);
            }
        }
        let row = match self.archetype_id_map[kk].find_row(entity_id) {
            Some(j) => j,
            None => unreached(),
        };
        proof {
            lemma_row_unique(prior, entity_id);
            assert(row_in(prior, entity_id) == row as int);
        }
        let a = vstd::std_specs::vec::vec_index_mut(&mut self.archetype_id_map, kk);
        let (_moved, mut taken) = a.take_row(row);
        self.entity_archetype_map.remove(&entity_id.0);
        let ghost w1 = *self;
        let ghost taken0 = taken@;
        proof {
            lemma_total_rows_update(o.archs(), kk as int, self.archs()[kk as int]);
            assert(self.archs() == o.archs().update(kk as int, self.archs()[kk as int]));
            lemma_remove_shape(o, w1, entity_id, kk as int, row as int);
            // The taken pairs are exactly the entity's old component map.
            assert forall|m1: int, m2: int|
                0 <= m1 < m2 < taken0.len() implies (#[trigger] taken0[m1]).0.0 != (
            #[trigger] taken0[m2]).0.0 by {
                assert(taken0[m1].0 == prior.ids()[m1] && taken0[m2].0 == prior.ids()[m2]);
            }
            assert(pairs_map(taken0) =~= o.components_of(entity_id)) by {
                assert forall|c: int| #[trigger] pairs_has(taken0, c) == prior.has_col(c) by {
                    if pairs_has(taken0, c) {
                        let m = choose|m: int|
                            0 <= m < taken0.len() && (#[trigger] taken0[m]).0.0 == c;
                        assert(prior.ids()[m].0 == c);
                    }
                    if prior.has_col(c) {
                        prior.lemma_col_index(c);
                        let k0 = prior.col_index(c);
                        assert(taken0[k0].0.0 == c);
                    }
                }
                assert forall|c: int| pairs_has(taken0, c) implies #[trigger] pair_value(taken0, c)
                    == prior.col(c)[row as int] by {
                    let m = crate::archetype::pair_index(taken0, c);
                    assert(0 <= m < taken0.len() && taken0[m].0.0 == c);
                    assert(prior.ids()[m].0 == c);
                    prior.lemma_col_index(c);
                    assert(m == prior.col_index(c));
                    assert(taken0[m].1 == prior.col(prior.ids()[m].0 as int)[row as int]);
                }
            }
            assert(pairs_has(taken0, target_id.0 as int));
        }
        let pos = match find_pair(&taken, target_id) {
            Some(p) => p,
            None => unreached(),
        };
        let _discarded = taken.remove(pos);
        let ghost cs2 = taken@;
        proof {
            lemma_pairs_remove(taken0, pos as int);
            assert(taken0[pos as int].0 == target_id);
            assert(pairs_map(cs2) == pairs_map(taken0).remove(target_id.0 as int));
            // The remaining pairs are distinct, nonzero and registered.
            assert forall|m1: int, m2: int|
                0 <= m1 < m2 < cs2.len() implies (#[trigger] cs2[m1]).0.0 != (
            #[trigger] cs2[m2]).0.0 by {
                let n1: int = if m1 < pos {
                    m1
                } else {
                    m1 + 1
                };
                let n2: int = if m2 < pos {
                    m2
                } else {
                    m2 + 1
                };
                assert(cs2[m1] == taken0[n1] && cs2[m2] == taken0[n2]);
            }
            assert forall|m: int| 0 <= m < cs2.len() implies (#[trigger] cs2[m]).0.0 != 0 && 0 < (
            cs2[m]).0.0 < o.components.num_registered() by {
                let n1: int = if m < pos {
                    m
                } else {
                    m + 1
                };
                assert(cs2[m] == taken0[n1]);
                assert(taken0[n1].0 == prior.ids()[n1]);
                assert(prior.ids()[n1].0 != 0);
                assert(prior.has_col(prior.ids()[n1].0 as int));
            }
        }
        let mut dest_bitset = b;
        dest_bitset.remove_id(target_id.0);
        proof {
            assert(prior.spec_bitset() == b);
            assert forall|c: int|
                #![trigger dest_bitset@.contains(c)]
                dest_bitset@.contains(c) <==> (c == 0 || pairs_has(cs2, c)) by {
                assert(dest_bitset@.contains(c) == (b@.contains(c) && c != target_id.0 as int));
                assert(b@.contains(c) <==> (c == 0 || prior.has_col(c)));
                assert(pairs_has(cs2, c) == (pairs_has(taken0, c) && c != target_id.0 as int)) by {
                    assert(pairs_map(cs2).dom() == pairs_map(taken0).dom().remove(
                        target_id.0 as int,
                    ));
                    assert(pairs_map(cs2).dom().contains(c) == pairs_has(cs2, c));
                    assert(pairs_map(taken0).dom().contains(c) == pairs_has(taken0, c));
                }
                assert(pairs_has(taken0, c) == prior.has_col(c)) by {
                    assert(pairs_map(taken0).dom().contains(c) == pairs_has(taken0, c));
                    assert(o.components_of(entity_id) == prior.row_map(row as int));
                    assert(prior.row_map(row as int).dom().contains(c) == prior.has_col(c));
                }
            }
            assert(dest_bitset != b) by {
                assert(b@.contains(target_id.0 as int));
                assert(!dest_bitset@.contains(target_id.0 as int));
            }
        }
        proof {
            assert(total_rows(w1.archs()) < w1.entities.spec_counter());
        }
        self.migrate_components(entity_id, taken, dest_bitset);
        proof {
            let n = *self;
            // The view: the entity keeps everything but the target component.
            assert(o@.dom().contains(entity_id));
            assert(o@[entity_id] == o.components_of(entity_id));
            assert(pairs_map(cs2) == o@[entity_id].remove(target_id.0 as int));
            assert(n@ == w1@.insert(entity_id, pairs_map(cs2)));
            assert(n@ =~= o@.insert(entity_id, o@[entity_id].remove(target_id.0 as int)));
            assert(n@.dom() =~= o@.dom());
            // Row counts: the source archetype lost a row, the target gained
            // one.
            let cut = w1.archs()[kk as int];
            assert(n.index_map()[entity_id.0] == dest_bitset);
            lemma_arch_index_unique(o.archs(), b);
            assert(o.arch_len_at(b) == prior.spec_len());
            assert(n.archs()[kk as int] == cut) by {
                assert(w1.archs()[kk as int].spec_bitset() == b);
            }
            assert(has_arch_in(n.archs(), b)) by {
                assert(n.archs()[kk as int].spec_bitset() == b);
            }
            lemma_arch_index_unique(n.archs(), b);
            assert(n.arch_len_at(b) == prior.spec_len() - 1);
            // The destination's count in the taken-out middle state equals
            // its count before: the source archetype kept its bit set.
            assert(w1.arch_len_at(dest_bitset) == o.arch_len_at(dest_bitset)) by {
                if o.has_arch(dest_bitset) {
                    lemma_arch_index_unique(o.archs(), dest_bitset);
                    let k3 = arch_index_in(o.archs(), dest_bitset);
                    assert(k3 != kk as int);
                    assert(w1.archs()[k3] == o.archs()[k3]);
                    assert(has_arch_in(w1.archs(), dest_bitset)) by {
                        assert(w1.archs()[k3].spec_bitset() == dest_bitset);
                    }
                    lemma_arch_index_unique(w1.archs(), dest_bitset);
                    assert(arch_index_in(w1.archs(), dest_bitset) == k3);
                } else {
                    if has_arch_in(w1.archs(), dest_bitset) {
                        let k3 = choose|k3: int|
                            0 <= k3 < w1.archs().len() && (#[trigger] w1.archs()[k3]).spec_bitset()
                                == dest_bitset;
                        assert(o.archs()[k3].spec_bitset() == dest_bitset) by {
                            if k3 == kk as int {
                                assert(w1.archs()[k3].spec_bitset() == prior.spec_bitset());
                            }
                        }
                        assert(o.has_arch(dest_bitset));
                        assert(false);
                    }
                }
            }
        }
    }
}

/// After a row for a fresh entity `e` with pair row `cs` lands in the
/// archetype at `kt` (found with bit set `bitset`, or created for it), and the
/// index learns `e`, the world invariant holds again and the view has gained
/// exactly `e` with `pairs_map(cs)`.
proof fn lemma_insert_shape<C>(
    o: World<C>,
    n: World<C>,
    e: EntityId,
    cs: Seq<(ComponentTypeId, C)>,
    bitset: BitSet,
    kt: int,
    prior: Archetype<C>,
)
    requires
        o.inv(),
        !o.index_map().contains_key(e.0),
        e.0 < n.entities.spec_counter(),
        o.entities.spec_counter() <= n.entities.spec_counter(),
        total_rows(n.archs()) <= n.entities.spec_counter(),
        forall|m1: int, m2: int|
            0 <= m1 < m2 < cs.len() ==> (#[trigger] cs[m1]).0.0 != (#[trigger] cs[m2]).0.0,
        forall|m: int| 0 <= m < cs.len() ==> (#[trigger] cs[m]).0.0 != 0,
        forall|m: int|
            0 <= m < cs.len() ==> 0 < (#[trigger] cs[m]).0.0 < o.components.num_registered(),
        forall|c: int|
            #![trigger bitset@.contains(c)]
            bitset@.contains(c) <==> (c == 0 || pairs_has(cs, c)),
        prior.wf(),
        prior.spec_bitset() == bitset,
        0 <= kt < n.archs().len(),
        (kt < o.archs().len() && prior == o.archs()[kt] && n.archs().len() == o.archs().len()) || (
        kt == o.archs().len() && n.archs().len() == o.archs().len() + 1 && prior.spec_len() == 0
            && prior.entities() == Seq::<EntityId>::empty() && !o.has_arch(bitset)),
        forall|k2: int|
            0 <= k2 < n.archs().len() && k2 != kt ==> k2 < o.archs().len()
                && (#[trigger] n.archs()[k2]) == o.archs()[k2],
        n.archs()[kt].wf(),
        n.archs()[kt].spec_bitset() == bitset,
        n.archs()[kt].ids() == prior.ids(),
        n.archs()[kt].spec_len() == prior.spec_len() + 1,
        n.archs()[kt].entities() == prior.entities().push(e),
        forall|c: int|
            prior.has_col(c) ==> #[trigger] n.archs()[kt].col(c) == prior.col(c).push(
                pair_value(cs, c),
            ),
        n.components == o.components,
        n.index_map() == o.index_map().insert(e.0, bitset),
        n.spec_entity_id_id() == o.spec_entity_id_id(),
    ensures
        n.inv(),
        !o.live(e),
        n.live(e),
        n@ == o@.insert(e, pairs_map(cs)),
{
    let pushed = n.archs()[kt];
    let archs_o = o.archs();
    let archs_n = n.archs();
    crate::archetype::lemma_has_col_same_ids(pushed, prior);
    // Columns present in the target archetype are exactly the ids of `cs`.
    assert forall|c: int| #[trigger] prior.has_col(c) == (c != 0 && pairs_has(cs, c)) by {
        assert(bitset@.contains(c) <==> (c == 0 || prior.has_col(c)));
        if prior.has_col(c) {
            let k = choose|k: int| 0 <= k < prior.ids().len() && (#[trigger] prior.ids()[k]).0 == c;
            assert(prior.ids()[k].0 != 0);
        }
        if c != 0 && pairs_has(cs, c) {
            assert(bitset@.contains(c));
        }
    }
    // Bit sets stay pairwise distinct.
    assert forall|k1: int, k2: int|
        0 <= k1 < k2 < archs_n.len() implies (#[trigger] archs_n[k1]).spec_bitset() != (
    #[trigger] archs_n[k2]).spec_bitset() by {
        if kt < archs_o.len() {
            assert(archs_n[k1].spec_bitset() == archs_o[k1].spec_bitset());
            assert(archs_n[k2].spec_bitset() == archs_o[k2].spec_bitset());
        } else {
            if k1 != kt && k2 != kt {
                assert(archs_n[k1] == archs_o[k1] && archs_n[k2] == archs_o[k2]);
            } else {
                assert(k2 == kt && k1 != kt);
                assert(archs_n[k1] == archs_o[k1]);
                if archs_o[k1].spec_bitset() == bitset {
                    assert(has_arch_in(archs_o, bitset));
                    assert(false);
                }
            }
        }
    }
    lemma_arch_index_unique(archs_n, bitset);
    assert(arch_index_in(archs_n, bitset) == kt);
    // The fresh entity is on no old row.
    assert(!prior.entities().contains(e)) by {
        if prior.entities().contains(e) {
            if kt < archs_o.len() {
                let j = choose|j: int|
                    0 <= j < prior.entities().len() && prior.entities()[j] == e;
                assert(archs_o[kt].entities()[j] == e);
                assert(o.index_map().contains_key(e.0));
                assert(false);
            }
        }
    }
    // Entity columns stay duplicate-free.
    assert forall|k: int, j1: int, j2: int|
        #![trigger archs_n[k].entities()[j1], archs_n[k].entities()[j2]]
        0 <= k < archs_n.len() && 0 <= j1 < j2 < archs_n[k].entities().len() implies archs_n[
        k].entities()[j1] != archs_n[k].entities()[j2] by {
        if k != kt {
            assert(archs_n[k] == archs_o[k]);
            assert(archs_o[k].entities()[j1] != archs_o[k].entities()[j2]);
        } else {
            let pe = prior.entities();
            if j2 < pe.len() {
                if kt < archs_o.len() {
                    assert(archs_o[kt].entities()[j1] != archs_o[kt].entities()[j2]);
                }
            } else {
                assert(pushed.entities()[j2] == e);
                assert(pushed.entities()[j1] == pe[j1]);
                if pe[j1] == e {
                    assert(pe.contains(e));
                    assert(false);
                }
            }
        }
    }
    // Index and entity columns agree.
    assert forall|x: u64| #[trigger] n.index_map().contains_key(x) implies {
        &&& n.has_arch(n.index_map()[x])
        &&& archs_n[arch_index_in(archs_n, n.index_map()[x])].entities().contains(EntityId(x))
        &&& x < n.entities.spec_counter()
    } by {
        if x == e.0 {
            assert(n.index_map()[x] == bitset);
            assert(archs_n[kt].spec_bitset() == bitset);
            assert(has_arch_in(archs_n, bitset));
            assert(pushed.entities()[prior.entities().len() as int] == e);
            assert(EntityId(x) == e);
            assert(pushed.entities().contains(EntityId(x)));
        } else {
            assert(o.index_map().contains_key(x));
            assert(n.index_map()[x] == o.index_map()[x]);
            let b2 = o.index_map()[x];
            lemma_arch_index_unique(archs_o, b2);
            let k2 = arch_index_in(archs_o, b2);
            assert(archs_o[k2].entities().contains(EntityId(x)));
            let j2 = choose|j: int|
                0 <= j < archs_o[k2].entities().len() && archs_o[k2].entities()[j] == EntityId(x);
            if k2 == kt {
                assert(kt < archs_o.len() && prior == archs_o[kt]);
                assert(pushed.entities()[j2] == prior.entities()[j2]);
                assert(pushed.entities()[j2] == EntityId(x));
                assert(pushed.entities().contains(EntityId(x)));
                assert(pushed.spec_bitset() == b2);
                assert(has_arch_in(archs_n, b2));
                lemma_arch_index_unique(archs_n, b2);
            } else {
                assert(archs_n[k2] == archs_o[k2]);
                assert(has_arch_in(archs_n, b2));
                lemma_arch_index_unique(archs_n, b2);
                assert(arch_index_in(archs_n, b2) == k2);
            }
            assert(x < o.entities.spec_counter());
        }
    }
    // Every row's entity is indexed at its archetype's bit set.
    assert forall|k: int, j: int|
        #![trigger archs_n[k].entities()[j]]
        0 <= k < archs_n.len() && 0 <= j < archs_n[k].entities().len() implies {
        &&& n.index_map().contains_key(archs_n[k].entities()[j].0)
        &&& n.index_map()[archs_n[k].entities()[j].0] == archs_n[k].spec_bitset()
    } by {
        if k != kt {
            assert(archs_n[k] == archs_o[k]);
            let x = archs_o[k].entities()[j];
            assert(o.index_map().contains_key(x.0) && o.index_map()[x.0] == archs_o[
                k].spec_bitset());
            assert(x.0 != e.0);
        } else {
            let pe = prior.entities();
            if j < pe.len() {
                assert(kt < archs_o.len());
                let x = archs_o[kt].entities()[j];
                assert(pushed.entities()[j] == x);
                assert(o.index_map().contains_key(x.0) && o.index_map()[x.0] == archs_o[
                    kt].spec_bitset());
                assert(x.0 != e.0);
            } else {
                assert(pushed.entities()[j] == e);
                assert(n.index_map()[e.0] == bitset);
            }
        }
    }
    assert(n.inv());
    // The view has gained exactly `e` with the pair row's map.
    lemma_arch_index_unique(archs_n, bitset);
    assert(n.live(e));
    assert(n.arch_of(e) == pushed);
    let le = prior.entities().len() as int;
    lemma_row_unique(pushed, e);
    assert(pushed.entities()[le] == e);
    assert(row_in(pushed, e) == le);
    assert forall|c: int| prior.has_col(c) implies #[trigger] pushed.col(c)[le] == pair_value(
        cs,
        c,
    ) by {
        prior.lemma_col_index(c);
        assert(prior.col(c).len() == prior.spec_len());
        assert(pushed.col(c) == prior.col(c).push(pair_value(cs, c)));
    }
    assert(n.components_of(e) =~= pairs_map(cs)) by {
        assert forall|c: int| #[trigger] pushed.has_col(c) == pairs_has(cs, c) by {
            if pairs_has(cs, c) {
                let m = choose|m: int| 0 <= m < cs.len() && (#[trigger] cs[m]).0.0 == c;
                assert(cs[m].0.0 != 0);
            }
        }
    }
    assert forall|x: EntityId| #[trigger] o.live(x) implies n.live(x) && n.components_of(x)
        == o.components_of(x) by {
        assert(x.0 != e.0);
        let b2 = o.index_map()[x.0];
        assert(n.index_map()[x.0] == b2);
        lemma_arch_index_unique(archs_o, b2);
        let k2 = arch_index_in(archs_o, b2);
        if k2 == kt {
            assert(kt < archs_o.len() && prior == archs_o[kt]);
            assert(b2 == bitset);
            assert(has_arch_in(archs_n, b2)) by {
                assert(archs_n[kt].spec_bitset() == b2);
            }
            lemma_arch_index_unique(archs_n, b2);
            assert(arch_index_in(archs_n, b2) == kt);
            assert(o.arch_of(x) == prior);
            assert(n.arch_of(x) == pushed);
            assert(prior.entities().contains(x)) by {
                assert(archs_o[kt].entities().contains(EntityId(x.0)));
                assert(EntityId(x.0) == x);
            }
            lemma_row_unique(prior, x);
            let j2 = row_in(prior, x);
            assert(pushed.entities()[j2] == prior.entities()[j2]);
            assert(pushed.entities()[j2] == x);
            assert(pushed.entities().contains(x));
            lemma_row_unique(pushed, x);
            assert(row_in(pushed, x) == j2);
            assert(n.components_of(x) =~= o.components_of(x)) by {
                assert forall|c: int| prior.has_col(c) implies #[trigger] pushed.col(c)[j2]
                    == prior.col(c)[j2] by {
                    prior.lemma_col_index(c);
                    assert(pushed.col(c) == prior.col(c).push(pair_value(cs, c)));
                }
            }
        } else {
            assert(archs_o[k2].spec_bitset() == b2 && b2 != bitset) by {
                if b2 == bitset {
                    if kt < archs_o.len() {
                        assert(archs_o[kt].spec_bitset() == bitset);
                        assert(k2 == kt);
                        assert(false);
                    } else {
                        assert(has_arch_in(archs_o, bitset));
                        assert(false);
                    }
                }
            }
            assert(archs_n[k2] == archs_o[k2]);
            assert(has_arch_in(archs_n, b2)) by {
                assert(archs_n[k2].spec_bitset() == b2);
            }
            lemma_arch_index_unique(archs_n, b2);
            assert(arch_index_in(archs_n, b2) == k2);
            assert(n.arch_of(x) == o.arch_of(x));
            assert(n.components_of(x) == o.components_of(x));
        }
    }
    assert forall|x: EntityId| #[trigger] n.live(x) implies (o.live(x) || x == e) by {
        if x.0 == e.0 {
            assert(x == e);
        }
    }
    assert(n@ =~= o@.insert(e, pairs_map(cs)));
}

impl<C> World<C> {
    /// Destroys an entity: finds its row by scanning its archetype's entity
    /// column, swap-removes that row from every column, and drops the index
    /// entry. The last row moves into the freed slot, so row order is not
    /// preserved. Removing an entity that is not alive changes nothing.
    pub fn remove_entity(&mut self, entity_id: EntityId)
        requires
            old(self).inv(),
        ensures
            final(self).inv(),
            !final(self).live(entity_id),
            final(self)@ == old(self)@.remove(entity_id),
            final(self).entities == old(self).entities,
            final(self).components == old(self).components,
            final(self).spec_entity_id_id() == old(self).spec_entity_id_id(),
    {
        let ghost o = *old(self);
        let b = match self.entity_archetype_map.get(&entity_id.0) {
            Some(b) => *b,
            None => {
                proof {
                    assert(self@ =~= old(self)@.remove(entity_id));
                }
                return ;
            },
        };
        proof {
            assert(o.index_map().contains_key(entity_id.0));
            assert(o.has_arch(b));
        }
        let kk = match self.find_archetype(&b) {
            Some(k) => k,
            None => unreached(),
        };
        proof {
            lemma_arch_index_unique(o.archs(), b);
            assert(kk as int == arch_index_in(o.archs(), b));
            assert(o.archs()[kk as int].entities().contains(EntityId(entity_id.0)));
            assert(EntityId(entity_id.0) == entity_id);
        }
        let row = match self.archetype_id_map[kk].find_row(entity_id) {
            Some(j) => j,
            None => unreached(),
        };
        let a = vstd::std_specs::vec::vec_index_mut(&mut self.archetype_id_map, kk);
        let _taken = a.take_row(row);
        self.entity_archetype_map.remove(&entity_id.0);
        proof {
            lemma_total_rows_update(o.archs(), kk as int, self.archs()[kk as int]);
            assert(self.archs() == o.archs().update(kk as int, self.archs()[kk as int]));
            lemma_remove_shape(o, *self, entity_id, kk as int, row as int);
        }
    }
}

/// After the row of entity `e` is swap-removed from the archetype at `kt` and
/// the index forgets `e`, the world invariant holds again and the view has
/// lost exactly `e`.
proof fn lemma_remove_shape<C>(o: World<C>, n: World<C>, e: EntityId, kt: int, j: int)
    requires
        o.inv(),
        o.index_map().contains_key(e.0),
        0 <= kt < o.archs().len(),
        o.archs()[kt].spec_bitset() == o.index_map()[e.0],
        0 <= j < o.archs()[kt].entities().len(),
        o.archs()[kt].entities()[j] == e,
        n.archs().len() == o.archs().len(),
        forall|k2: int|
            0 <= k2 < n.archs().len() && k2 != kt ==> (#[trigger] n.archs()[k2]) == o.archs()[k2],
        n.archs()[kt].wf(),
        n.archs()[kt].ids() == o.archs()[kt].ids(),
        n.archs()[kt].spec_bitset() == o.archs()[kt].spec_bitset(),
        n.archs()[kt].spec_len() == o.archs()[kt].spec_len() - 1,
        n.archs()[kt].entities() == o.archs()[kt].entities().update(
            j,
            o.archs()[kt].entities().last(),
        ).drop_last(),
        forall|c: int|
            o.archs()[kt].has_col(c) ==> (#[trigger] n.archs()[kt].col(c)) == o.archs()[kt].col(
                c,
            ).update(j, o.archs()[kt].col(c).last()).drop_last(),
        n.index_map() == o.index_map().remove(e.0),
        n.components == o.components,
        n.entities == o.entities,
        n.spec_entity_id_id() == o.spec_entity_id_id(),
        total_rows(n.archs()) == total_rows(o.archs()) - 1,
    ensures
        n.inv(),
        !n.live(e),
        n@ == o@.remove(e),
{
    let archs_o = o.archs();
    let archs_n = n.archs();
    let prior = archs_o[kt];
    let cut = archs_n[kt];
    let last = prior.entities().len() - 1;
    crate::archetype::lemma_has_col_same_ids(cut, prior);
    lemma_row_unique(prior, e);
    assert(prior.entities().contains(e));
    assert(row_in(prior, e) == j);
    // Bit sets are unchanged, so distinctness and archetype lookup carry over.
    assert forall|k1: int, k2: int|
        0 <= k1 < k2 < archs_n.len() implies (#[trigger] archs_n[k1]).spec_bitset() != (
    #[trigger] archs_n[k2]).spec_bitset() by {
        assert(archs_n[k1].spec_bitset() == archs_o[k1].spec_bitset());
        assert(archs_n[k2].spec_bitset() == archs_o[k2].spec_bitset());
    }
    // Where each surviving row of the cut archetype came from.
    let src = |j2: int| if j2 == j { last } else { j2 };
    assert forall|j2: int| 0 <= j2 < cut.entities().len() implies #[trigger] cut.entities()[j2]
        == prior.entities()[src(j2)] && cut.entities()[j2] != e by {
        assert(cut.entities()[j2] == prior.entities().update(j, prior.entities().last()).drop_last(
        )[j2]);
        if prior.entities()[src(j2)] == e {
            assert(src(j2) == j);
        }
    }
    // The cut entity column stays duplicate-free.
    assert forall|k: int, j1: int, j2: int|
        #![trigger archs_n[k].entities()[j1], archs_n[k].entities()[j2]]
        0 <= k < archs_n.len() && 0 <= j1 < j2 < archs_n[k].entities().len() implies archs_n[
        k].entities()[j1] != archs_n[k].entities()[j2] by {
        if k != kt {
            assert(archs_n[k] == archs_o[k]);
            assert(archs_o[k].entities()[j1] != archs_o[k].entities()[j2]);
        } else {
            assert(cut.entities()[j1] == prior.entities()[src(j1)]);
            assert(cut.entities()[j2] == prior.entities()[src(j2)]);
            if src(j1) < src(j2) {
                assert(prior.entities()[src(j1)] != prior.entities()[src(j2)]);
            } else {
                assert(src(j2) < src(j1));
                assert(prior.entities()[src(j2)] != prior.entities()[src(j1)]);
            }
        }
    }
    // Index and entity columns agree.
    assert forall|x: u64| #[trigger] n.index_map().contains_key(x) implies {
        &&& n.has_arch(n.index_map()[x])
        &&& archs_n[arch_index_in(archs_n, n.index_map()[x])].entities().contains(EntityId(x))
        &&& x < n.entities.spec_counter()
    } by {
        assert(x != e.0);
        assert(o.index_map().contains_key(x));
        let b2 = o.index_map()[x];
        assert(n.index_map()[x] == b2);
        lemma_arch_index_unique(archs_o, b2);
        let k2 = arch_index_in(archs_o, b2);
        assert(has_arch_in(archs_n, b2)) by {
            assert(archs_n[k2].spec_bitset() == b2);
        }
        lemma_arch_index_unique(archs_n, b2);
        assert(arch_index_in(archs_n, b2) == k2);
        assert(archs_o[k2].entities().contains(EntityId(x)));
        let j2 = choose|j3: int|
            0 <= j3 < archs_o[k2].entities().len() && archs_o[k2].entities()[j3] == EntityId(x);
        if k2 != kt {
            assert(archs_n[k2] == archs_o[k2]);
            assert(archs_n[k2].entities().contains(EntityId(x)));
        } else {
            assert(EntityId(x) != e) by {
                if EntityId(x) == e {
                    assert(x == e.0);
                }
            }
            assert(j2 != j) by {
                lemma_row_unique(prior, e);
            }
            if j2 < cut.entities().len() {
                assert(cut.entities()[j2] == prior.entities()[src(j2)]);
                assert(src(j2) == j2);
                assert(cut.entities()[j2] == EntityId(x));
                assert(cut.entities().contains(EntityId(x)));
            } else {
                assert(j2 == last);
                assert(j < cut.entities().len()) by {
                    if j == last {
                        assert(j2 == j);
                    }
                }
                assert(cut.entities()[j] == prior.entities()[last]);
                assert(cut.entities()[j] == EntityId(x));
                assert(cut.entities().contains(EntityId(x)));
            }
        }
    }
    // Every surviving row's entity is still indexed at the same bit set.
    assert forall|k: int, j2: int|
        #![trigger archs_n[k].entities()[j2]]
        0 <= k < archs_n.len() && 0 <= j2 < archs_n[k].entities().len() implies {
        &&& n.index_map().contains_key(archs_n[k].entities()[j2].0)
        &&& n.index_map()[archs_n[k].entities()[j2].0] == archs_n[k].spec_bitset()
    } by {
        if k != kt {
            assert(archs_n[k] == archs_o[k]);
            let x = archs_o[k].entities()[j2];
            assert(o.index_map().contains_key(x.0) && o.index_map()[x.0] == archs_o[
                k].spec_bitset());
            assert(x.0 != e.0) by {
                if x.0 == e.0 {
                    assert(o.index_map()[x.0] == archs_o[kt].spec_bitset());
                    lemma_arch_index_unique(archs_o, o.index_map()[e.0]);
                    assert(k == kt);
                }
            }
        } else {
            let x = cut.entities()[j2];
            assert(x == prior.entities()[src(j2)] && x != e);
            assert(o.index_map().contains_key(x.0) && o.index_map()[x.0] == archs_o[
                kt].spec_bitset());
            assert(x.0 != e.0) by {
                if x.0 == e.0 {
                    assert(EntityId(x.0) == e);
                }
            }
        }
    }
    assert(n.inv());
    // The view has lost exactly `e`.
    assert forall|x: EntityId| #[trigger] n.live(x) implies o.live(x) && n.components_of(x)
        == o.components_of(x) by {
        assert(x.0 != e.0);
        let b2 = o.index_map()[x.0];
        lemma_arch_index_unique(archs_o, b2);
        let k2 = arch_index_in(archs_o, b2);
        assert(has_arch_in(archs_n, b2)) by {
            assert(archs_n[k2].spec_bitset() == b2);
        }
        lemma_arch_index_unique(archs_n, b2);
        assert(arch_index_in(archs_n, b2) == k2);
        if k2 != kt {
            assert(archs_n[k2] == archs_o[k2]);
            assert(n.arch_of(x) == o.arch_of(x));
            assert(n.components_of(x) == o.components_of(x));
        } else {
            assert(o.arch_of(x) == prior && n.arch_of(x) == cut);
            assert(prior.entities().contains(x)) by {
                assert(archs_o[kt].entities().contains(EntityId(x.0)));
                assert(EntityId(x.0) == x);
            }
            lemma_row_unique(prior, x);
            let j2 = row_in(prior, x);
            assert(x != e);
            assert(j2 != j);
            let j3: int = if j2 == last { j } else { j2 };
            assert(cut.entities()[j3] == x) by {
                if j2 == last {
                    assert(j < cut.entities().len()) by {
                        if j == last {
                            assert(j2 == j);
                        }
                    }
                    assert(cut.entities()[j] == prior.entities()[last]);
                } else {
                    assert(j2 < cut.entities().len()) by {
                        lemma_row_unique(prior, e);
                    }
                    assert(cut.entities()[j2] == prior.entities()[src(j2)]);
                }
            }
            assert(cut.entities().contains(x));
            lemma_row_unique(cut, x);
            assert(row_in(cut, x) == j3);
            assert(n.components_of(x) =~= o.components_of(x)) by {
                assert forall|c: int| prior.has_col(c) implies #[trigger] cut.col(c)[j3]
                    == prior.col(c)[j2] by {
                    prior.lemma_col_index(c);
                    assert(prior.col(c).len() == prior.spec_len());
                    assert(cut.col(c) == prior.col(c).update(j, prior.col(c).last()).drop_last());
                    assert(prior.col(c).last() == prior.col(c)[last]);
                }
            }
        }
    }
    assert forall|x: EntityId| #[trigger] o.live(x) && x != e implies n.live(x) by {
        assert(x.0 != e.0) by {
            if x.0 == e.0 {
                assert(EntityId(x.0) == e);
            }
        }
    }
    assert(n@ =~= o@.remove(e));
}

/// After one value of live entity `e`'s row is overwritten in place, the
/// world invariant holds again and only that entry of `e`'s component map
/// changed.
proof fn lemma_set_shape<C>(o: World<C>, n: World<C>, e: EntityId, c0: int, v: C, kt: int, j: int)
    requires
        o.inv(),
        o.index_map().contains_key(e.0),
        0 <= kt < o.archs().len(),
        o.archs()[kt].spec_bitset() == o.index_map()[e.0],
        0 <= j < o.archs()[kt].entities().len(),
        o.archs()[kt].entities()[j] == e,
        o.archs()[kt].has_col(c0),
        n.archs().len() == o.archs().len(),
        forall|k2: int|
            0 <= k2 < n.archs().len() && k2 != kt ==> (#[trigger] n.archs()[k2]) == o.archs()[k2],
        n.archs()[kt].wf(),
        n.archs()[kt].ids() == o.archs()[kt].ids(),
        n.archs()[kt].spec_bitset() == o.archs()[kt].spec_bitset(),
        n.archs()[kt].spec_len() == o.archs()[kt].spec_len(),
        n.archs()[kt].entities() == o.archs()[kt].entities(),
        forall|c: int|
            o.archs()[kt].has_col(c) && c != c0 ==> (#[trigger] n.archs()[kt].col(c)) == o.archs()[
                kt].col(c),
        n.archs()[kt].col(c0) == o.archs()[kt].col(c0).update(j, v),
        n.index_map() == o.index_map(),
        n.components == o.components,
        n.entities == o.entities,
        n.spec_entity_id_id() == o.spec_entity_id_id(),
        total_rows(n.archs()) == total_rows(o.archs()),
    ensures
        n.inv(),
        n@ == o@.insert(e, o@[e].insert(c0, v)),
{
    let archs_o = o.archs();
    let archs_n = n.archs();
    let prior = archs_o[kt];
    let upd = archs_n[kt];
    crate::archetype::lemma_has_col_same_ids(upd, prior);
    lemma_row_unique(prior, e);
    assert(row_in(prior, e) == j);
    assert forall|k1: int, k2: int|
        0 <= k1 < k2 < archs_n.len() implies (#[trigger] archs_n[k1]).spec_bitset() != (
    #[trigger] archs_n[k2]).spec_bitset() by {
        assert(archs_n[k1].spec_bitset() == archs_o[k1].spec_bitset());
        assert(archs_n[k2].spec_bitset() == archs_o[k2].spec_bitset());
    }
    assert forall|k: int, j1: int, j2: int|
        #![trigger archs_n[k].entities()[j1], archs_n[k].entities()[j2]]
        0 <= k < archs_n.len() && 0 <= j1 < j2 < archs_n[k].entities().len() implies archs_n[
        k].entities()[j1] != archs_n[k].entities()[j2] by {
        assert(archs_n[k].entities() == archs_o[k].entities());
        assert(archs_o[k].entities()[j1] != archs_o[k].entities()[j2]);
    }
    assert forall|x: u64| #[trigger] n.index_map().contains_key(x) implies {
        &&& n.has_arch(n.index_map()[x])
        &&& archs_n[arch_index_in(archs_n, n.index_map()[x])].entities().contains(EntityId(x))
        &&& x < n.entities.spec_counter()
    } by {
        let b2 = o.index_map()[x];
        lemma_arch_index_unique(archs_o, b2);
        let k2 = arch_index_in(archs_o, b2);
        assert(has_arch_in(archs_n, b2)) by {
            assert(archs_n[k2].spec_bitset() == b2);
        }
        lemma_arch_index_unique(archs_n, b2);
        assert(arch_index_in(archs_n, b2) == k2);
        assert(archs_o[k2].entities().contains(EntityId(x)));
        assert(archs_n[k2].entities() == archs_o[k2].entities());
    }
    assert forall|k: int, j2: int|
        #![trigger archs_n[k].entities()[j2]]
        0 <= k < archs_n.len() && 0 <= j2 < archs_n[k].entities().len() implies {
        &&& n.index_map().contains_key(archs_n[k].entities()[j2].0)
        &&& n.index_map()[archs_n[k].entities()[j2].0] == archs_n[k].spec_bitset()
    } by {
        assert(archs_n[k].entities() == archs_o[k].entities());
        let x = archs_o[k].entities()[j2];
        assert(o.index_map().contains_key(x.0) && o.index_map()[x.0] == archs_o[k].spec_bitset());
    }
    assert(n.inv());
    // The view changed only at `e`, and there only at `c0`.
    lemma_arch_index_unique(archs_n, o.index_map()[e.0]);
    lemma_arch_index_unique(archs_o, o.index_map()[e.0]);
    assert(arch_index_in(archs_n, o.index_map()[e.0]) == kt) by {
        assert(archs_n[kt].spec_bitset() == o.index_map()[e.0]);
    }
    assert(n.arch_of(e) == upd && o.arch_of(e) == prior);
    lemma_row_unique(upd, e);
    assert(row_in(upd, e) == j);
    assert(n.components_of(e) =~= o.components_of(e).insert(c0, v)) by {
        assert forall|c: int| prior.has_col(c) implies #[trigger] upd.col(c)[j] == (if c == c0 {
            v
        } else {
            prior.col(c)[j]
        }) by {
            prior.lemma_col_index(c);
            if c == c0 {
                assert(upd.col(c0) == prior.col(c0).update(j, v));
            }
        }
    }
    assert forall|x: EntityId| #[trigger] o.live(x) && x != e implies n.components_of(x)
        == o.components_of(x) by {
        let b2 = o.index_map()[x.0];
        lemma_arch_index_unique(archs_o, b2);
        let k2 = arch_index_in(archs_o, b2);
        assert(has_arch_in(archs_n, b2)) by {
            assert(archs_n[k2].spec_bitset() == b2);
        }
        lemma_arch_index_unique(archs_n, b2);
        assert(arch_index_in(archs_n, b2) == k2);
        if k2 != kt {
            assert(archs_n[k2] == archs_o[k2]);
            assert(n.arch_of(x) == o.arch_of(x));
            assert(n.components_of(x) == o.components_of(x));
        } else {
            assert(prior.entities().contains(x)) by {
                assert(archs_o[kt].entities().contains(EntityId(x.0)));
                assert(EntityId(x.0) == x);
            }
            lemma_row_unique(prior, x);
            lemma_row_unique(upd, x);
            let j2 = row_in(prior, x);
            assert(row_in(upd, x) == j2);
            assert(j2 != j) by {
                if j2 == j {
                    assert(prior.entities()[j] == x);
                }
            }
            assert(n.components_of(x) =~= o.components_of(x)) by {
                assert forall|c: int| prior.has_col(c) implies #[trigger] upd.col(c)[j2]
                    == prior.col(c)[j2] by {
                    prior.lemma_col_index(c);
                    if c == c0 {
                        assert(upd.col(c0) == prior.col(c0).update(j, v));
                    }
                }
            }
        }
    }
    assert(o@.dom().contains(e));
    assert(o@[e] == o.components_of(e));
    assert(n@ =~= o@.insert(e, o@[e].insert(c0, v)));
}

impl<C> World<C> {
    /// Borrows the value of one component of a live entity. Asking for an
    /// entity or component that is not there is a programmer error and is
    /// excluded.
    pub fn get_component(&self, entity_id: EntityId, component_id: ComponentTypeId) -> (r: &C)
        requires
            self.inv(),
            self.live(entity_id),
            self.components_of(entity_id).dom().contains(component_id.0 as int),
        ensures
            *r == self.components_of(entity_id)[component_id.0 as int],
    {
        let b = match self.entity_archetype_map.get(&entity_id.0) {
            Some(b) => *b,
            None => unreached(),
        };
        proof {
            assert(self.has_arch(b));
        }
        let kk = match self.find_archetype(&b) {
            Some(k) => k,
            None => unreached(),
        };
        proof {
            lemma_arch_index_unique(self.archs(), b);
            assert(kk as int == arch_index_in(self.archs(), b));
            assert(self.archs()[kk as int].entities().contains(EntityId(entity_id.0)));
            assert(EntityId(entity_id.0) == entity_id);
        }
        let row = match self.archetype_id_map[kk].find_row(entity_id) {
            Some(j) => j,
            None => unreached(),
        };
        proof {
            lemma_row_unique(self.archs()[kk as int], entity_id);
            assert(row_in(self.archs()[kk as int], entity_id) == row as int);
            assert(self.archs()[kk as int].has_col(component_id.0 as int));
        }
        self.archetype_id_map[kk].get_value(&component_id, row)
    }

    /// Overwrites the value of one component of a live entity, in place. Only
    /// that entry of the entity's component map changes.
    pub fn set_component(&mut self, entity_id: EntityId, component_id: ComponentTypeId, value: C)
        requires
            old(self).inv(),
            old(self).live(entity_id),
            old(self).components_of(entity_id).dom().contains(component_id.0 as int),
        ensures
            final(self).inv(),
            final(self)@ == old(self)@.insert(
                entity_id,
                old(self)@[entity_id].insert(component_id.0 as int, value),
            ),
            final(self)@.dom() == old(self)@.dom(),
            final(self).index_map() == old(self).index_map(),
            final(self).entities == old(self).entities,
            final(self).components == old(self).components,
            final(self).spec_entity_id_id() == old(self).spec_entity_id_id(),
    {
        let ghost o = *old(self);
        let b = match self.entity_archetype_map.get(&entity_id.0) {
            Some(b) => *b,
            None => unreached(),
        };
        proof {
            assert(o.has_arch(b));
        }
        let kk = match self.find_archetype(&b) {
            Some(k) => k,
            None => unreached(),
        };
        let ghost prior = self.archs()[kk as int];
        proof {
            lemma_arch_index_unique(o.archs(), b);
            assert(kk as int == arch_index_in(o.archs(), b));
            assert(o.arch_of(entity_id) == prior);
            assert(prior.entities().contains(EntityId(entity_id.0)));
            assert(EntityId(entity_id.0) == entity_id);
            assert(prior.has_col(component_id.0 as int));
        }
        let row = match self.archetype_id_map[kk].find_row(entity_id) {
            Some(j) => j,
            None => unreached(),
        };
        proof {
            lemma_row_unique(prior, entity_id);
            assert(row_in(prior, entity_id) == row as int);
        }
        let a = vstd::std_specs::vec::vec_index_mut(&mut self.archetype_id_map, kk);
        a.set_value(&component_id, row, value);
        proof {
            lemma_total_rows_update(o.archs(), kk as int, self.archs()[kk as int]);
            assert(self.archs() == o.archs().update(kk as int, self.archs()[kk as int]));
            lemma_set_shape(
                o,
                *self,
                entity_id,
                component_id.0 as int,
                value,
                kk as int,
                row as int,
            );
            assert(self@.dom() =~= o@.dom());
        }
    }
}

impl<C> World<C> {
    /// Whether entity `e` is alive and holds every component kind in `ids`.
    /// Queries return exactly these entities.
    pub open spec fn query_matches(self, e: EntityId, ids: Seq<ComponentTypeId>) -> bool {
        self.live(e) && forall|m: int|
            0 <= m < ids.len() ==> self.components_of(e).dom().contains(
                (#[trigger] ids[m]).0 as int,
            )
    }
}

impl<C: Copy> World<C> {
    /// Runs a query for the component kinds in `type_ids`: every live entity
    /// whose archetype holds all of them contributes one row of copied
    /// values, in the order the ids were given. Each matching entity appears
    /// exactly once; row order is not specified.
    pub fn query(&self, type_ids: &Vec<ComponentTypeId>) -> (rows: Vec<(EntityId, Vec<C>)>)
        requires
            self.inv(),
            forall|m: int| 0 <= m < type_ids@.len() ==> (#[trigger] type_ids@[m]).0 != 0,
        ensures
            forall|i: int|
                0 <= i < rows@.len() ==> self.query_matches((#[trigger] rows@[i]).0, type_ids@),
            forall|i1: int, i2: int|
                0 <= i1 < i2 < rows@.len() ==> (#[trigger] rows@[i1]).0 != (#[trigger] rows@[i2]).0,
            forall|e: EntityId|
                #[trigger] self.query_matches(e, type_ids@) ==> exists|i: int|
                    0 <= i < rows@.len() && (#[trigger] rows@[i]).0 == e,
            forall|i: int| 0 <= i < rows@.len() ==> (#[trigger] rows@[i]).1@.len() == type_ids@.len(),
            forall|i: int, m: int|
                #![trigger rows@[i].1@[m]]
                0 <= i < rows@.len() && 0 <= m < type_ids@.len() ==> rows@[i].1@[m]
                    == self.components_of(rows@[i].0)[type_ids@[m].0 as int],
    {
        let ghost ids = type_ids@;
        let target = self.get_bit_set_id(type_ids);
        let mut rows: Vec<(EntityId, Vec<C>)> = Vec::new();
        let na = self.archetype_id_map.len();
        let mut k: usize = 0;
        while k < na
            invariant
                self.inv(),
                forall|m: int| 0 <= m < ids.len() ==> (#[trigger] ids[m]).0 != 0,
                forall|c: int|
                    #![trigger target@.contains(c)]
                    target@.contains(c) <==> exists|m: int|
                        0 <= m < ids.len() && (#[trigger] ids[m]).0 == c,
                ids == type_ids@,
                na == self.archs().len(),
                k <= na,
                forall|i: int|
                    0 <= i < rows@.len() ==> self.query_matches((#[trigger] rows@[i]).0, ids),
                forall|i1: int, i2: int|
                    0 <= i1 < i2 < rows@.len() ==> (#[trigger] rows@[i1]).0 != (
                    #[trigger] rows@[i2]).0,
                forall|i: int| 0 <= i < rows@.len() ==> (#[trigger] rows@[i]).1@.len() == ids.len(),
                forall|i: int, m: int|
                    #![trigger rows@[i].1@[m]]
                    0 <= i < rows@.len() && 0 <= m < ids.len() ==> rows@[i].1@[m]
                        == self.components_of(rows@[i].0)[ids[m].0 as int],
                forall|i: int|
                    0 <= i < rows@.len() ==> arch_index_in(
                        self.archs(),
                        self.index_map()[(#[trigger] rows@[i]).0.0],
                    ) < k,
                forall|e: EntityId|
                    #[trigger] self.query_matches(e, ids) && arch_index_in(
                        self.archs(),
                        self.index_map()[e.0],
                    ) < k ==> exists|i: int| 0 <= i < rows@.len() && (#[trigger] rows@[i]).0 == e,
            decreases na - k,
        {
            let ghost a = self.archs()[k as int];
            let a_bits = self.archetype_id_map[k].get_bitset();
            if a_bits.contains(&target) {
                proof {
                    assert forall|m: int| 0 <= m < ids.len() implies a.has_col(
                        (#[trigger] ids[m]).0 as int,
                    ) by {
                        assert(target@.contains(ids[m].0 as int));
                        assert(a.spec_bitset()@.contains(ids[m].0 as int));
                    }
                }
                let nr = self.archetype_id_map[k].len();
                let ghost rows_k = rows@;
                let mut j: usize = 0;
                while j < nr
                    invariant
                        self.inv(),
                        forall|m: int| 0 <= m < ids.len() ==> (#[trigger] ids[m]).0 != 0,
                        forall|c: int|
                            #![trigger target@.contains(c)]
                            target@.contains(c) <==> exists|m: int|
                                0 <= m < ids.len() && (#[trigger] ids[m]).0 == c,
                        ids == type_ids@,
                        na == self.archs().len(),
                        k < na,
                        a == self.archs()[k as int],
                        forall|m: int|
                            0 <= m < ids.len() ==> a.has_col((#[trigger] ids[m]).0 as int),
                        nr == a.spec_len(),
                        j <= nr,
                        forall|i: int|
                            0 <= i < rows@.len() ==> self.query_matches(
                                (#[trigger] rows@[i]).0,
                                ids,
                            ),
                        forall|i1: int, i2: int|
                            0 <= i1 < i2 < rows@.len() ==> (#[trigger] rows@[i1]).0 != (
                            #[trigger] rows@[i2]).0,
                        forall|i: int|
                            0 <= i < rows@.len() ==> (#[trigger] rows@[i]).1@.len() == ids.len(),
                        forall|i: int, m: int|
                            #![trigger rows@[i].1@[m]]
                            0 <= i < rows@.len() && 0 <= m < ids.len() ==> rows@[i].1@[m]
                                == self.components_of(rows@[i].0)[ids[m].0 as int],
                        forall|i: int|
                            0 <= i < rows@.len() ==> {
                                let ki = arch_index_in(
                                    self.archs(),
                                    self.index_map()[(#[trigger] rows@[i]).0.0],
                                );
                                ki < k || (ki == k && row_in(a, rows@[i].0) < j)
                            },
                        forall|e: EntityId|
                            #[trigger] self.query_matches(e, ids) && (arch_index_in(
                                self.archs(),
                                self.index_map()[e.0],
                            ) < k || (arch_index_in(self.archs(), self.index_map()[e.0]) == k
                                && row_in(a, e) < j)) ==> exists|i: int|
                                0 <= i < rows@.len() && (#[trigger] rows@[i]).0 == e,
                    decreases nr - j,
                {
                    let e = self.archetype_id_map[k].entity_at(j);
                    proof {
                        assert(a.entities()[j as int] == e);
                        assert(self.index_map().contains_key(e.0) && self.index_map()[e.0]
                            == a.spec_bitset());
                        lemma_arch_index_unique(self.archs(), a.spec_bitset());
                        assert(arch_index_in(self.archs(), self.index_map()[e.0]) == k as int) by {
                            assert(self.archs()[k as int].spec_bitset() == a.spec_bitset());
                        }
                        assert(self.arch_of(e) == a);
                        lemma_row_unique(a, e);
                        assert(a.entities().contains(e));
                        assert(row_in(a, e) == j as int);
                        assert(self.components_of(e) == a.row_map(j as int));
                        assert(self.query_matches(e, ids)) by {
                            assert forall|m: int|
                                0 <= m < ids.len() implies self.components_of(e).dom().contains(
                                (#[trigger] ids[m]).0 as int,
                            ) by {
                                assert(a.has_col(ids[m].0 as int));
                            }
                        }
                    }
                    let mut vals: Vec<C> = Vec::new();
                    let nm = type_ids.len();
                    let mut m: usize = 0;
                    while m < nm
                        invariant
                            self.inv(),
                            na == self.archs().len(),
                            k < na,
                            a == self.archs()[k as int],
                            j < a.spec_len(),
                            ids == type_ids@,
                            forall|m2: int|
                                0 <= m2 < ids.len() ==> a.has_col((#[trigger] ids[m2]).0 as int),
                            nm == ids.len(),
                            m <= nm,
                            vals@.len() == m as int,
                            forall|m2: int|
                                0 <= m2 < m ==> (#[trigger] vals@[m2]) == a.col(
                                    ids[m2].0 as int,
                                )[j as int],
                        decreases nm - m,
                    {
                        proof {
                            assert(a.has_col(ids[m as int].0 as int));
                        }
                        let v = *self.archetype_id_map[k].get_value(&type_ids[m], j);
                        vals.push(v);
                        m = m + 1;
                    }
                    let ghost rows_before = rows@;
                    rows.push((e, vals));
                    proof {
                        assert forall|m2: int|
                            0 <= m2 < ids.len() implies self.components_of(e)[ids[m2].0 as int]
                            == vals@[m2] by {
                            assert(a.has_col(ids[m2].0 as int));
                            assert(a.row_map(j as int)[ids[m2].0 as int] == a.col(
                                ids[m2].0 as int,
                            )[j as int]);
                        }
                        assert forall|i1: int, i2: int|
                            0 <= i1 < i2 < rows@.len() implies (#[trigger] rows@[i1]).0 != (
                        #[trigger] rows@[i2]).0 by {
                            if i2 == rows@.len() - 1 {
                                assert(rows@[i1] == rows_before[i1]);
                                let ki = arch_index_in(
                                    self.archs(),
                                    self.index_map()[rows_before[i1].0.0],
                                );
                                if rows@[i1].0 == e {
                                    assert(ki == k as int);
                                    assert(row_in(a, e) < j);
                                    assert(false);
                                }
                            } else {
                                assert(rows@[i1] == rows_before[i1] && rows@[i2]
                                    == rows_before[i2]);
                            }
                        }
                        assert forall|e2: EntityId|
                            #[trigger] self.query_matches(e2, ids) && (arch_index_in(
                                self.archs(),
                                self.index_map()[e2.0],
                            ) < k || (arch_index_in(self.archs(), self.index_map()[e2.0])
                                == k as int && row_in(a, e2) < j + 1)) implies exists|i: int|
                            0 <= i < rows@.len() && (#[trigger] rows@[i]).0 == e2 by {
                            if arch_index_in(self.archs(), self.index_map()[e2.0]) == k as int
                                && row_in(a, e2) == j as int {
                                assert(self.arch_of(e2) == a);
                                assert(a.entities().contains(EntityId(e2.0)));
                                assert(EntityId(e2.0) == e2);
                                lemma_row_unique(a, e2);
                                assert(a.entities()[j as int] == e2);
                                assert(e2 == e);
                                assert(rows@[rows@.len() - 1].0 == e2);
                            } else {
                                let i = choose|i: int|
                                    0 <= i < rows_before.len() && (#[trigger] rows_before[i]).0
                                        == e2;
                                assert(rows@[i].0 == e2);
                            }
                        }
                    }
                    j = j + 1;
                }
                proof {
                    assert forall|e2: EntityId|
                        #[trigger] self.query_matches(e2, ids) && arch_index_in(
                            self.archs(),
                            self.index_map()[e2.0],
                        ) < k + 1 implies exists|i: int|
                        0 <= i < rows@.len() && (#[trigger] rows@[i]).0 == e2 by {
                        if arch_index_in(self.archs(), self.index_map()[e2.0]) == k as int {
                            lemma_arch_index_unique(self.archs(), self.index_map()[e2.0]);
                            assert(self.arch_of(e2) == a);
                            assert(a.entities().contains(EntityId(e2.0)));
                            assert(EntityId(e2.0) == e2);
                            lemma_row_unique(a, e2);
                            assert(row_in(a, e2) < a.entities().len());
                            assert(a.entities().len() == a.spec_len());
                        }
                    }
                    assert forall|i: int|
                        0 <= i < rows@.len() implies arch_index_in(
                        self.archs(),
                        self.index_map()[(#[trigger] rows@[i]).0.0],
                    ) < k + 1 by {}
                }
            } else {
                proof {
                    assert forall|e2: EntityId|
                        #[trigger] self.query_matches(e2, ids) implies arch_index_in(
                        self.archs(),
                        self.index_map()[e2.0],
                    ) != k as int by {
                        if arch_index_in(self.archs(), self.index_map()[e2.0]) == k as int {
                            lemma_arch_index_unique(self.archs(), self.index_map()[e2.0]);
                            assert(self.arch_of(e2) == a);
                            assert(a.entities().contains(EntityId(e2.0)));
                            assert(EntityId(e2.0) == e2);
                            lemma_row_unique(a, e2);
                            assert(self.components_of(e2) == a.row_map(row_in(a, e2)));
                            assert forall|c: int| target@.contains(c) implies a.spec_bitset(
                            )@.contains(c) by {
                                let m = choose|m: int|
                                    0 <= m < ids.len() && (#[trigger] ids[m]).0 == c;
                                assert(self.components_of(e2).dom().contains(ids[m].0 as int));
                                assert(a.has_col(c));
                            }
                            assert(target@.subset_of(a.spec_bitset()@));
                            assert(false);
                        }
                    }
                }
            }
            k = k + 1;
        }
        proof {
            assert forall|e2: EntityId| #[trigger] self.query_matches(e2, ids) implies exists|
                i: int,
            |
                0 <= i < rows@.len() && (#[trigger] rows@[i]).0 == e2 by {
                assert(self.index_map().contains_key(e2.0));
                assert(self.has_arch(self.index_map()[e2.0]));
                lemma_arch_index_unique(self.archs(), self.index_map()[e2.0]);
                assert(arch_index_in(self.archs(), self.index_map()[e2.0]) < na as int);
            }
        }
        rows
    }
}

impl<C: Copy> World<C> {
    /// The first row of a query. Calling this when nothing matches is a
    /// programmer error and is excluded.
    pub fn query_single(&self, type_ids: &Vec<ComponentTypeId>) -> (r: (EntityId, Vec<C>))
        requires
            self.inv(),
            forall|m: int| 0 <= m < type_ids@.len() ==> (#[trigger] type_ids@[m]).0 != 0,
            exists|e: EntityId| self.query_matches(e, type_ids@),
        ensures
            self.query_matches(r.0, type_ids@),
            r.1@.len() == type_ids@.len(),
            forall|m: int|
                0 <= m < type_ids@.len() ==> (#[trigger] r.1@[m]) == self.components_of(
                    r.0,
                )[type_ids@[m].0 as int],
    {
        let mut rows = self.query(type_ids);
        proof {
            let e = choose|e: EntityId| self.query_matches(e, type_ids@);
            assert(exists|i: int| 0 <= i < rows@.len() && (#[trigger] rows@[i]).0 == e);
            assert(rows@.len() > 0);
            assert(forall|m: int|
                0 <= m < type_ids@.len() ==> rows@[0].1@[m] == self.components_of(
                    rows@[0].0,
                )[type_ids@[m].0 as int]);
        }
        rows.remove(0)
    }

    /// Like [`World::query`], through an exclusive borrow; the world itself
    /// is unchanged. Mutation goes through [`World::set_component`].
    pub fn query_mut(&mut self, type_ids: &Vec<ComponentTypeId>) -> (rows: Vec<(EntityId, Vec<C>)>)
        requires
            old(self).inv(),
            forall|m: int| 0 <= m < type_ids@.len() ==> (#[trigger] type_ids@[m]).0 != 0,
        ensures
            *final(self) == *old(self),
            forall|i: int|
                0 <= i < rows@.len() ==> old(self).query_matches((#[trigger] rows@[i]).0, type_ids@),
            forall|i1: int, i2: int|
                0 <= i1 < i2 < rows@.len() ==> (#[trigger] rows@[i1]).0 != (#[trigger] rows@[i2]).0,
            forall|e: EntityId|
                #[trigger] old(self).query_matches(e, type_ids@) ==> exists|i: int|
                    0 <= i < rows@.len() && (#[trigger] rows@[i]).0 == e,
            forall|i: int| 0 <= i < rows@.len() ==> (#[trigger] rows@[i]).1@.len() == type_ids@.len(),
            forall|i: int, m: int|
                #![trigger rows@[i].1@[m]]
                0 <= i < rows@.len() && 0 <= m < type_ids@.len() ==> rows@[i].1@[m] == old(
                    self,
                ).components_of(rows@[i].0)[type_ids@[m].0 as int],
    {
        self.query(type_ids)
    }

    /// The first row of a query, through an exclusive borrow. Calling this
    /// when nothing matches is a programmer error and is excluded.
    pub fn query_mut_single(&mut self, type_ids: &Vec<ComponentTypeId>) -> (r: (EntityId, Vec<C>))
        requires
            old(self).inv(),
            forall|m: int| 0 <= m < type_ids@.len() ==> (#[trigger] type_ids@[m]).0 != 0,
            exists|e: EntityId| old(self).query_matches(e, type_ids@),
        ensures
            *final(self) == *old(self),
            old(self).query_matches(r.0, type_ids@),
            r.1@.len() == type_ids@.len(),
            forall|m: int|
                0 <= m < type_ids@.len() ==> (#[trigger] r.1@[m]) == old(self).components_of(
                    r.0,
                )[type_ids@[m].0 as int],
    {
        self.query_single(type_ids)
    }
}

/// Row-count invariant: in a well-formed world, every archetype's columns
/// have the same length, and that length is the archetype's row count.
pub proof fn lemma_row_count_invariant<C>(w: World<C>, k: int)
    requires
        w.inv(),
        0 <= k < w.archs().len(),
    ensures
        w.archs()[k].entities().len() == w.archs()[k].spec_len(),
        forall|c: int|
            #[trigger] w.archs()[k].has_col(c) ==> w.archs()[k].col(c).len() == w.archs()[
                k].spec_len(),
{
    let a = w.archs()[k];
    assert forall|c: int| #[trigger] a.has_col(c) implies a.col(c).len() == a.spec_len() by {
        a.lemma_col_index(c);
    }
}

/// Bit set superset correctness: a live entity matches a query exactly when
/// the query's bit set is a subset of its archetype's bit set, so archetypes
/// holding a strict superset of the requested kinds match too.
pub proof fn lemma_query_superset<C>(
    w: World<C>,
    e: EntityId,
    ids: Seq<ComponentTypeId>,
    target: BitSet,
)
    requires
        w.inv(),
        w.live(e),
        forall|m: int| 0 <= m < ids.len() ==> (#[trigger] ids[m]).0 != 0,
        forall|c: int|
            #![trigger target@.contains(c)]
            target@.contains(c) <==> exists|m: int| 0 <= m < ids.len() && (#[trigger] ids[m]).0
                == c,
    ensures
        w.query_matches(e, ids) <==> target@.subset_of(w.arch_of(e).spec_bitset()@),
{
    lemma_arch_index_unique(w.archs(), w.index_map()[e.0]);
    let a = w.arch_of(e);
    assert(a.wf());
    assert(a.entities().contains(EntityId(e.0)));
    assert(EntityId(e.0) == e);
    lemma_row_unique(a, e);
    assert(w.components_of(e) == a.row_map(row_in(a, e)));
    if w.query_matches(e, ids) {
        assert forall|c: int| target@.contains(c) implies a.spec_bitset()@.contains(c) by {
            let m = choose|m: int| 0 <= m < ids.len() && (#[trigger] ids[m]).0 == c;
            assert(w.components_of(e).dom().contains(ids[m].0 as int));
            assert(a.has_col(c));
        }
    }
    if target@.subset_of(a.spec_bitset()@) {
        assert forall|m: int|
            0 <= m < ids.len() implies w.components_of(e).dom().contains(
            (#[trigger] ids[m]).0 as int,
        ) by {
            assert(target@.contains(ids[m].0 as int));
            assert(a.spec_bitset()@.contains(ids[m].0 as int));
            assert(a.has_col(ids[m].0 as int));
        }
    }
}

/// Round trip: after an entity is inserted with component pairs `cs`, any
/// query whose ids are drawn from `cs` matches the new entity, the values
/// read back for it are exactly the inserted ones, and every other entity's
/// match status and values are unchanged.
pub proof fn lemma_round_trip<C>(
    pre: World<C>,
    post: World<C>,
    e: EntityId,
    cs: Seq<(ComponentTypeId, C)>,
    ids: Seq<ComponentTypeId>,
)
    requires
        !pre.live(e),
        post.live(e),
        post@ == pre@.insert(e, pairs_map(cs)),
        forall|m1: int, m2: int|
            0 <= m1 < m2 < cs.len() ==> (#[trigger] cs[m1]).0.0 != (#[trigger] cs[m2]).0.0,
        forall|m: int|
            0 <= m < ids.len() ==> exists|m2: int|
                0 <= m2 < cs.len() && (#[trigger] cs[m2]).0 == (#[trigger] ids[m]),
    ensures
        post.query_matches(e, ids),
        forall|m: int|
            0 <= m < ids.len() ==> post.components_of(e)[(#[trigger] ids[m]).0 as int]
                == pair_value(cs, ids[m].0 as int),
        forall|e2: EntityId|
            e2 != e ==> (#[trigger] post.query_matches(e2, ids) <==> pre.query_matches(e2, ids)),
        forall|e2: EntityId|
            e2 != e && pre.live(e2) ==> #[trigger] post.components_of(e2) == pre.components_of(e2),
{
    assert(post@.dom().contains(e));
    assert(post.components_of(e) == post@[e]);
    assert(post@[e] == pairs_map(cs));
    assert forall|m: int|
        0 <= m < ids.len() implies post.components_of(e).dom().contains(
        (#[trigger] ids[m]).0 as int,
    ) && post.components_of(e)[ids[m].0 as int] == pair_value(cs, ids[m].0 as int) by {
        let m2 = choose|m2: int| 0 <= m2 < cs.len() && (#[trigger] cs[m2]).0 == ids[m];
        assert(cs[m2].0.0 == ids[m].0);
        assert(pairs_has(cs, ids[m].0 as int));
        assert(pairs_map(cs).dom().contains(ids[m].0 as int));
    }
    assert forall|e2: EntityId| e2 != e && pre.live(e2) implies #[trigger] post.components_of(e2)
        == pre.components_of(e2) && post.live(e2) by {
        assert(pre@.dom().contains(e2));
        assert(post@.dom().contains(e2));
        assert(post@[e2] == pre@[e2]);
        assert(post.components_of(e2) == post@[e2]);
        assert(pre.components_of(e2) == pre@[e2]);
    }
    assert forall|e2: EntityId| e2 != e && post.live(e2) implies pre.live(e2) by {
        assert(post@.dom().contains(e2));
    }
    assert forall|e2: EntityId|
        e2 != e implies (#[trigger] post.query_matches(e2, ids) <==> pre.query_matches(
        e2,
        ids,
    )) by {
        if post.query_matches(e2, ids) {
            assert(pre.live(e2));
            assert(post.components_of(e2) == pre.components_of(e2));
        }
        if pre.query_matches(e2, ids) {
            assert(pre@.dom().contains(e2));
            assert(post@.dom().contains(e2));
            assert(post.live(e2));
            assert(post.components_of(e2) == pre.components_of(e2));
        }
    }
}

/// The staged system scheduler: one ordered bucket of system handles per
/// stage. Registration order is execution order; there is no deduplication
/// and no priority. Systems are named by caller-chosen 64-bit handles, and a
/// run threads the shared state through a caller-supplied dispatcher that
/// maps a handle to its behaviour.
pub struct Schedular {
    /// One ordered list of system handles per stage, indexed by
    /// [`SystemStage::spec_index`].
    pub systems: Vec<Vec<u64>>,
}

impl Schedular {
    /// The per-stage lists of system handles.
    pub open spec fn lists(self) -> Seq<Seq<u64>> {
        self.systems@.map_values(|v: Vec<u64>| v@)
    }

    /// One list per stage.
    pub open spec fn wf(self) -> bool {
        self.lists().len() == 8
    }

    /// The systems registered for `stage`, in registration order.
    pub open spec fn systems_for(self, stage: SystemStage) -> Seq<u64> {
        self.lists()[stage.spec_index()]
    }

    /// A scheduler with every stage empty.
    pub fn new() -> (r: Self)
        ensures
            r.wf(),
            forall|s: SystemStage| #[trigger] r.systems_for(s) == Seq::<u64>::empty(),
    {
        let mut systems: Vec<Vec<u64>> = Vec::new();
        let mut i: usize = 0;
        while i < 8
            invariant
                i <= 8,
                systems@.len() == i as int,
                forall|k: int| 0 <= k < i ==> (#[trigger] systems@[k])@ == Seq::<u64>::empty(),
            decreases 8 - i,
        {
            systems.push(Vec::new());
            i = i + 1;
        }
        let r = Schedular { systems };
        proof {
            assert(forall|s: SystemStage| 0 <= #[trigger] s.spec_index() < 8);
        }
        r
    }

    /// Appends one system handle to a stage's bucket; no other stage changes.
    pub fn add_system(&mut self, stage: SystemStage, system: u64)
        requires
            old(self).wf(),
            old(self).systems_for(stage).len() < usize::MAX,
        ensures
            final(self).wf(),
            final(self).systems_for(stage) == old(self).systems_for(stage).push(system),
            forall|s2: SystemStage|
                s2 != stage ==> #[trigger] final(self).systems_for(s2) == old(self).systems_for(s2),
    {
        let i = stage.index();
        let list = vstd::std_specs::vec::vec_index_mut(&mut self.systems, i);
        list.push(system);
        proof {
            assert forall|s2: SystemStage|
                s2 != stage implies #[trigger] self.systems_for(s2) == old(self).systems_for(
                s2,
            ) by {
                crate::stage::lemma_stage_index_injective(s2, stage);
            }
        }
    }

    /// Runs every system registered for `stage`, in registration order,
    /// threading the shared state through `dispatch`: each step hands the
    /// state to the system named by the next handle and continues with what
    /// it returns. The result is witnessed by a chain of intermediate states,
    /// one per system, each step allowed by the dispatcher's contract.
    pub fn run<V>(&self, stage: SystemStage, data: V, dispatch: impl Fn(u64, V) -> V) -> (r: V)
        requires
            self.wf(),
            forall|id: u64, v: V|
                self.systems_for(stage).contains(id) ==> call_requires(dispatch, (id, v)),
        ensures
            exists|chain: Seq<V>|
                {
                    &&& chain.len() == self.systems_for(stage).len() + 1
                    &&& chain[0] == data
                    &&& chain[chain.len() - 1] == r
                    &&& forall|i: int|
                        0 <= i < self.systems_for(stage).len() ==> call_ensures(
                            dispatch,
                            (self.systems_for(stage)[i], chain[i]),
                            #[trigger] chain[i + 1],
                        )
                },
            self.systems_for(stage).len() == 0 ==> r == data,
    {
        let idx = stage.index();
        let ghost list = self.systems_for(stage);
        let n = self.systems[idx].len();
        let mut state = data;
        let ghost mut chain: Seq<V> = seq![data];
        let mut m: usize = 0;
        while m < n
            invariant
                self.wf(),
                0 <= stage.spec_index() < 8,
                idx as int == stage.spec_index(),
                list == self.systems_for(stage),
                forall|id: u64, v: V| list.contains(id) ==> call_requires(dispatch, (id, v)),
                n == list.len(),
                m <= n,
                chain.len() == m + 1,
                chain[0] == data,
                chain[m as int] == state,
                forall|i: int|
                    0 <= i < m ==> call_ensures(dispatch, (list[i], chain[i]), #[trigger] chain[i
                        + 1]),
            decreases n - m,
        {
            let id = self.systems[idx][m];
            proof {
                assert(list[m as int] == id);
                assert(list.contains(id));
            }
            state = dispatch(id, state);
            proof {
                chain = chain.push(state);
            }
            m = m + 1;
        }
        proof {
            assert(chain[chain.len() - 1] == state);
        }
        state
    }
}

impl<C> View for World<C> {
    type V = Map<EntityId, Map<int, C>>;

    /// The world as the map from each live entity to its component map.
    open spec fn view(&self) -> Map<EntityId, Map<int, C>> {
        Map::new(|e: EntityId| self.live(e), |e: EntityId| self.components_of(e))
    }
}

} // verus!
