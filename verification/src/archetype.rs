//! One archetype: the columnar table shared by all entities that hold exactly
//! the same set of component kinds.
//!
//! An archetype keeps one erased column per component kind present, plus the
//! entity column (component kind 0), all of a common row length; the values of
//! one entity sit at the same row index in every column. Rows are removed by
//! swap-remove, so row order is not preserved across removals.

use vstd::prelude::*;

use crate::bitset::BitSet;
use crate::component::ComponentTypeId;
use crate::component::TypeErasedComponentVec;
use crate::entity::EntityId;

verus! {

/// Position of the pair carrying component id `c` in a row of `(id, value)`
/// pairs.
pub open spec fn pair_index<C>(s: Seq<(ComponentTypeId, C)>, c: int) -> int {
    choose|m: int| 0 <= m < s.len() && (#[trigger] s[m]).0.0 == c
}

/// Whether a row of `(id, value)` pairs carries component id `c`.
pub open spec fn pairs_has<C>(s: Seq<(ComponentTypeId, C)>, c: int) -> bool {
    exists|m: int| 0 <= m < s.len() && (#[trigger] s[m]).0.0 == c
}

/// The value carried for component id `c` in a row of `(id, value)` pairs.
pub open spec fn pair_value<C>(s: Seq<(ComponentTypeId, C)>, c: int) -> C {
    s[pair_index(s, c)].1
}

/// A row of `(id, value)` pairs as the map from component id to value.
pub open spec fn pairs_map<C>(s: Seq<(ComponentTypeId, C)>) -> Map<int, C> {
    Map::new(|c: int| pairs_has(s, c), |c: int| pair_value(s, c))
}

/// Two archetypes with the same id table hold columns for the same ids.
pub proof fn lemma_has_col_same_ids<C>(a: Archetype<C>, b: Archetype<C>)
    requires
        a.ids() == b.ids(),
    ensures
        forall|c: int| #[trigger] a.has_col(c) == b.has_col(c),
{
    assert forall|c: int| #[trigger] a.has_col(c) == b.has_col(c) by {
        if a.has_col(c) {
            let k = choose|k: int| 0 <= k < a.ids().len() && (#[trigger] a.ids()[k]).0 == c;
            assert(b.ids()[k].0 == c);
        }
        if b.has_col(c) {
            let k = choose|k: int| 0 <= k < b.ids().len() && (#[trigger] b.ids()[k]).0 == c;
            assert(a.ids()[k].0 == c);
        }
    }
}

/// A row count is a machine size and so never negative.
pub broadcast proof fn lemma_spec_len_nonneg<C>(a: Archetype<C>)
    ensures
        #[trigger] a.spec_len() >= 0,
{
}

/// A set of columns of one common row length, one per component kind present,
/// with rows positionally aligned across columns.
pub struct Archetype<C> {
    bitset: BitSet,
    component_ids: Vec<ComponentTypeId>,
    columns: Vec<TypeErasedComponentVec<C>>,
    entity_column: Vec<EntityId>,
    len: usize,
}

impl<C> Archetype<C> {
    /// The bit set naming the component kinds this archetype holds.
    pub closed spec fn spec_bitset(self) -> BitSet {
        self.bitset
    }

    /// The component ids with a column here, in column order; the entity
    /// column (id 0) is kept apart and is not listed.
    pub closed spec fn ids(self) -> Seq<ComponentTypeId> {
        self.component_ids@
    }

    /// The entity column: which entity owns each row.
    pub closed spec fn entities(self) -> Seq<EntityId> {
        self.entity_column@
    }

    /// The common row count.
    pub closed spec fn spec_len(self) -> int {
        self.len as int
    }

    /// The column at position `k` of `ids()`.
    pub closed spec fn col_by_index(self, k: int) -> Seq<C> {
        self.columns@[k]@
    }

    /// Whether a column for component id `c` is present.
    pub open spec fn has_col(self, c: int) -> bool {
        exists|k: int| 0 <= k < self.ids().len() && (#[trigger] self.ids()[k]).0 == c
    }

    /// The position of component id `c`'s column.
    pub open spec fn col_index(self, c: int) -> int {
        choose|k: int| 0 <= k < self.ids().len() && (#[trigger] self.ids()[k]).0 == c
    }

    /// The column holding component id `c`'s values.
    pub open spec fn col(self, c: int) -> Seq<C> {
        self.col_by_index(self.col_index(c))
    }

    /// Row `j` as the map from component id to the value stored there.
    pub open spec fn row_map(self, j: int) -> Map<int, C> {
        Map::new(|c: int| self.has_col(c), |c: int| self.col(c)[j])
    }

    /// The private tables stay parallel.
    pub closed spec fn rep_wf(self) -> bool {
        self.columns@.len() == self.component_ids@.len()
    }

    /// Well-formedness: column ids are distinct and never 0 (the entity
    /// column's id), every column has exactly `spec_len()` rows, the entity
    /// column too, and the bit set holds bit 0 plus exactly the ids with a
    /// column.
    pub open spec fn wf(self) -> bool {
        &&& self.rep_wf()
        &&& self.entities().len() == self.spec_len()
        &&& forall|k1: int, k2: int|
            0 <= k1 < k2 < self.ids().len() ==> (#[trigger] self.ids()[k1]).0 != (
            #[trigger] self.ids()[k2]).0
        &&& forall|k: int| 0 <= k < self.ids().len() ==> (#[trigger] self.ids()[k]).0 != 0
        &&& forall|k: int|
            0 <= k < self.ids().len() ==> #[trigger] self.col_by_index(k).len() == self.spec_len()
        &&& forall|c: int|
            #![trigger self.spec_bitset()@.contains(c)]
            #![trigger self.has_col(c)]
            self.spec_bitset()@.contains(c) <==> (c == 0 || self.has_col(c))
    }

    /// Under distinct ids, `col_index` is the one position of `c`'s column.
    pub proof fn lemma_col_index(self, c: int)
        requires
            self.wf(),
            self.has_col(c),
        ensures
            0 <= self.col_index(c) < self.ids().len(),
            self.ids()[self.col_index(c)].0 == c,
            self.col(c).len() == self.spec_len(),
            forall|k: int|
                0 <= k < self.ids().len() && (#[trigger] self.ids()[k]).0 == c ==> k
                    == self.col_index(c),
    {
        let ki = self.col_index(c);
        assert(0 <= ki < self.ids().len() && self.ids()[ki].0 == c);
        assert forall|k: int|
            0 <= k < self.ids().len() && (#[trigger] self.ids()[k]).0 == c implies k == ki by {
            if k < ki {
                assert(self.ids()[k].0 != self.ids()[ki].0);
            } else if ki < k {
                assert(self.ids()[ki].0 != self.ids()[k].0);
            }
        }
    }

    /// An empty archetype holding the entity column alone.
    pub fn new() -> (r: Self)
        ensures
            r.wf(),
            r.spec_len() == 0,
            r.ids() == Seq::<ComponentTypeId>::empty(),
            r.entities() == Seq::<EntityId>::empty(),
            r.spec_bitset()@ == Set::<int>::empty().insert(0),
    {
        let r = Archetype {
            bitset: BitSet::from_id(0),
            component_ids: Vec::new(),
            columns: Vec::new(),
            entity_column: Vec::new(),
            len: 0,
        };
        proof {
            assert forall|c: int| #![auto] r.spec_bitset()@.contains(c) <==> (c == 0 || r.has_col(
                c,
            )) by {
                assert(!r.has_col(c));
            }
        }
        r
    }

    /// The common row count.
    pub fn len(&self) -> (r: usize)
        ensures
            r == self.spec_len(),
    {
        self.len
    }

    /// The stored bit set.
    pub fn get_bitset(&self) -> (r: BitSet)
        ensures
            r == self.spec_bitset(),
    {
        self.bitset
    }

    /// Adds a column for a new component kind to a still-empty archetype.
    pub fn insert_column(&mut self, id: ComponentTypeId, vec: TypeErasedComponentVec<C>)
        requires
            old(self).wf(),
            old(self).spec_len() == 0,
            vec@.len() == 0,
            id.0 != 0,
            !old(self).has_col(id.0 as int),
        ensures
            final(self).wf(),
            final(self).spec_len() == 0,
            final(self).entities() == old(self).entities(),
            final(self).ids() == old(self).ids().push(id),
            final(self).spec_bitset()@ == old(self).spec_bitset()@.insert(id.0 as int),
    {
        self.bitset.insert_id(id.0);
        self.component_ids.push(id);
        self.columns.push(vec);
        proof {
            let o = *old(self);
            let n = *self;
            assert(n.ids() == o.ids().push(id));
            assert forall|c: int| n.has_col(c) <==> (o.has_col(c) || c == id.0 as int) by {
                if o.has_col(c) {
                    let k = choose|k: int|
                        0 <= k < o.ids().len() && (#[trigger] o.ids()[k]).0 == c;
                    assert(n.ids()[k].0 == c);
                }
                if c == id.0 as int {
                    assert(n.ids()[n.ids().len() - 1].0 == c);
                }
                if n.has_col(c) {
                    let k = choose|k: int|
                        0 <= k < n.ids().len() && (#[trigger] n.ids()[k]).0 == c;
                    if k < n.ids().len() - 1 {
                        assert(o.ids()[k].0 == c);
                    }
                }
            }
            assert forall|k1: int, k2: int|
                0 <= k1 < k2 < n.ids().len() implies (#[trigger] n.ids()[k1]).0 != (
            #[trigger] n.ids()[k2]).0 by {
                if k2 == n.ids().len() - 1 {
                    assert(n.ids()[k1] == o.ids()[k1]);
                    if o.ids()[k1].0 == id.0 {
                        assert(o.has_col(id.0 as int));
                        assert(false);
                    }
                } else {
                    assert(n.ids()[k1] == o.ids()[k1] && n.ids()[k2] == o.ids()[k2]);
                }
            }
            assert forall|k: int| 0 <= k < n.ids().len() implies (#[trigger] n.ids()[k]).0 != 0 by {
                if k < o.ids().len() {
                    assert(n.ids()[k] == o.ids()[k]);
                }
            }
            assert forall|k: int|
                0 <= k < n.ids().len() implies #[trigger] n.col_by_index(k).len()
                == n.spec_len() by {
                if k < o.ids().len() {
                    assert(n.col_by_index(k) == o.col_by_index(k));
                } else {
                    assert(n.col_by_index(k) == vec@);
                }
            }
            assert forall|c: int| #![auto] n.spec_bitset()@.contains(c) <==> (c == 0 || n.has_col(
                c,
            )) by {
                assert(n.spec_bitset()@.contains(c) <==> (o.spec_bitset()@.contains(c) || c
                    == id.0 as int));
                assert(o.spec_bitset()@.contains(c) <==> (c == 0 || o.has_col(c)));
            }
            assert(n.wf());
        }
    }

    /// The position of component id `id`'s column, scanning the id table.
    fn find_col(&self, id: ComponentTypeId) -> (r: Option<usize>)
        ensures
            match r {
                Some(k) => k < self.ids().len() && self.ids()[k as int] == id,
                None => !self.has_col(id.0 as int),
            },
    {
        let n = self.component_ids.len();
        let mut i: usize = 0;
        while i < n
            invariant
                n == self.ids().len(),
                i <= n,
                forall|k: int| 0 <= k < i ==> (#[trigger] self.ids()[k]).0 != id.0,
            decreases n - i,
        {
            if self.component_ids[i] == id {
                return Some(i);
            }
            proof {
                assert(self.ids()[i as int].0 != id.0);
            }
            i = i + 1;
        }
        None
    }

    /// Borrows the column holding component id `id`'s values. Asking for an
    /// absent column is a programmer error and is excluded.
    pub fn get_column(&self, id: &ComponentTypeId) -> (r: &TypeErasedComponentVec<C>)
        requires
            self.wf(),
            self.has_col(id.0 as int),
        ensures
            r@ == self.col(id.0 as int),
    {
        let k = match self.find_col(*id) {
            Some(k) => k,
            None => unreached(),
        };
        proof {
            self.lemma_col_index(id.0 as int);
        }
        &self.columns[k]
    }

    /// Borrows the value of component `id` in row `row`.
    pub fn get_value(&self, id: &ComponentTypeId, row: usize) -> (r: &C)
        requires
            self.wf(),
            self.has_col(id.0 as int),
            row < self.spec_len(),
        ensures
            *r == self.col(id.0 as int)[row as int],
    {
        let column = self.get_column(id);
        proof {
            self.lemma_col_index(id.0 as int);
        }
        vstd::std_specs::vec::vec_index(column.get(), row)
    }

    /// Overwrites the value of component `id` in row `row`.
    pub fn set_value(&mut self, id: &ComponentTypeId, row: usize, value: C)
        requires
            old(self).wf(),
            old(self).has_col(id.0 as int),
            row < old(self).spec_len(),
        ensures
            final(self).wf(),
            final(self).spec_len() == old(self).spec_len(),
            final(self).ids() == old(self).ids(),
            final(self).spec_bitset() == old(self).spec_bitset(),
            final(self).entities() == old(self).entities(),
            forall|c: int|
                old(self).has_col(c) && c != id.0 as int ==> #[trigger] final(self).col(c) == old(
                    self,
                ).col(c),
            final(self).col(id.0 as int) == old(self).col(id.0 as int).update(row as int, value),
    {
        proof {
            old(self).lemma_col_index(id.0 as int);
        }
        let k = match self.find_col(*id) {
            Some(k) => k,
            None => unreached(),
        };
        let column = vstd::std_specs::vec::vec_index_mut(&mut self.columns, k);
        let cells = column.get_mut();
        let r = vstd::std_specs::vec::vec_index_mut(cells, row);
        *r = value;
        proof {
            let o = *old(self);
            let n = *self;
            assert(n.ids() == o.ids());
            o.lemma_col_index(id.0 as int);
            assert(k as int == o.col_index(id.0 as int));
            assert forall|k2: int|
                0 <= k2 < n.ids().len() implies #[trigger] n.col_by_index(k2) == (if k2 == k as int {
                o.col_by_index(k2).update(row as int, value)
            } else {
                o.col_by_index(k2)
            }) by {}
            assert forall|k2: int|
                0 <= k2 < n.ids().len() implies #[trigger] n.col_by_index(k2).len()
                == n.spec_len() by {}
            assert(n.wf());
            assert forall|c: int| o.has_col(c) implies n.col_index(c) == o.col_index(c) && (
            #[trigger] n.col(c)) == (if c == id.0 as int {
                o.col(c).update(row as int, value)
            } else {
                o.col(c)
            }) by {
                o.lemma_col_index(c);
                let k0 = o.col_index(c);
                assert(n.ids()[k0].0 == c);
                assert(n.has_col(c));
                n.lemma_col_index(c);
                assert(n.col_index(c) == k0);
                if c != id.0 as int {
                    assert(k0 != k as int);
                }
            }
        }
    }

    /// The entity owning row `row`.
    pub fn entity_at(&self, row: usize) -> (r: EntityId)
        requires
            self.wf(),
            row < self.spec_len(),
        ensures
            r == self.entities()[row as int],
    {
        self.entity_column[row]
    }

    /// The row owned by entity `entity`, found by linear scan of the entity
    /// column.
    pub fn find_row(&self, entity: EntityId) -> (r: Option<usize>)
        requires
            self.wf(),
        ensures
            match r {
                Some(j) => j < self.spec_len() && self.entities()[j as int] == entity,
                None => !self.entities().contains(entity),
            },
    {
        let n = self.entity_column.len();
        let mut i: usize = 0;
        while i < n
            invariant
                self.wf(),
                n == self.entities().len(),
                i <= n,
                forall|k: int| 0 <= k < i ==> self.entities()[k] != entity,
            decreases n - i,
        {
            if self.entity_column[i] == entity {
                return Some(i);
            }
            i = i + 1;
        }
        proof {
            assert(!self.entities().contains(entity));
        }
        None
    }

    /// Appends one row: `entity` plus one value for every column, given as
    /// `(id, value)` pairs covering this archetype's ids exactly.
    pub fn push_row(&mut self, entity: EntityId, comps: Vec<(ComponentTypeId, C)>)
        requires
            old(self).wf(),
            old(self).spec_len() < usize::MAX,
            forall|m1: int, m2: int|
                0 <= m1 < m2 < comps@.len() ==> (#[trigger] comps@[m1]).0.0 != (
                #[trigger] comps@[m2]).0.0,
            forall|m: int|
                0 <= m < comps@.len() ==> old(self).has_col((#[trigger] comps@[m]).0.0 as int),
            forall|k: int|
                0 <= k < old(self).ids().len() ==> pairs_has(comps@, (#[trigger] old(
                    self,
                ).ids()[k]).0 as int),
        ensures
            final(self).wf(),
            final(self).spec_len() == old(self).spec_len() + 1,
            final(self).ids() == old(self).ids(),
            final(self).spec_bitset() == old(self).spec_bitset(),
            final(self).entities() == old(self).entities().push(entity),
            forall|c: int|
                old(self).has_col(c) ==> #[trigger] final(self).col(c) == old(self).col(c).push(
                    pair_value(comps@, c),
                ),
    {
        let ghost orig = comps@;
        let ghost o = *old(self);
        let mut comps = comps;
        self.entity_column.push(entity);
        while comps.len() > 0
            invariant
                o.wf(),
                o.spec_len() < usize::MAX,
                forall|m1: int, m2: int|
                    0 <= m1 < m2 < orig.len() ==> (#[trigger] orig[m1]).0.0 != (
                    #[trigger] orig[m2]).0.0,
                forall|m: int| 0 <= m < orig.len() ==> o.has_col((#[trigger] orig[m]).0.0 as int),
                comps@.len() <= orig.len(),
                comps@ == orig.take(comps@.len() as int),
                self.component_ids@ == o.ids(),
                self.bitset == o.spec_bitset(),
                self.len == o.spec_len(),
                self.entity_column@ == o.entities().push(entity),
                self.columns@.len() == o.ids().len(),
                forall|k: int|
                    0 <= k < o.ids().len() ==> #[trigger] self.col_by_index(k) == (if exists|m: int|
                        comps@.len() <= m < orig.len() && (#[trigger] orig[m]).0.0 == o.ids()[k].0 {
                        o.col_by_index(k).push(pair_value(orig, o.ids()[k].0 as int))
                    } else {
                        o.col_by_index(k)
                    }),
            decreases comps@.len(),
        {
            let ghost before = comps@;
            let pair = match comps.pop() {
                Some(p) => p,
                None => unreached(),
            };
            let ghost mi = before.len() - 1;
            proof {
                assert(before == orig.take(before.len() as int));
                assert(pair == before[mi]);
                assert(before[mi] == orig.take(before.len() as int)[mi]);
                assert(orig.take(before.len() as int)[mi] == orig[mi]);
                assert(comps@ == before.subrange(0, mi));
                assert forall|x: int| 0 <= x < mi implies comps@[x] == orig.take(mi)[x] by {
                    assert(comps@[x] == before[x]);
                    assert(before[x] == orig.take(before.len() as int)[x]);
                    assert(orig.take(before.len() as int)[x] == orig[x]);
                    assert(orig.take(mi)[x] == orig[x]);
                }
                assert(comps@ =~= orig.take(comps@.len() as int));
            }
            let k = match self.find_col(pair.0) {
                Some(k) => k,
                None => {
                    proof {
                        assert(o.has_col(orig[mi].0.0 as int));
                        let kk = choose|kk: int|
                            0 <= kk < o.ids().len() && (#[trigger] o.ids()[kk]).0 == orig[mi].0.0;
                        assert(self.ids()[kk].0 == orig[mi].0.0);
                        assert(false);
                    }
                    unreached()
                },
            };
            proof {
                o.lemma_col_index(pair.0.0 as int);
                assert(o.col_index(pair.0.0 as int) == k as int);
                assert(!(exists|m: int|
                    before.len() <= m < orig.len() && (#[trigger] orig[m]).0.0 == o.ids()[
                        k as int].0)) by {
                    if exists|m: int|
                        before.len() <= m < orig.len() && (#[trigger] orig[m]).0.0 == o.ids()[
                            k as int].0 {
                        let m = choose|m: int|
                            before.len() <= m < orig.len() && (#[trigger] orig[m]).0.0 == o.ids()[
                                k as int].0;
                        assert(orig[mi].0.0 == orig[m].0.0);
                        assert(false);
                    }
                }
                assert(self.col_by_index(k as int) == o.col_by_index(k as int));
                assert(pair_index(orig, orig[mi].0.0 as int) == mi) by {
                    let m2 = pair_index(orig, orig[mi].0.0 as int);
                    assert(pairs_has(orig, orig[mi].0.0 as int)) by {
                        assert((orig[mi]).0.0 == orig[mi].0.0);
                    }
                    assert(0 <= m2 < orig.len() && orig[m2].0.0 == orig[mi].0.0);
                    if m2 != mi {
                        assert(false);
                    }
                }
                assert(pair_value(orig, pair.0.0 as int) == pair.1);
            }
            let ghost st = *self;
            let column = vstd::std_specs::vec::vec_index_mut(&mut self.columns, k);
            column.push(pair.1);
            proof {
                let n = *self;
                assert(n.columns@ == st.columns@.update(k as int, n.columns@[k as int]));
                assert(n.col_by_index(k as int) == st.col_by_index(k as int).push(pair.1));
                assert(st.col_by_index(k as int) == o.col_by_index(k as int));
                assert forall|k2: int| 0 <= k2 < o.ids().len() implies #[trigger] n.col_by_index(
                    k2,
                ) == (if exists|m: int|
                    comps@.len() <= m < orig.len() && (#[trigger] orig[m]).0.0 == o.ids()[k2].0 {
                    o.col_by_index(k2).push(pair_value(orig, o.ids()[k2].0 as int))
                } else {
                    o.col_by_index(k2)
                }) by {
                    if k2 == k as int {
                        assert(orig[mi].0.0 == o.ids()[k2].0);
                        assert(n.col_by_index(k2) == o.col_by_index(k2).push(pair_value(
                            orig,
                            o.ids()[k2].0 as int,
                        )));
                    } else {
                        assert(n.col_by_index(k2) == st.col_by_index(k2));
                        assert(o.ids()[k2].0 != o.ids()[k as int].0) by {
                            if k2 < k as int {
                                assert(o.ids()[k2].0 != o.ids()[k as int].0);
                            } else {
                                assert(o.ids()[k as int].0 != o.ids()[k2].0);
                            }
                        }
                        assert forall|m: int|
                            comps@.len() <= m < orig.len() implies ((#[trigger] orig[m]).0.0
                            == o.ids()[k2].0) == (before.len() <= m < orig.len() && orig[m].0.0
                            == o.ids()[k2].0) by {
                            if m == mi {
                                assert(orig[mi].0.0 != o.ids()[k2].0);
                            }
                        }
                        assert(st.col_by_index(k2) == (if exists|m: int|
                            before.len() <= m < orig.len() && (#[trigger] orig[m]).0.0 == o.ids()[
                                k2].0 {
                            o.col_by_index(k2).push(pair_value(orig, o.ids()[k2].0 as int))
                        } else {
                            o.col_by_index(k2)
                        }));
                    }
                }
            }
        }
        let ghost sx = *self;
        self.len = self.len + 1;
        proof {
            let n = *self;
            assert(comps@.len() == 0);
            assert(n.ids() == o.ids());
            assert forall|k: int|
                0 <= k < n.ids().len() implies #[trigger] n.col_by_index(k) == o.col_by_index(
                k,
            ).push(pair_value(orig, o.ids()[k].0 as int)) by {
                assert(n.col_by_index(k) == sx.col_by_index(k));
                assert(pairs_has(orig, o.ids()[k].0 as int));
                let m = pair_index(orig, o.ids()[k].0 as int);
                assert(0 <= m < orig.len() && orig[m].0.0 == o.ids()[k].0);
                assert(exists|m2: int|
                    comps@.len() <= m2 < orig.len() && (#[trigger] orig[m2]).0.0 == o.ids()[k].0);
            }
            assert forall|k: int|
                0 <= k < n.ids().len() implies #[trigger] n.col_by_index(k).len()
                == n.spec_len() by {}
            assert(n.wf());
            assert forall|c: int| o.has_col(c) implies #[trigger] n.col(c) == o.col(c).push(
                pair_value(orig, c),
            ) by {
                o.lemma_col_index(c);
                let k0 = o.col_index(c);
                assert(n.ids()[k0].0 == c);
                assert(n.has_col(c));
                n.lemma_col_index(c);
                assert(n.col_index(c) == k0);
                assert(n.col_by_index(k0) == o.col_by_index(k0).push(pair_value(orig, c)));
            }
        }
    }

    /// Removes row `row` by swap-remove from every column, handing back the
    /// entity and the removed values as `(id, value)` pairs in column order.
    /// The last row moves into the freed slot.
    pub fn take_row(&mut self, row: usize) -> (r: (EntityId, Vec<(ComponentTypeId, C)>))
        requires
            old(self).wf(),
            row < old(self).spec_len(),
        ensures
            final(self).wf(),
            final(self).spec_len() == old(self).spec_len() - 1,
            final(self).ids() == old(self).ids(),
            final(self).spec_bitset() == old(self).spec_bitset(),
            final(self).entities() == old(self).entities().update(
                row as int,
                old(self).entities().last(),
            ).drop_last(),
            forall|c: int|
                old(self).has_col(c) ==> #[trigger] final(self).col(c) == old(self).col(c).update(
                    row as int,
                    old(self).col(c).last(),
                ).drop_last(),
            r.0 == old(self).entities()[row as int],
            r.1@.len() == old(self).ids().len(),
            forall|k: int|
                0 <= k < r.1@.len() ==> #[trigger] r.1@[k] == (
                old(self).ids()[k],
                old(self).col(old(self).ids()[k].0 as int)[row as int],
            ),
    {
        let ghost o = *old(self);
        let entity = self.entity_column.swap_remove(row);
        let mut taken: Vec<(ComponentTypeId, C)> = Vec::new();
        let n = self.component_ids.len();
        let mut k: usize = 0;
        while k < n
            invariant
                o.wf(),
                row < o.spec_len(),
                n == o.ids().len(),
                k <= n,
                self.component_ids@ == o.ids(),
                self.bitset == o.spec_bitset(),
                self.len == o.spec_len(),
                self.entity_column@ == o.entities().update(row as int, o.entities().last()).drop_last(),
                self.columns@.len() == o.ids().len(),
                taken@.len() == k,
                forall|k2: int|
                    0 <= k2 < k ==> #[trigger] self.col_by_index(k2) == o.col_by_index(k2).update(
                        row as int,
                        o.col_by_index(k2).last(),
                    ).drop_last(),
                forall|k2: int|
                    k <= k2 < n ==> #[trigger] self.col_by_index(k2) == o.col_by_index(k2),
                forall|k2: int|
                    0 <= k2 < k ==> #[trigger] taken@[k2] == (
                    o.ids()[k2],
                    o.col_by_index(k2)[row as int],
                ),
            decreases n - k,
        {
            let id = self.component_ids[k];
            proof {
                assert(self.col_by_index(k as int) == o.col_by_index(k as int));
                assert(o.col_by_index(k as int).len() == o.spec_len());
            }
            let ghost st = *self;
            let column = vstd::std_specs::vec::vec_index_mut(&mut self.columns, k);
            let cells = column.get_mut();
            let value = cells.swap_remove(row);
            proof {
                let n = *self;
                assert(n.columns@ == st.columns@.update(k as int, n.columns@[k as int]));
                assert(n.col_by_index(k as int) == st.col_by_index(k as int).update(
                    row as int,
                    st.col_by_index(k as int).last(),
                ).drop_last());
                assert forall|k2: int|
                    0 <= k2 < st.columns@.len() && k2 != k as int implies #[trigger] n.col_by_index(
                    k2,
                ) == st.col_by_index(k2) by {}
                assert(value == o.col_by_index(k as int)[row as int]);
            }
            taken.push((id, value));
            k = k + 1;
        }
        let ghost sx = *self;
        self.len = self.len - 1;
        proof {
            let n2 = *self;
            assert(n2.ids() == o.ids());
            assert forall|k2: int|
                0 <= k2 < n2.ids().len() implies #[trigger] n2.col_by_index(k2)
                == o.col_by_index(k2).update(row as int, o.col_by_index(k2).last()).drop_last() by {
                assert(n2.col_by_index(k2) == sx.col_by_index(k2));
            }
            assert forall|k2: int|
                0 <= k2 < n2.ids().len() implies #[trigger] n2.col_by_index(k2).len()
                == n2.spec_len() by {
                assert(o.col_by_index(k2).len() == o.spec_len());
            }
            assert(n2.wf());
            assert forall|c: int| o.has_col(c) implies #[trigger] n2.col(c) == o.col(c).update(
                row as int,
                o.col(c).last(),
            ).drop_last() by {
                o.lemma_col_index(c);
                let k0 = o.col_index(c);
                assert(n2.ids()[k0].0 == c);
                assert(n2.has_col(c));
                n2.lemma_col_index(c);
                assert(n2.col_index(c) == k0);
            }
            assert forall|k2: int| 0 <= k2 < taken@.len() implies #[trigger] taken@[k2] == (
                o.ids()[k2],
                o.col(o.ids()[k2].0 as int)[row as int],
            ) by {
                assert(o.ids()[k2].0 == o.ids()[k2].0);
                assert(o.has_col(o.ids()[k2].0 as int));
                o.lemma_col_index(o.ids()[k2].0 as int);
                assert(o.col_index(o.ids()[k2].0 as int) == k2);
            }
        }
        (entity, taken)
    }
}

} // verus!
