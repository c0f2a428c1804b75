//! Level state: inventory, score, placed buildings, roads, unlocked ground,
//! and the undo/redo history.

use vstd::prelude::*;

use crate::building_descriptor::BuildingDescriptor;
use crate::honeycomb::COORD_BOUND;
use crate::honeycomb::Hexter;
use crate::honeycomb::spec_direction;
use crate::honeycomb::direction_vector;
use crate::level_descriptors::LevelDescriptor;
use crate::resource_stack::GameResource;
use crate::resource_stack::ResourceStack;

verus! {

/// A 16-bit count after wraparound.
pub open spec fn wrap16(x: int) -> int {
    x % 0x10000
}

/// The unsigned 16-bit reading of a signed count.
pub open spec fn cast16(x: i16) -> int {
    if x >= 0 {
        x as int
    } else {
        x + 0x10000
    }
}

/// One step of applying a resource stack to per-kind counts: adds or removes
/// the stack's count, wrapping at 16 bits, at its kind's position.
pub open spec fn spec_apply_one(counts: Seq<u16>, item: ResourceStack, add: bool) -> Seq<u16> {
    let idx = item.resource_type.spec_index();
    if 0 <= idx < counts.len() {
        if add {
            counts.update(idx, wrap16(counts[idx] + cast16(item.count)) as u16)
        } else {
            counts.update(idx, wrap16(counts[idx] - cast16(item.count)) as u16)
        }
    } else {
        counts
    }
}

/// Applying a row of resource stacks to per-kind counts, in order.
pub open spec fn spec_apply_items(counts: Seq<u16>, items: Seq<ResourceStack>, add: bool) -> Seq<
    u16,
>
    decreases items.len(),
{
    if items.len() == 0 {
        counts
    } else {
        spec_apply_one(spec_apply_items(counts, items.drop_last(), add), items.last(), add)
    }
}

/// The per-kind resource counts of a level in play.
pub struct InventoryManager {
    /// One count per real resource kind, indexed by
    /// [`GameResource::spec_index`].
    pub inventory: Vec<u16>,
}

impl InventoryManager {
    /// One count per real resource kind.
    pub open spec fn wf(self) -> bool {
        self.inventory@.len() == 3
    }

    /// An empty inventory.
    pub fn new() -> (r: Self)
        ensures
            r.wf(),
            r.inventory@ == seq![0u16, 0u16, 0u16],
    {
        let mut inventory: Vec<u16> = Vec::new();
        inventory.push(0);
        inventory.push(0);
        inventory.push(0);
        proof {
            assert(inventory@ =~= seq![0u16, 0u16, 0u16]);
        }
        InventoryManager { inventory }
    }

    /// Adds every stack's count to its kind's total, wrapping at 16 bits.
    pub fn add_items(&mut self, resources: &[ResourceStack])
        requires
            old(self).wf(),
            forall|m: int|
                0 <= m < resources@.len() ==> (#[trigger] resources@[m]).resource_type
                    != GameResource::MAX,
        ensures
            final(self).wf(),
            final(self).inventory@ == spec_apply_items(old(self).inventory@, resources@, true),
    {
        let n = resources.len();
        let mut m: usize = 0;
        while m < n
            invariant
                self.wf(),
                n == resources@.len(),
                m <= n,
                forall|k: int|
                    0 <= k < n ==> (#[trigger] resources@[k]).resource_type != GameResource::MAX,
                self.inventory@ == spec_apply_items(
                    old(self).inventory@,
                    resources@.take(m as int),
                    true,
                ),
            decreases n - m,
        {
            let item = resources[m];
            let ic: i16 = item.count;
            let idx = item.resource_type.index();
            let count = self.inventory[idx];
            let delta = #[verifier::truncate] (ic as u16);
            let added = #[verifier::truncate] ((count as u32 + delta as u32) as u16);
            let cell = vstd::std_specs::vec::vec_index_mut(&mut self.inventory, idx);
            *cell = added;
            proof {
                assert(delta as int == (if ic >= 0 { ic as int } else { ic + 0x10000 })) by (bit_vector)
                    requires
                        delta == ic as u16,
                ;
                assert(delta as int == cast16(ic));
                assert(added as int == wrap16(count + delta)) by (bit_vector)
                    requires
                        added == (count as u32 + delta as u32) as u16,
                ;
                assert(resources@.take(m + 1).drop_last() =~= resources@.take(m as int));
                assert(resources@.take(m + 1).last() == item);
            }
            m = m + 1;
        }
        proof {
            assert(resources@.take(n as int) =~= resources@);
        }
    }

    /// Removes every stack's count from its kind's total, wrapping at 16
    /// bits.
    pub fn remove_items(&mut self, resources: &[ResourceStack])
        requires
            old(self).wf(),
            forall|m: int|
                0 <= m < resources@.len() ==> (#[trigger] resources@[m]).resource_type
                    != GameResource::MAX,
        ensures
            final(self).wf(),
            final(self).inventory@ == spec_apply_items(old(self).inventory@, resources@, false),
    {
        let n = resources.len();
        let mut m: usize = 0;
        while m < n
            invariant
                self.wf(),
                n == resources@.len(),
                m <= n,
                forall|k: int|
                    0 <= k < n ==> (#[trigger] resources@[k]).resource_type != GameResource::MAX,
                self.inventory@ == spec_apply_items(
                    old(self).inventory@,
                    resources@.take(m as int),
                    false,
                ),
            decreases n - m,
        {
            let item = resources[m];
            let ic: i16 = item.count;
            let idx = item.resource_type.index();
            let count = self.inventory[idx];
            let delta = #[verifier::truncate] (ic as u16);
            let removed = #[verifier::truncate] ((count as u32 + 0x10000 - delta as u32) as u16);
            let cell = vstd::std_specs::vec::vec_index_mut(&mut self.inventory, idx);
            *cell = removed;
            proof {
                assert(delta as int == (if ic >= 0 { ic as int } else { ic + 0x10000 })) by (bit_vector)
                    requires
                        delta == ic as u16,
                ;
                assert(delta as int == cast16(ic));
                assert(removed as int == wrap16(count - delta)) by (bit_vector)
                    requires
                        removed == (count as u32 + 0x10000 - delta as u32) as u16,
                ;
                assert(resources@.take(m + 1).drop_last() =~= resources@.take(m as int));
                assert(resources@.take(m + 1).last() == item);
            }
            m = m + 1;
        }
        proof {
            assert(resources@.take(n as int) =~= resources@);
        }
    }

    /// The availability test of the building rules: a stack passes when its
    /// count, read as unsigned, is at least the stored total of its kind.
    pub fn is_available(&self, resource: &ResourceStack) -> (r: bool)
        requires
            self.wf(),
            resource.resource_type != GameResource::MAX,
        ensures
            r == (cast16(resource.count) >= self.inventory@[
                resource.resource_type.spec_index()]),
    {
        let rc: i16 = resource.count;
        let idx = resource.resource_type.index();
        let stored = self.inventory[idx];
        let have = #[verifier::truncate] (rc as u16);
        proof {
            assert(have as int == (if rc >= 0 { rc as int } else { rc + 0x10000 })) by (bit_vector)
                requires
                    have == rc as u16,
            ;
            assert(have as int == cast16(rc));
        }
        if have < stored {
            return false;
        }
        true
    }
}

/// The score of a level in play.
pub struct StatsManager {
    /// The current score.
    pub score: u16,
}

impl StatsManager {
    /// A zero score.
    pub fn new() -> (r: Self)
        ensures
            r.score == 0,
    {
        StatsManager { score: 0 }
    }
}

/// The handle of one placed building.
#[derive(PartialEq, Eq, Hash, Clone, Copy, Debug, Structural)]
pub struct BuildingInstanceId(pub u32);

/// How far from the origin a footprint tile may lie.
pub const SHAPE_BOUND: i32 = 1000;

/// Whether a tile collection's coordinates all lie within the grid bounds.
pub open spec fn tiles_bounded(tiles: Seq<Hexter>, bound: int) -> bool {
    forall|m: int|
        0 <= m < tiles.len() ==> -bound <= (#[trigger] tiles[m]).q <= bound && -bound <= tiles[m].r
            <= bound
}

/// Whether a tile collection holds `t`.
fn contains_tile(tiles: &Vec<Hexter>, t: Hexter) -> (r: bool)
    ensures
        r == tiles@.contains(t),
{
    let n = tiles.len();
    let mut i: usize = 0;
    while i < n
        invariant
            n == tiles@.len(),
            i <= n,
            forall|k: int| 0 <= k < i ==> tiles@[k] != t,
        decreases n - i,
    {
        if tiles[i] == t {
            return true;
        }
        i = i + 1;
    }
    proof {
        assert(!tiles@.contains(t));
    }
    false
}

/// The tile `offset` steps from `center`.
pub open spec fn spec_absolute(offset: Hexter, center: Hexter) -> Hexter {
    Hexter { q: (offset.q + center.q) as i32, r: (offset.r + center.r) as i32 }
}

/// The set of road tiles of a level in play.
pub struct Roads {
    /// The road tiles, each held once.
    pub tile_map: Vec<Hexter>,
}

impl Roads {
    /// Each tile is held once.
    pub open spec fn wf(self) -> bool {
        forall|i: int, j: int|
            0 <= i < j < self.tile_map@.len() ==> (#[trigger] self.tile_map@[i]) != (
            #[trigger] self.tile_map@[j])
    }

    /// Whether a road sits on `t`.
    pub open spec fn has_road(self, t: Hexter) -> bool {
        self.tile_map@.contains(t)
    }

    /// No roads.
    pub fn new() -> (r: Self)
        ensures
            r.wf(),
            forall|t: Hexter| !(#[trigger] r.has_road(t)),
    {
        Roads { tile_map: Vec::new() }
    }

    /// Adds a road on `tile`; adding where one sits changes nothing.
    pub fn add_road(&mut self, tile: Hexter)
        requires
            old(self).wf(),
        ensures
            final(self).wf(),
            forall|x: Hexter|
                #[trigger] final(self).has_road(x) == (old(self).has_road(x) || x == tile),
    {
        if !contains_tile(&self.tile_map, tile) {
            self.tile_map.push(tile);
            proof {
                let n = self.tile_map@;
                let o = old(self).tile_map@;
                assert forall|i: int, j: int|
                    0 <= i < j < n.len() implies (#[trigger] n[i]) != (#[trigger] n[j]) by {
                    if j == n.len() - 1 {
                        assert(n[i] == o[i]);
                        assert(o.contains(o[i]));
                    } else {
                        assert(n[i] == o[i] && n[j] == o[j]);
                    }
                }
                assert forall|x: Hexter|
                    #[trigger] self.has_road(x) == (old(self).has_road(x) || x == tile) by {
                    if self.has_road(x) {
                        let k = choose|k: int| 0 <= k < n.len() && n[k] == x;
                        if k < n.len() - 1 {
                            assert(o[k] == x);
                            assert(o.contains(x));
                        }
                    }
                    if old(self).has_road(x) {
                        let k = choose|k: int| 0 <= k < o.len() && o[k] == x;
                        assert(n[k] == x);
                        assert(n.contains(x));
                    }
                    if x == tile {
                        assert(n[n.len() - 1] == x);
                        assert(n.contains(x));
                    }
                }
            }
        } else {
            proof {
                assert forall|x: Hexter|
                    #[trigger] self.has_road(x) == (old(self).has_road(x) || x == tile) by {}
            }
        }
    }

    /// Removes the road on `tile`, if one sits there.
    pub fn remove_road(&mut self, tile: Hexter)
        requires
            old(self).wf(),
        ensures
            final(self).wf(),
            forall|x: Hexter|
                #[trigger] final(self).has_road(x) == (old(self).has_road(x) && x != tile),
    {
        let n = self.tile_map.len();
        let mut i: usize = 0;
        while i < n
            invariant
                self == old(self),
                self.wf(),
                n == self.tile_map@.len(),
                i <= n,
                forall|k: int| 0 <= k < i ==> (#[trigger] self.tile_map@[k]) != tile,
            decreases n - i,
        {
            if self.tile_map[i] == tile {
                let _ = self.tile_map.swap_remove(i);
                proof {
                    let nn = self.tile_map@;
                    let o = old(self).tile_map@;
                    assert forall|i2: int, j2: int|
                        0 <= i2 < j2 < nn.len() implies (#[trigger] nn[i2]) != (
                    #[trigger] nn[j2]) by {
                        let s1: int = if i2 == i as int {
                            o.len() - 1
                        } else {
                            i2
                        };
                        let s2: int = if j2 == i as int {
                            o.len() - 1
                        } else {
                            j2
                        };
                        assert(nn[i2] == o[s1] && nn[j2] == o[s2]);
                        if s1 < s2 {
                            assert(o[s1] != o[s2]);
                        } else {
                            assert(s2 < s1);
                            assert(o[s2] != o[s1]);
                        }
                    }
                    assert forall|x: Hexter|
                        #[trigger] self.has_road(x) == (old(self).has_road(x) && x != tile) by {
                        if self.has_road(x) {
                            let k = choose|k: int| 0 <= k < nn.len() && nn[k] == x;
                            let s1: int = if k == i as int {
                                o.len() - 1
                            } else {
                                k
                            };
                            assert(o[s1] == x);
                            assert(o.contains(x));
                            if x == tile {
                                assert(o[i as int] == tile);
                                if s1 != i as int {
                                    assert(o[s1] != o[i as int] || s1 == i as int) by {
                                        if s1 < i as int {
                                            assert(o[s1] != o[i as int]);
                                        } else if (i as int) < s1 {
                                            assert(o[i as int] != o[s1]);
                                        }
                                    }
                                    assert(false);
                                }
                            }
                        }
                        if old(self).has_road(x) && x != tile {
                            let k = choose|k: int| 0 <= k < o.len() && o[k] == x;
                            assert(k != i as int);
                            if k == o.len() - 1 {
                                if (i as int) < o.len() - 1 {
                                    assert(nn[i as int] == o[o.len() - 1]);
                                    assert(nn.contains(x));
                                } else {
                                    assert(false);
                                }
                            } else {
                                assert(nn[k] == o[k]);
                                assert(nn.contains(x));
                            }
                        }
                    }
                }
                return ;
            }
            i = i + 1;
        }
        proof {
            assert(!old(self).has_road(tile));
        }
    }

    /// Whether a road sits on one of the six tiles around `tile`.
    pub fn is_connected_to_road(&self, tile: &Hexter) -> (r: bool)
        requires
            -COORD_BOUND <= tile.q <= COORD_BOUND,
            -COORD_BOUND <= tile.r <= COORD_BOUND,
        ensures
            r == exists|i: int|
                0 <= i < 6 && self.has_road(#[trigger] spec_absolute(spec_direction(i), *tile)),
    {
        let mut i: u32 = 0;
        while i < 6
            invariant
                i <= 6,
                -COORD_BOUND <= tile.q <= COORD_BOUND,
                -COORD_BOUND <= tile.r <= COORD_BOUND,
                forall|k: int|
                    0 <= k < i ==> !self.has_road(#[trigger] spec_absolute(spec_direction(k), *tile)),
            decreases 6 - i,
        {
            let d = direction_vector(i);
            let neighbor = d.add(*tile);
            if contains_tile(&self.tile_map, neighbor) {
                proof {
                    assert(neighbor == spec_absolute(spec_direction(i as int), *tile));
                }
                return true;
            }
            i = i + 1;
        }
        false
    }

    /// Whether no road sits on `tile`.
    pub fn is_empty(&self, tile: &Hexter) -> (r: bool)
        ensures
            r == !self.has_road(*tile),
    {
        !contains_tile(&self.tile_map, *tile)
    }
}

/// The set of unlocked ground tiles of a level in play.
pub struct Ground {
    /// The ground tiles, each held once.
    pub tiles: Vec<Hexter>,
}

impl Ground {
    /// Each tile is held once.
    pub open spec fn wf(self) -> bool {
        forall|i: int, j: int|
            0 <= i < j < self.tiles@.len() ==> (#[trigger] self.tiles@[i]) != (
            #[trigger] self.tiles@[j])
    }

    /// Whether `t` is unlocked ground.
    pub open spec fn spec_has_tile(self, t: Hexter) -> bool {
        self.tiles@.contains(t)
    }

    /// No ground.
    pub fn new() -> (r: Self)
        ensures
            r.wf(),
            forall|t: Hexter| !(#[trigger] r.spec_has_tile(t)),
    {
        Ground { tiles: Vec::new() }
    }

    /// Unlocks every tile of the collection; tiles already unlocked stay so.
    pub fn add_tiles(&mut self, tiles: &Vec<Hexter>)
        requires
            old(self).wf(),
        ensures
            final(self).wf(),
            forall|x: Hexter|
                #[trigger] final(self).spec_has_tile(x) == (old(self).spec_has_tile(x)
                    || tiles@.contains(x)),
    {
        let n = tiles.len();
        let mut m: usize = 0;
        while m < n
            invariant
                self.wf(),
                n == tiles@.len(),
                m <= n,
                forall|x: Hexter|
                    #[trigger] self.spec_has_tile(x) == (old(self).spec_has_tile(x) || exists|
                        k: int,
                    | 0 <= k < m && (#[trigger] tiles@[k]) == x),
            decreases n - m,
        {
            let t = tiles[m];
            let ghost mid = *self;
            if !contains_tile(&self.tiles, t) {
                self.tiles.push(t);
                proof {
                    let nn = self.tiles@;
                    let o = mid.tiles@;
                    assert forall|i2: int, j2: int|
                        0 <= i2 < j2 < nn.len() implies (#[trigger] nn[i2]) != (
                    #[trigger] nn[j2]) by {
                        if j2 == nn.len() - 1 {
                            assert(nn[i2] == o[i2]);
                            assert(o.contains(o[i2]));
                        } else {
                            assert(nn[i2] == o[i2] && nn[j2] == o[j2]);
                        }
                    }
                    assert forall|x: Hexter|
                        #[trigger] self.spec_has_tile(x) == (mid.spec_has_tile(x) || x == t) by {
                        if self.spec_has_tile(x) {
                            let k = choose|k: int| 0 <= k < nn.len() && nn[k] == x;
                            if k < nn.len() - 1 {
                                assert(o[k] == x);
                                assert(o.contains(x));
                            }
                        }
                        if mid.spec_has_tile(x) {
                            let k = choose|k: int| 0 <= k < o.len() && o[k] == x;
                            assert(nn[k] == x);
                            assert(nn.contains(x));
                        }
                        if x == t {
                            assert(nn[nn.len() - 1] == x);
                            assert(nn.contains(x));
                        }
                    }
                }
            }
            proof {
                assert forall|x: Hexter|
                    #[trigger] self.spec_has_tile(x) == (old(self).spec_has_tile(x) || exists|
                        k: int,
                    | 0 <= k < m + 1 && (#[trigger] tiles@[k]) == x) by {
                    if exists|k: int| 0 <= k < m + 1 && (#[trigger] tiles@[k]) == x {
                        let k = choose|k: int| 0 <= k < m + 1 && (#[trigger] tiles@[k]) == x;
                        if k == m as int {
                            assert(x == t);
                            assert(self.spec_has_tile(x));
                        }
                    }
                    if x == t {
                        assert(tiles@[m as int] == x);
                    }
                }
            }
            m = m + 1;
        }
        proof {
            assert forall|x: Hexter| tiles@.contains(x) == (exists|k: int|
                0 <= k < n && (#[trigger] tiles@[k]) == x) by {
                if tiles@.contains(x) {
                    let k = choose|k: int| 0 <= k < tiles@.len() && tiles@[k] == x;
                    assert(tiles@[k] == x);
                }
                if exists|k: int| 0 <= k < n && (#[trigger] tiles@[k]) == x {
                    let k = choose|k: int| 0 <= k < n && (#[trigger] tiles@[k]) == x;
                    assert(tiles@.contains(x));
                }
            }
        }
    }

    /// Whether `t` is unlocked ground.
    pub fn has_tile(&self, tile: &Hexter) -> (r: bool)
        ensures
            r == self.spec_has_tile(*tile),
    {
        contains_tile(&self.tiles, *tile)
    }
}

/// One placed building: its handle, its centre tile, its footprint after
/// rotation, and its kind's description.
pub struct BuildingInstance {
    /// The building's handle.
    pub instance_id: BuildingInstanceId,
    /// The tile the building is centred on.
    pub center: Hexter,
    /// The footprint, relative to the centre, after rotation.
    pub rotated_tiles: Vec<Hexter>,
    /// The building kind.
    pub descriptor: BuildingDescriptor,
}

/// Whether an association list holds an entry keyed by `t`.
pub open spec fn occupied_in(map: Seq<(Hexter, BuildingInstanceId)>, t: Hexter) -> bool {
    exists|i: int| 0 <= i < map.len() && (#[trigger] map[i]).0 == t
}

/// Stores `id` under tile `t`, replacing what was there.
fn put_tile(map: &mut Vec<(Hexter, BuildingInstanceId)>, t: Hexter, id: BuildingInstanceId)
    requires
        forall|i: int, j: int|
            0 <= i < j < old(map)@.len() ==> (#[trigger] old(map)@[i]).0 != (
            #[trigger] old(map)@[j]).0,
    ensures
        forall|i: int, j: int|
            0 <= i < j < final(map)@.len() ==> (#[trigger] final(map)@[i]).0 != (
            #[trigger] final(map)@[j]).0,
        forall|x: Hexter| #[trigger] occupied_in(final(map)@, x) == (occupied_in(old(map)@, x) || x == t),
{
    let n = map.len();
    let mut i: usize = 0;
    while i < n
        invariant
            *map == *old(map),
            forall|i2: int, j2: int|
                0 <= i2 < j2 < map@.len() ==> (#[trigger] map@[i2]).0 != (#[trigger] map@[j2]).0,
            n == map@.len(),
            i <= n,
            forall|k: int| 0 <= k < i ==> (#[trigger] map@[k]).0 != t,
        decreases n - i,
    {
        if map[i].0 == t {
            let cell = vstd::std_specs::vec::vec_index_mut(map, i);
            *cell = (t, id);
            proof {
                let nn = map@;
                let o = old(map)@;
                assert forall|i2: int, j2: int|
                    0 <= i2 < j2 < nn.len() implies (#[trigger] nn[i2]).0 != (
                #[trigger] nn[j2]).0 by {
                    assert(nn[i2].0 == o[i2].0 && nn[j2].0 == o[j2].0);
                }
                assert forall|x: Hexter| #[trigger] occupied_in(nn, x) == (occupied_in(o, x) || x
                    == t) by {
                    if occupied_in(nn, x) {
                        let k = choose|k: int| 0 <= k < nn.len() && (#[trigger] nn[k]).0 == x;
                        assert(o[k].0 == x || x == t);
                    }
                    if occupied_in(o, x) {
                        let k = choose|k: int| 0 <= k < o.len() && (#[trigger] o[k]).0 == x;
                        assert(nn[k].0 == x || x == t);
                        if x == t {
                            assert(nn[i as int].0 == x);
                        }
                    }
                    if x == t {
                        assert(nn[i as int].0 == x);
                    }
                }
            }
            return ;
        }
        i = i + 1;
    }
    map.push((t, id));
    proof {
        let nn = map@;
        let o = old(map)@;
        assert forall|i2: int, j2: int|
            0 <= i2 < j2 < nn.len() implies (#[trigger] nn[i2]).0 != (#[trigger] nn[j2]).0 by {
            if j2 == nn.len() - 1 {
                assert(nn[i2].0 == o[i2].0);
            } else {
                assert(nn[i2].0 == o[i2].0 && nn[j2].0 == o[j2].0);
            }
        }
        assert forall|x: Hexter| #[trigger] occupied_in(nn, x) == (occupied_in(o, x) || x == t) by {
            if occupied_in(nn, x) {
                let k = choose|k: int| 0 <= k < nn.len() && (#[trigger] nn[k]).0 == x;
                if k < nn.len() - 1 {
                    assert(o[k].0 == x);
                }
            }
            if occupied_in(o, x) {
                let k = choose|k: int| 0 <= k < o.len() && (#[trigger] o[k]).0 == x;
                assert(nn[k].0 == x);
            }
            if x == t {
                assert(nn[nn.len() - 1].0 == x);
            }
        }
    }
}

/// Drops the entry keyed by tile `t`, if one is there.
fn del_tile(map: &mut Vec<(Hexter, BuildingInstanceId)>, t: Hexter)
    requires
        forall|i: int, j: int|
            0 <= i < j < old(map)@.len() ==> (#[trigger] old(map)@[i]).0 != (
            #[trigger] old(map)@[j]).0,
    ensures
        forall|i: int, j: int|
            0 <= i < j < final(map)@.len() ==> (#[trigger] final(map)@[i]).0 != (
            #[trigger] final(map)@[j]).0,
        forall|x: Hexter| #[trigger] occupied_in(final(map)@, x) == (occupied_in(old(map)@, x) && x != t),
{
    let n = map.len();
    let mut i: usize = 0;
    while i < n
        invariant
            *map == *old(map),
            forall|i2: int, j2: int|
                0 <= i2 < j2 < map@.len() ==> (#[trigger] map@[i2]).0 != (#[trigger] map@[j2]).0,
            n == map@.len(),
            i <= n,
            forall|k: int| 0 <= k < i ==> (#[trigger] map@[k]).0 != t,
        decreases n - i,
    {
        if map[i].0 == t {
            let _ = map.swap_remove(i);
            proof {
                let nn = map@;
                let o = old(map)@;
                assert forall|i2: int, j2: int|
                    0 <= i2 < j2 < nn.len() implies (#[trigger] nn[i2]).0 != (
                #[trigger] nn[j2]).0 by {
                    let s1: int = if i2 == i as int {
                        o.len() - 1
                    } else {
                        i2
                    };
                    let s2: int = if j2 == i as int {
                        o.len() - 1
                    } else {
                        j2
                    };
                    assert(nn[i2] == o[s1] && nn[j2] == o[s2]);
                    if s1 < s2 {
                        assert(o[s1].0 != o[s2].0);
                    } else {
                        assert(s2 < s1);
                        assert(o[s2].0 != o[s1].0);
                    }
                }
                assert forall|x: Hexter| #[trigger] occupied_in(nn, x) == (occupied_in(o, x) && x
                    != t) by {
                    if occupied_in(nn, x) {
                        let k = choose|k: int| 0 <= k < nn.len() && (#[trigger] nn[k]).0 == x;
                        let s1: int = if k == i as int {
                            o.len() - 1
                        } else {
                            k
                        };
                        assert(o[s1].0 == x);
                        if x == t {
                            if s1 < i as int {
                                assert(o[s1].0 != o[i as int].0);
                            } else if (i as int) < s1 {
                                assert(o[i as int].0 != o[s1].0);
                            }
                            assert(false);
                        }
                    }
                    if occupied_in(o, x) && x != t {
                        let k = choose|k: int| 0 <= k < o.len() && (#[trigger] o[k]).0 == x;
                        assert(k != i as int);
                        if k == o.len() - 1 {
                            if (i as int) < o.len() - 1 {
                                assert(nn[i as int].0 == x);
                            } else {
                                assert(false);
                            }
                        } else {
                            assert(nn[k].0 == x);
                        }
                    }
                }
            }
            return ;
        }
        i = i + 1;
    }
    proof {
        assert(!occupied_in(old(map)@, t));
    }
}

/// The placed buildings of a level in play: which building covers each tile,
/// and each building by handle.
pub struct Buildings {
    /// Which building's handle covers each occupied tile.
    pub tile_map: Vec<(Hexter, BuildingInstanceId)>,
    /// Each placed building, by handle.
    pub id_map: Vec<(BuildingInstanceId, BuildingInstance)>,
    /// The next unused handle.
    pub instance_id: u32,
}

impl Buildings {
    /// Keys are distinct, every stored building carries its own handle, and
    /// stored footprints lie within the grid bounds.
    pub open spec fn wf(self) -> bool {
        &&& forall|i: int, j: int|
            0 <= i < j < self.tile_map@.len() ==> (#[trigger] self.tile_map@[i]).0 != (
            #[trigger] self.tile_map@[j]).0
        &&& forall|i: int, j: int|
            0 <= i < j < self.id_map@.len() ==> (#[trigger] self.id_map@[i]).0 != (
            #[trigger] self.id_map@[j]).0
        &&& forall|i: int|
            0 <= i < self.id_map@.len() ==> (#[trigger] self.id_map@[i]).1.instance_id
                == self.id_map@[i].0
        &&& forall|i: int|
            0 <= i < self.id_map@.len() ==> tiles_bounded(
                (#[trigger] self.id_map@[i]).1.rotated_tiles@,
                SHAPE_BOUND as int,
            ) && -COORD_BOUND <= self.id_map@[i].1.center.q <= COORD_BOUND && -COORD_BOUND
                <= self.id_map@[i].1.center.r <= COORD_BOUND
    }

    /// Whether a building covers tile `t`.
    pub open spec fn spec_occupied(self, t: Hexter) -> bool {
        occupied_in(self.tile_map@, t)
    }

    /// Whether a building with handle `id` is placed.
    pub open spec fn has_instance(self, id: BuildingInstanceId) -> bool {
        exists|i: int| 0 <= i < self.id_map@.len() && (#[trigger] self.id_map@[i]).0 == id
    }

    /// No buildings; handles start at 1.
    pub fn new() -> (r: Self)
        ensures
            r.wf(),
            forall|t: Hexter| !(#[trigger] r.spec_occupied(t)),
            forall|id: BuildingInstanceId| !(#[trigger] r.has_instance(id)),
            r.instance_id == 1,
    {
        Buildings { tile_map: Vec::new(), id_map: Vec::new(), instance_id: 1u32 }
    }

    /// Hands out the next building handle.
    pub fn get_building_instance_id(&mut self) -> (r: BuildingInstanceId)
        requires
            old(self).instance_id < u32::MAX,
        ensures
            r.0 == old(self).instance_id,
            final(self).instance_id == old(self).instance_id + 1,
            final(self).tile_map == old(self).tile_map,
            final(self).id_map == old(self).id_map,
    {
        let id = BuildingInstanceId(self.instance_id);
        self.instance_id = self.instance_id + 1;
        id
    }

    /// Whether no building covers `tile`.
    pub fn is_empty(&self, tile: &Hexter) -> (r: bool)
        ensures
            r == !self.spec_occupied(*tile),
    {
        let n = self.tile_map.len();
        let mut i: usize = 0;
        while i < n
            invariant
                n == self.tile_map@.len(),
                i <= n,
                forall|k: int| 0 <= k < i ==> (#[trigger] self.tile_map@[k]).0 != *tile,
            decreases n - i,
        {
            if self.tile_map[i].0 == *tile {
                return false;
            }
            i = i + 1;
        }
        true
    }

    /// Records a placed building: every footprint tile, taken absolutely,
    /// now maps to its handle, and the building is stored under it.
    pub fn add_building(&mut self, building: BuildingInstance)
        requires
            old(self).wf(),
            !old(self).has_instance(building.instance_id),
            building.instance_id.0 > 0,
            tiles_bounded(building.rotated_tiles@, SHAPE_BOUND as int),
            -COORD_BOUND <= building.center.q <= COORD_BOUND,
            -COORD_BOUND <= building.center.r <= COORD_BOUND,
        ensures
            final(self).wf(),
            forall|t: Hexter|
                #[trigger] final(self).spec_occupied(t) == (old(self).spec_occupied(t) || exists|
                    m: int,
                |
                    0 <= m < building.rotated_tiles@.len() && t == spec_absolute(
                        #[trigger] building.rotated_tiles@[m],
                        building.center,
                    )),
            forall|id: BuildingInstanceId|
                #[trigger] final(self).has_instance(id) == (old(self).has_instance(id) || id
                    == building.instance_id),
            final(self).instance_id == old(self).instance_id,
    {
        let n = building.rotated_tiles.len();
        let mut m: usize = 0;
        while m < n
            invariant
                n == building.rotated_tiles@.len(),
                m <= n,
                tiles_bounded(building.rotated_tiles@, SHAPE_BOUND as int),
                -COORD_BOUND <= building.center.q <= COORD_BOUND,
                -COORD_BOUND <= building.center.r <= COORD_BOUND,
                self.id_map == old(self).id_map,
                self.instance_id == old(self).instance_id,
                forall|i2: int, j2: int|
                    0 <= i2 < j2 < self.tile_map@.len() ==> (#[trigger] self.tile_map@[i2]).0 != (
                    #[trigger] self.tile_map@[j2]).0,
                forall|t: Hexter|
                    #[trigger] self.spec_occupied(t) == (old(self).spec_occupied(t) || exists|
                        k: int,
                    |
                        0 <= k < m && t == spec_absolute(
                            #[trigger] building.rotated_tiles@[k],
                            building.center,
                        )),
            decreases n - m,
        {
            let tile = building.rotated_tiles[m];
            let absolute_tile = tile.add(building.center);
            let ghost pre = *self;
            put_tile(&mut self.tile_map, absolute_tile, building.instance_id);
            proof {
                assert(absolute_tile == spec_absolute(
                    building.rotated_tiles@[m as int],
                    building.center,
                ));
                assert(forall|t: Hexter|
                    #[trigger] self.spec_occupied(t) == (pre.spec_occupied(t) || t
                        == absolute_tile));
                assert forall|t: Hexter|
                    #[trigger] self.spec_occupied(t) == (old(self).spec_occupied(t) || exists|
                        k: int,
                    |
                        0 <= k < m + 1 && t == spec_absolute(
                            #[trigger] building.rotated_tiles@[k],
                            building.center,
                        )) by {
                    if exists|k: int|
                        0 <= k < m + 1 && t == spec_absolute(
                            #[trigger] building.rotated_tiles@[k],
                            building.center,
                        ) {
                        let k = choose|k: int|
                            0 <= k < m + 1 && t == spec_absolute(
                                #[trigger] building.rotated_tiles@[k],
                                building.center,
                            );
                        if k == m as int {
                            assert(t == absolute_tile);
                        }
                    }
                    if t == absolute_tile {
                        assert(t == spec_absolute(
                            building.rotated_tiles@[m as int],
                            building.center,
                        ));
                    }
                }
            }
            m = m + 1;
        }
        let ghost mid = *self;
        self.id_map.push((building.instance_id, building));
        proof {
            assert forall|t: Hexter| #[trigger] self.spec_occupied(t) == mid.spec_occupied(t) by {}
            let nn = self.id_map@;
            let o = mid.id_map@;
            assert forall|i2: int, j2: int|
                0 <= i2 < j2 < nn.len() implies (#[trigger] nn[i2]).0 != (#[trigger] nn[j2]).0 by {
                if j2 == nn.len() - 1 {
                    assert(nn[i2] == o[i2]);
                    if o[i2].0 == building.instance_id {
                        assert(old(self).has_instance(building.instance_id));
                        assert(false);
                    }
                } else {
                    assert(nn[i2] == o[i2] && nn[j2] == o[j2]);
                }
            }
            assert forall|id: BuildingInstanceId|
                #[trigger] self.has_instance(id) == (old(self).has_instance(id) || id
                    == building.instance_id) by {
                if self.has_instance(id) {
                    let k = choose|k: int| 0 <= k < nn.len() && (#[trigger] nn[k]).0 == id;
                    if k < nn.len() - 1 {
                        assert(o[k].0 == id);
                    }
                }
                if old(self).has_instance(id) {
                    let k = choose|k: int| 0 <= k < o.len() && (#[trigger] o[k]).0 == id;
                    assert(nn[k].0 == id);
                }
                if id == building.instance_id {
                    assert(nn[nn.len() - 1].0 == id);
                }
            }
        }
    }

    /// Takes a placed building out: its entry and every tile of its
    /// footprint are dropped. Removing an absent handle is a programmer
    /// error and is excluded.
    pub fn remove_building(&mut self, id: BuildingInstanceId) -> (r: BuildingInstance)
        requires
            old(self).wf(),
            old(self).has_instance(id),
        ensures
            final(self).wf(),
            r.instance_id == id,
            tiles_bounded(r.rotated_tiles@, SHAPE_BOUND as int),
            forall|id2: BuildingInstanceId|
                #[trigger] final(self).has_instance(id2) == (old(self).has_instance(id2) && id2
                    != id),
            forall|t: Hexter|
                #[trigger] final(self).spec_occupied(t) == (old(self).spec_occupied(t) && !exists|
                    m: int,
                |
                    0 <= m < r.rotated_tiles@.len() && t == spec_absolute(
                        #[trigger] r.rotated_tiles@[m],
                        r.center,
                    )),
            final(self).instance_id == old(self).instance_id,
    {
        let n = self.id_map.len();
        let mut i: usize = 0;
        while i < n
            invariant
                *self == *old(self),
                self.wf(),
                n == self.id_map@.len(),
                i <= n,
                forall|k: int| 0 <= k < i ==> (#[trigger] self.id_map@[k]).0 != id,
            decreases n - i,
        {
            if self.id_map[i].0 == id {
                let entry = self.id_map.swap_remove(i);
                let building = entry.1;
                proof {
                    let nn = self.id_map@;
                    let om = old(self).id_map@;
                    assert forall|i2: int, j2: int|
                        0 <= i2 < j2 < nn.len() implies (#[trigger] nn[i2]).0 != (
                    #[trigger] nn[j2]).0 by {
                        let s1: int = if i2 == i as int {
                            om.len() - 1
                        } else {
                            i2
                        };
                        let s2: int = if j2 == i as int {
                            om.len() - 1
                        } else {
                            j2
                        };
                        assert(nn[i2] == om[s1] && nn[j2] == om[s2]);
                        if s1 < s2 {
                            assert(om[s1].0 != om[s2].0);
                        } else {
                            assert(s2 < s1);
                            assert(om[s2].0 != om[s1].0);
                        }
                    }
                    assert forall|i2: int| 0 <= i2 < nn.len() implies (#[trigger] nn[i2])
                        == om[(if i2 == i as int {
                        om.len() - 1
                    } else {
                        i2
                    })] by {}
                    assert forall|id2: BuildingInstanceId|
                        #[trigger] self.has_instance(id2) == (old(self).has_instance(id2) && id2 != id) by {
                        if self.has_instance(id2) {
                            let k = choose|k: int| 0 <= k < nn.len() && (#[trigger] nn[k]).0 == id2;
                            let s1: int = if k == i as int {
                                om.len() - 1
                            } else {
                                k
                            };
                            assert(om[s1].0 == id2);
                            if id2 == id {
                                if s1 < i as int {
                                    assert(om[s1].0 != om[i as int].0);
                                } else if (i as int) < s1 {
                                    assert(om[i as int].0 != om[s1].0);
                                }
                                assert(false);
                            }
                        }
                        if old(self).has_instance(id2) && id2 != id {
                            let k = choose|k: int| 0 <= k < om.len() && (#[trigger] om[k]).0 == id2;
                            assert(k != i as int);
                            if k == om.len() - 1 {
                                if (i as int) < om.len() - 1 {
                                    assert(nn[i as int].0 == id2);
                                } else {
                                    assert(false);
                                }
                            } else {
                                assert(nn[k].0 == id2);
                            }
                        }
                    }
                }
                let ghost idm = self.id_map;
                let nt = building.rotated_tiles.len();
                let mut m: usize = 0;
                while m < nt
                    invariant
                        nt == building.rotated_tiles@.len(),
                        m <= nt,
                        building.instance_id == id,
                        tiles_bounded(building.rotated_tiles@, SHAPE_BOUND as int),
                        -COORD_BOUND <= building.center.q <= COORD_BOUND,
                        -COORD_BOUND <= building.center.r <= COORD_BOUND,
                        self.id_map == idm,
                        self.instance_id == old(self).instance_id,
                        forall|id2: BuildingInstanceId|
                            #[trigger] self.has_instance(id2) == (old(self).has_instance(id2)
                                && id2 != id),
                        forall|i2: int, j2: int|
                            0 <= i2 < j2 < self.id_map@.len() ==> (#[trigger] self.id_map@[i2]).0
                                != (#[trigger] self.id_map@[j2]).0,
                        forall|i2: int|
                            0 <= i2 < self.id_map@.len() ==> (
                            #[trigger] self.id_map@[i2]).1.instance_id == self.id_map@[i2].0,
                        forall|i2: int|
                            0 <= i2 < self.id_map@.len() ==> tiles_bounded(
                                (#[trigger] self.id_map@[i2]).1.rotated_tiles@,
                                SHAPE_BOUND as int,
                            ) && -COORD_BOUND <= self.id_map@[i2].1.center.q <= COORD_BOUND
                                && -COORD_BOUND <= self.id_map@[i2].1.center.r <= COORD_BOUND,
                        forall|i2: int, j2: int|
                            0 <= i2 < j2 < self.tile_map@.len() ==> (
                            #[trigger] self.tile_map@[i2]).0 != (#[trigger] self.tile_map@[j2]).0,
                        forall|t: Hexter|
                            #[trigger] self.spec_occupied(t) == (old(self).spec_occupied(t) && !exists|
                                k: int,
                            |
                                0 <= k < m && t == spec_absolute(
                                    #[trigger] building.rotated_tiles@[k],
                                    building.center,
                                )),
                    decreases nt - m,
                {
                    let tile = building.rotated_tiles[m];
                    let absolute_tile = tile.add(building.center);
                    let ghost pre = *self;
                    del_tile(&mut self.tile_map, absolute_tile);
                    proof {
                        assert(absolute_tile == spec_absolute(
                            building.rotated_tiles@[m as int],
                            building.center,
                        ));
                        assert(forall|id2: BuildingInstanceId|
                            #[trigger] self.has_instance(id2) == pre.has_instance(id2));
                        assert(forall|t: Hexter|
                            #[trigger] self.spec_occupied(t) == (pre.spec_occupied(t) && t
                                != absolute_tile));
                        assert forall|t: Hexter|
                            #[trigger] self.spec_occupied(t) == (old(self).spec_occupied(t) && !exists|
                                k: int,
                            |
                                0 <= k < m + 1 && t == spec_absolute(
                                    #[trigger] building.rotated_tiles@[k],
                                    building.center,
                                )) by {
                            if exists|k: int|
                                0 <= k < m + 1 && t == spec_absolute(
                                    #[trigger] building.rotated_tiles@[k],
                                    building.center,
                                ) {
                                let k = choose|k: int|
                                    0 <= k < m + 1 && t == spec_absolute(
                                        #[trigger] building.rotated_tiles@[k],
                                        building.center,
                                    );
                                if k == m as int {
                                    assert(t == absolute_tile);
                                }
                            }
                            if t == absolute_tile {
                                assert(t == spec_absolute(
                                    building.rotated_tiles@[m as int],
                                    building.center,
                                ));
                            }
                        }
                    }
                    m = m + 1;
                }
                return building;
            }
            i = i + 1;
        }
        proof {
            assert(!old(self).has_instance(id));
        }
        unreached()
    }
}

/// Ground tiles were added to the level.
pub struct TilesAddedEvent;

impl crate::event_bus::WorldEvent for TilesAddedEvent {

}

/// A road tile was added to the level.
pub struct RoadAddedEvent {
    /// The new road's tile.
    pub new_road: Hexter,
}

impl crate::event_bus::WorldEvent for RoadAddedEvent {

}

/// A copy of a coordinate list.
fn copy_hexter_vec(v: &Vec<Hexter>) -> (r: Vec<Hexter>)
    ensures
        r@ == v@,
{
    let n = v.len();
    let mut out: Vec<Hexter> = Vec::new();
    let mut i: usize = 0;
    while i < n
        invariant
            n == v@.len(),
            i <= n,
            out@ == v@.take(i as int),
        decreases n - i,
    {
        out.push(v[i]);
        proof {
            assert(out@ =~= v@.take(i + 1));
        }
        i = i + 1;
    }
    proof {
        assert(out@ =~= v@);
    }
    out
}

/// A copy of a resource stack list.
fn copy_stack_vec(v: &Vec<ResourceStack>) -> (r: Vec<ResourceStack>)
    ensures
        r@ == v@,
{
    let n = v.len();
    let mut out: Vec<ResourceStack> = Vec::new();
    let mut i: usize = 0;
    while i < n
        invariant
            n == v@.len(),
            i <= n,
            out@ == v@.take(i as int),
        decreases n - i,
    {
        out.push(v[i]);
        proof {
            assert(out@ =~= v@.take(i + 1));
        }
        i = i + 1;
    }
    proof {
        assert(out@ =~= v@);
    }
    out
}

/// A copy of a building kind description.
fn copy_descriptor(d: &BuildingDescriptor) -> (r: BuildingDescriptor)
    ensures
        r.id == d.id,
        r.shape@ == d.shape@,
        r.price@ == d.price@,
        r.reward@ == d.reward@,
        r.base_score == d.base_score,
{
    BuildingDescriptor {
        id: d.id,
        shape: copy_hexter_vec(&d.shape),
        price: copy_stack_vec(&d.price),
        reward: copy_stack_vec(&d.reward),
        base_score: d.base_score,
    }
}

/// A copy of a placed building.
fn copy_instance(b: &BuildingInstance) -> (r: BuildingInstance)
    ensures
        r.instance_id == b.instance_id,
        r.center == b.center,
        r.rotated_tiles@ == b.rotated_tiles@,
        r.descriptor.id == b.descriptor.id,
        r.descriptor.shape@ == b.descriptor.shape@,
        r.descriptor.price@ == b.descriptor.price@,
        r.descriptor.reward@ == b.descriptor.reward@,
        r.descriptor.base_score == b.descriptor.base_score,
{
    BuildingInstance {
        instance_id: b.instance_id,
        center: b.center,
        rotated_tiles: copy_hexter_vec(&b.rotated_tiles),
        descriptor: copy_descriptor(&b.descriptor),
    }
}

/// One undoable step: what it placed, what it scored, what it cost.
pub struct Action {
    /// The building placed, if one was.
    pub building: Option<BuildingInstance>,
    /// The road tile placed, if one was.
    pub road: Option<Hexter>,
    /// The ground tiles added, if any.
    pub tiles_added: Option<Vec<Hexter>>,
    /// How much the score changed.
    pub score_change: u16,
    /// How the inventory changed, one stack per kind.
    pub resource_change: [ResourceStack; 3],
}

/// Whether two building kind descriptions carry the same data.
pub open spec fn descriptor_eq(a: BuildingDescriptor, b: BuildingDescriptor) -> bool {
    &&& a.id == b.id
    &&& a.shape@ == b.shape@
    &&& a.price@ == b.price@
    &&& a.reward@ == b.reward@
    &&& a.base_score == b.base_score
}

/// Whether two placed buildings carry the same data.
pub open spec fn instance_eq(a: BuildingInstance, b: BuildingInstance) -> bool {
    &&& a.instance_id == b.instance_id
    &&& a.center == b.center
    &&& a.rotated_tiles@ == b.rotated_tiles@
    &&& descriptor_eq(a.descriptor, b.descriptor)
}

/// Whether two actions carry the same data.
pub open spec fn action_eq(a: Action, b: Action) -> bool {
    &&& match (a.building, b.building) {
        (Option::None, Option::None) => true,
        (Option::Some(x), Option::Some(y)) => instance_eq(x, y),
        _ => false,
    }
    &&& a.road == b.road
    &&& match (a.tiles_added, b.tiles_added) {
        (Option::None, Option::None) => true,
        (Option::Some(x), Option::Some(y)) => x@ == y@,
        _ => false,
    }
    &&& a.score_change == b.score_change
    &&& a.resource_change@ == b.resource_change@
}

/// A copy of an action, carrying the same data.
fn clone_action(a: &Action) -> (r: Action)
    ensures
        action_eq(r, *a),
{
    let building = match &a.building {
        Some(b) => Some(copy_instance(b)),
        None => None,
    };
    let tiles_added = match &a.tiles_added {
        Some(v) => Some(copy_hexter_vec(v)),
        None => None,
    };
    Action {
        building,
        road: a.road,
        tiles_added,
        score_change: a.score_change,
        resource_change: a.resource_change,
    }
}

/// The undo/redo history: two stacks of actions. Doing something new clears
/// the redo stack; undoing moves the action to the redo stack and back.
pub struct UndoRedo {
    /// Actions that can be undone, most recent last.
    pub undo_stack: Vec<Action>,
    /// Actions that can be redone, most recent last.
    pub redo_stack: Vec<Action>,
}

impl UndoRedo {
    /// An empty history.
    pub fn new() -> (r: Self)
        ensures
            r.undo_stack@ == Seq::<Action>::empty(),
            r.redo_stack@ == Seq::<Action>::empty(),
    {
        UndoRedo { undo_stack: Vec::new(), redo_stack: Vec::new() }
    }

    /// Records a new action: it becomes the next undo candidate and the redo
    /// stack is cleared.
    pub fn add_action(&mut self, action: Action)
        ensures
            final(self).undo_stack@ == old(self).undo_stack@.push(action),
            final(self).redo_stack@ == Seq::<Action>::empty(),
    {
        self.undo_stack.push(action);
        self.redo_stack.clear();
    }

    /// Pops the most recent action for undoing; the action moves to the redo
    /// stack and a copy of it is handed back. Undoing with an empty history
    /// is a programmer error and is excluded.
    pub fn get_undo_action(&mut self) -> (r: Action)
        requires
            old(self).undo_stack@.len() > 0,
        ensures
            action_eq(r, old(self).undo_stack@.last()),
            final(self).undo_stack@ == old(self).undo_stack@.drop_last(),
            final(self).redo_stack@ == old(self).redo_stack@.push(old(self).undo_stack@.last()),
    {
        let action = match self.undo_stack.pop() {
            Some(a) => a,
            None => unreached(),
        };
        let result = clone_action(&action);
        self.redo_stack.push(action);
        result
    }

    /// Pops the most recent undone action for redoing; the action moves back
    /// to the undo stack and a copy of it is handed back. Redoing with
    /// nothing undone is a programmer error and is excluded.
    pub fn get_redo_action(&mut self) -> (r: Action)
        requires
            old(self).redo_stack@.len() > 0,
        ensures
            action_eq(r, old(self).redo_stack@.last()),
            final(self).redo_stack@ == old(self).redo_stack@.drop_last(),
            final(self).undo_stack@ == old(self).undo_stack@.push(old(self).redo_stack@.last()),
    {
        let action = match self.redo_stack.pop() {
            Some(a) => a,
            None => unreached(),
        };
        let result = clone_action(&action);
        self.undo_stack.push(action);
        result
    }

    /// Whether nothing can be undone.
    pub fn is_undo_empty(&self) -> (r: bool)
        ensures
            r == (self.undo_stack@.len() == 0),
    {
        self.undo_stack.len() == 0
    }

    /// Whether nothing can be redone.
    pub fn is_redo_empty(&self) -> (r: bool)
        ensures
            r == (self.redo_stack@.len() == 0),
    {
        self.redo_stack.len() == 0
    }
}

/// Whether a priced stack can be paid, by the availability rule: its count,
/// read as unsigned, is at least the stored total of its kind.
pub open spec fn stack_available(inv: Seq<u16>, s: ResourceStack) -> bool {
    cast16(s.count) >= inv[s.resource_type.spec_index()]
}

/// Per-kind integer counts after charging a row of stacks with `sign`.
pub open spec fn spec_charge_counts(counts: Seq<int>, items: Seq<ResourceStack>, sign: int) -> Seq<
    int,
>
    decreases items.len(),
{
    if items.len() == 0 {
        counts
    } else {
        let prev = spec_charge_counts(counts, items.drop_last(), sign);
        let item = items.last();
        let idx = item.resource_type.spec_index();
        if 0 <= idx < prev.len() {
            prev.update(idx, prev[idx] + sign * item.count)
        } else {
            prev
        }
    }
}

/// Three zero per-kind counts.
pub open spec fn zero_counts() -> Seq<int> {
    seq![0, 0, 0]
}

/// Charging keeps the number of per-kind counts.
pub proof fn lemma_charge_len(counts: Seq<int>, items: Seq<ResourceStack>, sign: int)
    ensures
        spec_charge_counts(counts, items, sign).len() == counts.len(),
    decreases items.len(),
{
    if items.len() > 0 {
        lemma_charge_len(counts, items.drop_last(), sign);
    }
}

/// Whether three per-kind counts all fit a signed 16-bit cell.
pub open spec fn counts_in_i16(counts: Seq<int>) -> bool {
    forall|k: int| 0 <= k < counts.len() ==> i16::MIN <= #[trigger] counts[k] <= i16::MAX
}

/// The outcome of asking whether a building can be afforded.
pub struct CanBuyBuildingResult {
    /// Whether every price stack passes the availability rule.
    pub can_buy: bool,
    /// The price stacks that failed it.
    pub inefficient_resources: Vec<ResourceStack>,
}

/// The outcome of asking whether a building fits where it is.
pub struct BuildingPlaceQueryResult {
    /// Whether every footprint tile is free of buildings and roads.
    pub can_place: bool,
    /// The footprint tiles that were not free.
    pub not_empty_tiles: Vec<Hexter>,
    /// Whether no footprint tile borders a road.
    pub not_connected_to_road: bool,
    /// The score placing it would add.
    pub score_change: i8,
}

/// The outcome of placing a road.
pub struct BuildingPlaceResult {
    /// Whether ground tiles were added.
    pub tiles_added: bool,
    /// The score after placing.
    pub new_score: u16,
}

/// One level in play: inventory, score, buildings, roads, ground and the
/// undo/redo history.
pub struct LevelManager {
    /// The per-kind resource counts.
    pub inventory: InventoryManager,
    /// The score.
    pub stats: StatsManager,
    /// The placed buildings.
    pub buildings: Buildings,
    /// The road tiles.
    pub roads: Roads,
    /// The unlocked ground tiles.
    pub ground: Ground,
    /// The undo/redo history.
    pub undo_redo: UndoRedo,
}

impl LevelManager {
    /// All parts are well-formed.
    pub open spec fn wf(self) -> bool {
        &&& self.inventory.wf()
        &&& self.buildings.wf()
        &&& self.roads.wf()
        &&& self.ground.wf()
    }

    /// A level at its start: the first area's ground unlocked and reward
    /// granted, the starting road placed, nothing built, score zero.
    pub fn new(level_descriptor: &LevelDescriptor) -> (r: Self)
        requires
            level_descriptor.areas@.len() >= 1,
            forall|m: int|
                0 <= m < level_descriptor.areas@[0].reward@.len() ==> (
                #[trigger] level_descriptor.areas@[0].reward@[m]).resource_type
                    != GameResource::MAX,
        ensures
            r.wf(),
            r.stats.score == 0,
            forall|x: Hexter|
                #[trigger] r.ground.spec_has_tile(x) == level_descriptor.areas@[0].tiles@.contains(
                    x,
                ),
            forall|x: Hexter|
                #[trigger] r.roads.has_road(x) == (x == level_descriptor.starting_road),
            r.inventory.inventory@ == spec_apply_items(
                seq![0u16, 0u16, 0u16],
                level_descriptor.areas@[0].reward@,
                true,
            ),
            r.undo_redo.undo_stack@.len() == 0,
            r.undo_redo.redo_stack@.len() == 0,
            forall|t: Hexter| !(#[trigger] r.buildings.spec_occupied(t)),
    {
        broadcast use vstd::array::group_array_axioms;

        let mut manager = LevelManager {
            inventory: InventoryManager::new(),
            stats: StatsManager::new(),
            buildings: Buildings::new(),
            roads: Roads::new(),
            ground: Ground::new(),
            undo_redo: UndoRedo::new(),
        };
        let area = &level_descriptor.areas[0];
        manager.ground.add_tiles(&area.tiles);
        manager.inventory.add_items(area.reward.as_slice());
        manager.roads.add_road(level_descriptor.starting_road);
        manager
    }

    /// Takes the most recent action back: the score drops by what it scored
    /// and the inventory regains what it charged.
    pub fn undo(&mut self)
        requires
            old(self).wf(),
            old(self).undo_redo.undo_stack@.len() > 0,
            old(self).stats.score >= old(self).undo_redo.undo_stack@.last().score_change,
            forall|m: int|
                0 <= m < 3 ==> (#[trigger] old(self).undo_redo.undo_stack@.last().resource_change@[m]).resource_type
                    != GameResource::MAX,
        ensures
            final(self).wf(),
            final(self).stats.score == old(self).stats.score - old(self).undo_redo.undo_stack@.last().score_change,
            final(self).inventory.inventory@ == spec_apply_items(
                old(self).inventory.inventory@,
                old(self).undo_redo.undo_stack@.last().resource_change@,
                true,
            ),
            final(self).undo_redo.undo_stack@ == old(self).undo_redo.undo_stack@.drop_last(),
            final(self).undo_redo.redo_stack@ == old(self).undo_redo.redo_stack@.push(
                old(self).undo_redo.undo_stack@.last(),
            ),
    {
        broadcast use vstd::array::group_array_axioms;

        let action = self.undo_redo.get_undo_action();
        self.stats.score = self.stats.score - action.score_change;
        self.inventory.add_items(action.resource_change.as_slice());
    }

    /// Applies the most recently undone action again: the score regains what
    /// it scored and the inventory is charged again.
    pub fn redo(&mut self)
        requires
            old(self).wf(),
            old(self).undo_redo.redo_stack@.len() > 0,
            old(self).stats.score + old(self).undo_redo.redo_stack@.last().score_change
                <= u16::MAX,
            forall|m: int|
                0 <= m < 3 ==> (#[trigger] old(self).undo_redo.redo_stack@.last().resource_change@[m]).resource_type
                    != GameResource::MAX,
        ensures
            final(self).wf(),
            final(self).stats.score == old(self).stats.score + old(self).undo_redo.redo_stack@.last().score_change,
            final(self).inventory.inventory@ == spec_apply_items(
                old(self).inventory.inventory@,
                old(self).undo_redo.redo_stack@.last().resource_change@,
                false,
            ),
            final(self).undo_redo.redo_stack@ == old(self).undo_redo.redo_stack@.drop_last(),
            final(self).undo_redo.undo_stack@ == old(self).undo_redo.undo_stack@.push(
                old(self).undo_redo.redo_stack@.last(),
            ),
    {
        broadcast use vstd::array::group_array_axioms;

        let action = self.undo_redo.get_redo_action();
        self.stats.score = self.stats.score + action.score_change;
        self.inventory.remove_items(action.resource_change.as_slice());
    }

    /// Places a building: records an undoable action charging its price and
    /// granting its reward, then stores the building and its footprint.
    pub fn place_building(&mut self, building: BuildingInstance)
        requires
            old(self).wf(),
            !old(self).buildings.has_instance(building.instance_id),
            building.instance_id.0 > 0,
            tiles_bounded(building.rotated_tiles@, SHAPE_BOUND as int),
            -COORD_BOUND <= building.center.q <= COORD_BOUND,
            -COORD_BOUND <= building.center.r <= COORD_BOUND,
            forall|m: int|
                0 <= m < building.descriptor.price@.len() ==> (
                #[trigger] building.descriptor.price@[m]).resource_type != GameResource::MAX,
            forall|m: int|
                0 <= m < building.descriptor.reward@.len() ==> (
                #[trigger] building.descriptor.reward@[m]).resource_type != GameResource::MAX,
            forall|m: int|
                0 <= m <= building.descriptor.price@.len() ==> counts_in_i16(
                    #[trigger] spec_charge_counts(
                        zero_counts(),
                        building.descriptor.price@.take(m),
                        -1,
                    ),
                ),
            forall|m: int|
                0 <= m <= building.descriptor.reward@.len() ==> counts_in_i16(
                    #[trigger] spec_charge_counts(
                        spec_charge_counts(zero_counts(), building.descriptor.price@, -1),
                        building.descriptor.reward@.take(m),
                        1,
                    ),
                ),
        ensures
            final(self).wf(),
            forall|t: Hexter|
                #[trigger] final(self).buildings.spec_occupied(t) == (old(self).buildings.spec_occupied(t) || exists|m: int|
                    0 <= m < building.rotated_tiles@.len() && t == spec_absolute(
                        #[trigger] building.rotated_tiles@[m],
                        building.center,
                    )),
            forall|id: BuildingInstanceId|
                #[trigger] final(self).buildings.has_instance(id) == (old(self).buildings.has_instance(id) || id == building.instance_id),
            final(self).undo_redo.undo_stack@.len() == old(self).undo_redo.undo_stack@.len() + 1,
            final(self).undo_redo.redo_stack@.len() == 0,
            final(self).undo_redo.undo_stack@.last().road is None,
            final(self).undo_redo.undo_stack@.last().tiles_added is None,
            final(self).undo_redo.undo_stack@.last().score_change == 0,
            (final(self).undo_redo.undo_stack@.last().building matches Some(b) && instance_eq(
                b,
                building,
            )),
            forall|k: int|
                0 <= k < 3 ==> (#[trigger] final(self).undo_redo.undo_stack@.last().resource_change@[k]).count as int
                    == spec_charge_counts(
                    spec_charge_counts(zero_counts(), building.descriptor.price@, -1),
                    building.descriptor.reward@,
                    1,
                )[k],
            final(self).stats == old(self).stats,
            final(self).inventory == old(self).inventory,
            final(self).roads == old(self).roads,
            final(self).ground == old(self).ground,
    {
        let ghost zeros: Seq<int> = zero_counts();
        let ghost price = building.descriptor.price@;
        let ghost reward = building.descriptor.reward@;
        let mut change: Vec<ResourceStack> = Vec::new();
        change.push(ResourceStack::new(GameResource::Dood, 0));
        change.push(ResourceStack::new(GameResource::Wood, 0));
        change.push(ResourceStack::new(GameResource::Food, 0));
        proof {
            assert(price.take(0) =~= Seq::<ResourceStack>::empty());
            assert forall|k: int| 0 <= k < 3 implies (#[trigger] change@[k]).count as int
                == spec_charge_counts(zeros, price.take(0), -1)[k] by {}
        }
        let np = building.descriptor.price.len();
        let mut m: usize = 0;
        while m < np
            invariant
                zeros == zero_counts(),
                np == price.len(),
                m <= np,
                building.descriptor.price@ == price,
                forall|k: int|
                    0 <= k < np ==> (#[trigger] price[k]).resource_type != GameResource::MAX,
                forall|m2: int|
                    0 <= m2 <= np ==> counts_in_i16(
                        #[trigger] spec_charge_counts(zeros, price.take(m2), -1),
                    ),
                change@.len() == 3,
                forall|k: int|
                    0 <= k < 3 ==> (#[trigger] change@[k]).resource_type
                        == crate::resource_stack::spec_resource_array(0, 0, 0)[k].resource_type,
                forall|k: int|
                    0 <= k < 3 ==> (#[trigger] change@[k]).count as int == spec_charge_counts(
                        zeros,
                        price.take(m as int),
                        -1,
                    )[k],
            decreases np - m,
        {
            let item = building.descriptor.price[m];
            proof {
                assert(item == price[m as int]);
                assert(item.resource_type != GameResource::MAX);
            }
            let idx = item.resource_type.index();
            let current = change[idx];
            proof {
                lemma_charge_len(zeros, price.take(m as int), -1);
                lemma_charge_len(zeros, price.take(m + 1), -1);
                assert(price.take(m + 1).drop_last() =~= price.take(m as int));
                assert(price.take(m + 1).last() == item);
                let s1 = price.take(m + 1);
                let prev = spec_charge_counts(zeros, s1.drop_last(), -1);
                assert(prev == spec_charge_counts(zeros, price.take(m as int), -1));
                assert(0 <= (idx as int) && (idx as int) < prev.len());
                assert(spec_charge_counts(zeros, s1, -1) == prev.update(
                    idx as int,
                    prev[idx as int] + (-1) * s1.last().count,
                ));
                assert(spec_charge_counts(zeros, price.take(m + 1), -1) == spec_charge_counts(
                    zeros,
                    price.take(m as int),
                    -1,
                ).update(idx as int, spec_charge_counts(zeros, price.take(m as int), -1)[idx as int]
                    - item.count));
                assert(counts_in_i16(spec_charge_counts(zeros, price.take(m + 1), -1)));
                assert(spec_charge_counts(zeros, price.take(m + 1), -1)[idx as int]
                    == current.count - item.count);
            }
            let ghost pre_change = change@;
            let updated = ResourceStack::new(current.resource_type, current.count - item.count);
            let cell = vstd::std_specs::vec::vec_index_mut(&mut change, idx);
            *cell = updated;
            proof {
                assert(change@ == pre_change.update(idx as int, updated));
                assert forall|k: int|
                    0 <= k < 3 implies (#[trigger] change@[k]).count as int == spec_charge_counts(
                    zeros,
                    price.take(m + 1),
                    -1,
                )[k] by {
                    if k != idx as int {
                        assert(change@[k] == pre_change[k]);
                        assert(spec_charge_counts(zeros, price.take(m + 1), -1)[k]
                            == spec_charge_counts(zeros, price.take(m as int), -1)[k]);
                    }
                }
                assert(forall|k: int|
                    0 <= k < 3 ==> (#[trigger] change@[k]).resource_type == pre_change[k].resource_type);
            }
            m = m + 1;
        }
        proof {
            assert(price.take(np as int) =~= price);
        }
        let ghost after_price = spec_charge_counts(zeros, price, -1);
        proof {
            lemma_charge_len(zeros, price, -1);
        }
        let nr = building.descriptor.reward.len();
        let mut m2: usize = 0;
        while m2 < nr
            invariant
                zeros == zero_counts(),
                nr == reward.len(),
                m2 <= nr,
                building.descriptor.reward@ == reward,
                forall|k: int|
                    0 <= k < nr ==> (#[trigger] reward[k]).resource_type != GameResource::MAX,
                forall|m3: int|
                    0 <= m3 <= nr ==> counts_in_i16(
                        #[trigger] spec_charge_counts(after_price, reward.take(m3), 1),
                    ),
                after_price == spec_charge_counts(zeros, price, -1),
                after_price.len() == 3,
                change@.len() == 3,
                forall|k: int|
                    0 <= k < 3 ==> (#[trigger] change@[k]).resource_type
                        == crate::resource_stack::spec_resource_array(0, 0, 0)[k].resource_type,
                forall|k: int|
                    0 <= k < 3 ==> (#[trigger] change@[k]).count as int == spec_charge_counts(
                        after_price,
                        reward.take(m2 as int),
                        1,
                    )[k],
            decreases nr - m2,
        {
            let item = building.descriptor.reward[m2];
            proof {
                assert(item == reward[m2 as int]);
                assert(item.resource_type != GameResource::MAX);
            }
            let idx = item.resource_type.index();
            let current = change[idx];
            proof {
                lemma_charge_len(after_price, reward.take(m2 as int), 1);
                lemma_charge_len(after_price, reward.take(m2 + 1), 1);
                assert(reward.take(m2 + 1).drop_last() =~= reward.take(m2 as int));
                assert(reward.take(m2 + 1).last() == item);
                let s1 = reward.take(m2 + 1);
                let prev = spec_charge_counts(after_price, s1.drop_last(), 1);
                assert(prev == spec_charge_counts(after_price, reward.take(m2 as int), 1));
                assert(0 <= (idx as int) && (idx as int) < prev.len());
                assert(spec_charge_counts(after_price, s1, 1) == prev.update(
                    idx as int,
                    prev[idx as int] + 1 * s1.last().count,
                ));
                assert(spec_charge_counts(after_price, reward.take(m2 + 1), 1)
                    == spec_charge_counts(after_price, reward.take(m2 as int), 1).update(
                    idx as int,
                    spec_charge_counts(after_price, reward.take(m2 as int), 1)[idx as int]
                        + item.count,
                ));
                assert(counts_in_i16(spec_charge_counts(after_price, reward.take(m2 + 1), 1)));
                assert(spec_charge_counts(after_price, reward.take(m2 + 1), 1)[idx as int]
                    == current.count + item.count);
            }
            let ghost pre_change = change@;
            let updated = ResourceStack::new(current.resource_type, current.count + item.count);
            let cell = vstd::std_specs::vec::vec_index_mut(&mut change, idx);
            *cell = updated;
            proof {
                assert(change@ == pre_change.update(idx as int, updated));
                assert forall|k: int|
                    0 <= k < 3 implies (#[trigger] change@[k]).count as int == spec_charge_counts(
                    after_price,
                    reward.take(m2 + 1),
                    1,
                )[k] by {
                    if k != idx as int {
                        assert(change@[k] == pre_change[k]);
                        assert(spec_charge_counts(after_price, reward.take(m2 + 1), 1)[k]
                            == spec_charge_counts(after_price, reward.take(m2 as int), 1)[k]);
                    }
                }
                assert(forall|k: int|
                    0 <= k < 3 ==> (#[trigger] change@[k]).resource_type == pre_change[k].resource_type);
            }
            m2 = m2 + 1;
        }
        proof {
            assert(reward.take(nr as int) =~= reward);
        }
        let resource_change = [change[0], change[1], change[2]];
        let action_building = copy_instance(&building);
        let action = Action {
            building: Some(action_building),
            road: None,
            tiles_added: None,
            score_change: 0,
            resource_change,
        };
        self.undo_redo.add_action(action);
        self.buildings.add_building(building);
        proof {
            broadcast use vstd::array::group_array_axioms;

            assert(forall|k: int|
                0 <= k < 3 ==> (#[trigger] resource_change@[k]) == change@[k]);
        }
    }

    /// Whether the inventory can pay a building's price, and which price
    /// stacks fail the availability rule.
    pub fn can_buy_building(&self, building: &BuildingInstance) -> (r: CanBuyBuildingResult)
        requires
            self.wf(),
            forall|m: int|
                0 <= m < building.descriptor.price@.len() ==> (
                #[trigger] building.descriptor.price@[m]).resource_type != GameResource::MAX,
        ensures
            r.can_buy == (forall|m: int|
                0 <= m < building.descriptor.price@.len() ==> stack_available(
                    self.inventory.inventory@,
                    #[trigger] building.descriptor.price@[m],
                )),
            (r.inefficient_resources@.len() == 0) == r.can_buy,
    {
        let mut can_buy = true;
        let mut inefficient_resources: Vec<ResourceStack> = Vec::new();
        let n = building.descriptor.price.len();
        let mut m: usize = 0;
        while m < n
            invariant
                self.wf(),
                n == building.descriptor.price@.len(),
                m <= n,
                forall|k: int|
                    0 <= k < n ==> (#[trigger] building.descriptor.price@[k]).resource_type
                        != GameResource::MAX,
                can_buy == (forall|k: int|
                    0 <= k < m ==> stack_available(
                        self.inventory.inventory@,
                        #[trigger] building.descriptor.price@[k],
                    )),
                (inefficient_resources@.len() == 0) == can_buy,
            decreases n - m,
        {
            let resource = &building.descriptor.price[m];
            if !self.inventory.is_available(resource) {
                can_buy = false;
                inefficient_resources.push(*resource);
            }
            m = m + 1;
        }
        CanBuyBuildingResult { can_buy, inefficient_resources }
    }

    /// Whether a building fits where it is: every footprint tile must be
    /// free of buildings and roads, and at least one must border a road.
    pub fn can_place_building(&self, building: BuildingInstance) -> (r: BuildingPlaceQueryResult)
        requires
            self.wf(),
            tiles_bounded(building.rotated_tiles@, SHAPE_BOUND as int),
            -COORD_BOUND + SHAPE_BOUND <= building.center.q <= COORD_BOUND - SHAPE_BOUND,
            -COORD_BOUND + SHAPE_BOUND <= building.center.r <= COORD_BOUND - SHAPE_BOUND,
        ensures
            r.can_place == (forall|m: int|
                0 <= m < building.rotated_tiles@.len() ==> {
                    let t = spec_absolute(#[trigger] building.rotated_tiles@[m], building.center);
                    !self.buildings.spec_occupied(t) && !self.roads.has_road(t)
                }),
            r.not_connected_to_road == !(exists|m: int|
                0 <= m < building.rotated_tiles@.len() && exists|i: int|
                    0 <= i < 6 && self.roads.has_road(
                        spec_absolute(
                            spec_direction(i),
                            #[trigger] spec_absolute(
                                building.rotated_tiles@[m],
                                building.center,
                            ),
                        ),
                    )),
            r.score_change == building.descriptor.base_score,
            (r.not_empty_tiles@.len() == 0) == r.can_place,
    {
        let mut can_place = true;
        let mut not_empty_tiles: Vec<Hexter> = Vec::new();
        let score_change = building.descriptor.base_score;
        let mut is_connected = false;
        let n = building.rotated_tiles.len();
        let mut m: usize = 0;
        while m < n
            invariant
                self.wf(),
                n == building.rotated_tiles@.len(),
                m <= n,
                tiles_bounded(building.rotated_tiles@, SHAPE_BOUND as int),
                -COORD_BOUND + SHAPE_BOUND <= building.center.q <= COORD_BOUND - SHAPE_BOUND,
                -COORD_BOUND + SHAPE_BOUND <= building.center.r <= COORD_BOUND - SHAPE_BOUND,
                can_place == (forall|k: int|
                    0 <= k < m ==> {
                        let t = spec_absolute(
                            #[trigger] building.rotated_tiles@[k],
                            building.center,
                        );
                        !self.buildings.spec_occupied(t) && !self.roads.has_road(t)
                    }),
                is_connected == (exists|k: int|
                    0 <= k < m && exists|i: int|
                        0 <= i < 6 && self.roads.has_road(
                            spec_absolute(
                                spec_direction(i),
                                #[trigger] spec_absolute(
                                    building.rotated_tiles@[k],
                                    building.center,
                                ),
                            ),
                        )),
                (not_empty_tiles@.len() == 0) == can_place,
            decreases n - m,
        {
            let tile = building.rotated_tiles[m];
            let absolute_tile = tile.add(building.center);
            proof {
                assert(absolute_tile == spec_absolute(
                    building.rotated_tiles@[m as int],
                    building.center,
                ));
            }
            if !self.buildings.is_empty(&absolute_tile) {
                not_empty_tiles.push(absolute_tile);
                can_place = false;
            }
            if !self.roads.is_empty(&absolute_tile) {
                not_empty_tiles.push(absolute_tile);
                can_place = false;
            }
            let connected_here = self.roads.is_connected_to_road(&absolute_tile);
            is_connected = is_connected || connected_here;
            m = m + 1;
        }
        BuildingPlaceQueryResult {
            can_place,
            not_empty_tiles,
            not_connected_to_road: !is_connected,
            score_change,
        }
    }

    /// Whether a road can go on `tile`: the tile is free of buildings and
    /// roads and borders one.
    pub fn can_place_road(&self, tile: &Hexter) -> (r: bool)
        requires
            self.wf(),
            -COORD_BOUND <= tile.q <= COORD_BOUND,
            -COORD_BOUND <= tile.r <= COORD_BOUND,
        ensures
            r == (!self.buildings.spec_occupied(*tile) && !self.roads.has_road(*tile) && exists|
                i: int,
            | 0 <= i < 6 && self.roads.has_road(spec_absolute(spec_direction(i), *tile))),
    {
        self.buildings.is_empty(tile) && self.roads.is_empty(tile)
            && self.roads.is_connected_to_road(tile)
    }

    /// Places a road on `tile` and records the action.
    pub fn place_road(&mut self, tile: Hexter) -> (r: BuildingPlaceResult)
        requires
            old(self).wf(),
        ensures
            final(self).wf(),
            forall|x: Hexter|
                #[trigger] final(self).roads.has_road(x) == (old(self).roads.has_road(x) || x
                    == tile),
            final(self).undo_redo.undo_stack@.len() == old(self).undo_redo.undo_stack@.len() + 1,
            final(self).undo_redo.undo_stack@.last().road == Some(tile),
            final(self).undo_redo.undo_stack@.last().score_change == 0,
            final(self).undo_redo.redo_stack@.len() == 0,
            final(self).stats == old(self).stats,
            final(self).inventory == old(self).inventory,
            final(self).buildings == old(self).buildings,
            final(self).ground == old(self).ground,
            r.tiles_added == false,
            r.new_score == 0,
    {
        let action = Action {
            building: None,
            road: Some(tile),
            tiles_added: None,
            score_change: 0,
            resource_change: ResourceStack::resource_array(0, 0, 0),
        };
        self.undo_redo.add_action(action);
        self.roads.add_road(tile);
        BuildingPlaceResult { tiles_added: false, new_score: 0 }
    }

    /// The unlocked ground tiles.
    pub fn get_tiles(&self) -> (r: &Vec<Hexter>)
        ensures
            r@ == self.ground.tiles@,
    {
        &self.ground.tiles
    }

    /// Whether a road sits on `tile`.
    pub fn is_road(&self, tile: &Hexter) -> (r: bool)
        ensures
            r == self.roads.has_road(*tile),
    {
        !self.roads.is_empty(tile)
    }
}

} // verus!
