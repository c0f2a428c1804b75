//! Static descriptions of levels and their unlockable areas.

use vstd::prelude::*;

use crate::honeycomb::COORD_BOUND;
use crate::honeycomb::Hexter;
use crate::honeycomb::RANGE_BOUND;
use crate::honeycomb::SpiralLoop;
use crate::resource_stack::ResourceStack;
use crate::resource_stack::spec_resource_array;

verus! {

/// One unlockable area of a level.
pub struct AreaDescriptor {
    /// The ground tiles the area adds.
    pub tiles: Vec<Hexter>,
    /// The resources granted when the area unlocks.
    pub reward: [ResourceStack; 3],
    /// The score at which the area unlocks.
    pub unlock_score: u32,
}

/// A level: its areas, sorted by unlock score, and its starting road tile.
pub struct LevelDescriptor {
    /// The areas, sorted by `unlock_score`.
    pub areas: Vec<AreaDescriptor>,
    /// The tile holding the starting road.
    pub starting_road: Hexter,
}

/// All tiles of the spiral walk around `center` out to `range`, in walk
/// order; the centre tile comes first.
fn spiral_tiles(center: Hexter, range: u32) -> (tiles: Vec<Hexter>)
    requires
        range <= RANGE_BOUND,
        -COORD_BOUND <= center.q <= COORD_BOUND,
        -COORD_BOUND <= center.r <= COORD_BOUND,
    ensures
        tiles@.len() >= 1,
        tiles@[0] == center,
{
    let mut walk = SpiralLoop::new(center, range);
    let mut tiles: Vec<Hexter> = Vec::new();
    let mut live: u32 = 1;
    while live == 1
        invariant
            live <= 1,
            walk.wf(),
            walk.center_pos == center,
            walk.range == range,
            walk.current_radius == 0 ==> tiles@.len() == 0,
            walk.current_radius > 0 ==> tiles@.len() >= 1 && tiles@[0] == center,
            live == 0 ==> walk.current_radius > 0,
        decreases live, walk.range + 1 - walk.current_radius, 6 - walk.current_direction, walk.current_radius - walk.current_point,
    {
        match walk.next() {
            Some(h) => {
                tiles.push(h);
            },
            None => {
                live = 0;
            },
        }
    }
    tiles
}

/// A small built-in level: seven spiral areas of range three, each rewarding
/// three dood, unlocking at scores growing in steps of three, with the
/// starting road on the origin tile.
pub fn get_dummy_level() -> (r: LevelDescriptor)
    ensures
        r.areas@.len() == 7,
        forall|i: int| 0 <= i < 7 ==> (#[trigger] r.areas@[i]).unlock_score == i * 3,
        forall|i: int|
            0 <= i < 7 ==> (#[trigger] r.areas@[i]).reward@ == spec_resource_array(3, 0, 0),
        forall|i: int| 0 <= i < 7 ==> (#[trigger] r.areas@[i]).tiles@.len() >= 1,
        r.starting_road == (Hexter { q: 0, r: 0 }),
{
    let mut centers: Vec<Hexter> = Vec::new();
    centers.push(Hexter::new(0, 0));
    centers.push(Hexter::new(4, -2));
    centers.push(Hexter::new(2, -4));
    centers.push(Hexter::new(-2, -4));
    centers.push(Hexter::new(-4, 2));
    centers.push(Hexter::new(-2, 4));
    centers.push(Hexter::new(2, 4));
    let mut areas: Vec<AreaDescriptor> = Vec::new();
    let mut i: usize = 0;
    while i < 7
        invariant
            centers@.len() == 7,
            forall|k: int|
                0 <= k < 7 ==> -COORD_BOUND <= (#[trigger] centers@[k]).q <= COORD_BOUND
                    && -COORD_BOUND <= centers@[k].r <= COORD_BOUND,
            i <= 7,
            areas@.len() == i as int,
            forall|k: int| 0 <= k < i ==> (#[trigger] areas@[k]).unlock_score == k * 3,
            forall|k: int|
                0 <= k < i ==> (#[trigger] areas@[k]).reward@ == spec_resource_array(3, 0, 0),
            forall|k: int| 0 <= k < i ==> (#[trigger] areas@[k]).tiles@.len() >= 1,
        decreases 7 - i,
    {
        let tiles = spiral_tiles(centers[i], 3);
        let area = AreaDescriptor {
            reward: ResourceStack::resource_array(3, 0, 0),
            unlock_score: (i as u32) * 3,
            tiles,
        };
        areas.push(area);
        i = i + 1;
    }
    LevelDescriptor { areas, starting_road: Hexter::new(0, 0) }
}

} // verus!
