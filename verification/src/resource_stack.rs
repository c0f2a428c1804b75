//! Game resources and counted stacks of them.

use vstd::prelude::*;

verus! {

/// The kinds of resource the game tracks; `MAX` marks the number of kinds.
#[derive(PartialEq, Eq, Hash, Clone, Copy, Debug, Structural)]
pub enum GameResource {
    Dood,
    Wood,
    Food,
    MAX,
}

impl GameResource {
    /// The resource's position in a per-kind table.
    pub open spec fn spec_index(self) -> int {
        match self {
            GameResource::Dood => 0,
            GameResource::Wood => 1,
            GameResource::Food => 2,
            GameResource::MAX => 3,
        }
    }

    /// The resource's position in a per-kind table.
    pub fn index(&self) -> (r: usize)
        ensures
            r as int == self.spec_index(),
            r < 4,
            self != GameResource::MAX ==> r < 3,
    {
        match self {
            GameResource::Dood => 0,
            GameResource::Wood => 1,
            GameResource::Food => 2,
            GameResource::MAX => 3,
        }
    }
}

/// A counted stack of one resource kind.
#[derive(Clone, Copy, PartialEq, Eq, Debug, Structural)]
pub struct ResourceStack {
    /// Which resource is counted.
    pub resource_type: GameResource,
    /// How many of it; negative counts mark a price.
    pub count: i16,
}

/// One stack per real resource kind: `dood`, `wood` and `food` counts in that
/// order.
pub open spec fn spec_resource_array(dood: i16, wood: i16, food: i16) -> Seq<ResourceStack> {
    seq![
        ResourceStack { resource_type: GameResource::Dood, count: dood },
        ResourceStack { resource_type: GameResource::Wood, count: wood },
        ResourceStack { resource_type: GameResource::Food, count: food },
    ]
}

impl ResourceStack {
    /// A stack of `count` of `resource_type`.
    pub fn new(resource_type: GameResource, count: i16) -> (r: Self)
        ensures
            r.resource_type == resource_type,
            r.count == count,
    {
        ResourceStack { resource_type, count }
    }

    /// One stack per real resource kind, with the given counts.
    pub fn resource_array(dood: i16, wood: i16, food: i16) -> (r: [Self; 3])
        ensures
            r@ == spec_resource_array(dood, wood, food),
    {
        let r = [
            Self::new(GameResource::Dood, dood),
            Self::new(GameResource::Wood, wood),
            Self::new(GameResource::Food, food),
        ];
        proof {
            assert(r@ =~= spec_resource_array(dood, wood, food));
        }
        r
    }
}

} // verus!
