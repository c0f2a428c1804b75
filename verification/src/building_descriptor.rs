//! Static descriptions of building kinds.

use vstd::prelude::*;

use crate::honeycomb::Hexter;
use crate::resource_stack::ResourceStack;

verus! {

/// A building kind: its footprint, price, reward and score.
pub struct BuildingDescriptor {
    /// The kind's small stable id.
    pub id: u8,
    /// The tiles the building covers, relative to its centre.
    pub shape: Vec<Hexter>,
    /// What placing one costs.
    pub price: Vec<ResourceStack>,
    /// What placing one yields.
    pub reward: Vec<ResourceStack>,
    /// The score awarded for placing one.
    pub base_score: i8,
}

} // verus!
