//! The named stages of the host loop.

use vstd::prelude::*;

verus! {

/// The fixed, ordered stages a host runs each tick. Stages are independent
/// buckets of systems; the host invokes each explicitly, in an order of its
/// choosing (the main loop runs PreUpdate, Update, PreRender, Render, with
/// Start once at startup and Resize and Input driven by outside events).
#[derive(Hash, PartialEq, Eq, Clone, Copy, Debug, Structural)]
pub enum SystemStage {
    Start,
    Resize,
    PreInput,
    Input,
    Update,
    PreUpdate,
    PreRender,
    Render,
}

impl SystemStage {
    /// The stage's position in a scheduler's stage table.
    pub open spec fn spec_index(self) -> int {
        match self {
            SystemStage::Start => 0,
            SystemStage::Resize => 1,
            SystemStage::PreInput => 2,
            SystemStage::Input => 3,
            SystemStage::Update => 4,
            SystemStage::PreUpdate => 5,
            SystemStage::PreRender => 6,
            SystemStage::Render => 7,
        }
    }

    /// The stage's position in a scheduler's stage table.
    pub fn index(&self) -> (r: usize)
        ensures
            r as int == self.spec_index(),
            r < 8,
    {
        match self {
            SystemStage::Start => 0,
            SystemStage::Resize => 1,
            SystemStage::PreInput => 2,
            SystemStage::Input => 3,
            SystemStage::Update => 4,
            SystemStage::PreUpdate => 5,
            SystemStage::PreRender => 6,
            SystemStage::Render => 7,
        }
    }
}

/// Distinct stages sit at distinct positions of the stage table.
pub proof fn lemma_stage_index_injective(s1: SystemStage, s2: SystemStage)
    requires
        s1 != s2,
    ensures
        s1.spec_index() != s2.spec_index(),
{
}

} // verus!
