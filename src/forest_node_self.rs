use vstd::prelude::*;
use crate::forest_node_rc::ForestNodeWeak;

verus! {

/// Handed to a payload when its node is created, so that the payload can reach
/// its own node later. It records the slot the payload was issued for.
#[derive(Clone, Copy)]
pub struct ForestNodeSelf {
    weak: ForestNodeWeak,
    content_slot: usize,
}

impl ForestNodeSelf {
    pub closed spec fn node(&self) -> ForestNodeWeak {
        self.weak
    }

    pub closed spec fn content_slot(&self) -> usize {
        self.content_slot
    }

    pub(crate) fn new(weak: ForestNodeWeak, content_slot: usize) -> (r: Self)
        ensures
            r.node() == weak,
            r.content_slot() == content_slot,
    {
        ForestNodeSelf { weak, content_slot }
    }

    /// The weak handle of the node the capsule was issued for.
    pub fn weak(&self) -> (r: ForestNodeWeak)
        ensures
            r == self.node(),
    {
        self.weak
    }

    /// The slot of the payload the capsule was issued for.
    pub fn issued_for(&self) -> (r: usize)
        ensures
            r == self.content_slot(),
    {
        self.content_slot
    }
}

} // verus!
