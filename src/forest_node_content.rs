use vstd::prelude::*;
use crate::forest_node_self::ForestNodeSelf;

verus! {

/// What a payload may do when the tree around it changes. Both hooks are called
/// while the exclusive guard of the change is held; both do nothing by default.
pub trait ForestNodeContent: Sized {
    /// Called once, when the node that holds the payload is created.
    fn associate_node(&mut self, _node: ForestNodeSelf) {
    }

    /// Called whenever the parent link of the node that holds the payload changes.
    fn parent_node_changed(&mut self) {
    }
}

} // verus!
