use vstd::prelude::*;

verus! {

/// A strong handle: shared ownership of one node of a forest.
///
/// A node stays alive while a strong handle to it is held, or while it has a
/// parent. Handles compare by identity, never by payload.
pub struct ForestNodeRc {
    pub(crate) forest: u64,
    pub(crate) index: usize,
}

/// A weak handle: names a node without keeping it alive.
#[derive(Clone, Copy)]
pub struct ForestNodeWeak {
    pub(crate) forest: u64,
    pub(crate) index: usize,
}

/// The raw external form of a strong handle: it carries the handle's share of
/// ownership until it is imported again.
pub struct ForestNodePtr {
    pub(crate) forest: u64,
    pub(crate) index: usize,
}

/// A shared access guard, taken on one node; it certifies reading every node of
/// its forest until it is released.
pub struct ForestNodeRef {
    pub(crate) forest: u64,
    pub(crate) index: usize,
}

/// An exclusive access guard, taken on one node; it certifies reading and writing
/// every node of its forest until it is released.
pub struct ForestNodeRefMut {
    pub(crate) forest: u64,
    pub(crate) index: usize,
}

impl ForestNodeRc {
    /// The forest the node belongs to.
    pub closed spec fn forest(&self) -> u64 {
        self.forest
    }

    /// The node's slot in its forest: its identity.
    pub closed spec fn index(&self) -> usize {
        self.index
    }

    pub(crate) fn make(forest: u64, index: usize) -> (r: Self)
        ensures
            r.forest() == forest,
            r.index() == index,
    {
        ForestNodeRc { forest, index }
    }

    pub fn forest_id(&self) -> (r: u64)
        ensures
            r == self.forest(),
    {
        self.forest
    }

    pub fn slot(&self) -> (r: usize)
        ensures
            r == self.index(),
    {
        self.index
    }

    /// Whether two strong handles name the same node.
    pub fn ptr_eq(a: &Self, b: &Self) -> (r: bool)
        ensures
            r == (a.forest() == b.forest() && a.index() == b.index()),
    {
        a.forest == b.forest && a.index == b.index
    }

    /// A weak handle to the same node.
    pub fn downgrade(&self) -> (r: ForestNodeWeak)
        ensures
            r.forest() == self.forest(),
            r.index() == self.index(),
    {
        ForestNodeWeak { forest: self.forest, index: self.index }
    }

    /// Exports the handle, with its share of ownership, to its raw form.
    pub fn into_ptr(self) -> (r: ForestNodePtr)
        ensures
            r.forest() == self.forest(),
            r.index() == self.index(),
    {
        ForestNodePtr { forest: self.forest, index: self.index }
    }
}

impl ForestNodeWeak {
    pub closed spec fn forest(&self) -> u64 {
        self.forest
    }

    pub closed spec fn index(&self) -> usize {
        self.index
    }

    pub(crate) fn make(forest: u64, index: usize) -> (r: Self)
        ensures
            r.forest() == forest,
            r.index() == index,
    {
        ForestNodeWeak { forest, index }
    }

    pub fn forest_id(&self) -> (r: u64)
        ensures
            r == self.forest(),
    {
        self.forest
    }

    pub fn slot(&self) -> (r: usize)
        ensures
            r == self.index(),
    {
        self.index
    }
}

impl ForestNodePtr {
    pub closed spec fn forest(&self) -> u64 {
        self.forest
    }

    pub closed spec fn index(&self) -> usize {
        self.index
    }

    pub fn forest_id(&self) -> (r: u64)
        ensures
            r == self.forest(),
    {
        self.forest
    }

    pub fn slot(&self) -> (r: usize)
        ensures
            r == self.index(),
    {
        self.index
    }
}

impl ForestNodeRef {
    pub closed spec fn forest(&self) -> u64 {
        self.forest
    }

    /// The node the guard was taken on.
    pub closed spec fn index(&self) -> usize {
        self.index
    }

    pub(crate) fn make(forest: u64, index: usize) -> (r: Self)
        ensures
            r.forest() == forest,
            r.index() == index,
    {
        ForestNodeRef { forest, index }
    }

    /// A weak handle to the node the guard was taken on.
    pub fn node(&self) -> (r: ForestNodeWeak)
        ensures
            r.forest() == self.forest(),
            r.index() == self.index(),
    {
        ForestNodeWeak { forest: self.forest, index: self.index }
    }
}

impl ForestNodeRefMut {
    pub closed spec fn forest(&self) -> u64 {
        self.forest
    }

    pub closed spec fn index(&self) -> usize {
        self.index
    }

    pub(crate) fn make(forest: u64, index: usize) -> (r: Self)
        ensures
            r.forest() == forest,
            r.index() == index,
    {
        ForestNodeRefMut { forest, index }
    }

    pub fn node(&self) -> (r: ForestNodeWeak)
        ensures
            r.forest() == self.forest(),
            r.index() == self.index(),
    {
        ForestNodeWeak { forest: self.forest, index: self.index }
    }
}

} // verus!
