use vstd::prelude::*;

verus! {

/// The error returned when a guard cannot be granted: the request would break the
/// single-writer-or-many-readers rule of the forest.
#[derive(Debug, Clone, Copy, PartialEq, Eq, Structural)]
pub struct AccessConflict;

/// The access arbitration state of one forest.
///
/// It counts the guards that are out and records whether the one guard that is out
/// is exclusive. The rule is forest-wide on purpose: a guard certifies access to
/// every node that can be reached from the node it was taken on, so per-node
/// arbitration would let two exclusive views alias each other.
pub struct ForestContext {
    exclusive_active: bool,
    active_count: usize,
}

impl ForestContext {
    /// Whether an exclusive guard is out.
    pub closed spec fn is_exclusive(&self) -> bool {
        self.exclusive_active
    }

    /// How many guards, shared or exclusive, are out.
    pub closed spec fn count(&self) -> nat {
        self.active_count as nat
    }

    /// The counters agree with each other: an exclusive guard is always alone.
    pub open spec fn wf(&self) -> bool {
        &&& (self.is_exclusive() ==> self.count() == 1)
        &&& (self.count() == 0 ==> !self.is_exclusive())
    }

    /// A shared guard can be granted now.
    pub open spec fn can_share(&self) -> bool {
        !self.is_exclusive() && self.count() < usize::MAX
    }

    /// An exclusive guard can be granted now.
    pub open spec fn can_exclude(&self) -> bool {
        self.count() == 0
    }

    pub fn new() -> (r: Self)
        ensures
            r.wf(),
            r.count() == 0,
            !r.is_exclusive(),
    {
        ForestContext { exclusive_active: false, active_count: 0 }
    }

    pub fn exclusive_active(&self) -> (r: bool)
        ensures
            r == self.is_exclusive(),
    {
        self.exclusive_active
    }

    pub fn active_count(&self) -> (r: usize)
        ensures
            r == self.count(),
    {
        self.active_count
    }

    /// Takes a shared slot; the caller must know that no exclusive guard is out.
    pub fn borrow(&mut self)
        requires
            old(self).wf(),
            old(self).can_share(),
        ensures
            final(self).wf(),
            final(self).count() == old(self).count() + 1,
            !final(self).is_exclusive(),
    {
        self.active_count = self.active_count + 1;
    }

    /// Takes a shared slot if no exclusive guard is out.
    pub fn try_borrow(&mut self) -> (r: Result<(), AccessConflict>)
        requires
            old(self).wf(),
            old(self).count() < usize::MAX,
        ensures
            final(self).wf(),
            r.is_ok() == !old(self).is_exclusive(),
            r.is_ok() ==> final(self).count() == old(self).count() + 1 && !final(self).is_exclusive(),
            r.is_err() ==> *final(self) == *old(self),
    {
        if self.exclusive_active {
            return Err(AccessConflict);
        }
        self.active_count = self.active_count + 1;
        Ok(())
    }

    /// Takes the exclusive slot; the caller must know that no guard is out.
    pub fn borrow_mut(&mut self)
        requires
            old(self).wf(),
            old(self).can_exclude(),
        ensures
            final(self).wf(),
            final(self).count() == 1,
            final(self).is_exclusive(),
    {
        self.exclusive_active = true;
        self.active_count = self.active_count + 1;
    }

    /// Takes the exclusive slot if no guard at all is out.
    pub fn try_borrow_mut(&mut self) -> (r: Result<(), AccessConflict>)
        requires
            old(self).wf(),
        ensures
            final(self).wf(),
            r.is_ok() == (old(self).count() == 0),
            r.is_ok() ==> final(self).count() == 1 && final(self).is_exclusive(),
            r.is_err() ==> *final(self) == *old(self),
    {
        if self.active_count > 0 {
            return Err(AccessConflict);
        }
        self.exclusive_active = true;
        self.active_count = self.active_count + 1;
        Ok(())
    }

    /// Gives a slot back; the exclusive mark goes when the last guard goes.
    pub fn release(&mut self)
        requires
            old(self).wf(),
            old(self).count() > 0,
        ensures
            final(self).wf(),
            final(self).count() == old(self).count() - 1,
            final(self).is_exclusive() == (old(self).is_exclusive() && final(self).count() > 0),
    {
        self.active_count = self.active_count - 1;
        if self.active_count == 0 {
            self.exclusive_active = false;
        }
    }
}

} // verus!
