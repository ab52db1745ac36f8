use vstd::prelude::*;
use crate::forest_context::{AccessConflict, ForestContext};
use crate::forest_node_content::ForestNodeContent;
use crate::forest_node_rc::{ForestNodePtr, ForestNodeRc, ForestNodeRef, ForestNodeRefMut, ForestNodeWeak};
use crate::forest_node_self::ForestNodeSelf;
use crate::child_seq::{
    lemma_contains_split, lemma_without_absent, lemma_without_contains, lemma_without_no_duplicates,
    lemma_without_unique, without, without_exec,
};

verus! {

/// One vertex of a forest: its parent link, its children in order, and its payload.
///
/// A node owns its children; its parent link does not own the parent.
pub struct ForestNode<T: ForestNodeContent> {
    forest: u64,
    index: usize,
    alive: bool,
    strong: usize,
    parent: Option<usize>,
    children: Vec<usize>,
    content: T,
}

/// A group of nodes that share one access arbitration context.
///
/// The forest holds the storage of its nodes; handles name nodes by slot. Slots are
/// never reused, so a handle to a node that has gone stays dangling forever.
pub struct Forest<T: ForestNodeContent> {
    id: u64,
    context: ForestContext,
    nodes: Vec<ForestNode<T>>,
}

impl<T: ForestNodeContent> ForestNode<T> {
    /// The forest the node belongs to.
    pub closed spec fn forest(&self) -> u64 {
        self.forest
    }

    /// The node's own slot.
    pub closed spec fn index(&self) -> usize {
        self.index
    }

    pub closed spec fn is_alive(&self) -> bool {
        self.alive
    }

    /// How many strong handles outside the tree hold the node.
    pub closed spec fn strong(&self) -> nat {
        self.strong as nat
    }

    /// The slot of the parent, if the node has one.
    pub closed spec fn parent_link(&self) -> Option<usize> {
        self.parent
    }

    /// The slots of the children, in order.
    pub closed spec fn child_seq(&self) -> Seq<usize> {
        self.children@
    }

    pub closed spec fn payload(&self) -> T {
        self.content
    }

    /// Two records agree on their place in the structure.
    pub open spec fn same_shape(&self, o: &Self) -> bool {
        &&& self.forest() == o.forest()
        &&& self.index() == o.index()
        &&& self.is_alive() == o.is_alive()
        &&& self.parent_link() == o.parent_link()
        &&& self.child_seq() == o.child_seq()
    }

    /// Two records agree on everything but the payload.
    pub open spec fn same_links(&self, o: &Self) -> bool {
        &&& self.forest() == o.forest()
        &&& self.index() == o.index()
        &&& self.is_alive() == o.is_alive()
        &&& self.strong() == o.strong()
        &&& self.parent_link() == o.parent_link()
        &&& self.child_seq() == o.child_seq()
    }
}

impl<T: ForestNodeContent> Forest<T> {
    pub closed spec fn id(&self) -> u64 {
        self.id
    }

    /// The arbitration state of the forest.
    pub closed spec fn ctx(&self) -> ForestContext {
        self.context
    }

    /// The number of slots, live or gone.
    pub closed spec fn size(&self) -> nat {
        self.nodes@.len()
    }

    pub closed spec fn node_at(&self, i: usize) -> ForestNode<T> {
        self.nodes@[i as int]
    }

    /// Whether slot `i` holds a node that is still alive.
    pub open spec fn live(&self, i: usize) -> bool {
        i < self.size() && self.node_at(i).is_alive()
    }

    pub open spec fn children_of(&self, i: usize) -> Seq<usize> {
        self.node_at(i).child_seq()
    }

    pub open spec fn parent_of(&self, i: usize) -> Option<usize> {
        self.node_at(i).parent_link()
    }

    pub open spec fn strong_of(&self, i: usize) -> nat {
        self.node_at(i).strong()
    }

    /// `h` names a live node of this forest.
    pub open spec fn owns(&self, h: &ForestNodeRc) -> bool {
        h.forest() == self.id() && self.live(h.index())
    }

    /// A shared or an exclusive guard is out.
    pub open spec fn guarded(&self) -> bool {
        self.ctx().count() > 0
    }

    /// The exclusive guard is out.
    pub open spec fn guarded_mut(&self) -> bool {
        self.ctx().is_exclusive()
    }

    /// The structure of the forest is consistent: every node knows its slot, a
    /// parent link points at a live node that lists the child, every listed child
    /// links back, no child is listed twice, and a node that is gone holds no links.
    pub open spec fn wf(&self) -> bool {
        &&& self.ctx().wf()
        &&& forall|i: usize| i < self.size() ==> {
            &&& #[trigger] self.node_at(i).index() == i
            &&& self.node_at(i).forest() == self.id()
        }
        &&& forall|i: usize| i < self.size() && #[trigger] self.parent_of(i) is Some ==> {
            let p = self.parent_of(i)->0;
            &&& self.live(p)
            &&& self.children_of(p).contains(i)
        }
        &&& forall|p: usize, j: int| p < self.size() && 0 <= j < self.children_of(p).len() ==> {
            let c = #[trigger] self.children_of(p)[j];
            &&& c < self.size()
            &&& self.parent_of(c) == Some(p)
        }
        &&& forall|p: usize| p < self.size() ==> (#[trigger] self.children_of(p)).no_duplicates()
        &&& forall|i: usize| i < self.size() && !(#[trigger] self.node_at(i)).is_alive() ==> {
            &&& self.children_of(i).len() == 0
            &&& self.parent_of(i) is None
        }
    }

    /// `other` has the structure of `self`: every link, liveness and strong count
    /// is as it was; only payloads and the arbitration state may differ.
    pub open spec fn same_structure(&self, other: &Self) -> bool {
        &&& other.id() == self.id()
        &&& other.size() == self.size()
        &&& forall|k: usize| k < self.size() ==> (#[trigger] other.node_at(k)).same_links(&self.node_at(k))
        &&& forall|k: usize| k < self.size() ==> #[trigger] other.live(k) == self.live(k)
        &&& forall|k: usize| k < self.size() ==> #[trigger] other.parent_of(k) == self.parent_of(k)
        &&& forall|k: usize| k < self.size() ==> #[trigger] other.children_of(k) == self.children_of(k)
        &&& forall|k: usize| k < self.size() ==> #[trigger] other.strong_of(k) == self.strong_of(k)
    }

    proof fn lemma_same_structure(a: &Self, b: &Self)
        requires
            a.id() == b.id(),
            a.size() == b.size(),
            forall|k: usize| k < a.size() ==> (#[trigger] b.node_at(k)).same_links(&a.node_at(k)),
        ensures
            a.same_structure(b),
    {
        assert forall|k: usize| k < a.size() implies {
            &&& #[trigger] b.live(k) == a.live(k)
            &&& b.parent_of(k) == a.parent_of(k)
            &&& b.children_of(k) == a.children_of(k)
            &&& b.strong_of(k) == a.strong_of(k)
        } by {
            assert(b.node_at(k).same_links(&a.node_at(k)));
        }
        assert forall|k: usize| k < a.size() implies #[trigger] b.parent_of(k) == a.parent_of(k) by {
            assert(b.node_at(k).same_links(&a.node_at(k)));
        }
        assert forall|k: usize| k < a.size() implies #[trigger] b.children_of(k) == a.children_of(k) by {
            assert(b.node_at(k).same_links(&a.node_at(k)));
        }
        assert forall|k: usize| k < a.size() implies #[trigger] b.strong_of(k) == a.strong_of(k) by {
            assert(b.node_at(k).same_links(&a.node_at(k)));
        }
    }
}

impl<T: ForestNodeContent> Forest<T> {
    /// An empty forest. `id` tells it apart from other forests: handles of one
    /// forest are refused by another.
    pub fn new(id: u64) -> (r: Self)
        ensures
            r.wf(),
            r.id() == id,
            r.size() == 0,
            r.ctx().count() == 0,
            !r.ctx().is_exclusive(),
    {
        Forest { id, context: ForestContext::new(), nodes: Vec::new() }
    }

    pub fn forest_id(&self) -> (r: u64)
        ensures
            r == self.id(),
    {
        self.id
    }

    /// The arbitration state of the forest.
    pub fn context(&self) -> (r: &ForestContext)
        ensures
            *r == self.ctx(),
    {
        &self.context
    }

    /// Whether slot `i` holds a live node.
    pub fn is_live(&self, i: usize) -> (r: bool)
        ensures
            r == self.live(i),
    {
        i < self.nodes.len() && self.nodes[i].alive
    }

    /// The structure of a forest depends on the links of its nodes alone.
    proof fn lemma_wf_frame(a: &Self, b: &Self)
        requires
            a.wf(),
            b.ctx().wf(),
            a.id() == b.id(),
            a.size() == b.size(),
            forall|k: usize| k < b.size() ==> (#[trigger] b.node_at(k)).same_shape(&a.node_at(k)),
        ensures
            b.wf(),
    {
        assert forall|i: usize| i < b.size() && #[trigger] b.parent_of(i) is Some implies {
            let p = b.parent_of(i)->0;
            &&& b.live(p)
            &&& b.children_of(p).contains(i)
        } by {
            assert(b.node_at(i).same_shape(&a.node_at(i)));
            let p = b.parent_of(i)->0;
            assert(b.node_at(p).same_shape(&a.node_at(p)));
        }
        assert forall|p: usize, j: int| p < b.size() && 0 <= j < b.children_of(p).len() implies {
            let c = #[trigger] b.children_of(p)[j];
            &&& c < b.size()
            &&& b.parent_of(c) == Some(p)
        } by {
            assert(b.node_at(p).same_shape(&a.node_at(p)));
            let c = a.children_of(p)[j];
            assert(b.node_at(c).same_shape(&a.node_at(c)));
        }
        assert forall|p: usize| p < b.size() implies (#[trigger] b.children_of(p)).no_duplicates() by {
            assert(b.node_at(p).same_shape(&a.node_at(p)));
        }
        assert forall|i: usize| i < b.size() && !(#[trigger] b.node_at(i)).is_alive() implies {
            &&& b.children_of(i).len() == 0
            &&& b.parent_of(i) is None
        } by {
            assert(b.node_at(i).same_shape(&a.node_at(i)));
        }
    }

    /// Gives back a shared guard.
    pub fn release(&mut self, guard: ForestNodeRef)
        requires
            old(self).wf(),
            old(self).guarded(),
            guard.forest() == old(self).id(),
        ensures
            final(self).wf(),
            final(self).ctx().count() == old(self).ctx().count() - 1,
            final(self).ctx().is_exclusive() == (old(self).ctx().is_exclusive() && final(self).ctx().count() > 0),
            old(self).same_structure(final(self)),
    {
        self.context.release();
        proof {
            assert forall|k: usize| k < self.size() implies (#[trigger] self.node_at(k)).same_links(&old(self).node_at(k)) by {}
            Self::lemma_same_structure(old(self), self);
            assert forall|k: usize| k < self.size() implies (#[trigger] self.node_at(k)).same_shape(&old(self).node_at(k)) by {}
            Self::lemma_wf_frame(old(self), self);
        }
    }

    /// Gives back an exclusive guard.
    pub fn release_mut(&mut self, guard: ForestNodeRefMut)
        requires
            old(self).wf(),
            old(self).guarded(),
            guard.forest() == old(self).id(),
        ensures
            final(self).wf(),
            final(self).ctx().count() == old(self).ctx().count() - 1,
            final(self).ctx().is_exclusive() == (old(self).ctx().is_exclusive() && final(self).ctx().count() > 0),
            old(self).same_structure(final(self)),
    {
        self.context.release();
        proof {
            assert forall|k: usize| k < self.size() implies (#[trigger] self.node_at(k)).same_links(&old(self).node_at(k)) by {}
            Self::lemma_same_structure(old(self), self);
            assert forall|k: usize| k < self.size() implies (#[trigger] self.node_at(k)).same_shape(&old(self).node_at(k)) by {}
            Self::lemma_wf_frame(old(self), self);
        }
    }
}

} // verus!

verus! {

impl<T: ForestNodeContent> Forest<T> {
    /// Adds a live, unattached node that one strong handle holds.
    fn push_node(&mut self, content: T) -> (r: ForestNodeRc)
        requires
            old(self).wf(),
            old(self).size() < usize::MAX,
        ensures
            final(self).wf(),
            final(self).id() == old(self).id(),
            final(self).ctx() == old(self).ctx(),
            final(self).size() == old(self).size() + 1,
            r.forest() == old(self).id(),
            r.index() == old(self).size(),
            final(self).live(r.index()),
            final(self).strong_of(r.index()) == 1,
            final(self).parent_of(r.index()) is None,
            final(self).children_of(r.index()).len() == 0,
            forall|k: usize| k < old(self).size() ==> #[trigger] final(self).node_at(k) == old(self).node_at(k),
    {
        let index = self.nodes.len();
        let mut content = content;
        content.associate_node(ForestNodeSelf::new(ForestNodeWeak::make(self.id, index), index));
        let node = ForestNode {
            forest: self.id,
            index,
            alive: true,
            strong: 1,
            parent: None,
            children: Vec::new(),
            content,
        };
        self.nodes.push(node);
        proof {
            let a = old(self);
            assert forall|k: usize| k < a.size() implies #[trigger] self.node_at(k) == a.node_at(k) by {}
            assert forall|i: usize| i < self.size() && #[trigger] self.parent_of(i) is Some implies {
                let p = self.parent_of(i)->0;
                &&& self.live(p)
                &&& self.children_of(p).contains(i)
            } by {
                assert(self.node_at(i) == a.node_at(i));
                let p = self.parent_of(i)->0;
                assert(self.node_at(p) == a.node_at(p));
            }
            assert forall|p: usize, j: int| p < self.size() && 0 <= j < self.children_of(p).len() implies {
                let c = #[trigger] self.children_of(p)[j];
                &&& c < self.size()
                &&& self.parent_of(c) == Some(p)
            } by {
                assert(self.node_at(p) == a.node_at(p));
                let c = a.children_of(p)[j];
                assert(self.node_at(c) == a.node_at(c));
            }
            assert forall|p: usize| p < self.size() implies (#[trigger] self.children_of(p)).no_duplicates() by {
                if p < a.size() {
                    assert(self.node_at(p) == a.node_at(p));
                }
            }
        }
        ForestNodeRc::make(self.id, index)
    }
}

impl ForestNodeRc {
    /// Creates a node in `forest`. Creating takes the exclusive slot for a moment,
    /// so no guard of the forest may be out.
    pub fn new<T: ForestNodeContent>(forest: &mut Forest<T>, content: T) -> (r: ForestNodeRc)
        requires
            old(forest).wf(),
            old(forest).ctx().count() == 0,
            old(forest).size() < usize::MAX,
        ensures
            final(forest).wf(),
            final(forest).id() == old(forest).id(),
            final(forest).ctx() == old(forest).ctx(),
            final(forest).size() == old(forest).size() + 1,
            r.forest() == old(forest).id(),
            r.index() == old(forest).size(),
            final(forest).live(r.index()),
            final(forest).strong_of(r.index()) == 1,
            final(forest).parent_of(r.index()) is None,
            final(forest).children_of(r.index()).len() == 0,
            forall|k: usize| k < old(forest).size() ==> #[trigger] final(forest).node_at(k) == old(forest).node_at(k),
    {
        forest.push_node(content)
    }

    /// Takes a shared guard on the forest; no exclusive guard may be out.
    pub fn borrow<T: ForestNodeContent>(&self, forest: &mut Forest<T>) -> (r: ForestNodeRef)
        requires
            old(forest).wf(),
            old(forest).owns(self),
            old(forest).ctx().can_share(),
        ensures
            final(forest).wf(),
            final(forest).ctx().count() == old(forest).ctx().count() + 1,
            !final(forest).ctx().is_exclusive(),
            old(forest).same_structure(final(forest)),
            r.forest() == self.forest(),
            r.index() == self.index(),
    {
        forest.context.borrow();
        proof {
            assert forall|k: usize| k < forest.size() implies (#[trigger] forest.node_at(k)).same_links(&old(forest).node_at(k)) by {}
            Forest::lemma_same_structure(old(forest), forest);
            assert forall|k: usize| k < forest.size() implies (#[trigger] forest.node_at(k)).same_shape(&old(forest).node_at(k)) by {}
            Forest::lemma_wf_frame(old(forest), forest);
        }
        ForestNodeRef::make(self.forest_id(), self.slot())
    }

    /// Takes a shared guard on the forest, or reports a conflict where an exclusive
    /// guard is out.
    pub fn try_borrow<T: ForestNodeContent>(&self, forest: &mut Forest<T>) -> (r: Result<ForestNodeRef, AccessConflict>)
        requires
            old(forest).wf(),
            old(forest).owns(self),
            old(forest).ctx().count() < usize::MAX,
        ensures
            final(forest).wf(),
            old(forest).same_structure(final(forest)),
            r is Ok == !old(forest).ctx().is_exclusive(),
            r is Ok ==> {
                &&& final(forest).ctx().count() == old(forest).ctx().count() + 1
                &&& !final(forest).ctx().is_exclusive()
                &&& r->Ok_0.forest() == self.forest()
                &&& r->Ok_0.index() == self.index()
            },
            r is Err ==> final(forest).ctx() == old(forest).ctx(),
    {
        let res = forest.context.try_borrow();
        proof {
            assert forall|k: usize| k < forest.size() implies (#[trigger] forest.node_at(k)).same_links(&old(forest).node_at(k)) by {}
            Forest::lemma_same_structure(old(forest), forest);
            assert forall|k: usize| k < forest.size() implies (#[trigger] forest.node_at(k)).same_shape(&old(forest).node_at(k)) by {}
            Forest::lemma_wf_frame(old(forest), forest);
        }
        match res {
            Ok(()) => Ok(ForestNodeRef::make(self.forest_id(), self.slot())),
            Err(e) => Err(e),
        }
    }

    /// Takes the exclusive guard on the forest; no guard may be out.
    pub fn borrow_mut<T: ForestNodeContent>(&self, forest: &mut Forest<T>) -> (r: ForestNodeRefMut)
        requires
            old(forest).wf(),
            old(forest).owns(self),
            old(forest).ctx().can_exclude(),
        ensures
            final(forest).wf(),
            final(forest).ctx().count() == 1,
            final(forest).ctx().is_exclusive(),
            old(forest).same_structure(final(forest)),
            r.forest() == self.forest(),
            r.index() == self.index(),
    {
        forest.context.borrow_mut();
        proof {
            assert forall|k: usize| k < forest.size() implies (#[trigger] forest.node_at(k)).same_links(&old(forest).node_at(k)) by {}
            Forest::lemma_same_structure(old(forest), forest);
            assert forall|k: usize| k < forest.size() implies (#[trigger] forest.node_at(k)).same_shape(&old(forest).node_at(k)) by {}
            Forest::lemma_wf_frame(old(forest), forest);
        }
        ForestNodeRefMut::make(self.forest_id(), self.slot())
    }

    /// Takes the exclusive guard on the forest, or reports a conflict where any
    /// guard is out.
    pub fn try_borrow_mut<T: ForestNodeContent>(&self, forest: &mut Forest<T>) -> (r: Result<ForestNodeRefMut, AccessConflict>)
        requires
            old(forest).wf(),
            old(forest).owns(self),
        ensures
            final(forest).wf(),
            old(forest).same_structure(final(forest)),
            r is Ok == (old(forest).ctx().count() == 0),
            r is Ok ==> {
                &&& final(forest).ctx().count() == 1
                &&& final(forest).ctx().is_exclusive()
                &&& r->Ok_0.forest() == self.forest()
                &&& r->Ok_0.index() == self.index()
            },
            r is Err ==> final(forest).ctx() == old(forest).ctx(),
    {
        let res = forest.context.try_borrow_mut();
        proof {
            assert forall|k: usize| k < forest.size() implies (#[trigger] forest.node_at(k)).same_links(&old(forest).node_at(k)) by {}
            Forest::lemma_same_structure(old(forest), forest);
            assert forall|k: usize| k < forest.size() implies (#[trigger] forest.node_at(k)).same_shape(&old(forest).node_at(k)) by {}
            Forest::lemma_wf_frame(old(forest), forest);
        }
        match res {
            Ok(()) => Ok(ForestNodeRefMut::make(self.forest_id(), self.slot())),
            Err(e) => Err(e),
        }
    }
}

} // verus!

verus! {

impl<T: ForestNodeContent> Forest<T> {
    /// `other` has the identity, arbitration state, slots, liveness, strong counts
    /// and payloads of `self`; links may differ.
    pub open spec fn frame(&self, other: &Self) -> bool {
        &&& other.id() == self.id()
        &&& other.ctx() == self.ctx()
        &&& other.size() == self.size()
        &&& forall|k: usize| k < self.size() ==> #[trigger] other.live(k) == self.live(k)
        &&& forall|k: usize| k < self.size() ==> #[trigger] other.strong_of(k) == self.strong_of(k)
        &&& forall|k: usize| k < self.size() ==> #[trigger] other.node_at(k).payload() == self.node_at(k).payload()
    }

    /// Takes node `c` out of its parent's children and clears its parent link.
    #[verifier::rlimit(40)]
    fn detach(&mut self, c: usize)
        requires
            old(self).wf(),
            c < old(self).size(),
        ensures
            final(self).wf(),
            old(self).frame(final(self)),
            final(self).parent_of(c) is None,
            forall|k: usize| k < old(self).size() && k != c ==> #[trigger] final(self).parent_of(k) == old(self).parent_of(k),
            forall|k: usize| k < old(self).size() ==> #[trigger] final(self).children_of(k) == if old(self).parent_of(c) == Some(k) {
                without(old(self).children_of(k), c)
            } else {
                old(self).children_of(k)
            },
            forall|x: usize| x < final(self).size() ==> !(#[trigger] final(self).children_of(x)).contains(c),
    {
        let ghost a = *old(self);
        match self.nodes[c].parent {
            None => {
                proof {
                    assert forall|x: usize| x < self.size() implies !(#[trigger] self.children_of(x)).contains(c) by {
                        if self.children_of(x).contains(c) {
                            let j = choose|j: int| 0 <= j < self.children_of(x).len() && self.children_of(x)[j] == c;
                            assert(self.parent_of(self.children_of(x)[j]) == Some(x));
                        }
                    }
                }
            },
            Some(q) => {
                let kids = without_exec(&self.nodes[q].children, c);
                self.nodes[q].children = kids;
                self.nodes[c].parent = None;
                proof {
                    lemma_without_contains(a.children_of(q), c);
                    lemma_without_no_duplicates(a.children_of(q), c);
                    assert(a.parent_of(c) is Some);
                    assert forall|i: usize| i < self.size() implies {
                        &&& #[trigger] self.node_at(i).index() == i
                        &&& self.node_at(i).forest() == self.id()
                    } by {
                        assert(a.node_at(i).index() == i);
                    }
                    assert forall|i: usize| i < self.size() && !(#[trigger] self.node_at(i)).is_alive() implies {
                        &&& self.children_of(i).len() == 0
                        &&& self.parent_of(i) is None
                    } by {
                        assert(!a.node_at(i).is_alive());
                    }

                    assert(self.children_of(q) == without(a.children_of(q), c));
                    assert forall|k: usize| k < self.size() implies #[trigger] self.live(k) == a.live(k) by {}
                    assert forall|k: usize| k < self.size() implies #[trigger] self.strong_of(k) == a.strong_of(k) by {}
                    assert forall|k: usize| k < self.size() implies #[trigger] self.node_at(k).payload() == a.node_at(k).payload() by {}
                    assert forall|i: usize| i < self.size() && #[trigger] self.parent_of(i) is Some implies {
                        let p = self.parent_of(i)->0;
                        &&& self.live(p)
                        &&& self.children_of(p).contains(i)
                    } by {
                        let p = self.parent_of(i)->0;
                        assert(a.parent_of(i) == Some(p));
                        if p == q {
                            assert(without(a.children_of(q), c).contains(i));
                        }
                    }
                    assert forall|p: usize, j: int| p < self.size() && 0 <= j < self.children_of(p).len() implies {
                        let x = #[trigger] self.children_of(p)[j];
                        &&& x < self.size()
                        &&& self.parent_of(x) == Some(p)
                    } by {
                        let x = self.children_of(p)[j];
                        if p == q {
                            assert(self.children_of(q).contains(x));
                            assert(without(a.children_of(q), c).contains(x));
                            assert(a.children_of(q).contains(x));
                            let m = choose|m: int| 0 <= m < a.children_of(q).len() && a.children_of(q)[m] == x;
                            assert(a.parent_of(a.children_of(q)[m]) == Some(q));
                        } else {
                            assert(self.children_of(p) == a.children_of(p));
                            assert(a.children_of(p)[j] == x);
                            assert(a.parent_of(x) == Some(p));
                        }
                    }
                    assert forall|p: usize| p < self.size() implies (#[trigger] self.children_of(p)).no_duplicates() by {
                        assert(a.children_of(p).no_duplicates());
                        if p != q {
                            assert(self.children_of(p) == a.children_of(p));
                        }
                    }
                    assert forall|x: usize| x < self.size() implies !(#[trigger] self.children_of(x)).contains(c) by {
                        if self.children_of(x).contains(c) {
                            let j = choose|j: int| 0 <= j < self.children_of(x).len() && self.children_of(x)[j] == c;
                            assert(self.parent_of(self.children_of(x)[j]) == Some(x));
                        }
                    }
                    assert forall|k: usize| k < self.size() implies #[trigger] self.children_of(k) == if a.parent_of(c) == Some(k) {
                        without(a.children_of(k), c)
                    } else {
                        a.children_of(k)
                    } by {}
                    assert(self.ctx().wf());
                    assert(self.wf());
                }
            },
        }
    }

    /// Lists the unattached node `c` among the children of `p` at `pos`.
    fn attach_at(&mut self, p: usize, c: usize, pos: usize)
        requires
            old(self).wf(),
            old(self).live(p),
            old(self).live(c),
            old(self).parent_of(c) is None,
            forall|x: usize| x < old(self).size() ==> !(#[trigger] old(self).children_of(x)).contains(c),
            pos <= old(self).children_of(p).len(),
        ensures
            final(self).wf(),
            old(self).frame(final(self)),
            final(self).parent_of(c) == Some(p),
            forall|k: usize| k < old(self).size() && k != c ==> #[trigger] final(self).parent_of(k) == old(self).parent_of(k),
            forall|k: usize| k < old(self).size() ==> #[trigger] final(self).children_of(k) == if k == p {
                old(self).children_of(p).insert(pos as int, c)
            } else {
                old(self).children_of(k)
            },
    {
        let ghost a = *old(self);
        self.nodes[p].children.insert(pos, c);
        self.nodes[c].parent = Some(p);
        proof {
            let s = a.children_of(p);
            assert(self.children_of(p) == s.insert(pos as int, c));
            assert forall|i: usize| i < self.size() implies {
                &&& #[trigger] self.node_at(i).index() == i
                &&& self.node_at(i).forest() == self.id()
            } by {
                assert(a.node_at(i).index() == i);
            }
            assert forall|i: usize| i < self.size() && !(#[trigger] self.node_at(i)).is_alive() implies {
                &&& self.children_of(i).len() == 0
                &&& self.parent_of(i) is None
            } by {
                assert(!a.node_at(i).is_alive());
            }
            assert forall|y: usize| #[trigger] self.children_of(p).contains(y) == (s.contains(y) || y == c) by {
                let t = s.insert(pos as int, c);
                if t.contains(y) {
                    let j = choose|j: int| 0 <= j < t.len() && t[j] == y;
                    if j < pos {
                        assert(s[j] == y);
                    } else if j > pos {
                        assert(s[j - 1] == y);
                    }
                }
                if s.contains(y) {
                    let j = choose|j: int| 0 <= j < s.len() && s[j] == y;
                    if j < pos {
                        assert(t[j] == y);
                    } else {
                        assert(t[j + 1] == y);
                    }
                }
                if y == c {
                    assert(t[pos as int] == c);
                }
            }
            assert forall|k: usize| k < self.size() implies #[trigger] self.live(k) == a.live(k) by {}
            assert forall|k: usize| k < self.size() implies #[trigger] self.strong_of(k) == a.strong_of(k) by {}
            assert forall|k: usize| k < self.size() implies #[trigger] self.node_at(k).payload() == a.node_at(k).payload() by {}
            assert forall|i: usize| i < self.size() && #[trigger] self.parent_of(i) is Some implies {
                let q = self.parent_of(i)->0;
                &&& self.live(q)
                &&& self.children_of(q).contains(i)
            } by {
                if i != c {
                    let q = self.parent_of(i)->0;
                    assert(a.parent_of(i) == Some(q));
                }
            }
            assert forall|q: usize, j: int| q < self.size() && 0 <= j < self.children_of(q).len() implies {
                let x = #[trigger] self.children_of(q)[j];
                &&& x < self.size()
                &&& self.parent_of(x) == Some(q)
            } by {
                let x = self.children_of(q)[j];
                if q == p {
                    if x != c {
                        assert(self.children_of(p).contains(x));
                        assert(s.contains(x));
                        let m = choose|m: int| 0 <= m < s.len() && s[m] == x;
                        assert(a.parent_of(s[m]) == Some(p));
                    }
                } else {
                    assert(a.children_of(q)[j] == x);
                    assert(a.parent_of(x) == Some(q));
                    assert(x != c) by {
                        assert(a.children_of(q).contains(x));
                    }
                }
            }
            assert forall|q: usize| q < self.size() implies (#[trigger] self.children_of(q)).no_duplicates() by {
                assert(a.children_of(q).no_duplicates());
                if q != p {
                    assert(self.children_of(q) == a.children_of(q));
                }
                if q == p {
                    let t = s.insert(pos as int, c);
                    assert(!s.contains(c));
                    assert forall|i: int, j: int| 0 <= i < j < t.len() implies t[i] != t[j] by {
                        if i != pos && j != pos {
                            let i0 = if i < pos { i } else { i - 1 };
                            let j0 = if j < pos { j } else { j - 1 };
                            assert(t[i] == s[i0] && t[j] == s[j0]);
                        } else if i == pos {
                            let j0 = j - 1;
                            assert(t[j] == s[j0]);
                            assert(s.contains(s[j0]));
                        } else {
                            assert(t[i] == s[i]);
                            assert(s.contains(s[i]));
                        }
                    }
                }
            }
        }
    }

    /// Tells the payload of node `c` that its parent link changed.
    fn notify(&mut self, c: usize)
        requires
            old(self).wf(),
            c < old(self).size(),
        ensures
            final(self).wf(),
            final(self).ctx() == old(self).ctx(),
            old(self).same_structure(final(self)),
            forall|k: usize| k < old(self).size() && k != c ==> #[trigger] final(self).node_at(k) == old(self).node_at(k),
    {
        self.nodes[c].content.parent_node_changed();
        proof {
            assert forall|k: usize| k < self.size() implies (#[trigger] self.node_at(k)).same_links(&old(self).node_at(k)) by {}
            Self::lemma_same_structure(old(self), self);
            assert forall|k: usize| k < self.size() implies (#[trigger] self.node_at(k)).same_shape(&old(self).node_at(k)) by {}
            Self::lemma_wf_frame(old(self), self);
        }
    }
}

} // verus!

verus! {

impl<T: ForestNodeContent> Forest<T> {
    /// Node `c` now sits under `p`, whose children are `kids`; every other link
    /// is as before, but for `c`'s leaving its old parent.
    pub open spec fn moved_under(&self, new: &Self, p: usize, c: usize, kids: Seq<usize>) -> bool {
        &&& new.wf()
        &&& p < self.size()
        &&& c < self.size()
        &&& new.id() == self.id()
        &&& new.ctx() == self.ctx()
        &&& new.size() == self.size()
        &&& forall|k: usize| k < self.size() ==> #[trigger] new.live(k) == self.live(k)
        &&& forall|k: usize| k < self.size() && k != c ==> #[trigger] new.strong_of(k) == self.strong_of(k)
        &&& forall|k: usize| k < self.size() && k != c ==> #[trigger] new.node_at(k).payload() == self.node_at(k).payload()
        &&& new.parent_of(c) == Some(p)
        &&& forall|k: usize| k < self.size() && k != c ==> #[trigger] new.parent_of(k) == self.parent_of(k)
        &&& new.children_of(p) == kids
        &&& forall|k: usize| k < self.size() && k != p ==> #[trigger] new.children_of(k) == if self.parent_of(c) == Some(k) {
            without(self.children_of(k), c)
        } else {
            self.children_of(k)
        }
    }

    /// Sets the count of strong handles outside the tree for node `c`.
    fn set_strong(&mut self, c: usize, n: usize)
        requires
            old(self).wf(),
            c < old(self).size(),
        ensures
            final(self).wf(),
            final(self).id() == old(self).id(),
            final(self).ctx() == old(self).ctx(),
            final(self).size() == old(self).size(),
            final(self).strong_of(c) == n,
            forall|k: usize| k < old(self).size() ==> (#[trigger] final(self).node_at(k)).same_shape(&old(self).node_at(k)),
            forall|k: usize| k < old(self).size() && k != c ==> #[trigger] final(self).node_at(k) == old(self).node_at(k),
            final(self).node_at(c).payload() == old(self).node_at(c).payload(),
            forall|k: usize| k < old(self).size() ==> #[trigger] final(self).live(k) == old(self).live(k),
            forall|k: usize| k < old(self).size() ==> #[trigger] final(self).parent_of(k) == old(self).parent_of(k),
            forall|k: usize| k < old(self).size() ==> #[trigger] final(self).children_of(k) == old(self).children_of(k),
            forall|k: usize| k < old(self).size() && k != c ==> #[trigger] final(self).strong_of(k) == old(self).strong_of(k),
    {
        self.nodes[c].strong = n;
        proof {
            assert forall|k: usize| k < self.size() implies (#[trigger] self.node_at(k)).same_shape(&old(self).node_at(k)) by {}
            Self::lemma_wf_frame(old(self), self);
            assert forall|k: usize| k < self.size() implies #[trigger] self.live(k) == old(self).live(k) by {
                assert(self.node_at(k).same_shape(&old(self).node_at(k)));
            }
            assert forall|k: usize| k < self.size() implies #[trigger] self.parent_of(k) == old(self).parent_of(k) by {
                assert(self.node_at(k).same_shape(&old(self).node_at(k)));
            }
            assert forall|k: usize| k < self.size() implies #[trigger] self.children_of(k) == old(self).children_of(k) by {
                assert(self.node_at(k).same_shape(&old(self).node_at(k)));
            }
        }
    }

    /// How many strong handles outside the tree hold node `c`.
    pub fn strong_count(&self, c: usize) -> (r: usize)
        requires
            c < self.size(),
        ensures
            r == self.strong_of(c),
    {
        self.nodes[c].strong
    }

    fn child_at(&self, p: usize, j: usize) -> (r: usize)
        requires
            p < self.size(),
            j < self.children_of(p).len(),
        ensures
            r == self.children_of(p)[j as int],
    {
        self.nodes[p].children[j]
    }

    fn child_count(&self, p: usize) -> (r: usize)
        requires
            p < self.size(),
        ensures
            r == self.children_of(p).len(),
    {
        self.nodes[p].children.len()
    }

    /// Moves node `c` under `p` at `pos`, or at the end where `pos` runs past the
    /// children that remain once `c` has left its old place.
    fn move_under(&mut self, p: usize, c: usize, pos: usize)
        requires
            old(self).wf(),
            old(self).live(p),
            old(self).live(c),
        ensures
            ({
                let w = without(old(self).children_of(p), c);
                let at = if pos <= w.len() { pos as int } else { w.len() as int };
                old(self).moved_under(final(self), p, c, w.insert(at, c))
            }),
            final(self).strong_of(c) == old(self).strong_of(c),
            final(self).node_at(c).payload() == old(self).node_at(c).payload(),
    {
        let ghost a = *old(self);
        self.detach(c);
        let ghost b = *self;
        let len = self.child_count(p);
        let at = if pos <= len { pos } else { len };
        self.attach_at(p, c, at);
        proof {
            if a.parent_of(c) != Some(p) {
                assert(!a.children_of(p).contains(c)) by {
                    if a.children_of(p).contains(c) {
                        let j = choose|j: int| 0 <= j < a.children_of(p).len() && a.children_of(p)[j] == c;
                        assert(a.parent_of(a.children_of(p)[j]) == Some(p));
                    }
                }
                lemma_without_absent(a.children_of(p), c);
            }
            assert(b.children_of(p) == without(a.children_of(p), c));
            assert forall|k: usize| k < a.size() && k != p implies #[trigger] self.children_of(k) == if a.parent_of(c) == Some(k) {
                without(a.children_of(k), c)
            } else {
                a.children_of(k)
            } by {
                assert(self.children_of(k) == b.children_of(k));
            }
            assert forall|k: usize| k < a.size() && k != c implies #[trigger] self.parent_of(k) == a.parent_of(k) by {
                assert(self.parent_of(k) == b.parent_of(k));
            }
            assert forall|k: usize| k < a.size() implies #[trigger] self.live(k) == a.live(k) by {
                assert(self.live(k) == b.live(k));
            }
            assert forall|k: usize| k < a.size() && k != c implies #[trigger] self.strong_of(k) == a.strong_of(k) by {
                assert(self.strong_of(k) == b.strong_of(k));
            }
            assert forall|k: usize| k < a.size() && k != c implies #[trigger] self.node_at(k).payload() == a.node_at(k).payload() by {
                assert(self.node_at(k).payload() == b.node_at(k).payload());
            }
            assert(self.strong_of(c) == b.strong_of(c));
            assert(self.node_at(c).payload() == b.node_at(c).payload());
        }
    }

    /// A change of strong counts and payloads alone keeps a move a move.
    proof fn lemma_moved_frame(a: &Self, b: &Self, b2: &Self, p: usize, c: usize, kids: Seq<usize>)
        requires
            a.moved_under(b, p, c, kids),
            b2.ctx().wf(),
            b2.id() == b.id(),
            b2.ctx() == b.ctx(),
            b2.size() == b.size(),
            forall|k: usize| k < b.size() ==> (#[trigger] b2.node_at(k)).same_shape(&b.node_at(k)),
            forall|k: usize| k < b.size() && k != c ==> #[trigger] b2.node_at(k) == b.node_at(k),
        ensures
            a.moved_under(b2, p, c, kids),
    {
        Self::lemma_wf_frame(b, b2);
        assert forall|k: usize| k < a.size() implies #[trigger] b2.live(k) == a.live(k) by {
            assert(b2.node_at(k).same_shape(&b.node_at(k)));
            assert(b.live(k) == a.live(k));
        }
        assert forall|k: usize| k < a.size() && k != c implies #[trigger] b2.strong_of(k) == a.strong_of(k) by {
            assert(b2.node_at(k) == b.node_at(k));
            assert(b.strong_of(k) == a.strong_of(k));
        }
        assert forall|k: usize| k < a.size() && k != c implies #[trigger] b2.node_at(k).payload() == a.node_at(k).payload() by {
            assert(b2.node_at(k) == b.node_at(k));
        }
        assert forall|k: usize| k < a.size() && k != c implies #[trigger] b2.parent_of(k) == a.parent_of(k) by {
            assert(b2.node_at(k).same_shape(&b.node_at(k)));
        }
        assert forall|k: usize| k < a.size() && k != p implies #[trigger] b2.children_of(k) == if a.parent_of(c) == Some(k) {
            without(a.children_of(k), c)
        } else {
            a.children_of(k)
        } by {
            assert(b2.node_at(k).same_shape(&b.node_at(k)));
        }
        assert(b2.node_at(c).same_shape(&b.node_at(c)));
        assert(b2.node_at(p).same_shape(&b.node_at(p)));
    }
}

impl<T: ForestNodeContent> ForestNode<T> {
    /// Moves `child` to the end of `node`'s children. The child first leaves its old
    /// parent, so it is never listed twice; appending a child to its own parent
    /// makes it the last child. The handle passes to the parent.
    pub fn append(forest: &mut Forest<T>, node: &ForestNodeRc, child: ForestNodeRc)
        requires
            old(forest).wf(),
            old(forest).guarded_mut(),
            old(forest).owns(node),
            old(forest).owns(&child),
        ensures
            old(forest).moved_under(final(forest), node.index(), child.index(),
                without(old(forest).children_of(node.index()), child.index()).push(child.index())),
            final(forest).strong_of(child.index()) == if old(forest).strong_of(child.index()) > 0 {
                old(forest).strong_of(child.index()) - 1
            } else {
                0
            },
    {
        let p = node.slot();
        let c = child.slot();
        let len = forest.child_count(p);
        forest.move_under(p, c, len);
        proof {
            let w = without(old(forest).children_of(p), c);
            lemma_without_contains(old(forest).children_of(p), c);
            assert(w.insert(w.len() as int, c) =~= w.push(c));
        }
        let ghost kids = forest.children_of(p);
        let ghost mid = *forest;
        let n = forest.strong_count(c);
        if n > 0 {
            forest.set_strong(c, n - 1);
        }
        proof {
            Forest::lemma_moved_frame(old(forest), &mid, forest, p, c, kids);
        }
        let ghost mid2 = *forest;
        forest.notify(c);
        proof {
            assert forall|k: usize| k < forest.size() implies (#[trigger] forest.node_at(k)).same_shape(&mid2.node_at(k)) by {
                assert(forest.node_at(k).same_links(&mid2.node_at(k)));
            }
            Forest::lemma_moved_frame(old(forest), &mid2, forest, p, c, kids);
            assert(forest.node_at(c).same_links(&mid2.node_at(c)));
        }
    }

    /// Moves `child` under `node` at `position`, as `append` does; where the child
    /// was already a child of `node` and `position` runs past the children that
    /// remain, it goes last.
    pub fn insert(forest: &mut Forest<T>, node: &ForestNodeRc, child: ForestNodeRc, position: usize)
        requires
            old(forest).wf(),
            old(forest).guarded_mut(),
            old(forest).owns(node),
            old(forest).owns(&child),
            position <= old(forest).children_of(node.index()).len(),
        ensures
            ({
                let w = without(old(forest).children_of(node.index()), child.index());
                let at = if position <= w.len() { position as int } else { w.len() as int };
                old(forest).moved_under(final(forest), node.index(), child.index(), w.insert(at, child.index()))
            }),
            final(forest).strong_of(child.index()) == if old(forest).strong_of(child.index()) > 0 {
                old(forest).strong_of(child.index()) - 1
            } else {
                0
            },
    {
        let p = node.slot();
        let c = child.slot();
        forest.move_under(p, c, position);
        let ghost kids = forest.children_of(p);
        let ghost mid = *forest;
        let n = forest.strong_count(c);
        if n > 0 {
            forest.set_strong(c, n - 1);
        }
        proof {
            Forest::lemma_moved_frame(old(forest), &mid, forest, p, c, kids);
        }
        let ghost mid2 = *forest;
        forest.notify(c);
        proof {
            assert forall|k: usize| k < forest.size() implies (#[trigger] forest.node_at(k)).same_shape(&mid2.node_at(k)) by {
                assert(forest.node_at(k).same_links(&mid2.node_at(k)));
            }
            Forest::lemma_moved_frame(old(forest), &mid2, forest, p, c, kids);
            assert(forest.node_at(c).same_links(&mid2.node_at(c)));
        }
    }
}

} // verus!

verus! {

impl<T: ForestNodeContent> Forest<T> {
    /// Node `c` has left its parent and sits nowhere; every other link is as before.
    pub open spec fn taken_out(&self, new: &Self, c: usize) -> bool {
        &&& new.wf()
        &&& c < self.size()
        &&& new.id() == self.id()
        &&& new.ctx() == self.ctx()
        &&& new.size() == self.size()
        &&& forall|k: usize| k < self.size() ==> #[trigger] new.live(k) == self.live(k)
        &&& forall|k: usize| k < self.size() && k != c ==> #[trigger] new.strong_of(k) == self.strong_of(k)
        &&& forall|k: usize| k < self.size() && k != c ==> #[trigger] new.node_at(k).payload() == self.node_at(k).payload()
        &&& new.parent_of(c) is None
        &&& forall|k: usize| k < self.size() && k != c ==> #[trigger] new.parent_of(k) == self.parent_of(k)
        &&& forall|k: usize| k < self.size() ==> #[trigger] new.children_of(k) == if self.parent_of(c) == Some(k) {
            without(self.children_of(k), c)
        } else {
            self.children_of(k)
        }
    }

    /// A change of strong counts and payloads alone keeps a removal a removal.
    proof fn lemma_taken_frame(a: &Self, b: &Self, b2: &Self, c: usize)
        requires
            a.taken_out(b, c),
            b2.ctx().wf(),
            b2.id() == b.id(),
            b2.ctx() == b.ctx(),
            b2.size() == b.size(),
            forall|k: usize| k < b.size() ==> (#[trigger] b2.node_at(k)).same_shape(&b.node_at(k)),
            forall|k: usize| k < b.size() && k != c ==> #[trigger] b2.node_at(k) == b.node_at(k),
        ensures
            a.taken_out(b2, c),
    {
        Self::lemma_wf_frame(b, b2);
        assert forall|k: usize| k < a.size() implies #[trigger] b2.live(k) == a.live(k) by {
            assert(b2.node_at(k).same_shape(&b.node_at(k)));
            assert(b.live(k) == a.live(k));
        }
        assert forall|k: usize| k < a.size() && k != c implies #[trigger] b2.strong_of(k) == a.strong_of(k) by {
            assert(b2.node_at(k) == b.node_at(k));
            assert(b.strong_of(k) == a.strong_of(k));
        }
        assert forall|k: usize| k < a.size() && k != c implies #[trigger] b2.node_at(k).payload() == a.node_at(k).payload() by {
            assert(b2.node_at(k) == b.node_at(k));
        }
        assert forall|k: usize| k < a.size() && k != c implies #[trigger] b2.parent_of(k) == a.parent_of(k) by {
            assert(b2.node_at(k).same_shape(&b.node_at(k)));
        }
        assert forall|k: usize| k < a.size() implies #[trigger] b2.children_of(k) == if a.parent_of(c) == Some(k) {
            without(a.children_of(k), c)
        } else {
            a.children_of(k)
        } by {
            assert(b2.node_at(k).same_shape(&b.node_at(k)));
        }
        assert(b2.node_at(c).same_shape(&b.node_at(c)));
    }
}

impl<T: ForestNodeContent> ForestNode<T> {
    /// Takes the child at `position` out of `node`'s children, clears its parent
    /// link, and hands its handle to the caller.
    pub fn remove(forest: &mut Forest<T>, node: &ForestNodeRc, position: usize) -> (r: ForestNodeRc)
        requires
            old(forest).wf(),
            old(forest).guarded_mut(),
            old(forest).owns(node),
            position < old(forest).children_of(node.index()).len(),
            old(forest).strong_of(old(forest).children_of(node.index())[position as int]) < usize::MAX,
        ensures
            r.index() == old(forest).children_of(node.index())[position as int],
            r.forest() == old(forest).id(),
            old(forest).taken_out(final(forest), r.index()),
            final(forest).children_of(node.index()) == old(forest).children_of(node.index()).remove(position as int),
            final(forest).strong_of(r.index()) == old(forest).strong_of(r.index()) + 1,
    {
        let p = node.slot();
        let c = forest.child_at(p, position);
        proof {
            assert(old(forest).parent_of(old(forest).children_of(p)[position as int]) == Some(p));
            lemma_without_unique(old(forest).children_of(p), c, position as int);
        }
        forest.detach(c);
        proof {
            let a = old(forest);
            assert forall|k: usize| k < a.size() && k != c implies #[trigger] forest.strong_of(k) == a.strong_of(k) by {}
            assert forall|k: usize| k < a.size() && k != c implies #[trigger] forest.node_at(k).payload() == a.node_at(k).payload() by {}
            assert(forest.children_of(p) == a.children_of(p).remove(position as int));
        }
        let ghost mid = *forest;
        let n = forest.strong_count(c);
        forest.set_strong(c, n + 1);
        proof {
            Forest::lemma_taken_frame(old(forest), &mid, forest, c);
        }
        let ghost mid2 = *forest;
        forest.notify(c);
        proof {
            assert forall|k: usize| k < forest.size() implies (#[trigger] forest.node_at(k)).same_shape(&mid2.node_at(k)) by {
                assert(forest.node_at(k).same_links(&mid2.node_at(k)));
            }
            Forest::lemma_taken_frame(old(forest), &mid2, forest, c);
            assert(forest.node_at(c).same_links(&mid2.node_at(c)));
            assert(forest.node_at(p).same_links(&mid2.node_at(p)));
        }
        ForestNodeRc::make(forest.id, c)
    }

    /// Puts `new_child` in place of the child at `position` and hands the replaced
    /// child's handle to the caller. The replaced child is taken out first, then
    /// `new_child` is moved in as `insert` moves it.
    pub fn replace(forest: &mut Forest<T>, node: &ForestNodeRc, new_child: ForestNodeRc, position: usize) -> (r: ForestNodeRc)
        requires
            old(forest).wf(),
            old(forest).guarded_mut(),
            old(forest).owns(node),
            old(forest).owns(&new_child),
            position < old(forest).children_of(node.index()).len(),
            old(forest).strong_of(old(forest).children_of(node.index())[position as int]) < usize::MAX,
        ensures
            final(forest).wf(),
            final(forest).id() == old(forest).id(),
            final(forest).ctx() == old(forest).ctx(),
            final(forest).size() == old(forest).size(),
            forall|k: usize| k < old(forest).size() ==> #[trigger] final(forest).live(k) == old(forest).live(k),
            r.index() == old(forest).children_of(node.index())[position as int],
            r.forest() == old(forest).id(),
            ({
                let s = old(forest).children_of(node.index()).remove(position as int);
                let w = without(s, new_child.index());
                let at = if position <= w.len() { position as int } else { w.len() as int };
                final(forest).children_of(node.index()) == w.insert(at, new_child.index())
            }),
            final(forest).parent_of(new_child.index()) == Some(node.index()),
            r.index() != new_child.index() ==> final(forest).parent_of(r.index()) is None,
    {
        let old_child = Self::remove(forest, node, position);
        let ghost mid = *forest;
        Self::insert(forest, node, new_child, position);
        proof {
            let c0 = old_child.index();
            let n = new_child.index();
            assert(mid.live(n) == old(forest).live(n));
            assert(mid.live(node.index()) == old(forest).live(node.index()));
            assert forall|k: usize| k < old(forest).size() implies #[trigger] forest.live(k) == old(forest).live(k) by {
                assert(mid.live(k) == old(forest).live(k));
            }
            if c0 != n {
                assert(forest.parent_of(c0) == mid.parent_of(c0));
            }
        }
        old_child
    }
}

} // verus!

verus! {

impl<T: ForestNodeContent> Forest<T> {
    /// The nodes in `ins` are distinct and none of them is a child of `p` yet: the
    /// case where a splice lays them down exactly as given.
    pub open spec fn fresh_for(&self, p: usize, ins: Seq<usize>) -> bool {
        &&& ins.no_duplicates()
        &&& forall|k: int| 0 <= k < ins.len() ==> !self.children_of(p).contains(#[trigger] ins[k])
    }
}

/// The slots that a sequence of strong handles names.
pub open spec fn slots_of(hs: Seq<ForestNodeRc>) -> Seq<usize> {
    hs.map_values(|h: ForestNodeRc| h.index())
}

impl<T: ForestNodeContent> ForestNode<T> {
    /// Takes the `removes` children from `position` on out of `node`'s children and
    /// moves the nodes of `inserts` in at their place, in order; returns the handles
    /// of the children taken out, in their old order.
    pub fn splice(forest: &mut Forest<T>, node: &ForestNodeRc, position: usize, removes: usize, inserts: Vec<ForestNodeRc>) -> (r: Vec<ForestNodeRc>)
        requires
            old(forest).wf(),
            old(forest).guarded_mut(),
            old(forest).owns(node),
            position + removes <= old(forest).children_of(node.index()).len(),
            forall|j: int| position <= j < position + removes ==>
                old(forest).strong_of(#[trigger] old(forest).children_of(node.index())[j]) < usize::MAX,
            forall|k: int| 0 <= k < inserts@.len() ==> old(forest).owns(#[trigger] &inserts@[k]),
        ensures
            final(forest).wf(),
            final(forest).id() == old(forest).id(),
            final(forest).ctx() == old(forest).ctx(),
            final(forest).size() == old(forest).size(),
            forall|k: usize| k < old(forest).size() ==> #[trigger] final(forest).live(k) == old(forest).live(k),
            slots_of(r@) == old(forest).children_of(node.index()).subrange(position as int, position + removes),
            forall|k: int| 0 <= k < r@.len() ==> (#[trigger] r@[k]).forest() == old(forest).id(),
            forall|k: int| 0 <= k < inserts@.len() ==> final(forest).parent_of(#[trigger] inserts@[k].index()) == Some(node.index()),
            old(forest).fresh_for(node.index(), slots_of(inserts@)) ==> final(forest).children_of(node.index())
                == old(forest).children_of(node.index()).take(position as int) + slots_of(inserts@)
                    + old(forest).children_of(node.index()).skip(position + removes),
    {
        let p = node.slot();
        let ghost a = *old(forest);
        let ghost s = a.children_of(p);
        let ghost ins = slots_of(inserts@);
        let mut removed: Vec<ForestNodeRc> = Vec::new();
        let mut i: usize = 0;
        while i < removes
            invariant
                forest.wf(),
                forest.guarded_mut(),
                forest.id() == a.id(),
                forest.ctx() == a.ctx(),
                forest.size() == a.size(),
                forall|k: usize| k < a.size() ==> #[trigger] forest.live(k) == a.live(k),
                p == node.index(),
                a.wf(),
                a.owns(node),
                s == a.children_of(p),
                position + removes <= s.len(),
                i <= removes,
                forest.children_of(p) == s.take(position as int) + s.skip(position + i),
                slots_of(removed@) == s.subrange(position as int, position + i),
                forall|k: int| 0 <= k < removed@.len() ==> (#[trigger] removed@[k]).forest() == a.id(),
                forall|j: int| position + i <= j < position + removes ==>
                    forest.strong_of(#[trigger] s[j]) == a.strong_of(s[j]),
                forall|j: int| position <= j < position + removes ==> a.strong_of(#[trigger] s[j]) < usize::MAX,
                s.no_duplicates(),
            decreases removes - i,
        {
            let ghost before = *forest;
            proof {
                assert(forest.children_of(p)[position as int] == s[position + i]);
                assert(forest.strong_of(s[position + i]) == a.strong_of(s[position + i]));
            }
            let h = Self::remove(forest, node, position);
            proof {
                let t = s.take(position as int) + s.skip(position + i);
                assert(t.remove(position as int) =~= s.take(position as int) + s.skip(position + i + 1));
                assert forall|k: usize| k < a.size() implies #[trigger] forest.live(k) == a.live(k) by {
                    assert(before.live(k) == a.live(k));
                }
                assert forall|j: int| position + i + 1 <= j < position + removes implies
                    forest.strong_of(#[trigger] s[j]) == a.strong_of(s[j]) by {
                    assert(s[j] != s[position + i]);
                    assert(a.children_of(p)[j] < a.size());
                    assert(before.strong_of(s[j]) == a.strong_of(s[j]));
                }
            }
            let ghost prev = removed@;
            removed.push(h);
            proof {
                assert(removed@ == prev.push(h));
                assert(slots_of(prev.push(h)) =~= slots_of(prev).push(h.index()));
                assert(slots_of(removed@) =~= s.subrange(position as int, position + i + 1));
            }
            i = i + 1;
        }
        let ghost base = forest.children_of(p);
        let mut k: usize = 0;
        while k < inserts.len()
            invariant
                forest.wf(),
                forest.guarded_mut(),
                forest.id() == a.id(),
                forest.ctx() == a.ctx(),
                forest.size() == a.size(),
                forall|m: usize| m < a.size() ==> #[trigger] forest.live(m) == a.live(m),
                p == node.index(),
                a.wf(),
                a.owns(node),
                s == a.children_of(p),
                ins == slots_of(inserts@),
                base == s.take(position as int) + s.skip(position + removes),
                position + removes <= s.len(),
                position <= base.len(),
                k <= inserts@.len(),
                forall|m: int| 0 <= m < inserts@.len() ==> a.owns(#[trigger] &inserts@[m]),
                forall|m: int| 0 <= m < k ==> forest.parent_of(#[trigger] inserts@[m].index()) == Some(p),
                a.fresh_for(p, ins) ==> forest.children_of(p) == s.take(position as int) + ins.take(k as int)
                    + s.skip(position + removes),
            decreases inserts@.len() - k,
        {
            let ghost before = *forest;
            let c = inserts[k].slot();
            let len = forest.child_count(p);
            let at = if len >= position && k <= len - position { position + k } else { len };
            proof {
                assert(a.owns(&inserts@[k as int]));
                assert(forest.live(c) == a.live(c));
                assert(forest.live(p) == a.live(p));
            }
            Self::insert(forest, node, ForestNodeRc::make(forest.id, c), at);
            proof {
                assert forall|m: usize| m < a.size() implies #[trigger] forest.live(m) == a.live(m) by {
                    assert(before.live(m) == a.live(m));
                }
                assert forall|m: int| 0 <= m < k + 1 implies forest.parent_of(#[trigger] inserts@[m].index()) == Some(p) by {
                    if inserts@[m].index() != c {
                        assert(a.owns(&inserts@[m]));
                        assert(before.parent_of(inserts@[m].index()) == Some(p));
                    }
                }
                if a.fresh_for(p, ins) {
                    let cur = before.children_of(p);
                    let ik = ins.take(k as int);
                    assert(ins[k as int] == c);
                    assert(!cur.contains(c)) by {
                        if cur.contains(c) {
                            let j = choose|j: int| 0 <= j < cur.len() && cur[j] == c;
                            if j < position {
                                assert(s[j] == c);
                                assert(s.contains(c));
                            } else if j < position + k {
                                assert(ik[j - position] == c);
                                assert(ins[j - position] == ins[k as int]);
                            } else {
                                let j2 = j - position - k + position + removes;
                                assert(s[j2] == c);
                                assert(s.contains(c));
                            }
                        }
                    }
                    lemma_without_absent(cur, c);
                    assert(at == position + k);
                    assert(cur.insert(at as int, c) =~= s.take(position as int) + ins.take(k + 1)
                        + s.skip(position + removes));
                }
            }
            k = k + 1;
        }
        proof {
            assert(ins.take(inserts@.len() as int) =~= ins);
        }
        removed
    }
}

} // verus!

verus! {

/// The slots that a sequence of weak handles names.
pub open spec fn weak_slots(hs: Seq<ForestNodeWeak>) -> Seq<usize> {
    hs.map_values(|h: ForestNodeWeak| h.index())
}

impl<T: ForestNodeContent> ForestNode<T> {
    /// The number of children.
    pub fn len(&self) -> (r: usize)
        ensures
            r == self.child_seq().len(),
    {
        self.children.len()
    }

    /// Whether the node has a parent link.
    pub fn has_parent(&self) -> (r: bool)
        ensures
            r == (self.parent_link() is Some),
    {
        self.parent.is_some()
    }

    /// A weak handle to the parent, if there is one. In a well-formed forest the
    /// parent of a node is alive.
    pub fn parent(&self) -> (r: Option<ForestNodeWeak>)
        ensures
            r is Some == (self.parent_link() is Some),
            r is Some ==> r->0.index() == self.parent_link()->0 && r->0.forest() == self.forest(),
    {
        match self.parent {
            None => None,
            Some(p) => Some(ForestNodeWeak::make(self.forest, p)),
        }
    }

    /// A weak handle to the child at `index`, or nothing past the end.
    pub fn child(&self, index: usize) -> (r: Option<ForestNodeWeak>)
        ensures
            r is Some == (index < self.child_seq().len()),
            r is Some ==> r->0.index() == self.child_seq()[index as int] && r->0.forest() == self.forest(),
    {
        if index < self.children.len() {
            Some(ForestNodeWeak::make(self.forest, self.children[index]))
        } else {
            None
        }
    }

    /// Weak handles to the children from `start` up to `end`, a snapshot.
    pub fn children(&self, start: usize, end: usize) -> (r: Vec<ForestNodeWeak>)
        requires
            start <= end <= self.child_seq().len(),
        ensures
            weak_slots(r@) == self.child_seq().subrange(start as int, end as int),
            forall|k: int| 0 <= k < r@.len() ==> (#[trigger] r@[k]).forest() == self.forest(),
    {
        let mut r: Vec<ForestNodeWeak> = Vec::new();
        let mut i: usize = start;
        while i < end
            invariant
                start <= i <= end <= self.child_seq().len(),
                weak_slots(r@) == self.child_seq().subrange(start as int, i as int),
                forall|k: int| 0 <= k < r@.len() ==> (#[trigger] r@[k]).forest() == self.forest(),
            decreases end - i,
        {
            let ghost prev = r@;
            let w = ForestNodeWeak::make(self.forest, self.children[i]);
            r.push(w);
            proof {
                assert(weak_slots(prev.push(w)) =~= weak_slots(prev).push(w.index()));
                assert(weak_slots(r@) =~= self.child_seq().subrange(start as int, i + 1));
            }
            i = i + 1;
        }
        r
    }

    /// Weak handles to all the children, a snapshot.
    pub fn clone_children(&self) -> (r: Vec<ForestNodeWeak>)
        ensures
            weak_slots(r@) == self.child_seq(),
            forall|k: int| 0 <= k < r@.len() ==> (#[trigger] r@[k]).forest() == self.forest(),
    {
        let r = self.children(0, self.children.len());
        proof {
            assert(self.child_seq().subrange(0, self.child_seq().len() as int) =~= self.child_seq());
        }
        r
    }

    /// The children in order, a snapshot taken now: changing the children later
    /// does not change what was handed out.
    pub fn iter(&self) -> (r: Vec<ForestNodeWeak>)
        ensures
            weak_slots(r@) == self.child_seq(),
            forall|k: int| 0 <= k < r@.len() ==> (#[trigger] r@[k]).forest() == self.forest(),
    {
        self.clone_children()
    }

    /// A cursor over the children of this node.
    pub fn iter_children(&self) -> (r: ForestNodeIter)
        ensures
            r.parent() == self.index(),
            r.position() == 0,
    {
        ForestNodeIter { forest: self.forest, parent: self.index, cur: 0 }
    }

    /// A weak handle to the node itself.
    pub fn rc(&self) -> (r: ForestNodeWeak)
        ensures
            r.index() == self.index(),
            r.forest() == self.forest(),
    {
        ForestNodeWeak::make(self.forest, self.index)
    }

    /// The position of `child` among the children, if it is one.
    pub fn find_child_position(&self, child: &ForestNodeRc) -> (r: Option<usize>)
        ensures
            r is None ==> child.forest() != self.forest() || !self.child_seq().contains(child.index()),
            r is Some ==> {
                &&& child.forest() == self.forest()
                &&& r->0 < self.child_seq().len()
                &&& self.child_seq()[r->0 as int] == child.index()
                &&& forall|j: int| 0 <= j < r->0 ==> self.child_seq()[j] != child.index()
            },
    {
        let f = child.forest_id();
        if f != self.forest {
            return None;
        }
        let c = child.slot();
        let mut i: usize = 0;
        while i < self.children.len()
            invariant
                i <= self.child_seq().len(),
                c == child.index(),
                child.forest() == self.forest(),
                forall|j: int| 0 <= j < i ==> self.child_seq()[j] != c,
            decreases self.child_seq().len() - i,
        {
            if self.children[i] == c {
                proof {
                    assert(self.child_seq()[i as int] == child.index());
                    assert(child.forest() == self.forest());
                }
                return Some(i);
            }
            i = i + 1;
        }
        None
    }

    /// The payload.
    pub fn content(&self) -> (r: &T)
        ensures
            *r == self.payload(),
    {
        &self.content
    }

    /// Another node of the same forest, reached under the guard that gave access to
    /// this one. A handle of another forest is refused.
    pub fn another<'a>(&self, forest: &'a Forest<T>, another_rc: &ForestNodeRc) -> (r: &'a ForestNode<T>)
        requires
            forest.wf(),
            forest.guarded(),
            self.forest() == forest.id(),
            another_rc.forest() == self.forest(),
            another_rc.index() < forest.size(),
        ensures
            *r == forest.node_at(another_rc.index()),
    {
        &forest.nodes[another_rc.slot()]
    }
}

/// A cursor over the children of one node. Each step reads the children as they
/// are at that step.
pub struct ForestNodeIter {
    forest: u64,
    parent: usize,
    cur: usize,
}

impl ForestNodeIter {
    pub closed spec fn parent(&self) -> usize {
        self.parent
    }

    pub closed spec fn position(&self) -> usize {
        self.cur
    }

    pub closed spec fn forest(&self) -> u64 {
        self.forest
    }

    /// The next child, or nothing once the cursor has passed the last one.
    pub fn next<T: ForestNodeContent>(&mut self, forest: &Forest<T>) -> (r: Option<ForestNodeWeak>)
        requires
            forest.wf(),
            forest.guarded(),
            old(self).forest() == forest.id(),
            old(self).parent() < forest.size(),
        ensures
            final(self).parent() == old(self).parent(),
            final(self).forest() == old(self).forest(),
            ({
                let s = forest.children_of(old(self).parent());
                if old(self).position() < s.len() {
                    &&& r is Some
                    &&& r->0.index() == s[old(self).position() as int]
                    &&& r->0.forest() == forest.id()
                    &&& final(self).position() == old(self).position() + 1
                } else {
                    &&& r is None
                    &&& final(self).position() == old(self).position()
                }
            }),
    {
        let node = &forest.nodes[self.parent];
        if self.cur < node.children.len() {
            let c = node.children[self.cur];
            self.cur = self.cur + 1;
            Some(ForestNodeWeak::make(forest.id, c))
        } else {
            None
        }
    }
}

impl ForestNodeRc {
    /// The node this handle names, read under a guard of its forest.
    pub fn forest_node<'a, T: ForestNodeContent>(&self, forest: &'a Forest<T>) -> (r: &'a ForestNode<T>)
        requires
            forest.wf(),
            forest.guarded(),
            self.forest() == forest.id(),
            self.index() < forest.size(),
        ensures
            *r == forest.node_at(self.index()),
    {
        &forest.nodes[self.slot()]
    }
}

} // verus!

verus! {

impl<T: ForestNodeContent> Forest<T> {
    /// `new` differs from `self` only in the strong count of node `i`.
    pub open spec fn recounted(&self, new: &Self, i: usize) -> bool {
        &&& new.wf()
        &&& new.id() == self.id()
        &&& new.ctx() == self.ctx()
        &&& new.size() == self.size()
        &&& forall|k: usize| k < self.size() ==> (#[trigger] new.node_at(k)).same_shape(&self.node_at(k))
        &&& forall|k: usize| k < self.size() && k != i ==> #[trigger] new.node_at(k) == self.node_at(k)
        &&& i < self.size() ==> new.node_at(i).payload() == self.node_at(i).payload()
        &&& forall|k: usize| k < self.size() ==> #[trigger] new.live(k) == self.live(k)
        &&& forall|k: usize| k < self.size() ==> #[trigger] new.parent_of(k) == self.parent_of(k)
        &&& forall|k: usize| k < self.size() ==> #[trigger] new.children_of(k) == self.children_of(k)
        &&& forall|k: usize| k < self.size() && k != i ==> #[trigger] new.strong_of(k) == self.strong_of(k)
    }

    /// The ancestor `n` steps above node `i`, if the chain of parents is that long.
    pub open spec fn ancestor_of(&self, i: usize, n: nat) -> Option<usize>
        decreases n,
    {
        if n == 0 {
            Some(i)
        } else {
            match self.ancestor_of(i, (n - 1) as nat) {
                None => None,
                Some(a) => if a < self.size() {
                    self.parent_of(a)
                } else {
                    None
                },
            }
        }
    }
}

impl ForestNodeWeak {
    /// A strong handle to the node, if it is still alive; a node that has gone
    /// never comes back.
    pub fn upgrade<T: ForestNodeContent>(&self, forest: &mut Forest<T>) -> (r: Option<ForestNodeRc>)
        requires
            old(forest).wf(),
            self.forest() == old(forest).id(),
            old(forest).live(self.index()) ==> old(forest).strong_of(self.index()) < usize::MAX,
        ensures
            r is Some == old(forest).live(self.index()),
            r is Some ==> r->0.index() == self.index() && r->0.forest() == self.forest()
                && final(forest).strong_of(self.index()) == old(forest).strong_of(self.index()) + 1,
            r is None ==> *final(forest) == *old(forest),
            old(forest).recounted(final(forest), self.index()),
    {
        let i = self.slot();
        if !forest.is_live(i) {
            proof {
                assert forall|k: usize| k < forest.size() implies (#[trigger] forest.node_at(k)).same_shape(&old(forest).node_at(k)) by {}
            }
            return None;
        }
        let n = forest.strong_count(i);
        forest.set_strong(i, n + 1);
        Some(ForestNodeRc::make(self.forest_id(), i))
    }

    /// Whether two weak handles name the same node: two handles to nodes that have
    /// gone are equal, a gone and a live one are not.
    pub fn ptr_eq<T: ForestNodeContent>(a: &Self, b: &Self, forest: &Forest<T>) -> (r: bool)
        requires
            a.forest() == forest.id(),
            b.forest() == forest.id(),
        ensures
            r == if forest.live(a.index()) && forest.live(b.index()) {
                a.index() == b.index()
            } else {
                !forest.live(a.index()) && !forest.live(b.index())
            },
    {
        let la = forest.is_live(a.slot());
        let lb = forest.is_live(b.slot());
        if la && lb {
            a.slot() == b.slot()
        } else {
            !la && !lb
        }
    }
}

impl ForestNodeRc {
    /// Another strong handle to the same node.
    pub fn clone<T: ForestNodeContent>(&self, forest: &mut Forest<T>) -> (r: ForestNodeRc)
        requires
            old(forest).wf(),
            old(forest).owns(self),
            old(forest).strong_of(self.index()) < usize::MAX,
        ensures
            r.index() == self.index(),
            r.forest() == self.forest(),
            final(forest).strong_of(self.index()) == old(forest).strong_of(self.index()) + 1,
            old(forest).recounted(final(forest), self.index()),
    {
        let i = self.slot();
        let n = forest.strong_count(i);
        forest.set_strong(i, n + 1);
        ForestNodeRc::make(self.forest_id(), i)
    }

    /// Imports a handle from its raw form. Without `need_clone` the raw form's share
    /// of ownership passes to the handle; with it, the raw form keeps its share and
    /// the handle gets a new one.
    pub fn from_ptr<T: ForestNodeContent>(ptr: ForestNodePtr, need_clone: bool, forest: &mut Forest<T>) -> (r: ForestNodeRc)
        requires
            old(forest).wf(),
            ptr.forest() == old(forest).id(),
            ptr.index() < old(forest).size(),
            need_clone ==> old(forest).strong_of(ptr.index()) < usize::MAX,
        ensures
            r.index() == ptr.index(),
            r.forest() == ptr.forest(),
            final(forest).strong_of(ptr.index()) == old(forest).strong_of(ptr.index()) + if need_clone { 1int } else { 0int },
            old(forest).recounted(final(forest), ptr.index()),
    {
        let i = ptr.slot();
        if need_clone {
            let n = forest.strong_count(i);
            forest.set_strong(i, n + 1);
        } else {
            proof {
                assert forall|k: usize| k < forest.size() implies (#[trigger] forest.node_at(k)).same_shape(&old(forest).node_at(k)) by {}
            }
        }
        ForestNodeRc::make(ptr.forest_id(), i)
    }
}

impl<T: ForestNodeContent> ForestNode<T> {
    /// Creates a node in the same forest as `node`, under the exclusive guard that
    /// is already out.
    pub fn create_another(forest: &mut Forest<T>, node: &ForestNodeRc, content: T) -> (r: ForestNodeRc)
        requires
            old(forest).wf(),
            old(forest).guarded_mut(),
            old(forest).owns(node),
            old(forest).size() < usize::MAX,
        ensures
            final(forest).wf(),
            final(forest).id() == old(forest).id(),
            final(forest).ctx() == old(forest).ctx(),
            final(forest).size() == old(forest).size() + 1,
            r.forest() == old(forest).id(),
            r.index() == old(forest).size(),
            final(forest).live(r.index()),
            final(forest).strong_of(r.index()) == 1,
            final(forest).parent_of(r.index()) is None,
            final(forest).children_of(r.index()).len() == 0,
            forall|k: usize| k < old(forest).size() ==> #[trigger] final(forest).node_at(k) == old(forest).node_at(k),
    {
        forest.push_node(content)
    }

    /// The ancestor `distance` steps up the chain of parents, or nothing where the
    /// chain is shorter.
    pub fn ancestor(&self, forest: &Forest<T>, distance: usize) -> (r: Option<ForestNodeWeak>)
        requires
            forest.wf(),
            forest.guarded(),
            self.forest() == forest.id(),
            self.index() < forest.size(),
        ensures
            r is Some == forest.ancestor_of(self.index(), distance as nat) is Some,
            r is Some ==> r->0.index() == forest.ancestor_of(self.index(), distance as nat)->0
                && r->0.forest() == forest.id(),
    {
        let mut cur: usize = self.index;
        let mut i: usize = 0;
        while i < distance
            invariant
                forest.wf(),
                i <= distance,
                cur < forest.size(),
                forest.ancestor_of(self.index(), i as nat) == Some(cur),
            decreases distance - i,
        {
            match forest.nodes[cur].parent {
                None => {
                    proof {
                        lemma_ancestor_none(forest, self.index(), (i + 1) as nat, distance as nat);
                    }
                    return None;
                },
                Some(p) => {
                    proof {
                        assert(forest.parent_of(cur) == Some(p));
                    }
                    cur = p;
                },
            }
            i = i + 1;
        }
        Some(ForestNodeWeak::make(self.forest, cur))
    }
}

/// Once the chain of parents runs out, every longer walk runs out too.
proof fn lemma_ancestor_none<T: ForestNodeContent>(f: &Forest<T>, i: usize, m: nat, n: nat)
    requires
        f.ancestor_of(i, m) is None,
        m <= n,
    ensures
        f.ancestor_of(i, n) is None,
    decreases n - m,
{
    if m < n {
        lemma_ancestor_none(f, i, m + 1, n);
    }
}

} // verus!

verus! {

impl<T: ForestNodeContent> Forest<T> {
    /// How many of the slots below `n` hold live nodes.
    pub open spec fn live_upto(&self, n: nat) -> nat
        decreases n,
    {
        if n == 0 {
            0
        } else {
            self.live_upto((n - 1) as nat) + if self.live((n - 1) as usize) { 1nat } else { 0nat }
        }
    }

    /// Losing exactly one live node lowers the live count by one.
    proof fn lemma_live_upto_drop(a: &Self, b: &Self, x: usize, n: nat)
        requires
            n <= usize::MAX,
            forall|k: usize| k < n ==> #[trigger] b.live(k) == (a.live(k) && k != x),
            a.live(x),
            x < n,
        ensures
            b.live_upto(n) + 1 == a.live_upto(n),
        decreases n,
    {
        let m = (n - 1) as usize;
        assert(b.live(m) == (a.live(m) && m != x));
        if x < m {
            Self::lemma_live_upto_drop(a, b, x, (n - 1) as nat);
        } else {
            Self::lemma_live_upto_same(a, b, (n - 1) as nat);
        }
    }

    /// Agreeing on liveness below `n` is agreeing on the live count below `n`.
    proof fn lemma_live_upto_same(a: &Self, b: &Self, n: nat)
        requires
            n <= usize::MAX,
            forall|k: usize| k < n ==> #[trigger] b.live(k) == a.live(k),
        ensures
            b.live_upto(n) == a.live_upto(n),
        decreases n,
    {
        if n > 0 {
            let m = (n - 1) as usize;
            assert(b.live(m) == a.live(m));
            Self::lemma_live_upto_same(a, b, (n - 1) as nat);
        }
    }

    /// Frees node `x`, which nothing holds any more: its children lose their parent
    /// link, and the slots of those children are handed back.
    fn kill(&mut self, x: usize) -> (kids: Vec<usize>)
        requires
            old(self).wf(),
            old(self).live(x),
            old(self).parent_of(x) is None,
        ensures
            final(self).wf(),
            final(self).id() == old(self).id(),
            final(self).ctx() == old(self).ctx(),
            final(self).size() == old(self).size(),
            !final(self).live(x),
            forall|k: usize| k < old(self).size() ==> #[trigger] final(self).live(k) == (old(self).live(k) && k != x),
            forall|k: usize| k < old(self).size() ==> #[trigger] final(self).strong_of(k) == old(self).strong_of(k),
            final(self).live_upto(final(self).size()) + 1 == old(self).live_upto(old(self).size()),
            kids@ == old(self).children_of(x),
            forall|j: int| 0 <= j < kids@.len() ==> #[trigger] kids@[j] < final(self).size(),
    {
        let ghost a = *old(self);
        let sz = self.nodes.len();
        let n = self.nodes[x].children.len();
        let mut j: usize = 0;
        while j < n
            invariant
                a.wf(),
                a.live(x),
                x < a.size(),
                a.parent_of(x) is None,
                n == a.children_of(x).len(),
                j <= n,
                self.id == a.id,
                self.context == a.context,
                self.size() == a.size(),
                sz == a.size(),
                forall|k: usize| k < a.size() ==> {
                    &&& #[trigger] self.node_at(k).child_seq() == a.node_at(k).child_seq()
                    &&& self.node_at(k).is_alive() == a.node_at(k).is_alive()
                    &&& self.node_at(k).strong() == a.node_at(k).strong()
                    &&& self.node_at(k).index() == a.node_at(k).index()
                    &&& self.node_at(k).forest() == a.node_at(k).forest()
                    &&& self.node_at(k).parent_link() == if a.children_of(x).take(j as int).contains(k) {
                        None
                    } else {
                        a.parent_of(k)
                    }
                },
            decreases n - j,
        {
            proof {
                assert(self.node_at(x).child_seq() == a.node_at(x).child_seq());
            }
            let c = self.nodes[x].children[j];
            proof {
                assert(a.children_of(x)[j as int] == c);
                assert(c < a.size());
            }
            let ghost pre = *self;
            self.nodes[c].parent = None;
            proof {
                let t = a.children_of(x).take(j + 1);
                assert(t.drop_last() =~= a.children_of(x).take(j as int));
                assert forall|k: usize| k < a.size() implies {
                    &&& #[trigger] self.node_at(k).child_seq() == a.node_at(k).child_seq()
                    &&& self.node_at(k).is_alive() == a.node_at(k).is_alive()
                    &&& self.node_at(k).strong() == a.node_at(k).strong()
                    &&& self.node_at(k).index() == a.node_at(k).index()
                    &&& self.node_at(k).forest() == a.node_at(k).forest()
                    &&& self.node_at(k).parent_link() == if t.contains(k) {
                        None
                    } else {
                        a.parent_of(k)
                    }
                } by {
                    lemma_contains_split(t, k);
                    assert(pre.node_at(k).child_seq() == a.node_at(k).child_seq());
                }
                assert(a.children_of(x).take((j + 1) as int) == t);
            }
            let ghost t = a.children_of(x).take(j + 1);
            j = j + 1;
            proof {
                assert(a.children_of(x).take(j as int) == t);
                assert forall|k: usize| k < a.size() implies {
                    &&& #[trigger] self.node_at(k).child_seq() == a.node_at(k).child_seq()
                    &&& self.node_at(k).is_alive() == a.node_at(k).is_alive()
                    &&& self.node_at(k).strong() == a.node_at(k).strong()
                    &&& self.node_at(k).index() == a.node_at(k).index()
                    &&& self.node_at(k).forest() == a.node_at(k).forest()
                    &&& self.node_at(k).parent_link() == if a.children_of(x).take(j as int).contains(k) {
                        None
                    } else {
                        a.parent_of(k)
                    }
                } by {
                    assert(self.node_at(k).child_seq() == a.node_at(k).child_seq());
                }
            }
        }
        let ghost e = *self;
        proof {
            assert(e.node_at(x).child_seq() == a.node_at(x).child_seq());
        }
        let mut kids: Vec<usize> = Vec::new();
        std::mem::swap(&mut kids, &mut self.nodes[x].children);
        self.nodes[x].alive = false;
        proof {
            let s = a.children_of(x);
            assert(s.take(n as int) =~= s);
            assert(kids@ == s);
            assert forall|k: usize| k < a.size() implies {
                &&& #[trigger] self.node_at(k).parent_link() == e.node_at(k).parent_link()
                &&& self.node_at(k).is_alive() == (e.node_at(k).is_alive() && k != x)
                &&& self.node_at(k).strong() == e.node_at(k).strong()
                &&& self.node_at(k).index() == e.node_at(k).index()
                &&& self.node_at(k).forest() == e.node_at(k).forest()
                &&& (k != x ==> self.node_at(k).child_seq() == e.node_at(k).child_seq())
                &&& e.node_at(k).child_seq() == a.node_at(k).child_seq()
            } by {}
            assert forall|k: usize| k < a.size() implies #[trigger] self.parent_of(k) == if a.parent_of(k) == Some(x) {
                None
            } else {
                a.parent_of(k)
            } by {
                assert(self.node_at(k).parent_link() == if s.contains(k) { None } else { a.parent_of(k) });
                if s.contains(k) {
                    let m = choose|m: int| 0 <= m < s.len() && s[m] == k;
                    assert(a.parent_of(s[m]) == Some(x));
                }
                if a.parent_of(k) == Some(x) {
                    assert(a.children_of(x).contains(k));
                }
            }
            assert forall|k: usize| k < a.size() implies #[trigger] self.live(k) == (a.live(k) && k != x) by {
                assert(self.node_at(k).parent_link() == e.node_at(k).parent_link());
                assert(e.node_at(k).child_seq() == a.node_at(k).child_seq());
            }
            assert forall|k: usize| k < a.size() implies #[trigger] self.strong_of(k) == a.strong_of(k) by {
                assert(self.node_at(k).parent_link() == e.node_at(k).parent_link());
                assert(e.node_at(k).child_seq() == a.node_at(k).child_seq());
            }
            assert forall|i: usize| i < self.size() implies {
                &&& #[trigger] self.node_at(i).index() == i
                &&& self.node_at(i).forest() == self.id()
            } by {
                assert(self.node_at(i).parent_link() == e.node_at(i).parent_link());
                assert(e.node_at(i).child_seq() == a.node_at(i).child_seq());
                assert(a.node_at(i).index() == i);
            }
            assert forall|i: usize| i < self.size() && #[trigger] self.parent_of(i) is Some implies {
                let p = self.parent_of(i)->0;
                &&& self.live(p)
                &&& self.children_of(p).contains(i)
            } by {
                assert(self.parent_of(i) == if a.parent_of(i) == Some(x) { None } else { a.parent_of(i) });
                let p = self.parent_of(i)->0;
                assert(self.node_at(p).parent_link() == e.node_at(p).parent_link());
                assert(e.node_at(p).child_seq() == a.node_at(p).child_seq());
                assert(self.node_at(p).child_seq() == a.node_at(p).child_seq());
            }
            assert forall|p: usize, m: int| p < self.size() && 0 <= m < self.children_of(p).len() implies {
                let c = #[trigger] self.children_of(p)[m];
                &&& c < self.size()
                &&& self.parent_of(c) == Some(p)
            } by {
                assert(p != x);
                assert(self.node_at(p).parent_link() == e.node_at(p).parent_link());
                assert(e.node_at(p).child_seq() == a.node_at(p).child_seq());
                assert(self.node_at(p).child_seq() == a.node_at(p).child_seq());
                let c = a.children_of(p)[m];
                assert(a.parent_of(c) == Some(p));
                assert(self.parent_of(c) == if a.parent_of(c) == Some(x) { None } else { a.parent_of(c) });
            }
            assert forall|p: usize| p < self.size() implies (#[trigger] self.children_of(p)).no_duplicates() by {
                assert(a.children_of(p).no_duplicates());
                if p != x {
                    assert(self.node_at(p).parent_link() == e.node_at(p).parent_link());
                    assert(e.node_at(p).child_seq() == a.node_at(p).child_seq());
                    assert(self.node_at(p).child_seq() == a.node_at(p).child_seq());
                }
            }
            assert forall|i: usize| i < self.size() && !(#[trigger] self.node_at(i)).is_alive() implies {
                &&& self.children_of(i).len() == 0
                &&& self.parent_of(i) is None
            } by {
                assert(self.node_at(i).parent_link() == e.node_at(i).parent_link());
                assert(e.node_at(i).child_seq() == a.node_at(i).child_seq());
                if i != x {
                    assert(!a.node_at(i).is_alive());
                    assert(self.parent_of(i) == if a.parent_of(i) == Some(x) { None } else { a.parent_of(i) });
                }
            }
            Self::lemma_live_upto_drop(&a, self, x, a.size());
            assert forall|m: int| 0 <= m < kids@.len() implies #[trigger] kids@[m] < self.size() by {
                assert(kids@[m] == a.children_of(x)[m]);
                assert(a.children_of(x)[m] < a.size());
            }
        }
        kids
    }
}

impl ForestNodeRc {
    /// Drops this strong handle. A node that no handle holds and that has no parent
    /// is freed; freeing a node releases its hold on its children, which are freed
    /// in turn where nothing else holds them.
    pub fn release<T: ForestNodeContent>(self, forest: &mut Forest<T>)
        requires
            old(forest).wf(),
            old(forest).owns(&self),
        ensures
            final(forest).wf(),
            final(forest).id() == old(forest).id(),
            final(forest).ctx() == old(forest).ctx(),
            final(forest).size() == old(forest).size(),
            forall|k: usize| k < old(forest).size() && #[trigger] final(forest).live(k) ==> old(forest).live(k),
            forall|k: usize| k < old(forest).size() && k != self.index() ==>
                #[trigger] final(forest).strong_of(k) == old(forest).strong_of(k),
            final(forest).strong_of(self.index()) == if old(forest).strong_of(self.index()) > 0 {
                old(forest).strong_of(self.index()) - 1
            } else {
                0
            },
            forall|k: usize| k < old(forest).size() && old(forest).live(k) && #[trigger] final(forest).strong_of(k) > 0
                ==> final(forest).live(k),
            old(forest).parent_of(self.index()) is Some ==> final(forest).live(self.index()),
            old(forest).strong_of(self.index()) <= 1 && old(forest).parent_of(self.index()) is None
                ==> !final(forest).live(self.index()),
    {
        let ghost a = *old(forest);
        let i = self.slot();
        let n = forest.strong_count(i);
        if n > 0 {
            forest.set_strong(i, n - 1);
        } else {
            proof {
                assert forall|k: usize| k < forest.size() implies (#[trigger] forest.node_at(k)).same_shape(&a.node_at(k)) by {}
            }
        }
        let ghost s1 = *forest;
        proof {
            assert forall|k: usize| k < a.size() implies #[trigger] s1.live(k) == a.live(k) by {
                assert(s1.node_at(k).same_shape(&a.node_at(k)));
            }
            assert forall|k: usize| k < a.size() && k != i implies #[trigger] s1.strong_of(k) == a.strong_of(k) by {
                assert(s1.node_at(k) == a.node_at(k));
            }
            assert(s1.parent_of(i) == a.parent_of(i)) by {
                assert(s1.node_at(i).same_shape(&a.node_at(i)));
            }
        }
        let mut work: Vec<usize> = Vec::new();
        if forest.strong_count(i) == 0 && forest.nodes[i].parent.is_none() {
            work = forest.kill(i);
        }
        while work.len() > 0
            invariant
                s1.wf(),
                forest.wf(),
                forest.id() == s1.id(),
                forest.ctx() == s1.ctx(),
                forest.size() == s1.size(),
                forall|k: usize| k < s1.size() && #[trigger] forest.live(k) ==> s1.live(k),
                forall|k: usize| k < s1.size() ==> #[trigger] forest.strong_of(k) == s1.strong_of(k),
                forall|k: usize| k < s1.size() && s1.live(k) && !forest.live(k) ==> #[trigger] s1.strong_of(k) == 0,
                forall|j: int| 0 <= j < work@.len() ==> #[trigger] work@[j] < forest.size(),
                s1.parent_of(i) is Some ==> forest.live(i) && work@.len() == 0,
                s1.strong_of(i) == 0 && s1.parent_of(i) is None ==> !forest.live(i),
            decreases forest.live_upto(forest.size()), work@.len(),
        {
            let x = work.pop().unwrap();
            proof {
                assert(work@.len() < work@.len() + 1);
            }
            if forest.is_live(x) && forest.strong_count(x) == 0 && forest.nodes[x].parent.is_none() {
                let ghost before = *forest;
                let kids = forest.kill(x);
                let mut m: usize = 0;
                while m < kids.len()
                    invariant
                        forest.size() == s1.size(),
                        forall|j: int| 0 <= j < work@.len() ==> #[trigger] work@[j] < forest.size(),
                        forall|j: int| 0 <= j < kids@.len() ==> #[trigger] kids@[j] < forest.size(),
                    decreases kids@.len() - m,
                {
                    work.push(kids[m]);
                    m = m + 1;
                }
                proof {
                    assert forall|k: usize| k < s1.size() && s1.live(k) && !forest.live(k) implies #[trigger] s1.strong_of(k) == 0 by {
                        if k != x {
                            assert(before.live(k) == forest.live(k));
                        } else {
                            assert(before.strong_of(x) == s1.strong_of(x));
                        }
                    }
                    if s1.parent_of(i) is Some {
                        assert(x != i) by {
                            if x == i {
                                assert(before.live(i));
                            }
                        }
                    }
                }
            }
        }
        proof {
            assert forall|k: usize| k < a.size() && a.live(k) && #[trigger] forest.strong_of(k) > 0 implies forest.live(k) by {
                assert(s1.live(k) == a.live(k));
            }
        }
    }
}

} // verus!

verus! {

impl ForestNodeSelf {
    /// A strong handle to the node the capsule was issued for, if it is still alive.
    pub fn rc<T: ForestNodeContent>(&self, forest: &mut Forest<T>) -> (r: Option<ForestNodeRc>)
        requires
            old(forest).wf(),
            self.node().forest() == old(forest).id(),
            old(forest).live(self.node().index()) ==> old(forest).strong_of(self.node().index()) < usize::MAX,
        ensures
            r is Some == old(forest).live(self.node().index()),
            r is Some ==> r->0.index() == self.node().index() && r->0.forest() == old(forest).id(),
            old(forest).recounted(final(forest), self.node().index()),
    {
        let w = self.weak();
        w.upgrade(forest)
    }
}

/// Re-parenting moves a node: once `b` has been appended to `a` it is `a`'s last
/// child with `a` as its parent, and once it has then been appended to another node
/// `c`, `a` no longer lists it.
pub proof fn lemma_append_moves<T: ForestNodeContent>(f0: Forest<T>, f1: Forest<T>, f2: Forest<T>, a: usize, b: usize, c: usize)
    requires
        f0.wf(),
        f0.moved_under(&f1, a, b, without(f0.children_of(a), b).push(b)),
        f1.moved_under(&f2, c, b, without(f1.children_of(c), b).push(b)),
        a != c,
    ensures
        f1.parent_of(b) == Some(a),
        f1.children_of(a).last() == b,
        f2.parent_of(b) == Some(c),
        f2.children_of(c).last() == b,
        !f2.children_of(a).contains(b),
{
    assert(f2.children_of(a) == without(f1.children_of(a), b));
    lemma_without_contains(f1.children_of(a), b);
}

/// A splice of `removes` children at `position` that lays `inserts` down as given
/// leaves `len - removes + inserts.len()` children.
pub proof fn lemma_splice_len(s: Seq<usize>, ins: Seq<usize>, position: int, removes: int)
    requires
        0 <= position,
        0 <= removes,
        position + removes <= s.len(),
    ensures
        (s.take(position) + ins + s.skip(position + removes)).len() == s.len() - removes + ins.len(),
{
}

/// Exporting a handle to its raw form and importing it again without a new share
/// gives a handle to the same node.
pub proof fn lemma_ptr_round_trip(h: ForestNodeRc, p: ForestNodePtr, r: ForestNodeRc)
    requires
        p.forest() == h.forest() && p.index() == h.index(),
        r.forest() == p.forest() && r.index() == p.index(),
    ensures
        r.forest() == h.forest() && r.index() == h.index(),
{
}

} // verus!

verus! {

impl ForestNodeRc {
    /// Puts `content` in as the payload of the node, under the exclusive guard of its
    /// forest, and hands the old payload back. Nothing else changes.
    pub fn set_content<T: ForestNodeContent>(&self, forest: &mut Forest<T>, content: T) -> (r: T)
        requires
            old(forest).wf(),
            old(forest).guarded_mut(),
            old(forest).owns(self),
        ensures
            r == old(forest).node_at(self.index()).payload(),
            final(forest).wf(),
            final(forest).id() == old(forest).id(),
            final(forest).ctx() == old(forest).ctx(),
            final(forest).size() == old(forest).size(),
            old(forest).same_structure(final(forest)),
            forall|k: usize| k < old(forest).size() && k != self.index() ==> #[trigger] final(forest).node_at(k) == old(forest).node_at(k),
            final(forest).node_at(self.index()).payload() == content,
    {
        let i = self.slot();
        let mut content = content;
        std::mem::swap(&mut content, &mut forest.nodes[i].content);
        proof {
            assert forall|k: usize| k < forest.size() implies (#[trigger] forest.node_at(k)).same_links(&old(forest).node_at(k)) by {}
            Forest::lemma_same_structure(old(forest), forest);
            assert forall|k: usize| k < forest.size() implies (#[trigger] forest.node_at(k)).same_shape(&old(forest).node_at(k)) by {}
            Forest::lemma_wf_frame(old(forest), forest);
        }
        content
    }
}

impl ForestNodeRc {
    /// A new, unattached node of the same forest with a copy of the payload of this
    /// node: no parent, no children, a new identity. Descendants are not copied.
    pub fn clone_node_with<T: ForestNodeContent + Clone>(&self, forest: &mut Forest<T>) -> (r: ForestNodeRc)
        requires
            old(forest).wf(),
            old(forest).guarded_mut(),
            old(forest).owns(self),
            old(forest).size() < usize::MAX,
        ensures
            final(forest).wf(),
            final(forest).id() == old(forest).id(),
            final(forest).ctx() == old(forest).ctx(),
            final(forest).size() == old(forest).size() + 1,
            r.forest() == old(forest).id(),
            r.index() == old(forest).size(),
            r.index() != self.index(),
            final(forest).live(r.index()),
            final(forest).strong_of(r.index()) == 1,
            final(forest).parent_of(r.index()) is None,
            final(forest).children_of(r.index()).len() == 0,
            forall|k: usize| k < old(forest).size() ==> #[trigger] final(forest).node_at(k) == old(forest).node_at(k),
    {
        let content = forest.nodes[self.slot()].content.clone();
        forest.push_node(content)
    }

    /// The node this handle names, reached under the guard that gave access to
    /// `source`. A handle of another forest than `source`'s is refused.
    pub fn deref_with<'a, T: ForestNodeContent>(&self, forest: &'a Forest<T>, source: &ForestNode<T>) -> (r: &'a ForestNode<T>)
        requires
            forest.wf(),
            forest.guarded(),
            source.forest() == forest.id(),
            self.forest() == source.forest(),
            self.index() < forest.size(),
        ensures
            *r == forest.node_at(self.index()),
    {
        &forest.nodes[self.slot()]
    }
}

impl ForestNodeSelf {
    /// The node the capsule was issued for, reached by the payload that lives in
    /// slot `content_slot`. A capsule presented by another payload, such as a copy
    /// that has not been given its own node, is refused.
    pub fn deref_by<'a, T: ForestNodeContent>(&self, forest: &'a Forest<T>, content_slot: usize) -> (r: &'a ForestNode<T>)
        requires
            forest.wf(),
            forest.guarded(),
            content_slot == self.content_slot(),
            self.node().forest() == forest.id(),
            forest.live(self.node().index()),
        ensures
            *r == forest.node_at(self.node().index()),
    {
        let w = self.weak();
        &forest.nodes[w.slot()]
    }
}

} // verus!
