use forest_tree::{
    AccessConflict, Forest, ForestNode, ForestNodeContent, ForestNodeRc, ForestNodeSelf, ForestNodeWeak,
};

#[derive(Clone)]
struct Item {
    name: u32,
    changes: u32,
    capsule: Option<ForestNodeSelf>,
}

impl ForestNodeContent for Item {
    fn associate_node(&mut self, node: ForestNodeSelf) {
        self.capsule = Some(node);
    }

    fn parent_node_changed(&mut self) {
        self.changes += 1;
    }
}

fn item(name: u32) -> Item {
    Item { name, changes: 0, capsule: None }
}

fn kids(f: &mut Forest<Item>, node: &ForestNodeRc) -> Vec<usize> {
    let g = node.borrow(f);
    let v: Vec<usize> = node.forest_node(f).clone_children().iter().map(|w| w.slot()).collect();
    f.release(g);
    v
}

fn parent_slot(f: &mut Forest<Item>, node: &ForestNodeRc) -> Option<usize> {
    let g = node.borrow(f);
    let p = node.forest_node(f).parent().map(|w| w.slot());
    f.release(g);
    p
}

fn make(f: &mut Forest<Item>, n: u32) -> Vec<ForestNodeRc> {
    (0..n).map(|i| ForestNodeRc::new(f, item(i))).collect()
}

#[test]
fn shared_guards_coexist_and_exclude_writers() {
    let mut f: Forest<Item> = Forest::new(1);
    let r = ForestNodeRc::new(&mut f, item(0));
    let g1 = r.try_borrow(&mut f).unwrap();
    let g2 = r.try_borrow(&mut f).unwrap();
    let g3 = r.try_borrow(&mut f).unwrap();
    assert_eq!(f.context().active_count(), 3);
    assert!(!f.context().exclusive_active());
    assert_eq!(r.try_borrow_mut(&mut f).err(), Some(AccessConflict));
    f.release(g1);
    f.release(g2);
    assert_eq!(r.try_borrow_mut(&mut f).err(), Some(AccessConflict));
    f.release(g3);
    assert_eq!(f.context().active_count(), 0);
    let w = r.try_borrow_mut(&mut f).unwrap();
    assert!(f.context().exclusive_active());
    assert_eq!(r.try_borrow(&mut f).err(), Some(AccessConflict));
    assert_eq!(r.try_borrow_mut(&mut f).err(), Some(AccessConflict));
    f.release_mut(w);
    assert_eq!(f.context().active_count(), 0);
    assert!(!f.context().exclusive_active());
}

#[test]
fn exclusive_attempt_under_shared_guard_conflicts() {
    let mut f: Forest<Item> = Forest::new(1);
    let r = ForestNodeRc::new(&mut f, item(7));
    let g = r.borrow(&mut f);
    assert_eq!(r.try_borrow_mut(&mut f).err(), Some(AccessConflict));
    assert_eq!(f.context().active_count(), 1);
    let node = r.forest_node(&f);
    assert_eq!(node.content().name, 7);
    assert_eq!(node.len(), 0);
    f.release(g);
    assert_eq!(f.context().active_count(), 0);
}

#[test]
fn create_another_then_append() {
    let mut f: Forest<Item> = Forest::new(3);
    let r = ForestNodeRc::new(&mut f, item(0));
    let g = r.borrow_mut(&mut f);
    let x = ForestNode::create_another(&mut f, &r, item(1));
    let x_weak = x.downgrade();
    ForestNode::append(&mut f, &r, x);
    assert_eq!(r.forest_node(&f).len(), 1);
    let child = r.forest_node(&f).child(0).unwrap();
    assert_eq!(child.slot(), x_weak.slot());
    let x_again = x_weak.upgrade(&mut f).unwrap();
    let xnode = r.forest_node(&f).another(&f, &x_again);
    assert_eq!(xnode.parent().unwrap().slot(), r.slot());
    assert_eq!(xnode.content().name, 1);
    f.release_mut(g);
    assert_eq!(f.context().active_count(), 0);
    assert!(!f.context().exclusive_active());
}

#[test]
fn append_reparents() {
    let mut f: Forest<Item> = Forest::new(1);
    let n = make(&mut f, 3);
    let (a, b, c) = (&n[0], &n[1], &n[2]);
    let g = a.borrow_mut(&mut f);
    let b1 = b.clone(&mut f);
    ForestNode::append(&mut f, a, b1);
    f.release_mut(g);
    assert_eq!(parent_slot(&mut f, b), Some(a.slot()));
    assert_eq!(kids(&mut f, a), vec![b.slot()]);
    let g = a.borrow_mut(&mut f);
    let b2 = b.clone(&mut f);
    ForestNode::append(&mut f, c, b2);
    f.release_mut(g);
    assert_eq!(parent_slot(&mut f, b), Some(c.slot()));
    assert_eq!(kids(&mut f, a), Vec::<usize>::new());
    assert_eq!(kids(&mut f, c), vec![b.slot()]);
}

#[test]
fn append_to_same_parent_moves_last() {
    let mut f: Forest<Item> = Forest::new(1);
    let n = make(&mut f, 4);
    let g = n[0].borrow_mut(&mut f);
    for i in 1..4 {
        let h = n[i].clone(&mut f);
        ForestNode::append(&mut f, &n[0], h);
    }
    let h = n[1].clone(&mut f);
    ForestNode::append(&mut f, &n[0], h);
    f.release_mut(g);
    assert_eq!(kids(&mut f, &n[0]), vec![n[2].slot(), n[3].slot(), n[1].slot()]);
}

#[test]
fn insert_at_position_and_out_of_place() {
    let mut f: Forest<Item> = Forest::new(1);
    let n = make(&mut f, 4);
    let g = n[0].borrow_mut(&mut f);
    let h = n[1].clone(&mut f);
    ForestNode::insert(&mut f, &n[0], h, 0);
    let h = n[2].clone(&mut f);
    ForestNode::insert(&mut f, &n[0], h, 0);
    let h = n[3].clone(&mut f);
    ForestNode::insert(&mut f, &n[0], h, 1);
    f.release_mut(g);
    assert_eq!(kids(&mut f, &n[0]), vec![n[2].slot(), n[3].slot(), n[1].slot()]);
}

#[test]
fn splice_replaces_a_range() {
    let mut f: Forest<Item> = Forest::new(1);
    let n = make(&mut f, 8);
    let g = n[0].borrow_mut(&mut f);
    for i in 1..6 {
        let h = n[i].clone(&mut f);
        ForestNode::append(&mut f, &n[0], h);
    }
    let inserts = vec![n[6].clone(&mut f), n[7].clone(&mut f)];
    let removed = ForestNode::splice(&mut f, &n[0], 1, 2, inserts);
    f.release_mut(g);
    let removed_slots: Vec<usize> = removed.iter().map(|h| h.slot()).collect();
    assert_eq!(removed_slots, vec![n[2].slot(), n[3].slot()]);
    let now = kids(&mut f, &n[0]);
    assert_eq!(now.len(), 5 - 2 + 2);
    assert_eq!(now, vec![n[1].slot(), n[6].slot(), n[7].slot(), n[4].slot(), n[5].slot()]);
    assert_eq!(parent_slot(&mut f, &n[2]), None);
    assert_eq!(parent_slot(&mut f, &n[6]), Some(n[0].slot()));
}

#[test]
fn remove_clears_parent() {
    let mut f: Forest<Item> = Forest::new(1);
    let n = make(&mut f, 3);
    let g = n[0].borrow_mut(&mut f);
    for i in 1..3 {
        let h = n[i].clone(&mut f);
        ForestNode::append(&mut f, &n[0], h);
    }
    let removed = ForestNode::remove(&mut f, &n[0], 0);
    f.release_mut(g);
    assert!(ForestNodeRc::ptr_eq(&removed, &n[1]));
    assert_eq!(parent_slot(&mut f, &removed), None);
    assert_eq!(kids(&mut f, &n[0]), vec![n[2].slot()]);
    let g = removed.borrow(&mut f);
    assert_eq!(removed.forest_node(&f).content().changes, 2);
    f.release(g);
}

#[test]
fn replace_swaps_a_child() {
    let mut f: Forest<Item> = Forest::new(1);
    let n = make(&mut f, 4);
    let g = n[0].borrow_mut(&mut f);
    for i in 1..3 {
        let h = n[i].clone(&mut f);
        ForestNode::append(&mut f, &n[0], h);
    }
    let h = n[3].clone(&mut f);
    let old = ForestNode::replace(&mut f, &n[0], h, 1);
    f.release_mut(g);
    assert!(ForestNodeRc::ptr_eq(&old, &n[2]));
    assert_eq!(kids(&mut f, &n[0]), vec![n[1].slot(), n[3].slot()]);
    assert_eq!(parent_slot(&mut f, &n[2]), None);
    assert_eq!(parent_slot(&mut f, &n[3]), Some(n[0].slot()));
}

#[test]
fn weak_to_released_node_stays_absent() {
    let mut f: Forest<Item> = Forest::new(1);
    let a = ForestNodeRc::new(&mut f, item(0));
    let w = a.downgrade();
    a.release(&mut f);
    assert!(w.upgrade(&mut f).is_none());
    let _b = ForestNodeRc::new(&mut f, item(1));
    assert!(w.upgrade(&mut f).is_none());
    assert!(w.upgrade(&mut f).is_none());
}

#[test]
fn releasing_a_root_frees_children_nothing_else_holds() {
    let mut f: Forest<Item> = Forest::new(1);
    let n = make(&mut f, 3);
    let mut it = n.into_iter();
    let root = it.next().unwrap();
    let kept = it.next().unwrap();
    let lost = it.next().unwrap();
    let g = root.borrow_mut(&mut f);
    let kept_handle = kept.clone(&mut f);
    let lost_weak = lost.downgrade();
    let kept_weak = kept.downgrade();
    ForestNode::append(&mut f, &root, kept_handle);
    ForestNode::append(&mut f, &root, lost);
    f.release_mut(g);
    assert_eq!(f.strong_count(kept.slot()), 1);
    assert_eq!(f.strong_count(lost_weak.slot()), 0);
    root.release(&mut f);
    assert!(!f.is_live(lost_weak.slot()));
    assert!(f.is_live(kept_weak.slot()));
    assert_eq!(parent_slot(&mut f, &kept), None);
}

#[test]
fn raw_round_trip_keeps_identity_and_count() {
    let mut f: Forest<Item> = Forest::new(1);
    let a = ForestNodeRc::new(&mut f, item(0));
    let probe = a.downgrade();
    let p = a.into_ptr();
    let b = ForestNodeRc::from_ptr(p, false, &mut f);
    assert_eq!(b.slot(), probe.slot());
    assert_eq!(f.strong_count(b.slot()), 1);
    let p2 = b.into_ptr();
    let c = ForestNodeRc::from_ptr(p2, true, &mut f);
    assert_eq!(f.strong_count(c.slot()), 2);
    c.release(&mut f);
    assert!(f.is_live(probe.slot()));
}

#[test]
fn weak_ptr_eq_on_gone_and_live() {
    let mut f: Forest<Item> = Forest::new(1);
    let a = ForestNodeRc::new(&mut f, item(0));
    let b = ForestNodeRc::new(&mut f, item(1));
    let c = ForestNodeRc::new(&mut f, item(2));
    let (wa, wb, wc) = (a.downgrade(), b.downgrade(), c.downgrade());
    assert!(ForestNodeWeak::ptr_eq(&wa, &wa.clone(), &f));
    assert!(!ForestNodeWeak::ptr_eq(&wa, &wb, &f));
    a.release(&mut f);
    b.release(&mut f);
    assert!(ForestNodeWeak::ptr_eq(&wa, &wb, &f));
    assert!(!ForestNodeWeak::ptr_eq(&wa, &wc, &f));
}

#[test]
fn child_out_of_range_and_find_position() {
    let mut f: Forest<Item> = Forest::new(1);
    let n = make(&mut f, 3);
    let g = n[0].borrow_mut(&mut f);
    let h = n[1].clone(&mut f);
    ForestNode::append(&mut f, &n[0], h);
    let node = n[0].forest_node(&f);
    assert!(node.child(1).is_none());
    assert_eq!(node.find_child_position(&n[1]), Some(0));
    assert_eq!(node.find_child_position(&n[2]), None);
    let mut other: Forest<Item> = Forest::new(2);
    let foreign = ForestNodeRc::new(&mut other, item(9));
    assert_eq!(foreign.slot(), n[0].slot());
    assert_eq!(node.find_child_position(&foreign), None);
    f.release_mut(g);
}

#[test]
fn ancestor_walk_fails_when_short() {
    let mut f: Forest<Item> = Forest::new(1);
    let n = make(&mut f, 3);
    let g = n[0].borrow_mut(&mut f);
    let h = n[1].clone(&mut f);
    ForestNode::append(&mut f, &n[0], h);
    let h = n[2].clone(&mut f);
    ForestNode::append(&mut f, &n[1], h);
    let leaf = n[2].forest_node(&f);
    assert_eq!(leaf.ancestor(&f, 0).unwrap().slot(), n[2].slot());
    assert_eq!(leaf.ancestor(&f, 1).unwrap().slot(), n[1].slot());
    assert_eq!(leaf.ancestor(&f, 2).unwrap().slot(), n[0].slot());
    assert!(leaf.ancestor(&f, 3).is_none());
    f.release_mut(g);
}

#[test]
fn iterate_children_in_order() {
    let mut f: Forest<Item> = Forest::new(1);
    let n = make(&mut f, 4);
    let g = n[0].borrow_mut(&mut f);
    for i in 1..4 {
        let h = n[i].clone(&mut f);
        ForestNode::append(&mut f, &n[0], h);
    }
    let mut it = n[0].forest_node(&f).iter_children();
    let mut seen = Vec::new();
    while let Some(w) = it.next(&f) {
        seen.push(w.slot());
    }
    assert_eq!(seen, vec![n[1].slot(), n[2].slot(), n[3].slot()]);
    let part: Vec<usize> = n[0].forest_node(&f).children(1, 3).iter().map(|w| w.slot()).collect();
    assert_eq!(part, vec![n[2].slot(), n[3].slot()]);
    f.release_mut(g);
}

#[test]
fn capsule_reaches_own_node() {
    let mut f: Forest<Item> = Forest::new(1);
    let a = ForestNodeRc::new(&mut f, item(0));
    let g = a.borrow(&mut f);
    assert_eq!(a.forest_node(&f).content().capsule.map(|c| c.issued_for()), Some(a.slot()));
    f.release(g);
}

#[test]
fn set_content_swaps_payload() {
    let mut f: Forest<Item> = Forest::new(1);
    let a = ForestNodeRc::new(&mut f, item(4));
    let g = a.borrow_mut(&mut f);
    let old = a.set_content(&mut f, item(5));
    assert_eq!(old.name, 4);
    assert_eq!(a.forest_node(&f).content().name, 5);
    f.release_mut(g);
}

#[test]
fn clone_node_is_unattached_copy() {
    let mut f: Forest<Item> = Forest::new(1);
    let n = make(&mut f, 3);
    let g = n[0].borrow_mut(&mut f);
    let h = n[1].clone(&mut f);
    ForestNode::append(&mut f, &n[0], h);
    let h = n[2].clone(&mut f);
    ForestNode::append(&mut f, &n[1], h);
    let copy = n[1].clone_node_with(&mut f);
    assert!(!ForestNodeRc::ptr_eq(&copy, &n[1]));
    let node = copy.forest_node(&f);
    assert_eq!(node.content().name, 1);
    assert_eq!(node.len(), 0);
    assert!(!node.has_parent());
    assert_eq!(node.content().capsule.map(|c| c.issued_for()), Some(copy.slot()));
    f.release_mut(g);
}

#[test]
fn capsule_resolves_through_matching_slot() {
    let mut f: Forest<Item> = Forest::new(1);
    let a = ForestNodeRc::new(&mut f, item(3));
    let g = a.borrow(&mut f);
    let cap = a.forest_node(&f).content().capsule.unwrap();
    let node = cap.deref_by(&f, a.slot());
    assert_eq!(node.content().name, 3);
    assert_eq!(a.deref_with(&f, node).content().name, 3);
    assert_eq!(node.rc().slot(), a.slot());
    f.release(g);
    let again = cap.rc(&mut f).unwrap();
    assert!(ForestNodeRc::ptr_eq(&again, &a));
    again.release(&mut f);
    a.release(&mut f);
    assert!(cap.rc(&mut f).is_none());
}

#[test]
fn hooks_count_parent_changes() {
    let mut f: Forest<Item> = Forest::new(1);
    let n = make(&mut f, 3);
    let g = n[0].borrow_mut(&mut f);
    let h = n[2].clone(&mut f);
    ForestNode::append(&mut f, &n[0], h);
    let h = n[2].clone(&mut f);
    ForestNode::append(&mut f, &n[1], h);
    let h = n[2].clone(&mut f);
    ForestNode::insert(&mut f, &n[0], h, 0);
    assert_eq!(n[2].forest_node(&f).content().changes, 3);
    assert_eq!(n[0].forest_node(&f).content().changes, 0);
    f.release_mut(g);
}
