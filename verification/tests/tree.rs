use arena_graph::{GraphError, NodeHandle, Tree, NODE_CAPACITY};

#[test]
fn root_takes_slot_zero() {
    let t = Tree::new(44);
    assert_eq!(t.root(), (0, 0));
    assert_eq!(t.get(t.root()), Ok(&44));
    assert_eq!(t.node_count(), 1);
    assert_eq!(t.edge_count(), 0);
    assert_eq!(t.children(t.root()), Vec::<NodeHandle>::new());
}

#[test]
fn children_are_listed_in_attach_order() {
    let mut t = Tree::new(44);
    let c1 = t.attach(t.root(), 55).unwrap();
    let c2 = t.attach(t.root(), 66).unwrap();
    assert_eq!(t.children(t.root()), vec![c1, c2]);
    assert_eq!(t.get(c1), Ok(&55));
    assert_eq!(t.get(c2), Ok(&66));
}

#[test]
fn get_mut_replaces_a_payload() {
    let mut t = Tree::new(44);
    let c1 = t.attach(t.root(), 55).unwrap();
    let c2 = t.attach(t.root(), 66).unwrap();
    *t.get_mut(c2).unwrap() = 77;
    assert_eq!(t.get(c2), Ok(&77));
    assert_eq!(t.get(c1), Ok(&55));
    assert_eq!(t.get(t.root()), Ok(&44));
}

#[test]
fn removing_a_node_removes_what_is_below_it() {
    let mut t = Tree::new(1);
    let c1 = t.attach(t.root(), 2).unwrap();
    let c2 = t.attach(c1, 3).unwrap();
    assert_eq!(t.node_count(), 3);
    assert_eq!(t.remove(c1), Ok(2));
    assert_eq!(t.node_count(), 1);
    assert_eq!(t.get(c2), Err(GraphError::GenerationMismatch));
    assert_eq!(t.get(c1), Err(GraphError::GenerationMismatch));
    assert_eq!(t.edge_count(), 0);
    assert_eq!(t.get(t.root()), Ok(&1));
}

#[test]
fn cascade_counts_one_and_the_descendants() {
    let mut t = Tree::new(0);
    let a = t.attach(t.root(), 1).unwrap();
    let b = t.attach(t.root(), 2).unwrap();
    let a1 = t.attach(a, 11).unwrap();
    let a2 = t.attach(a, 12).unwrap();
    let b1 = t.attach(b, 21).unwrap();
    let a11 = t.attach(a1, 111).unwrap();
    let a12 = t.attach(a1, 112).unwrap();
    assert_eq!(t.node_count(), 8);
    assert_eq!(t.edge_count(), 7);
    assert_eq!(t.remove(a), Ok(1));
    assert_eq!(t.node_count(), 3);
    assert_eq!(t.edge_count(), 2);
    for gone in [a, a1, a2, a11, a12] {
        assert_eq!(t.get(gone), Err(GraphError::GenerationMismatch));
    }
    assert_eq!(t.get(b), Ok(&2));
    assert_eq!(t.get(b1), Ok(&21));
    assert_eq!(t.children(t.root()), vec![b]);
    assert_eq!(t.children(b), vec![b1]);
}

#[test]
fn cascade_frees_children_first_oldest_first() {
    let mut t = Tree::new(0);
    let a = t.attach(t.root(), 1).unwrap();
    let b = t.attach(a, 2).unwrap();
    let c = t.attach(a, 3).unwrap();
    let d = t.attach(b, 4).unwrap();
    assert_eq!((a.0, b.0, c.0, d.0), (1, 2, 3, 4));
    assert_eq!(t.remove(a), Ok(1));
    assert_eq!(t.attach(t.root(), 10), Ok((d.0, 1)));
    assert_eq!(t.attach(t.root(), 11), Ok((b.0, 1)));
    assert_eq!(t.attach(t.root(), 12), Ok((c.0, 1)));
    assert_eq!(t.attach(t.root(), 13), Ok((a.0, 1)));
    assert_eq!(t.attach(t.root(), 14), Ok((5, 0)));
}

#[test]
fn removing_a_leaf_keeps_its_siblings_in_order() {
    let mut t = Tree::new(0);
    let a = t.attach(t.root(), 1).unwrap();
    let b = t.attach(t.root(), 2).unwrap();
    let c = t.attach(t.root(), 3).unwrap();
    assert_eq!(t.remove(b), Ok(2));
    assert_eq!(t.children(t.root()), vec![a, c]);
    let d = t.attach(t.root(), 4).unwrap();
    assert_eq!(d, (b.0, 1));
    assert_eq!(t.children(t.root()), vec![a, c, d]);
    assert_eq!(t.children(b), Vec::<NodeHandle>::new());
}

#[test]
fn reused_slot_starts_without_children() {
    let mut t = Tree::new(0);
    let a = t.attach(t.root(), 1).unwrap();
    let a1 = t.attach(a, 2).unwrap();
    assert_eq!(t.remove(a), Ok(1));
    let x = t.attach(t.root(), 5).unwrap();
    let y = t.attach(t.root(), 6).unwrap();
    assert_eq!(x, (a1.0, 1));
    assert_eq!(y, (a.0, 1));
    assert_eq!(t.children(x), Vec::<NodeHandle>::new());
    assert_eq!(t.children(y), Vec::<NodeHandle>::new());
    assert_eq!(t.children(t.root()), vec![x, y]);
}

#[test]
fn removing_a_stale_node_changes_nothing() {
    let mut t = Tree::new(0);
    let a = t.attach(t.root(), 1).unwrap();
    assert_eq!(t.remove(a), Ok(1));
    let b = t.attach(t.root(), 2).unwrap();
    let b1 = t.attach(b, 3).unwrap();
    assert_eq!(b.0, a.0);
    assert_eq!(t.remove(a), Err(GraphError::GenerationMismatch));
    assert_eq!(t.node_count(), 3);
    assert_eq!(t.edge_count(), 2);
    assert_eq!(t.get(b), Ok(&2));
    assert_eq!(t.get(b1), Ok(&3));
    assert_eq!(t.children(b), vec![b1]);
}

#[test]
fn stale_handle_to_the_root_slot_is_rejected() {
    let mut t = Tree::new(7);
    let a = t.attach(t.root(), 1).unwrap();
    assert_eq!(t.remove((0, 3)), Err(GraphError::GenerationMismatch));
    assert_eq!(t.node_count(), 2);
    assert_eq!(t.edge_count(), 1);
    assert_eq!(t.get(t.root()), Ok(&7));
    assert_eq!(t.children(t.root()), vec![a]);
}

#[test]
fn root_outlives_every_removal() {
    let mut t = Tree::new(7);
    for round in 0..5 {
        let a = t.attach(t.root(), round).unwrap();
        let b = t.attach(a, round).unwrap();
        t.attach(b, round).unwrap();
        assert_eq!(t.node_count(), 4);
        assert_eq!(t.remove(a), Ok(round));
        assert_eq!(t.node_count(), 1);
        assert_eq!(t.edge_count(), 0);
        assert_eq!(t.root(), (0, 0));
        assert_eq!(t.get(t.root()), Ok(&7));
    }
}

#[test]
fn attach_to_a_stale_parent_is_rejected() {
    let mut t = Tree::new(0);
    let a = t.attach(t.root(), 1).unwrap();
    assert_eq!(t.remove(a), Ok(1));
    assert_eq!(t.attach(a, 2), Err(GraphError::GenerationMismatch));
    assert_eq!(t.attach((50, 0), 2), Err(GraphError::GenerationMismatch));
    assert_eq!(t.attach((a.0, a.1 + 1), 2), Err(GraphError::GenerationMismatch));
    assert_eq!(t.node_count(), 1);
    assert_eq!(t.edge_count(), 0);
    assert_eq!(t.attach(t.root(), 3), Ok((a.0, 1)));
}

#[test]
fn attach_fails_on_a_full_tree() {
    let mut t = Tree::new(0usize);
    let mut last = t.root();
    for k in 1..NODE_CAPACITY {
        last = t.attach(last, k).unwrap();
        assert_eq!(last, (k, 0));
    }
    assert_eq!(t.node_count(), NODE_CAPACITY);
    assert_eq!(t.edge_count(), NODE_CAPACITY - 1);
    assert_eq!(t.attach(t.root(), 999), Err(GraphError::CapacityExceeded));
    assert_eq!(t.node_count(), NODE_CAPACITY);
    assert_eq!(t.edge_count(), NODE_CAPACITY - 1);
    assert_eq!(t.remove((1, 0)), Ok(1));
    assert_eq!(t.node_count(), 1);
    assert_eq!(t.edge_count(), 0);
    assert_eq!(t.attach(t.root(), 5), Ok((NODE_CAPACITY - 1, 1)));
}

#[test]
fn tree_lookup_errors_match_the_arena() {
    let mut t = Tree::new(String::from("root"));
    let a = t.attach(t.root(), String::from("a")).unwrap();
    assert_eq!(t.remove(a), Ok(String::from("a")));
    assert_eq!(t.get(a), Err(GraphError::GenerationMismatch));
    assert_eq!(t.get_mut(a).err(), Some(GraphError::GenerationMismatch));
    assert_eq!(t.get((a.0, a.1 + 1)), Err(GraphError::GenerationMismatch));
    assert_eq!(t.get_mut((a.0, a.1 + 1)).err(), Some(GraphError::GenerationMismatch));
    t.get_mut(t.root()).unwrap().push_str("ed");
    assert_eq!(t.get(t.root()).unwrap(), "rooted");
}

#[test]
fn root_removal_is_turned_down_without_a_change() {
    let mut t = Tree::new(1);
    let c = t.attach(t.root(), 2).unwrap();
    assert_eq!(t.try_remove(t.root()), None);
    assert_eq!(t.node_count(), 2);
    assert_eq!(t.edge_count(), 1);
    assert_eq!(t.root(), (0, 0));
    assert_eq!(t.get(t.root()), Ok(&1));
    assert_eq!(t.get(c), Ok(&2));
    assert_eq!(t.children(t.root()), vec![c]);
    assert_eq!(t.attach(t.root(), 3), Ok((2, 0)));
}

#[test]
fn root_removal_is_turned_down_in_a_tree_of_one() {
    let mut t = Tree::new(String::from("only"));
    assert_eq!(t.try_remove(t.root()), None);
    assert_eq!(t.try_remove(t.root()), None);
    assert_eq!(t.node_count(), 1);
    assert_eq!(t.edge_count(), 0);
    assert_eq!(t.get(t.root()).unwrap(), "only");
}

#[test]
fn try_remove_removes_every_other_node() {
    let mut t = Tree::new(0);
    let a = t.attach(t.root(), 1).unwrap();
    let b = t.attach(a, 2).unwrap();
    assert_eq!(t.try_remove(b), Some(Ok(2)));
    assert_eq!(t.try_remove(b), Some(Err(GraphError::GenerationMismatch)));
    assert_eq!(t.try_remove((0, 9)), Some(Err(GraphError::GenerationMismatch)));
    assert_eq!(t.try_remove(a), Some(Ok(1)));
    assert_eq!(t.node_count(), 1);
    assert_eq!(t.get(t.root()), Ok(&0));
}
