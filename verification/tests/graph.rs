use arena_graph::handle::bump;
use arena_graph::{Graph, GraphError, NodeHandle, EDGE_CAPACITY, NODE_CAPACITY};

#[test]
fn new_graph_is_empty() {
    let g: Graph<i32> = Graph::new();
    assert_eq!(g.node_count(), 0);
    assert_eq!(g.edge_count(), 0);
    assert_eq!(g.get((0, 0)), Err(GraphError::GenerationMismatch));
}

#[test]
fn first_handles_take_new_slots_under_generation_zero() {
    let mut g: Graph<i32> = Graph::new();
    assert_eq!(g.insert(10), Ok((0, 0)));
    assert_eq!(g.insert(11), Ok((1, 0)));
    assert_eq!(g.insert(12), Ok((2, 0)));
    assert_eq!(g.node_count(), 3);
    assert_eq!(g.get((0, 0)), Ok(&10));
    assert_eq!(g.get((1, 0)), Ok(&11));
    assert_eq!(g.get((2, 0)), Ok(&12));
}

#[test]
fn removed_slot_is_reused_under_the_next_generation() {
    let mut g: Graph<i32> = Graph::new();
    let h = g.insert(9).unwrap();
    assert_eq!(g.remove(h), Ok(9));
    let h2 = g.insert(10).unwrap();
    assert_eq!(h2, (h.0, h.1 + 1));
    assert_eq!(g.get(h), Err(GraphError::GenerationMismatch));
    assert_eq!(g.get(h2), Ok(&10));
}

#[test]
fn stale_handle_stays_rejected_across_reuse() {
    let mut g: Graph<i32> = Graph::new();
    let h = g.insert(1).unwrap();
    assert_eq!(g.remove(h), Ok(1));
    assert_eq!(g.get(h), Err(GraphError::GenerationMismatch));
    assert_eq!(g.get_mut(h).err(), Some(GraphError::GenerationMismatch));
    assert_eq!(g.remove(h), Err(GraphError::GenerationMismatch));
    let h2 = g.insert(2).unwrap();
    assert_eq!(g.get(h), Err(GraphError::GenerationMismatch));
    assert_eq!(g.get_mut(h).err(), Some(GraphError::GenerationMismatch));
    assert_eq!(g.remove(h), Err(GraphError::GenerationMismatch));
    assert_eq!(g.remove(h2), Ok(2));
    let h3 = g.insert(3).unwrap();
    assert_eq!(h3, (0, 2));
    assert_eq!(g.get(h), Err(GraphError::GenerationMismatch));
    assert_eq!(g.get(h2), Err(GraphError::GenerationMismatch));
    assert_eq!(g.get(h3), Ok(&3));
}

#[test]
fn free_slots_are_reused_oldest_first() {
    let mut g: Graph<i32> = Graph::new();
    let a = g.insert(1).unwrap();
    let b = g.insert(2).unwrap();
    let c = g.insert(3).unwrap();
    assert_eq!(g.remove(b), Ok(2));
    assert_eq!(g.remove(a), Ok(1));
    assert_eq!(g.remove(c), Ok(3));
    assert_eq!(g.node_count(), 0);
    assert_eq!(g.insert(20), Ok((1, 1)));
    assert_eq!(g.insert(10), Ok((0, 1)));
    assert_eq!(g.insert(30), Ok((2, 1)));
    assert_eq!(g.insert(40), Ok((3, 0)));
    assert_eq!(g.get((1, 1)), Ok(&20));
    assert_eq!(g.get((0, 1)), Ok(&10));
    assert_eq!(g.get((2, 1)), Ok(&30));
    assert_eq!(g.node_count(), 4);
}

#[test]
fn live_handles_never_share_a_slot() {
    let mut g: Graph<usize> = Graph::new();
    let mut live: Vec<NodeHandle> = Vec::new();
    for round in 0..6 {
        for k in 0..10 {
            let h = g.insert(round * 100 + k).unwrap();
            for other in &live {
                assert_ne!(h.0, other.0);
                assert_ne!(h, *other);
            }
            live.push(h);
        }
        let mut k = 0;
        while k < live.len() {
            let h = live.remove(k);
            assert!(g.remove(h).is_ok());
            k += 2;
        }
    }
    assert_eq!(g.node_count(), live.len());
    for h in &live {
        assert!(g.get(*h).is_ok());
    }
}

#[test]
fn handle_of_a_slot_that_was_never_made_is_a_mismatch() {
    let mut g: Graph<i32> = Graph::new();
    g.insert(1).unwrap();
    assert_eq!(g.get((1, 0)), Err(GraphError::GenerationMismatch));
    assert_eq!(g.get((usize::MAX, 0)), Err(GraphError::GenerationMismatch));
    assert_eq!(g.get((0, 1)), Err(GraphError::GenerationMismatch));
    assert_eq!(g.remove((7, 0)), Err(GraphError::GenerationMismatch));
    assert_eq!(g.get_mut((7, 0)).err(), Some(GraphError::GenerationMismatch));
    assert_eq!(g.node_count(), 1);
}

#[test]
fn handle_to_an_empty_slot_is_a_mismatch() {
    let mut g: Graph<i32> = Graph::new();
    let h = g.insert(9).unwrap();
    assert_eq!(g.remove(h), Ok(9));
    let forged = (h.0, h.1 + 1);
    assert_eq!(forged, (0, 1));
    assert_eq!(g.get(forged), Err(GraphError::GenerationMismatch));
    assert_eq!(g.get_mut(forged).err(), Some(GraphError::GenerationMismatch));
    assert_eq!(g.remove(forged), Err(GraphError::GenerationMismatch));
    assert_eq!(g.remove(forged), Err(GraphError::GenerationMismatch));
    assert_eq!(g.node_count(), 0);
    assert_eq!(g.insert(2), Ok(forged));
    assert_eq!(g.get(forged), Ok(&2));
    assert_eq!(g.insert(3), Ok((1, 0)));
}

#[test]
fn no_lookup_gives_unexpected() {
    let mut g: Graph<usize> = Graph::new();
    for k in 0..4 {
        g.insert(k).unwrap();
    }
    assert_eq!(g.remove((1, 0)), Ok(1));
    assert_eq!(g.remove((3, 0)), Ok(3));
    g.insert(10).unwrap();
    for slot in 0..6 {
        for generation in 0..4 {
            let h = (slot, generation);
            let found = g.get(h).is_ok();
            assert_ne!(g.get(h), Err(GraphError::Unexpected));
            assert_ne!(g.get_mut(h).err(), Some(GraphError::Unexpected));
            if !found {
                assert_eq!(g.get(h), Err(GraphError::GenerationMismatch));
                assert_eq!(g.get_mut(h).err(), Some(GraphError::GenerationMismatch));
            }
        }
    }
    assert_eq!(g.node_count(), 3);
    assert_eq!(g.remove((3, 1)), Err(GraphError::GenerationMismatch));
    assert_eq!(g.remove((3, 0)), Err(GraphError::GenerationMismatch));
    assert_eq!(g.node_count(), 3);
}

#[test]
fn insert_fails_on_a_full_arena() {
    let mut g: Graph<usize> = Graph::new();
    for k in 0..NODE_CAPACITY {
        assert_eq!(g.insert(k), Ok((k, 0)));
    }
    assert_eq!(g.node_count(), NODE_CAPACITY);
    assert_eq!(g.insert(999), Err(GraphError::CapacityExceeded));
    assert_eq!(g.node_count(), NODE_CAPACITY);
    assert_eq!(g.get((NODE_CAPACITY - 1, 0)), Ok(&(NODE_CAPACITY - 1)));
    assert_eq!(g.remove((5, 0)), Ok(5));
    assert_eq!(g.insert(1000), Ok((5, 1)));
    assert_eq!(g.insert(1001), Err(GraphError::CapacityExceeded));
    assert_eq!(g.get((5, 1)), Ok(&1000));
}

#[test]
fn get_mut_changes_one_payload() {
    let mut g: Graph<String> = Graph::new();
    let a = g.insert(String::from("a")).unwrap();
    let b = g.insert(String::from("b")).unwrap();
    g.get_mut(a).unwrap().push('!');
    *g.get_mut(b).unwrap() = String::from("bee");
    assert_eq!(g.get(a).unwrap(), "a!");
    assert_eq!(g.get(b).unwrap(), "bee");
    assert_eq!(g.remove(a), Ok(String::from("a!")));
    assert_eq!(g.get(b).unwrap(), "bee");
}

#[test]
fn directed_connect_is_one_way_by_slot() {
    let mut g: Graph<i32> = Graph::new();
    let a = g.insert(1).unwrap();
    let b = g.insert(2).unwrap();
    let c = g.insert(3).unwrap();
    g.directed_connect(a, b);
    assert_eq!(g.edge_count(), 1);
    assert!(g.is_directed_connected(a, b));
    assert!(!g.is_directed_connected(b, a));
    assert!(g.is_connected(a, b));
    assert!(g.is_connected(b, a));
    assert!(!g.is_connected(a, c));
    assert!(!g.is_directed_connected(a, c));
    assert!(!g.is_connected(a, a));
}

#[test]
fn connect_adds_both_directions() {
    let mut g: Graph<i32> = Graph::new();
    let a = g.insert(1).unwrap();
    let b = g.insert(2).unwrap();
    g.connect(a, b);
    assert_eq!(g.edge_count(), 2);
    assert!(g.is_directed_connected(a, b));
    assert!(g.is_directed_connected(b, a));
    assert_eq!(g.neighbors(a), vec![b]);
    assert_eq!(g.neighbors(b), vec![a]);
}

#[test]
fn connection_queries_go_by_slot_not_generation() {
    let mut g: Graph<i32> = Graph::new();
    let a = g.insert(1).unwrap();
    let b = g.insert(2).unwrap();
    g.directed_connect(a, b);
    assert!(g.is_connected((a.0, 41), (b.0, 42)));
    assert!(g.is_directed_connected((a.0, 41), (b.0, 42)));
    assert_eq!(g.neighbors((a.0, 41)), vec![b]);
}

#[test]
fn edges_are_stored_as_given() {
    let mut g: Graph<i32> = Graph::new();
    g.directed_connect((3, 7), (9, 1));
    g.directed_connect((3, 7), (9, 1));
    assert_eq!(g.edge_count(), 2);
    assert_eq!(g.neighbors((3, 0)), vec![(9, 1), (9, 1)]);
    assert!(g.is_directed_connected((3, 0), (9, 0)));
    assert_eq!(g.node_count(), 0);
}

#[test]
fn neighbors_come_in_edge_order() {
    let mut g: Graph<i32> = Graph::new();
    let a = g.insert(1).unwrap();
    let b = g.insert(2).unwrap();
    let c = g.insert(3).unwrap();
    let d = g.insert(4).unwrap();
    g.directed_connect(a, d);
    g.directed_connect(b, a);
    g.directed_connect(a, b);
    g.directed_connect(a, c);
    assert_eq!(g.neighbors(a), vec![d, b, c]);
    assert_eq!(g.neighbors(b), vec![a]);
    assert_eq!(g.neighbors(c), Vec::<NodeHandle>::new());
}

#[test]
fn disconnect_drops_every_edge_at_the_slot_and_keeps_order() {
    let mut g: Graph<i32> = Graph::new();
    let a = g.insert(1).unwrap();
    let b = g.insert(2).unwrap();
    let c = g.insert(3).unwrap();
    let d = g.insert(4).unwrap();
    g.directed_connect(a, c);
    g.directed_connect(a, b);
    g.directed_connect(b, d);
    g.directed_connect(a, d);
    g.directed_connect(c, b);
    g.disconnect(b);
    assert_eq!(g.edge_count(), 2);
    assert_eq!(g.neighbors(a), vec![c, d]);
    assert!(!g.is_connected(a, b));
    assert!(!g.is_connected(b, d));
    assert!(!g.is_connected(c, b));
    assert_eq!(g.node_count(), 4);
    assert_eq!(g.get(b), Ok(&2));
}

#[test]
fn remove_leaves_no_edge_at_the_slot() {
    let mut g: Graph<i32> = Graph::new();
    let a = g.insert(1).unwrap();
    let b = g.insert(2).unwrap();
    let c = g.insert(3).unwrap();
    g.connect(a, b);
    g.connect(b, c);
    g.directed_connect(a, c);
    assert_eq!(g.edge_count(), 5);
    assert_eq!(g.remove(b), Ok(2));
    assert_eq!(g.edge_count(), 1);
    assert!(!g.is_connected(a, b));
    assert!(!g.is_connected(c, b));
    assert!(g.is_directed_connected(a, c));
    let b2 = g.insert(20).unwrap();
    assert_eq!(b2.0, b.0);
    assert_eq!(g.neighbors(b2), Vec::<NodeHandle>::new());
    assert!(!g.is_connected(a, b2));
}

#[test]
fn failed_remove_changes_nothing() {
    let mut g: Graph<i32> = Graph::new();
    let a = g.insert(1).unwrap();
    let b = g.insert(2).unwrap();
    g.connect(a, b);
    assert_eq!(g.remove((a.0, 5)), Err(GraphError::GenerationMismatch));
    assert_eq!(g.node_count(), 2);
    assert_eq!(g.edge_count(), 2);
    assert_eq!(g.get(a), Ok(&1));
    assert!(g.is_connected(a, b));
    assert_eq!(g.insert(3), Ok((2, 0)));
}

#[test]
fn edge_store_holds_its_capacity() {
    let mut g: Graph<i32> = Graph::new();
    let a = g.insert(1).unwrap();
    let b = g.insert(2).unwrap();
    for _ in 0..EDGE_CAPACITY / 2 {
        g.connect(a, b);
    }
    assert_eq!(g.edge_count(), EDGE_CAPACITY);
    assert_eq!(g.neighbors(a).len(), EDGE_CAPACITY / 2);
    g.disconnect(a);
    assert_eq!(g.edge_count(), 0);
    g.directed_connect(a, b);
    assert_eq!(g.edge_count(), 1);
}

#[test]
fn generation_counter_wraps() {
    assert_eq!(bump(0), 1);
    assert_eq!(bump(41), 42);
    assert_eq!(bump(usize::MAX - 1), usize::MAX);
    assert_eq!(bump(usize::MAX), 0);
}
