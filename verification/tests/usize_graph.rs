use digraph::GraphError;
use digraph::UsizeGraph;

#[test]
fn test_graph_add_edge() {
    {
        // not existing node
        let mut g = UsizeGraph::new();
        assert_eq!(g.add_edge(&0, &0).is_err(), true);
    }
    {
        // not existing node2
        let mut g = UsizeGraph::new();
        let _ = g.add_node(0);
        assert_eq!(g.add_edge(&0, &1).is_err(), true);
    }
    {
        // standard case
        let mut g = UsizeGraph::new();
        let _ = g.add_node(0);
        let _ = g.add_node(1);
        assert_eq!(g.add_edge(&0, &1), Ok(false));
    }
    {
        // edge duplication
        let mut g = UsizeGraph::new();
        let _ = g.add_node(0);
        let _ = g.add_node(1);
        assert_eq!(g.add_edge(&0, &1), Ok(false));
        assert_eq!(g.add_edge(&0, &1), Ok(true));
    }
    {
        // cyclic
        let mut g = UsizeGraph::new();
        let _ = g.add_node(0);
        let _ = g.add_node(1);
        assert_eq!(g.add_edge(&0, &1), Ok(false));
        assert_eq!(g.add_edge(&1, &0), Ok(false));
    }
}

#[test]
fn test_detect_cycle_no_cycle() {
    let mut g = UsizeGraph::new();
    let _ = g.add_node(0);
    let _ = g.add_node(1);
    let _ = g.add_node(2);
    let _ = g.add_edge(&0, &1);
    let _ = g.add_edge(&1, &2);

    assert_eq!(g.detect_cycle(), None);
}

#[test]
fn test_detect_cycle_single_cycle() {
    let mut g = UsizeGraph::new();
    let _ = g.add_node(0);
    let _ = g.add_node(1);
    let _ = g.add_node(2);
    let _ = g.add_edge(&0, &1);
    let _ = g.add_edge(&1, &2);
    let _ = g.add_edge(&2, &0); // cycle 0 -> 1 -> 2 -> 0

    let cycle = g.detect_cycle().unwrap();
    assert!(cycle.len() >= 3); // holds at least 3 nodes
    assert_eq!(cycle.first(), cycle.last()); // the cycle is closed
}

#[test]
fn test_detect_cycle_multiple_cycles() {
    let mut g = UsizeGraph::new();
    let _ = g.add_node(0);
    let _ = g.add_node(1);
    let _ = g.add_node(2);
    let _ = g.add_node(3);
    let _ = g.add_node(4);
    let _ = g.add_edge(&0, &1);
    let _ = g.add_edge(&1, &2);
    let _ = g.add_edge(&2, &0); // first cycle: 0 -> 1 -> 2 -> 0
    let _ = g.add_edge(&3, &4);
    let _ = g.add_edge(&4, &3); // second cycle: 3 -> 4 -> 3

    let cycle = g.detect_cycle().unwrap();
    println!("{:#?}", cycle);
    assert!(cycle.len() >= 3); // some cycle is found
    assert_eq!(cycle.first(), cycle.last());
}

#[test]
fn test_detect_cycle_self_loop() {
    let mut g = UsizeGraph::new();
    let _ = g.add_node(0);
    let _ = g.add_edge(&0, &0); // self-loop

    let cycle = g.detect_cycle().unwrap();
    assert_eq!(cycle, vec![0, 0]); // the self-loop cycle
}

#[test]
fn usize_keys_map_to_dense_identifiers() {
    let mut g = UsizeGraph::new();
    assert_eq!(g.add_node(2), Ok(()));
    assert_eq!(g.add_node(3), Ok(()));
    assert_eq!(g.add_node(0), Ok(()));
    // Identifiers are allocated in registration order, whatever the keys.
    assert_eq!(g.get_node_by_id(&0), Some(&2));
    assert_eq!(g.get_node_by_id(&1), Some(&3));
    assert_eq!(g.get_node_by_id(&2), Some(&0));
    assert_eq!(g.get_node_by_id(&3), None);
    // A duplicate key names itself in the error.
    assert_eq!(g.add_node(3), Err(GraphError::DuplicateNode(3)));
}

#[test]
fn usize_unknown_edge_key_names_offender() {
    let mut g = UsizeGraph::new();
    let _ = g.add_node(10);
    assert_eq!(g.add_edge(&10, &11), Err(GraphError::UnknownNode(11)));
    assert_eq!(g.add_edge(&11, &10), Err(GraphError::UnknownNode(11)));
    assert_eq!(g.detect_cycle(), None);
}

#[test]
fn usize_detect_cycle_reports_identifiers_not_keys() {
    let mut g = UsizeGraph::new();
    // Key 7 owns identifier 0.
    let _ = g.add_node(7);
    let _ = g.add_edge(&7, &7);
    let cycle = g.detect_cycle().unwrap();
    assert_eq!(cycle, vec![0, 0]);
    assert_eq!(g.get_node_by_id(&0), Some(&7));
}
