use digraph::Graph;
use digraph::GraphError;

#[test]
fn test_graph_add_node() {
    {
        // standard case
        let mut g = Graph::new();
        assert_eq!(g.add_node(0), Ok(()))
    }
    {
        // node duplication
        let mut g = Graph::new();
        let _ = g.add_node(0);
        assert_eq!(g.add_node(0).is_err(), true);
    }
}

#[test]
fn graph_test_detect_cycle_no_cycle() {
    let mut g = Graph::new();
    let _ = g.add_node("A");
    let _ = g.add_node("B");
    let _ = g.add_node("C");
    let _ = g.add_edge(&"A", &"B");
    let _ = g.add_edge(&"B", &"C");

    assert_eq!(g.detect_cycle(), None);
}

#[test]
fn graph_test_detect_cycle_single_cycle() {
    let mut g = Graph::new();
    let _ = g.add_node("A");
    let _ = g.add_node("B");
    let _ = g.add_node("C");
    let _ = g.add_edge(&"A", &"B");
    let _ = g.add_edge(&"B", &"C");
    let _ = g.add_edge(&"C", &"A"); // cycle A -> B -> C -> A

    let cycle = g.detect_cycle().unwrap();
    assert!(cycle.len() >= 3);
    assert_eq!(cycle.first(), cycle.last()); // the cycle is closed
}

#[test]
fn graph_test_detect_cycle_multiple_cycles() {
    let mut g = Graph::new();
    let _ = g.add_node("A");
    let _ = g.add_node("B");
    let _ = g.add_node("C");
    let _ = g.add_node("X");
    let _ = g.add_node("Y");
    let _ = g.add_edge(&"A", &"B");
    let _ = g.add_edge(&"B", &"C");
    let _ = g.add_edge(&"C", &"A"); // first cycle: A -> B -> C -> A
    let _ = g.add_edge(&"X", &"Y");
    let _ = g.add_edge(&"Y", &"X"); // second cycle: X -> Y -> X

    let cycle = g.detect_cycle().unwrap();
    assert!(cycle.len() >= 3);
    assert_eq!(cycle.first(), cycle.last());
}

#[test]
fn graph_test_detect_cycle_self_loop() {
    let mut g = Graph::new();
    let _ = g.add_node("A");
    let _ = g.add_edge(&"A", &"A"); // self-loop

    let cycle = g.detect_cycle().unwrap();
    assert_eq!(cycle, vec![&"A", &"A"]); // the A -> A self-loop
}

#[test]
fn test_detect_cycle_with_numbers() {
    let mut g = Graph::new();
    let _ = g.add_node(1);
    let _ = g.add_node(2);
    let _ = g.add_node(3);
    let _ = g.add_edge(&1, &2);
    let _ = g.add_edge(&2, &3);
    let _ = g.add_edge(&3, &1); // cycle 1 -> 2 -> 3 -> 1

    let cycle = g.detect_cycle().unwrap();
    assert!(cycle.len() >= 3);
    assert_eq!(cycle.first(), cycle.last());
}

#[test]
fn duplicate_add_node_reports_key_and_changes_nothing() {
    let mut g = Graph::new();
    assert_eq!(g.add_node("A"), Ok(()));
    assert_eq!(g.add_node("B"), Ok(()));
    assert_eq!(g.add_edge(&"A", &"B"), Ok(false));
    // The second registration fails even with intervening operations...
    assert_eq!(g.add_node("A"), Err(GraphError::DuplicateNode("A")));
    // ...and the earlier state is intact: the edge is still there, the
    // keys still resolve.
    assert_eq!(g.add_edge(&"A", &"B"), Ok(true));
    assert_eq!(g.get_node_by_id(&0), Some(&"A"));
    assert_eq!(g.get_node_by_id(&1), Some(&"B"));
    assert_eq!(g.get_node_by_id(&2), None);
}

#[test]
fn distinct_keys_each_get_an_identifier() {
    let mut g = Graph::new();
    for key in ["p", "q", "r", "s"] {
        assert_eq!(g.add_node(key), Ok(()));
    }
    assert_eq!(g.get_node_by_id(&0), Some(&"p"));
    assert_eq!(g.get_node_by_id(&1), Some(&"q"));
    assert_eq!(g.get_node_by_id(&2), Some(&"r"));
    assert_eq!(g.get_node_by_id(&3), Some(&"s"));
}

#[test]
fn add_edge_duplicate_indicator() {
    let mut g = Graph::new();
    let _ = g.add_node("A");
    let _ = g.add_node("B");
    assert_eq!(g.add_edge(&"A", &"B"), Ok(false));
    assert_eq!(g.add_edge(&"A", &"B"), Ok(true));
    assert_eq!(g.add_edge(&"A", &"B"), Ok(true));
    // The edge exists in both cases: it closes a cycle with B -> A.
    let _ = g.add_edge(&"B", &"A");
    assert!(g.detect_cycle().is_some());
}

#[test]
fn add_edge_unknown_key_names_offender_and_changes_nothing() {
    let mut g = Graph::new();
    assert_eq!(g.add_node(1), Ok(()));
    assert_eq!(g.add_edge(&1, &99), Err(GraphError::UnknownNode(99)));
    assert_eq!(g.add_edge(&99, &1), Err(GraphError::UnknownNode(99)));
    assert_eq!(g.add_edge(&7, &99), Err(GraphError::UnknownNode(7)));
    // Nothing was recorded: the graph is still acyclic and the only valid
    // edge is still reported as new.
    assert_eq!(g.detect_cycle(), None);
    assert_eq!(g.add_edge(&1, &1), Ok(false));
}

#[test]
fn traverse_visits_reachable_keys_once() {
    let mut g = Graph::new();
    for key in ["A", "B", "C", "D", "E"] {
        let _ = g.add_node(key);
    }
    let _ = g.add_edge(&"A", &"B");
    let _ = g.add_edge(&"A", &"C");
    let _ = g.add_edge(&"B", &"D");
    let _ = g.add_edge(&"A", &"B"); // redundant edge
    let _ = g.add_edge(&"D", &"A"); // cycle back to the root

    let order = g.traverse(&"A");
    assert_eq!(order.len(), 4);
    assert_eq!(*order[0], "A");
    for key in ["A", "B", "C", "D"] {
        assert_eq!(order.iter().filter(|&&&k| k == key).count(), 1);
    }
    assert!(!order.contains(&&"E"));
}

#[test]
fn traverse_unregistered_key_is_a_no_op() {
    let mut g = Graph::new();
    let _ = g.add_node("A");
    let order = g.traverse(&"Z");
    assert_eq!(order.len(), 0);
}
