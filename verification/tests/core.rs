use digraph::GraphCore;
use digraph::GraphError;
use digraph::Node;

#[test]
fn test_node_add_edge() {
    {
        // standard case
        let mut n = Node::new(0);
        assert_eq!(n.add_edge(1), false);
    }
    {
        // children duplication
        let mut n = Node::new(0);
        assert_eq!(n.add_edge(1), false);
        assert_eq!(n.add_edge(1), true);
        assert_eq!(n.add_edge(1), true);
    }
    {
        // self cyclic (but no error)
        let mut n = Node::new(0);
        assert_eq!(n.add_edge(0), false);
        assert_eq!(n.add_edge(0), true);
    }
}

#[test]
fn core_add_node_reports_duplicate() {
    let mut g = GraphCore::new();
    assert_eq!(g.add_node(3), Ok(()));
    assert_eq!(g.add_node(3), Err(GraphError::DuplicateNode(3)));
    assert_eq!(g.add_node(4), Ok(()));
}

#[test]
fn core_add_edge_reports_prior_presence() {
    let mut g = GraphCore::new();
    assert_eq!(g.add_node(0), Ok(()));
    assert_eq!(g.add_edge(0, 1), false);
    assert_eq!(g.add_edge(0, 1), true);
    assert_eq!(g.add_edge(0, 0), false);
    assert_eq!(g.add_edge(0, 0), true);
}

#[test]
fn core_detect_cycle_empty_graph() {
    let g = GraphCore::new();
    assert_eq!(g.detect_cycle(), None);
}

#[test]
fn core_traverse_visits_reachable_once() {
    let mut g = GraphCore::new();
    for id in 0..5 {
        assert_eq!(g.add_node(id), Ok(()));
    }
    // 0 -> 1, 0 -> 2, 1 -> 3, with a redundant 0 -> 1; node 4 is unreachable.
    g.add_edge(0, 1);
    g.add_edge(0, 2);
    g.add_edge(1, 3);
    assert_eq!(g.add_edge(0, 1), true);
    let order = g.traverse(0);
    assert_eq!(order[0], 0);
    assert_eq!(order.len(), 4);
    for id in 0..4 {
        assert_eq!(order.iter().filter(|&&x| x == id).count(), 1);
    }
    assert!(!order.contains(&4));
}

#[test]
fn core_traverse_reaches_unregistered_targets() {
    let mut g = GraphCore::new();
    assert_eq!(g.add_node(5), Ok(()));
    g.add_edge(5, 7);
    let order = g.traverse(5);
    assert_eq!(order, vec![5, 7]);
}

#[test]
fn core_traverse_unregistered_start_is_a_no_op() {
    let mut g = GraphCore::new();
    assert_eq!(g.add_node(0), Ok(()));
    g.add_edge(0, 1);
    let order = g.traverse(9);
    assert_eq!(order, Vec::<usize>::new());
}
