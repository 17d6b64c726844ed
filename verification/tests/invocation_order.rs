use jokolay::dep_graph::{get_invocation_order, DepGraph};

#[test]
fn test_invocation_order_1() {
    let mut my_graph = DepGraph::default();
    let a = my_graph.add_node("a".to_string());
    let b = my_graph.add_node("b".to_string());
    let c = my_graph.add_node("c".to_string());
    let d = my_graph.add_node("d".to_string());
    let _e = my_graph.add_node("e".to_string());

    my_graph.add_edge(b, c, 1);
    my_graph.add_edge(a, c, 1);
    my_graph.add_edge(c, d, 1);
    my_graph.add_edge(a, d, 1);

    let invocation_order = get_invocation_order(&mut my_graph, |_e| true);
    assert!(my_graph.node_count() == 0);
    assert_eq!(invocation_order, vec![3, 4, 2, 0, 1]);
}

#[test]
fn test_invocation_order_2() {
    let mut my_graph = DepGraph::default();
    let a = my_graph.add_node("a".to_string());
    let b = my_graph.add_node("b".to_string());
    let c = my_graph.add_node("c".to_string());

    my_graph.add_edge(a, b, 1);
    my_graph.add_edge(b, a, 1);
    my_graph.add_edge(b, c, 1);

    let invocation_order = get_invocation_order(&mut my_graph, |_e| true);
    assert!(my_graph.node_count() == 2);
    assert_eq!(invocation_order, vec![2]);
}

#[test]
fn test_invocation_order_3() {
    let mut my_graph = DepGraph::default();
    let a = my_graph.add_node("1".to_string());
    let b = my_graph.add_node("2".to_string());
    let c = my_graph.add_node("3".to_string());

    my_graph.add_edge(a, b, 1);
    my_graph.add_edge(b, a, 1);
    my_graph.add_edge(b, c, 1);

    let _invocation_order = get_invocation_order(&mut my_graph, |_e| true);
    assert!(my_graph.node_count() == 2);
}

#[test]
fn test_invocation_order_4() {
    let mut my_graph = DepGraph::default();
    let a = my_graph.add_node("1".to_string());
    let b = my_graph.add_node("2".to_string());
    let c = my_graph.add_node("3".to_string());

    my_graph.add_edge(a, b, 1);
    my_graph.add_edge(b, c, 1);
    my_graph.add_edge(a, c, 1);

    let invocation_order = get_invocation_order(&mut my_graph, |_e| true);
    assert!(my_graph.node_count() == 0);
    assert_eq!(invocation_order, vec![2, 1, 0]);
}

#[test]
fn test_duplicate_node_value() {
    let mut my_graph = DepGraph::default();
    let a = my_graph.add_node("1".to_string());
    let b = my_graph.add_node("2".to_string());
    let c = my_graph.add_node("3".to_string());
    let _doublon = my_graph.add_node("3".to_string());

    my_graph.add_edge(a, b, 1);
    my_graph.add_edge(b, a, 1);
    my_graph.add_edge(a, c, 1);

    let _invocation_order = get_invocation_order(&mut my_graph, |_e| true);
    assert!(my_graph.node_count() == 2);
}

#[test]
fn filter_that_selects_nothing_peels_everything_at_once() {
    let mut my_graph = DepGraph::default();
    let a = my_graph.add_node("a".to_string());
    let b = my_graph.add_node("b".to_string());
    my_graph.add_edge(a, b, 1);
    my_graph.add_edge(b, a, 1);
    let invocation_order = get_invocation_order(&mut my_graph, |w| w == 7);
    assert_eq!(invocation_order, vec![0, 1]);
    assert_eq!(my_graph.node_count(), 0);
}

#[test]
fn invocation_order_lists_required_nodes_first() {
    // 0 -> 1 -> 2 with a selected weight: 2 first, then 1, then 0.
    let mut my_graph = DepGraph::default();
    let a = my_graph.add_node("a".to_string());
    let b = my_graph.add_node("b".to_string());
    let c = my_graph.add_node("c".to_string());
    my_graph.add_edge(a, b, 0);
    my_graph.add_edge(b, c, 0);
    my_graph.add_edge(c, a, 5);
    let invocation_order = get_invocation_order(&mut my_graph, |w| w == 0);
    assert_eq!(invocation_order, vec![2, 1, 0]);
}
