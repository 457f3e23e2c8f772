use lca::dag::lca;
use lca::graph::DiGraph;

/// Tests the normal case for lca in a connected dag
#[test]
fn testlca() {
    let mut map = DiGraph::new();
    let n1 = map.add_node("1");
    let n2 = map.add_node("2");
    let n3 = map.add_node("3");
    let n4 = map.add_node("4");
    let n5 = map.add_node("5");
    let n6 = map.add_node("6");
    let n7 = map.add_node("7");
    let n8 = map.add_node("8");
    map.add_edge(n1, n2);
    map.add_edge(n2, n3);
    map.add_edge(n2, n4);
    map.add_edge(n3, n5);
    map.add_edge(n4, n6);
    map.add_edge(n5, n7);
    map.add_edge(n6, n7);
    map.add_edge(n7, n8);
    assert_eq!(true, lca(&map, n1, n8).is_some());
    assert_eq!(n1, lca(&map, n1, n8).unwrap());

    assert_eq!(true, lca(&map, n7, n5).is_some());
    assert_eq!(n5, lca(&map, n7, n5).unwrap());

    assert_eq!(true, lca(&map, n3, n8).is_some());
    assert_eq!(n3, lca(&map, n3, n8).unwrap());
}

/// Test for when nodes are not connected, should return None
#[test]
fn testlca_notconnected() {
    let mut map = DiGraph::new();
    let n1 = map.add_node("1");
    let n2 = map.add_node("2");
    let n3 = map.add_node("3");
    let n4 = map.add_node("4");
    let n5 = map.add_node("5");
    let n6 = map.add_node("6");

    assert_eq!(false, lca(&map, n1, n2).is_some());
    assert_eq!(false, lca(&map, n3, n4).is_some());
    assert_eq!(false, lca(&map, n5, n6).is_some());
}

/// Tests that the same node is returned when the two nodes entered are the same
#[test]
fn testlca_samenode() {
    let mut map = DiGraph::new();
    let n1 = map.add_node("root");

    assert_eq!(true, lca(&map, n1, n1).is_some());
    assert_eq!(n1, lca(&map, n1, n1).unwrap());
}

/// Tests for a cycle in the graph, should return None
#[test]
fn testlca_cycle() {
    let mut map = DiGraph::new();
    let n1 = map.add_node("1");
    let n2 = map.add_node("2");
    let n3 = map.add_node("3");
    let n4 = map.add_node("4");
    let n5 = map.add_node("5");
    let n6 = map.add_node("6");
    map.add_edge(n4, n1);
    map.add_edge(n5, n1);
    map.add_edge(n1, n3);
    map.add_edge(n1, n4);
    map.add_edge(n2, n5);
    map.add_edge(n2, n6);
    assert_eq!(false, lca(&map, n1, n5).is_some());
}

/// Tests for separate connected graphs, should return None when nodes are not connected
#[test]
fn testlca_separategraph() {
    let mut map = DiGraph::new();
    let n1 = map.add_node("1");
    let n2 = map.add_node("2");
    let n3 = map.add_node("3");
    let n4 = map.add_node("4");
    let n5 = map.add_node("5");
    let n6 = map.add_node("6");
    let n7 = map.add_node("7");
    let n8 = map.add_node("8");

    map.add_edge(n1, n2);
    map.add_edge(n2, n3);
    map.add_edge(n2, n4);

    map.add_edge(n5, n6);
    map.add_edge(n5, n7);
    map.add_edge(n6, n8);

    assert_eq!(true, lca(&map, n2, n4).is_some());
    assert_eq!(n2, lca(&map, n2, n4).unwrap());

    assert_eq!(true, lca(&map, n7, n8).is_some());
    assert_eq!(n5, lca(&map, n7, n8).unwrap());

    assert_eq!(false, lca(&map, n4, n6).is_some());
}

/// The scenario with no distinguished root: the eight-node dag with a
/// diamond, queried pairwise.
#[test]
fn dag_scenario_pairs() {
    let mut g = DiGraph::new();
    let n1 = g.add_node("1");
    let n2 = g.add_node("2");
    let n3 = g.add_node("3");
    let n4 = g.add_node("4");
    let n5 = g.add_node("5");
    let n6 = g.add_node("6");
    let n7 = g.add_node("7");
    let n8 = g.add_node("8");
    g.add_edge(n1, n2);
    g.add_edge(n2, n3);
    g.add_edge(n2, n4);
    g.add_edge(n3, n5);
    g.add_edge(n4, n6);
    g.add_edge(n5, n7);
    g.add_edge(n6, n7);
    g.add_edge(n7, n8);
    assert_eq!(Some(n1), lca(&g, n1, n8));
    assert_eq!(Some(n5), lca(&g, n7, n5));
    assert_eq!(Some(n3), lca(&g, n3, n8));
}

/// Symmetry: swapping the queried pair never changes the answer.
#[test]
fn dag_symmetry() {
    let mut g = DiGraph::new();
    let n1 = g.add_node("1");
    let n2 = g.add_node("2");
    let n3 = g.add_node("3");
    let n4 = g.add_node("4");
    g.add_edge(n1, n2);
    g.add_edge(n1, n3);
    g.add_edge(n2, n4);
    g.add_edge(n3, n4);
    assert_eq!(lca(&g, n2, n3), lca(&g, n3, n2));
    assert_eq!(lca(&g, n1, n4), lca(&g, n4, n1));
    assert_eq!(lca(&g, n4, n4), lca(&g, n4, n4));
}

/// Ancestor absorption: when one node reaches the other, the reaching
/// node is the answer.
#[test]
fn dag_ancestor_absorption() {
    let mut g = DiGraph::new();
    let a = g.add_node("a");
    let b = g.add_node("b");
    let c = g.add_node("c");
    g.add_edge(a, b);
    g.add_edge(b, c);
    assert_eq!(Some(a), lca(&g, a, c));
    assert_eq!(Some(b), lca(&g, b, c));
    assert_eq!(Some(a), lca(&g, c, a));
}

/// A self-loop is a cycle: every query is rejected.
#[test]
fn dag_self_loop_rejected() {
    let mut g = DiGraph::new();
    let a = g.add_node("a");
    let b = g.add_node("b");
    g.add_edge(a, a);
    g.add_edge(a, b);
    assert_eq!(None, lca(&g, a, b));
    assert_eq!(None, lca(&g, b, b));
}

/// Queries naming identities outside the graph are rejected.
#[test]
fn dag_unknown_nodes() {
    let mut g = DiGraph::new();
    let a = g.add_node("a");
    assert_eq!(None, lca(&g, a, 7));
    assert_eq!(None, lca(&g, 7, 7));
}
