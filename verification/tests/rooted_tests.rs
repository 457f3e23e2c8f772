use lca::graph::DiGraph;
use lca::rooted::graph_lca;
use lca::search::find_path;
use lca::topo::topo_sort;

fn rooted_sample() -> (DiGraph, usize, [usize; 6]) {
    let mut g = DiGraph::new();
    let root = g.add_node("root");
    let n1 = g.add_node("1");
    let n2 = g.add_node("2");
    let n3 = g.add_node("3");
    let n4 = g.add_node("4");
    let n5 = g.add_node("5");
    let n6 = g.add_node("6");
    g.add_edge(root, n1);
    g.add_edge(root, n2);
    g.add_edge(n1, n3);
    g.add_edge(n1, n4);
    g.add_edge(n2, n5);
    g.add_edge(n2, n6);
    (g, root, [n1, n2, n3, n4, n5, n6])
}

/// The rooted scenario: two nodes under different children meet at the
/// root, siblings meet at their parent.
#[test]
fn rooted_scenario() {
    let (g, root, [n1, n2, n3, n4, n5, n6]) = rooted_sample();
    assert_eq!(Some(root), graph_lca(&g, root, n1, n5));
    assert_eq!(Some(n2), graph_lca(&g, root, n6, n5));
    assert_eq!(Some(n1), graph_lca(&g, root, n3, n4));
}

/// A node queried against itself is its own ancestor.
#[test]
fn rooted_self() {
    let (g, root, [_, _, n3, _, _, _]) = rooted_sample();
    assert_eq!(Some(n3), graph_lca(&g, root, n3, n3));
    assert_eq!(Some(root), graph_lca(&g, root, root, root));
}

/// Swapping the queried pair never changes the answer.
#[test]
fn rooted_symmetry() {
    let (g, root, [n1, _, n3, _, n5, n6]) = rooted_sample();
    assert_eq!(graph_lca(&g, root, n1, n5), graph_lca(&g, root, n5, n1));
    assert_eq!(graph_lca(&g, root, n3, n6), graph_lca(&g, root, n6, n3));
}

/// An ancestor queried against its descendant is the answer; the root
/// itself is the one exception, since a queried node that reaches the
/// root marks the structure as mis-rooted, and the root reaches itself.
#[test]
fn rooted_ancestor_absorption() {
    let (g, root, [n1, _, n3, _, _, _]) = rooted_sample();
    assert_eq!(Some(n1), graph_lca(&g, root, n1, n3));
    assert_eq!(Some(n1), graph_lca(&g, root, n3, n1));
    assert_eq!(None, graph_lca(&g, root, root, n3));
}

/// A value missing from the graph, or a node the root cannot reach,
/// gives an absent answer.
#[test]
fn rooted_disconnected() {
    let mut g = DiGraph::new();
    let root = g.add_node("root");
    let a = g.add_node("a");
    let stray = g.add_node("stray");
    g.add_edge(root, a);
    assert_eq!(None, graph_lca(&g, root, a, stray));
    assert_eq!(None, graph_lca(&g, root, a, 9));
    assert_eq!(None, graph_lca(&g, 9, a, a));
}

/// With a second, shorter route to the descendant, the traced paths part
/// ways at the root and the intermediate node no longer absorbs the pair.
#[test]
fn rooted_shortcut_bypasses_ancestor() {
    let mut g = DiGraph::new();
    let root = g.add_node("root");
    let a = g.add_node("a");
    let b = g.add_node("b");
    g.add_edge(root, a);
    g.add_edge(a, b);
    g.add_edge(root, b);
    assert_eq!(Some(root), graph_lca(&g, root, a, b));
}

/// A queried node with a path back to the supposed root marks the
/// structure as mis-rooted, and the query is rejected.
#[test]
fn rooted_cycle_rejected() {
    let mut g = DiGraph::new();
    let root = g.add_node("root");
    let a = g.add_node("a");
    let b = g.add_node("b");
    g.add_edge(root, a);
    g.add_edge(a, root);
    g.add_edge(root, b);
    assert_eq!(None, graph_lca(&g, root, a, b));
    assert_eq!(None, graph_lca(&g, root, b, a));
}

/// The search hands back the whole traversal path, start first.
#[test]
fn search_path_contents() {
    let mut g = DiGraph::new();
    let a = g.add_node("a");
    let b = g.add_node("b");
    let c = g.add_node("c");
    let d = g.add_node("d");
    g.add_edge(a, b);
    g.add_edge(b, c);
    let p = find_path(&g, a, c).expect("a reaches c");
    assert_eq!(vec![a, b, c], p);
    assert_eq!(None, find_path(&g, a, d));
    assert_eq!(vec![d], find_path(&g, d, d).expect("a node reaches itself"));
}

/// The ordering routine lists every node, each edge pointing forward, and
/// rejects a cyclic graph.
#[test]
fn topo_sort_orders_and_rejects() {
    let mut g = DiGraph::new();
    let a = g.add_node("a");
    let b = g.add_node("b");
    let c = g.add_node("c");
    g.add_edge(c, b);
    g.add_edge(b, a);
    let ord = topo_sort(&g).expect("acyclic");
    assert_eq!(vec![c, b, a], ord);

    let mut h = DiGraph::new();
    let x = h.add_node("x");
    let y = h.add_node("y");
    h.add_edge(x, y);
    h.add_edge(y, x);
    assert!(topo_sort(&h).is_none());
}
