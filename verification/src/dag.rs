//! Lowest common ancestor in a directed graph with no distinguished root:
//! order the nodes topologically, then keep the last node in that order
//! from which both queried nodes can be reached.

use vstd::prelude::*;
use crate::graph::DiGraph;
use crate::search::find_path;
use crate::search::is_path;
use crate::search::is_path_between;
use crate::search::lemma_path_drop_last;
use crate::search::lemma_reachable_in_graph;
use crate::search::lemma_reachable_self;
use crate::search::reachable;
use crate::topo::greedy_topo;
use crate::topo::lemma_perm_contains;
use crate::topo::topo_exists;
use crate::topo::topo_sort;
use crate::topo::valid_topo;

verus! {

/// `n` reaches both `a` and `b`: it is a common ancestor of the pair.
pub open spec fn common_anc(g: DiGraph, n: usize, a: usize, b: usize) -> bool {
    reachable(g, n, a) && reachable(g, n, b)
}

/// The last entry of `ord` that is a common ancestor of `a` and `b`, if
/// any entry is one.
pub open spec fn last_common(g: DiGraph, ord: Seq<usize>, a: usize, b: usize) -> Option<usize>
    decreases ord.len(),
{
    if ord.len() == 0 {
        None
    } else if common_anc(g, ord.last(), a, b) {
        Some(ord.last())
    } else {
        last_common(g, ord.drop_last(), a, b)
    }
}

/// Exchanging the two queried nodes never changes which entry the scan
/// settles on: the reduction from "lowest common ancestor" to "last
/// common ancestor in a fixed topological order" is symmetric in the
/// queried pair.
pub proof fn lemma_last_common_symmetric(g: DiGraph, ord: Seq<usize>, a: usize, b: usize)
    ensures
        last_common(g, ord, a, b) == last_common(g, ord, b, a),
    decreases ord.len(),
{
    if ord.len() > 0 {
        lemma_last_common_symmetric(g, ord.drop_last(), a, b);
    }
}

/// The answer a rootless query settles on: the last entry of this
/// library's topological order from which both queried nodes can be
/// reached, absent on a cyclic graph.
pub open spec fn dag_lca_spec(g: DiGraph, a: usize, b: usize) -> Option<usize> {
    match greedy_topo(g) {
        None => None,
        Some(ord) => last_common(g, ord, a, b),
    }
}

/// Symmetry: the rootless query never depends on the order of the two
/// queried nodes.
pub proof fn lemma_dag_lca_symmetric(g: DiGraph, a: usize, b: usize)
    ensures
        dag_lca_spec(g, a, b) == dag_lca_spec(g, b, a),
{
    if greedy_topo(g) is Some {
        lemma_last_common_symmetric(g, greedy_topo(g)->Some_0, a, b);
    }
}

/// Along any forward path, positions in a topological order never
/// decrease.
proof fn lemma_path_topo_le(g: DiGraph, ord: Seq<usize>, p: Seq<usize>, i: int, j: int)
    requires
        g.wf(),
        valid_topo(g, ord),
        is_path(g, p),
        0 <= i < ord.len(),
        0 <= j < ord.len(),
        ord[i] == p.first(),
        ord[j] == p.last(),
    ensures
        i <= j,
    decreases p.len(),
{
    if p.len() == 1 {
        if i != j {
            assert(ord[i] != ord[j]);
        }
    } else {
        lemma_path_drop_last(g, p);
        let q = p.drop_last();
        lemma_perm_contains(ord, g.node_cnt(), q.last());
        let k = choose|k: int| 0 <= k < ord.len() && ord[k] == q.last();
        lemma_path_topo_le(g, ord, q, i, k);
        assert(g.has_edge(ord[k], ord[j]));
    }
}

/// In a topological order, a node never comes after one it reaches.
proof fn lemma_reach_topo_le(g: DiGraph, ord: Seq<usize>, a: usize, b: usize, i: int, j: int)
    requires
        g.wf(),
        valid_topo(g, ord),
        reachable(g, a, b),
        0 <= i < ord.len(),
        0 <= j < ord.len(),
        ord[i] == a,
        ord[j] == b,
    ensures
        i <= j,
{
    let p = choose|p: Seq<usize>| is_path_between(g, p, a, b);
    lemma_path_topo_le(g, ord, p, i, j);
}

/// Lowest common ancestor of `node1` and `node2` in a directed graph
/// with no distinguished root.
///
/// The graph must admit a topological order, else the query is rejected
/// with `None`; given one, the answer is the last node in the order
/// computed here from which both queried nodes are reachable. `None` is
/// returned exactly when no node reaches both. A returned node is a
/// common ancestor of the pair that reaches no other common ancestor of
/// the pair, so no ancestor strictly lower than it exists; in particular,
/// when `node1` itself reaches `node2`, the answer is `node1`, and the
/// ancestor of a node paired with itself is the node.
pub fn lca(g: &DiGraph, node1: usize, node2: usize) -> (r: Option<usize>)
    requires
        g.wf(),
    ensures
        r == dag_lca_spec(*g, node1, node2),
        !topo_exists(*g) ==> r is None,
        topo_exists(*g) ==> ((r is Some) <==> exists|m: usize| common_anc(*g, m, node1, node2)),
        r matches Some(m) ==> common_anc(*g, m, node1, node2) && (forall|m2: usize|
            #[trigger] common_anc(*g, m2, node1, node2) && reachable(*g, m, m2) ==> m2 == m),
        topo_exists(*g) && reachable(*g, node1, node2) ==> r == Some(node1),
        topo_exists(*g) && node1 == node2 && (node1 as nat) < g.node_cnt() ==> r == Some(node1),
{
    let sorted = topo_sort(g);
    match sorted {
        None => None,
        Some(ord) => {
            let mut best: Option<usize> = None;
            let ghost mut best_k: int = 0;
            let mut i: usize = 0;
            proof {
                assert(ord@.subrange(0, 0) =~= Seq::<usize>::empty());
            }
            while i < ord.len()
                invariant
                    g.wf(),
                    valid_topo(*g, ord@),
                    i <= ord@.len(),
                    best == last_common(*g, ord@.subrange(0, i as int), node1, node2),
                    best is None ==> forall|k: int|
                        0 <= k < i ==> !common_anc(*g, #[trigger] ord@[k], node1, node2),
                    best matches Some(m) ==> 0 <= best_k < i && ord@[best_k] == m && common_anc(
                        *g,
                        m,
                        node1,
                        node2,
                    ) && (forall|k: int|
                        best_k < k < i ==> !common_anc(*g, #[trigger] ord@[k], node1, node2)),
                decreases ord@.len() - i,
            {
                let v = ord[i];
                proof {
                    assert((ord@[i as int] as nat) < g.node_cnt());
                }
                let p1 = find_path(g, v, node1);
                let p2 = find_path(g, v, node2);
                if p1.is_some() && p2.is_some() {
                    best = Some(v);
                    proof {
                        best_k = i as int;
                    }
                }
                i += 1;
                proof {
                    let s = ord@.subrange(0, i as int);
                    assert(s.last() == ord@[i - 1]);
                    assert(s.drop_last() =~= ord@.subrange(0, i - 1));
                }
            }
            proof {
                assert(ord@.subrange(0, ord@.len() as int) =~= ord@);
                if best is None {
                    if exists|m: usize| common_anc(*g, m, node1, node2) {
                        let m = choose|m: usize| common_anc(*g, m, node1, node2);
                        lemma_reachable_in_graph(*g, m, node1);
                        lemma_perm_contains(ord@, g.node_cnt(), m);
                        let k = choose|k: int| 0 <= k < ord@.len() && ord@[k] == m;
                        assert(!common_anc(*g, ord@[k], node1, node2));
                        assert(false);
                    }
                } else {
                    let m = best->Some_0;
                    assert forall|m2: usize|
                        #[trigger] common_anc(*g, m2, node1, node2) && reachable(
                        *g,
                        m,
                        m2,
                    ) implies m2 == m by {
                        lemma_reachable_in_graph(*g, m2, node1);
                        lemma_perm_contains(ord@, g.node_cnt(), m2);
                        let k2 = choose|k2: int| 0 <= k2 < ord@.len() && ord@[k2] == m2;
                        lemma_reach_topo_le(*g, ord@, m, m2, best_k, k2);
                        if k2 > best_k {
                            assert(!common_anc(*g, ord@[k2], node1, node2));
                        }
                    }
                }
                if reachable(*g, node1, node2) {
                    lemma_reachable_in_graph(*g, node1, node2);
                    lemma_reachable_self(*g, node1);
                    assert(common_anc(*g, node1, node1, node2));
                    if best is Some {
                        let m = best->Some_0;
                        assert(reachable(*g, m, node1));
                        assert(m == node1);
                    }
                }
                if node1 == node2 && (node1 as nat) < g.node_cnt() {
                    lemma_reachable_self(*g, node1);
                }
            }
            best
        },
    }
}

} // verus!
