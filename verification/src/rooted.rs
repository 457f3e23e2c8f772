//! Lowest common ancestor in a directed graph with an explicit root:
//! trace a forward path from the root to each queried node and keep the
//! last node on which the two paths agree. A query whose supposed
//! descendants can reach back to the root is rejected as mis-rooted.

use vstd::prelude::*;
use crate::graph::DiGraph;
use crate::prefix::lcp_len;
use crate::prefix::lemma_lcp_char;
use crate::prefix::lemma_lcp_props;
use crate::search::bfs_spec;
use crate::search::find_path;
use crate::search::is_path_between;
use crate::search::lemma_path_subrange;
use crate::search::lemma_reachable_in_graph;
use crate::search::lemma_reachable_self;
use crate::search::reachable;

verus! {

/// The answer a rooted query settles on. Identities outside the node set
/// are rejected; a node queried against itself answers itself when the
/// root's search reaches it; a distinct pair is rejected when either node
/// reaches back to the root; otherwise the root's two traced paths are
/// scanned together, the candidate starting at the root and becoming the
/// last entry on which the paths agree.
pub open spec fn graph_lca_spec(g: DiGraph, root: usize, node1: usize, node2: usize) -> Option<
    usize,
> {
    if (root as nat) >= g.node_cnt() || (node1 as nat) >= g.node_cnt() || (node2 as nat)
        >= g.node_cnt() {
        None
    } else if node1 == node2 {
        match bfs_spec(g, root, node1) {
            Some(_) => Some(node1),
            None => None,
        }
    } else if bfs_spec(g, node1, root) is Some || bfs_spec(g, node2, root) is Some {
        None
    } else {
        match (bfs_spec(g, root, node1), bfs_spec(g, root, node2)) {
            (Some(p1), Some(p2)) => {
                let k = lcp_len(p1, p2);
                if k == 0 {
                    Some(root)
                } else {
                    Some(p1[k - 1])
                }
            },
            _ => None,
        }
    }
}

/// Symmetry: the rooted query never depends on the order of the two
/// queried nodes.
pub proof fn lemma_graph_lca_symmetric(g: DiGraph, root: usize, node1: usize, node2: usize)
    ensures
        graph_lca_spec(g, root, node1, node2) == graph_lca_spec(g, root, node2, node1),
{
    if (root as nat) < g.node_cnt() && (node1 as nat) < g.node_cnt() && (node2 as nat)
        < g.node_cnt() && node1 != node2 && bfs_spec(g, node1, root) is None && bfs_spec(
        g,
        node2,
        root,
    ) is None {
        if bfs_spec(g, root, node1) is Some && bfs_spec(g, root, node2) is Some {
            let p1 = bfs_spec(g, root, node1)->Some_0;
            let p2 = bfs_spec(g, root, node2)->Some_0;
            lemma_lcp_props(p1, p2);
            let k = lcp_len(p1, p2);
            if k > 0 {
                assert(p1[k - 1] == p2[k - 1]);
            }
        }
    }
}

/// Ancestor absorption: when the whole traced path to `node1` is a
/// prefix of the traced path to `node2`, the first node lies on the way
/// to the second and is the pair's lowest common ancestor. With several
/// routes to `node2` the shortest traced path may bypass `node1`, so the
/// prefix hypothesis, not bare reachability, is what absorption needs.
pub proof fn lemma_graph_lca_absorbs(g: DiGraph, root: usize, node1: usize, node2: usize)
    requires
        (root as nat) < g.node_cnt(),
        (node1 as nat) < g.node_cnt(),
        (node2 as nat) < g.node_cnt(),
        node1 != node2,
        bfs_spec(g, node1, root) is None,
        bfs_spec(g, node2, root) is None,
        bfs_spec(g, root, node1) is Some,
        bfs_spec(g, root, node2) is Some,
        bfs_spec(g, root, node1)->Some_0.len() >= 1,
        bfs_spec(g, root, node1)->Some_0.last() == node1,
        bfs_spec(g, root, node1)->Some_0.len() <= bfs_spec(g, root, node2)->Some_0.len(),
        bfs_spec(g, root, node1)->Some_0 == bfs_spec(g, root, node2)->Some_0.subrange(
            0,
            bfs_spec(g, root, node1)->Some_0.len() as int,
        ),
    ensures
        graph_lca_spec(g, root, node1, node2) == Some(node1),
{
    let pa = bfs_spec(g, root, node1)->Some_0;
    let pb = bfs_spec(g, root, node2)->Some_0;
    assert forall|j: int| 0 <= j < pa.len() implies pa[j] == pb[j] by {
        assert(pa[j] == pb.subrange(0, pa.len() as int)[j]);
    }
    lemma_lcp_char(pa, pb, pa.len());
}

/// Lowest common ancestor of `node1` and `node2` under the root `root`.
///
/// A node queried against itself is its own ancestor whenever the root
/// reaches it, and the reverse-reachability validation is skipped. For a
/// distinct pair the query is rejected with `None` when either node
/// reaches back to the root (a cycle or a wrong root), and otherwise
/// succeeds exactly when the root reaches both nodes; the answer is then
/// a node that the root reaches and that reaches both queried nodes.
/// When every pair of root-to-node1 and root-to-node2 paths parts ways
/// directly after the root, the two nodes lie under different children of
/// the root and the answer is the root itself.
pub fn graph_lca(g: &DiGraph, root: usize, node1: usize, node2: usize) -> (r: Option<usize>)
    requires
        g.wf(),
    ensures
        r == graph_lca_spec(*g, root, node1, node2),
        r matches Some(m) ==> reachable(*g, root, m) && reachable(*g, m, node1) && reachable(
            *g,
            m,
            node2,
        ),
        r matches Some(m) ==> exists|p1: Seq<usize>, p2: Seq<usize>|
            is_path_between(*g, p1, root, node1) && is_path_between(*g, p2, root, node2)
                && lcp_len(p1, p2) >= 1 && m == p1[lcp_len(p1, p2) as int - 1],
        node1 == node2 ==> ((r is Some) <==> reachable(*g, root, node1)) && (reachable(
            *g,
            root,
            node1,
        ) ==> r == Some(node1)),
        node1 != node2 && (reachable(*g, node1, root) || reachable(*g, node2, root)) ==> r
            is None,
        node1 != node2 && !reachable(*g, node1, root) && !reachable(*g, node2, root) ==> ((r
            is Some) <==> (reachable(*g, root, node1) && reachable(*g, root, node2))),
        (node1 != node2 && node1 != root && node2 != root && !reachable(*g, node1, root)
            && !reachable(*g, node2, root) && reachable(*g, root, node1) && reachable(
            *g,
            root,
            node2,
        ) && (forall|q1: Seq<usize>, q2: Seq<usize>|
            #![trigger is_path_between(*g, q1, root, node1), is_path_between(*g, q2, root, node2)]
            is_path_between(*g, q1, root, node1) && is_path_between(*g, q2, root, node2)
                ==> q1[1] != q2[1])) ==> r == Some(root),
{
    let n = g.node_count();
    if root >= n || node1 >= n || node2 >= n {
        proof {
            if reachable(*g, root, node1) {
                lemma_reachable_in_graph(*g, root, node1);
            }
            if reachable(*g, root, node2) {
                lemma_reachable_in_graph(*g, root, node2);
            }
        }
        return None;
    }
    if node1 == node2 {
        let p = find_path(g, root, node1);
        match p {
            Some(p) => {
                proof {
                    lemma_reachable_self(*g, node1);
                    lemma_lcp_char(p@, p@, p@.len());
                    assert(is_path_between(*g, p@, root, node1) && is_path_between(
                        *g,
                        p@,
                        root,
                        node2,
                    ) && lcp_len(p@, p@) >= 1 && node1 == p@[lcp_len(p@, p@) as int - 1]);
                }
                return Some(node1);
            },
            None => {
                return None;
            },
        }
    }
    let back1 = find_path(g, node1, root);
    if back1.is_some() {
        return None;
    }
    let back2 = find_path(g, node2, root);
    if back2.is_some() {
        return None;
    }
    let p1opt = find_path(g, root, node1);
    let p2opt = find_path(g, root, node2);
    match (p1opt, p2opt) {
        (Some(p1), Some(p2)) => {
            let mut anc: usize = root;
            let ghost mut ai: int = 0;
            let mut i: usize = 1;
            let mut stop: bool = false;
            while !stop && i < p1.len() && i < p2.len()
                invariant
                    g.wf(),
                    is_path_between(*g, p1@, root, node1),
                    is_path_between(*g, p2@, root, node2),
                    1 <= i <= p1@.len(),
                    i <= p2@.len(),
                    ai == i - 1,
                    anc == p1@[ai],
                    forall|k: int| 0 <= k < i ==> p1@[k] == #[trigger] p2@[k],
                    stop ==> i < p1@.len() && i < p2@.len() && p1@[i as int] != p2@[i as int],
                decreases p1@.len() - i, (if stop {
                    0int
                } else {
                    1int
                }),
            {
                if p1[i] == p2[i] {
                    anc = p1[i];
                    proof {
                        ai = i as int;
                    }
                    i += 1;
                } else {
                    stop = true;
                }
            }
            proof {
                let len1 = p1@.len() as int;
                let len2 = p2@.len() as int;
                lemma_path_subrange(*g, p1@, ai, len1);
                let q1 = p1@.subrange(ai, len1);
                assert(q1.last() == p1@[len1 - 1]);
                assert(is_path_between(*g, q1, anc, node1));
                assert(reachable(*g, anc, node1));
                lemma_path_subrange(*g, p2@, ai, len2);
                let q2 = p2@.subrange(ai, len2);
                assert(q2.last() == p2@[len2 - 1]);
                assert(p2@[ai] == p1@[ai]);
                assert(is_path_between(*g, q2, anc, node2));
                assert(reachable(*g, anc, node2));
                lemma_path_subrange(*g, p1@, 0, ai + 1);
                let q0 = p1@.subrange(0, ai + 1);
                assert(q0.last() == p1@[ai]);
                assert(is_path_between(*g, q0, root, anc));
                assert(reachable(*g, root, anc));
                lemma_lcp_char(p1@, p2@, i as nat);
                assert(is_path_between(*g, p1@, root, node1) && is_path_between(
                    *g,
                    p2@,
                    root,
                    node2,
                ) && lcp_len(p1@, p2@) >= 1 && anc == p1@[lcp_len(p1@, p2@) as int - 1]);
                if node1 != root && node2 != root && (forall|q1: Seq<usize>, q2: Seq<usize>|
                    #![trigger is_path_between(*g, q1, root, node1), is_path_between(*g, q2, root, node2)]
                    is_path_between(*g, q1, root, node1) && is_path_between(*g, q2, root, node2)
                        ==> q1[1] != q2[1]) {
                    assert(p1@.first() == root && p1@.last() == node1);
                    assert(p1@.len() >= 2);
                    assert(p2@.len() >= 2);
                    assert(p1@[1] != p2@[1]);
                    if i >= 2 {
                        assert(p1@[1] == p2@[1]);
                    }
                    assert(anc == root);
                }
            }
            Some(anc)
        },
        (_, _) => None,
    }
}

} // verus!
