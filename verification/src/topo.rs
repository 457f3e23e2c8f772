//! Topological ordering of the graph's nodes: a verified ordering routine
//! that succeeds exactly on acyclic graphs, where being acyclic is taken,
//! as for any finite directed graph, as admitting a topological order.

use vstd::prelude::*;
use crate::graph::DiGraph;

verus! {

/// `ord` is a topological order of `g`: it lists every node exactly once,
/// and every edge points from an earlier entry to a later one.
pub open spec fn valid_topo(g: DiGraph, ord: Seq<usize>) -> bool {
    &&& ord.len() == g.node_cnt()
    &&& forall|i: int| 0 <= i < ord.len() ==> ((#[trigger] ord[i]) as nat) < g.node_cnt()
    &&& ord.no_duplicates()
    &&& forall|i: int, j: int|
        #![trigger ord[i], ord[j]]
        0 <= i < ord.len() && 0 <= j < ord.len() && g.has_edge(ord[i], ord[j]) ==> i < j
}

/// The graph admits a topological order: the defining property of a
/// directed acyclic graph.
pub open spec fn topo_exists(g: DiGraph) -> bool {
    exists|ord: Seq<usize>| valid_topo(g, ord)
}

/// `v` is ready to be placed: an existing node, not yet placed, whose
/// in-neighbors are all placed.
pub open spec fn spec_ready(g: DiGraph, placed: Seq<bool>, v: usize) -> bool {
    &&& (v as nat) < g.node_cnt()
    &&& !placed[v as int]
    &&& forall|u: usize|
        (u as nat) < g.node_cnt() && #[trigger] g.has_edge(u, v) ==> placed[u as int]
}

/// The first ready node at or after `v`, scanning the identities upward.
pub open spec fn first_ready_from(g: DiGraph, placed: Seq<bool>, v: nat) -> Option<usize>
    decreases g.node_cnt() - v,
    when v <= g.node_cnt()
{
    if v >= g.node_cnt() {
        None
    } else if spec_ready(g, placed, v as usize) {
        Some(v as usize)
    } else {
        first_ready_from(g, placed, v + 1)
    }
}

/// `k` more rounds of placing the first ready node, or `None` when some
/// round finds none.
pub open spec fn greedy_from(g: DiGraph, placed: Seq<bool>, k: nat) -> Option<Seq<usize>>
    decreases k,
{
    if k == 0 {
        Some(Seq::empty())
    } else {
        match first_ready_from(g, placed, 0) {
            None => None,
            Some(v) => match greedy_from(g, placed.update(v as int, true), (k - 1) as nat) {
                None => None,
                Some(rest) => Some(seq![v] + rest),
            },
        }
    }
}

/// The topological order this library settles on: place the smallest
/// ready node, round after round, until every node is placed or no node
/// is ready.
pub open spec fn greedy_topo(g: DiGraph) -> Option<Seq<usize>> {
    greedy_from(g, Seq::new(g.node_cnt(), |i: int| false), g.node_cnt())
}

/// A sequence of `n` distinct values below `n` holds every value below
/// `n`.
pub(crate) proof fn lemma_perm_contains(s: Seq<usize>, n: nat, v: usize)
    requires
        s.no_duplicates(),
        s.len() == n,
        forall|i: int| 0 <= i < s.len() ==> ((#[trigger] s[i]) as nat) < n,
        (v as nat) < n,
    ensures
        exists|j: int| 0 <= j < s.len() && s[j] == v,
{
    broadcast use vstd::set::group_set_axioms;

    if !(exists|j: int| 0 <= j < s.len() && s[j] == v) {
        let t = s.map_values(|x: usize| x as int);
        assert(t.no_duplicates()) by {
            assert forall|i: int, j: int|
                0 <= i < t.len() && 0 <= j < t.len() && i != j implies t[i] != t[j] by {
                assert(s[i] != s[j]);
            }
        }
        t.unique_seq_to_set();
        vstd::set_lib::lemma_int_range(0, n as int);
        let range = vstd::set_lib::set_int_range(0, n as int);
        let smaller = range.remove(v as int);
        assert(range.contains(v as int));
        assert(t.to_set().subset_of(smaller)) by {
            assert forall|x: int| t.to_set().contains(x) implies smaller.contains(x) by {
                assert(t.contains(x));
                let i = choose|i: int| 0 <= i < t.len() && t[i] == x;
                assert((s[i] as nat) < n);
                if s[i] == v {
                    assert(0 <= i < s.len() && s[i] == v);
                }
            }
        }
        vstd::set_lib::lemma_len_subset(t.to_set(), smaller);
        assert(false);
    }
}

/// If every node outside the placed set has an in-neighbor outside the
/// placed set, every entry of a topological order lies inside the placed
/// set: an unplaced entry would need an earlier unplaced one, without
/// end.
proof fn lemma_stuck_all_placed(g: DiGraph, placed: Seq<bool>, ord: Seq<usize>, i: int)
    requires
        g.wf(),
        placed.len() == g.node_cnt(),
        valid_topo(g, ord),
        forall|v: usize|
            (v as nat) < g.node_cnt() && !(#[trigger] placed[v as int]) ==> exists|u: usize|
                (u as nat) < g.node_cnt() && !placed[u as int] && #[trigger] g.has_edge(u, v),
        0 <= i < ord.len(),
    ensures
        placed[ord[i] as int],
    decreases i,
{
    let v = ord[i];
    assert((v as nat) < g.node_cnt());
    if !placed[v as int] {
        let u = choose|u: usize|
            (u as nat) < g.node_cnt() && !placed[u as int] && #[trigger] g.has_edge(u, v);
        lemma_perm_contains(ord, g.node_cnt(), u);
        let j = choose|j: int| 0 <= j < ord.len() && ord[j] == u;
        assert(g.has_edge(ord[j], ord[i]));
        lemma_stuck_all_placed(g, placed, ord, j);
        assert(false);
    }
}

/// Scans the node identities in increasing order for the first node that
/// is not yet placed but has every in-neighbor placed. Reports that no
/// such node exists exactly when every unplaced node keeps an unplaced
/// in-neighbor.
fn find_ready(g: &DiGraph, placed: &Vec<bool>) -> (r: Option<usize>)
    requires
        g.wf(),
        placed@.len() == g.node_cnt(),
    ensures
        r == first_ready_from(*g, placed@, 0),
        r matches Some(v) ==> spec_ready(*g, placed@, v),
        r is None ==> forall|v: usize|
            (v as nat) < g.node_cnt() && !(#[trigger] placed@[v as int]) ==> exists|u: usize|
                (u as nat) < g.node_cnt() && !placed@[u as int] && #[trigger] g.has_edge(u, v),
{
    let n = g.node_count();
    let mut v: usize = 0;
    while v < n
        invariant
            g.wf(),
            placed@.len() == g.node_cnt(),
            n == g.node_cnt(),
            v <= n,
            first_ready_from(*g, placed@, 0) == first_ready_from(*g, placed@, v as nat),
            forall|w: usize|
                w < v && !(#[trigger] placed@[w as int]) ==> exists|u: usize|
                    (u as nat) < g.node_cnt() && !placed@[u as int] && #[trigger] g.has_edge(u, w),
        decreases n - v,
    {
        if !placed[v] {
            let ins = g.in_neighbors(v);
            let mut t: usize = 0;
            let mut ok: bool = true;
            while t < ins.len()
                invariant
                    placed@.len() == g.node_cnt(),
                    t <= ins@.len(),
                    forall|k: int|
                        0 <= k < ins@.len() ==> g.has_edge(#[trigger] ins@[k], v) && ((
                        ins@[k] as nat) < g.node_cnt()),
                    ok <==> (forall|k: int| 0 <= k < t ==> placed@[(#[trigger] ins@[k]) as int]),
                decreases ins@.len() - t,
            {
                if !placed[ins[t]] {
                    ok = false;
                }
                t += 1;
            }
            if ok {
                proof {
                    assert forall|u: usize|
                        (u as nat) < g.node_cnt() && #[trigger] g.has_edge(
                        u,
                        v,
                    ) implies placed@[u as int] by {
                        assert(ins@.contains(u));
                        let k = choose|k: int| 0 <= k < ins@.len() && ins@[k] == u;
                        assert(placed@[(ins@[k]) as int]);
                    }
                    assert(spec_ready(*g, placed@, v));
                    assert(first_ready_from(*g, placed@, v as nat) == Some(v));
                }
                return Some(v);
            }
            proof {
                let k = choose|k: int| 0 <= k < ins@.len() && !placed@[(#[trigger] ins@[k]) as int];
                assert(g.has_edge(ins@[k], v));
                assert(!spec_ready(*g, placed@, v));
                assert(first_ready_from(*g, placed@, v as nat) == first_ready_from(
                    *g,
                    placed@,
                    v as nat + 1,
                ));
            }
        } else {
            proof {
                assert(!spec_ready(*g, placed@, v));
                assert(first_ready_from(*g, placed@, v as nat) == first_ready_from(
                    *g,
                    placed@,
                    v as nat + 1,
                ));
            }
        }
        v += 1;
    }
    proof {
        assert(first_ready_from(*g, placed@, n as nat) is None);
    }
    None
}

/// Produces a topological order of the whole node set, or `None` exactly
/// when the graph has no topological order, that is, when it holds a
/// directed cycle.
pub fn topo_sort(g: &DiGraph) -> (r: Option<Vec<usize>>)
    requires
        g.wf(),
    ensures
        (r is Some) == topo_exists(*g),
        r matches Some(ord) ==> valid_topo(*g, ord@),
        r matches Some(ord) ==> greedy_topo(*g) == Some(ord@),
        r is None ==> greedy_topo(*g) is None,
{
    let n = g.node_count();
    let mut placed: Vec<bool> = Vec::new();
    let mut j: usize = 0;
    while j < n
        invariant
            j <= n,
            placed@.len() == j,
            forall|m: int| 0 <= m < j ==> !(#[trigger] placed@[m]),
        decreases n - j,
    {
        placed.push(false);
        j += 1;
    }
    proof {
        assert(placed@ =~= Seq::new(g.node_cnt(), |i: int| false));
    }

    let mut ord: Vec<usize> = Vec::new();
    let mut step: usize = 0;
    proof {
        if greedy_from(*g, placed@, n as nat) is Some {
            assert(Seq::<usize>::empty() + greedy_from(*g, placed@, n as nat)->Some_0
                =~= greedy_from(*g, placed@, n as nat)->Some_0);
        }
    }
    while step < n
        invariant
            g.wf(),
            n == g.node_cnt(),
            placed@.len() == n,
            ord@.len() == step,
            step <= n,
            greedy_topo(*g) == (match greedy_from(*g, placed@, (n - step) as nat) {
                None => None,
                Some(rest) => Some(ord@ + rest),
            }),
            forall|m: usize| (m as nat) < n ==> ((#[trigger] placed@[m as int]) <==> ord@.contains(m)),
            forall|i: int| 0 <= i < ord@.len() ==> ((#[trigger] ord@[i]) as nat) < n,
            ord@.no_duplicates(),
            forall|j2: int, u: usize|
                0 <= j2 < ord@.len() && (u as nat) < n && #[trigger] g.has_edge(u, ord@[j2])
                    ==> exists|k: int| 0 <= k < j2 && ord@[k] == u,
        decreases n - step,
    {
        match find_ready(g, &placed) {
            None => {
                proof {
                    assert(greedy_from(*g, placed@, (n - step) as nat) is None);
                    if topo_exists(*g) {
                        let ordw = choose|o: Seq<usize>| valid_topo(*g, o);
                        if forall|i: int| 0 <= i < ordw.len() ==> placed@[(#[trigger] ordw[i]) as int] {
                            ordw.unique_seq_to_set();
                            ord@.lemma_cardinality_of_set();
                            assert(ordw.to_set().subset_of(ord@.to_set())) by {
                                assert forall|x: usize|
                                    ordw.to_set().contains(x) implies ord@.to_set().contains(x) by {
                                    assert(ordw.contains(x));
                                    let i = choose|i: int| 0 <= i < ordw.len() && ordw[i] == x;
                                    assert(placed@[(ordw[i]) as int]);
                                    assert(ord@.contains(x));
                                }
                            }
                            broadcast use vstd::seq_lib::seq_to_set_is_finite;

                            vstd::set_lib::lemma_len_subset(ordw.to_set(), ord@.to_set());
                            assert(false);
                        } else {
                            let i = choose|i: int|
                                0 <= i < ordw.len() && !placed@[(#[trigger] ordw[i]) as int];
                            lemma_stuck_all_placed(*g, placed@, ordw, i);
                        }
                    }
                }
                return None;
            },
            Some(v) => {
                let ghost p0 = placed@;
                let ghost o0 = ord@;
                ord.push(v);
                *vstd::std_specs::vec::vec_index_mut(&mut placed, v) = true;
                proof {
                    assert(placed@ =~= p0.update(v as int, true));
                    assert(ord@ =~= o0.push(v));
                    assert(!o0.contains(v));
                    assert forall|m: usize|
                        (m as nat) < n implies ((#[trigger] placed@[m as int]) <==> ord@.contains(
                        m,
                    )) by {
                        if m == v {
                            assert(ord@[ord@.len() - 1] == v);
                            assert(ord@.contains(v));
                        } else {
                            assert(placed@[m as int] == p0[m as int]);
                            if o0.contains(m) {
                                let k = choose|k: int| 0 <= k < o0.len() && o0[k] == m;
                                assert(ord@[k] == m);
                            }
                            if ord@.contains(m) {
                                let k = choose|k: int| 0 <= k < ord@.len() && ord@[k] == m;
                                assert(o0[k] == m);
                            }
                        }
                    }
                    assert(ord@.no_duplicates()) by {
                        assert forall|i: int, j2: int|
                            0 <= i < ord@.len() && 0 <= j2 < ord@.len() && i != j2 implies ord@[i]
                            != ord@[j2] by {
                            if i == ord@.len() - 1 && j2 < i {
                                if o0[j2] == v {
                                    assert(o0.contains(v));
                                }
                            }
                            if j2 == ord@.len() - 1 && i < j2 {
                                if o0[i] == v {
                                    assert(o0.contains(v));
                                }
                            }
                        }
                    }
                    assert forall|j2: int, u: usize|
                        0 <= j2 < ord@.len() && (u as nat) < n && #[trigger] g.has_edge(
                        u,
                        ord@[j2],
                    ) implies exists|k: int| 0 <= k < j2 && ord@[k] == u by {
                        if j2 == ord@.len() - 1 {
                            assert(ord@[j2] == v);
                            assert(p0[u as int]);
                            assert(o0.contains(u));
                            let k = choose|k: int| 0 <= k < o0.len() && o0[k] == u;
                            assert(ord@[k] == u);
                        } else {
                            assert(g.has_edge(u, o0[j2]));
                            let k = choose|k: int| 0 <= k < j2 && o0[k] == u;
                            assert(ord@[k] == u);
                        }
                    }
                    let k = (n - step) as nat;
                    assert(first_ready_from(*g, p0, 0) == Some(v));
                    assert(greedy_from(*g, p0, k) == (match greedy_from(
                        *g,
                        p0.update(v as int, true),
                        (k - 1) as nat,
                    ) {
                        None => None::<Seq<usize>>,
                        Some(rest) => Some(seq![v] + rest),
                    }));
                    assert(placed@ == p0.update(v as int, true));
                    if greedy_from(*g, placed@, (k - 1) as nat) is Some {
                        let rest = greedy_from(*g, placed@, (k - 1) as nat)->Some_0;
                        assert(o0 + (seq![v] + rest) =~= ord@ + rest);
                    }
                }
                step += 1;
            },
        }
    }
    proof {
        assert forall|i: int, j2: int|
            #![trigger ord@[i], ord@[j2]]
            0 <= i < ord@.len() && 0 <= j2 < ord@.len() && g.has_edge(
            ord@[i],
            ord@[j2],
        ) implies i < j2 by {
            let k = choose|k: int| 0 <= k < j2 && ord@[k] == ord@[i];
            assert(k == i);
        }
        assert(valid_topo(*g, ord@));
        assert(greedy_from(*g, placed@, 0) == Some(Seq::<usize>::empty()));
        assert(ord@ + Seq::<usize>::empty() =~= ord@);
    }
    Some(ord)
}

} // verus!
