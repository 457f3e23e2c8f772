//! The path model over the graph container, and a breadth-first search
//! that produces a forward path from a start node to a target node, or
//! establishes that no such path exists.

use vstd::prelude::*;
use crate::graph::DiGraph;

verus! {

/// `p` is a forward path in `g`: it is nonempty, stays inside the node
/// set, and each consecutive pair is joined by a directed edge.
pub open spec fn is_path(g: DiGraph, p: Seq<usize>) -> bool {
    &&& p.len() >= 1
    &&& forall|i: int| 0 <= i < p.len() ==> ((#[trigger] p[i]) as nat) < g.node_cnt()
    &&& forall|i: int| 0 <= i < p.len() - 1 ==> #[trigger] g.has_edge(p[i], p[i + 1])
}

/// `p` is a forward path that starts at `a` and ends at `b`.
pub open spec fn is_path_between(g: DiGraph, p: Seq<usize>, a: usize, b: usize) -> bool {
    is_path(g, p) && p.first() == a && p.last() == b
}

/// `b` can be reached from `a` along forward edges. Every node of the
/// graph reaches itself, by the one-node path.
pub open spec fn reachable(g: DiGraph, a: usize, b: usize) -> bool {
    exists|p: Seq<usize>| is_path_between(g, p, a, b)
}

/// Both endpoints of a reachability fact lie inside the node set.
pub proof fn lemma_reachable_in_graph(g: DiGraph, a: usize, b: usize)
    requires
        reachable(g, a, b),
    ensures
        (a as nat) < g.node_cnt(),
        (b as nat) < g.node_cnt(),
{
    let p = choose|p: Seq<usize>| is_path_between(g, p, a, b);
    assert((p[0] as nat) < g.node_cnt());
    assert((p[p.len() - 1] as nat) < g.node_cnt());
}

/// A node of the graph reaches itself.
pub proof fn lemma_reachable_self(g: DiGraph, a: usize)
    requires
        (a as nat) < g.node_cnt(),
    ensures
        reachable(g, a, a),
{
    let p = seq![a];
    assert(p[0] == a);
    assert(is_path_between(g, p, a, a));
}

/// Chopping the last node off a path of two or more nodes leaves a path.
pub(crate) proof fn lemma_path_drop_last(g: DiGraph, p: Seq<usize>)
    requires
        is_path(g, p),
        p.len() >= 2,
    ensures
        is_path(g, p.drop_last()),
        g.has_edge(p.drop_last().last(), p.last()),
{
    let q = p.drop_last();
    assert forall|i: int| 0 <= i < q.len() implies ((#[trigger] q[i]) as nat) < g.node_cnt() by {
        assert(q[i] == p[i]);
    }
    assert forall|i: int| 0 <= i < q.len() - 1 implies #[trigger] g.has_edge(q[i], q[i + 1]) by {
        assert(q[i] == p[i] && q[i + 1] == p[i + 1]);
        assert(g.has_edge(p[i], p[i + 1]));
    }
    let i = p.len() - 2;
    assert(g.has_edge(p[i], p[i + 1]));
}

/// Any nonempty contiguous piece of a path is itself a path.
pub(crate) proof fn lemma_path_subrange(g: DiGraph, p: Seq<usize>, lo: int, hi: int)
    requires
        is_path(g, p),
        0 <= lo < hi <= p.len(),
    ensures
        is_path(g, p.subrange(lo, hi)),
{
    let q = p.subrange(lo, hi);
    assert forall|i: int| 0 <= i < q.len() implies ((#[trigger] q[i]) as nat) < g.node_cnt() by {
        assert(q[i] == p[lo + i]);
    }
    assert forall|i: int| 0 <= i < q.len() - 1 implies #[trigger] g.has_edge(q[i], q[i + 1]) by {
        assert(q[i] == p[lo + i] && q[i + 1] == p[lo + i + 1]);
        assert(g.has_edge(p[lo + i], p[lo + i + 1]));
    }
}

/// If a set of nodes (given as a mask over the node identities) holds the
/// start of a path and is closed under following edges, it holds the end
/// of the path too.
proof fn lemma_closed_set_blocks(g: DiGraph, vis: Seq<bool>, p: Seq<usize>)
    requires
        g.wf(),
        vis.len() == g.node_cnt(),
        is_path(g, p),
        vis[p.first() as int],
        forall|a: usize, b: usize|
            (a as nat) < g.node_cnt() && vis[a as int] && #[trigger] g.has_edge(a, b) && (
            b as nat) < g.node_cnt() ==> vis[b as int],
    ensures
        vis[p.last() as int],
    decreases p.len(),
{
    if p.len() >= 2 {
        lemma_path_drop_last(g, p);
        lemma_closed_set_blocks(g, vis, p.drop_last());
        assert(g.has_edge(p.drop_last().last(), p.last()));
        assert((p[p.len() - 1] as nat) < g.node_cnt());
    }
}

/// A sequence of distinct values that all lie below `n` has at most `n`
/// entries.
pub(crate) proof fn lemma_distinct_bounded(s: Seq<usize>, n: nat)
    requires
        s.no_duplicates(),
        forall|i: int| 0 <= i < s.len() ==> ((#[trigger] s[i]) as nat) < n,
    ensures
        s.len() <= n,
{
    let t = s.map_values(|x: usize| x as int);
    assert(t.no_duplicates()) by {
        assert forall|i: int, j: int|
            0 <= i < t.len() && 0 <= j < t.len() && i != j implies t[i] != t[j] by {
            assert(s[i] != s[j]);
        }
    }
    t.unique_seq_to_set();
    vstd::set_lib::lemma_int_range(0, n as int);
    assert(t.to_set().subset_of(vstd::set_lib::set_int_range(0, n as int))) by {
        assert forall|x: int|
            t.to_set().contains(x) implies vstd::set_lib::set_int_range(0, n as int).contains(
            x,
        ) by {
            assert(t.contains(x));
            let i = choose|i: int| 0 <= i < t.len() && t[i] == x;
            assert((s[i] as nat) < n);
        }
    }
    vstd::set_lib::lemma_len_subset(t.to_set(), vstd::set_lib::set_int_range(0, n as int));
}

/// In a search queue whose stored paths have nondecreasing lengths and
/// whose processed entries have every neighbor on file one step further
/// out, any path from the start that is shorter than the entry under
/// `head` ends at a node already processed with a path at most as long.
proof fn lemma_bfs_entry(
    g: DiGraph,
    start: usize,
    queue: Seq<(usize, Vec<usize>)>,
    head: int,
    q: Seq<usize>,
)
    requires
        g.wf(),
        0 <= head < queue.len(),
        queue[0].0 == start,
        queue[0].1@.len() == 1,
        forall|k1: int, k2: int|
            #![trigger queue[k1].1, queue[k2].1]
            0 <= k1 <= k2 < queue.len() ==> queue[k1].1@.len() <= queue[k2].1@.len(),
        forall|k: int, m: usize|
            0 <= k < head && (m as nat) < g.node_cnt() && #[trigger] g.has_edge(queue[k].0, m)
                ==> exists|j: int|
                0 <= j < queue.len() && queue[j].0 == m && queue[j].1@.len() <= queue[k].1@.len()
                    + 1,
        is_path(g, q),
        q.first() == start,
        q.len() < queue[head].1@.len(),
    ensures
        exists|j: int|
            0 <= j < head && #[trigger] queue[j].0 == q.last() && queue[j].1@.len() <= q.len(),
    decreases q.len(),
{
    if q.len() == 1 {
        assert(queue[0].1@.len() <= queue[head].1@.len());
        assert(head != 0);
        assert(queue[0].0 == q.last() && queue[0].1@.len() <= q.len());
    } else {
        lemma_path_drop_last(g, q);
        let q2 = q.drop_last();
        lemma_bfs_entry(g, start, queue, head, q2);
        let j2 = choose|j2: int|
            0 <= j2 < head && #[trigger] queue[j2].0 == q2.last() && queue[j2].1@.len()
                <= q2.len();
        assert(g.has_edge(queue[j2].0, q.last()));
        assert((q.last() as nat) < g.node_cnt());
        let j = choose|j: int|
            0 <= j < queue.len() && queue[j].0 == q.last() && #[trigger] queue[j].1@.len()
                <= queue[j2].1@.len() + 1;
        assert(queue[j].1@.len() <= q.len());
        if j >= head {
            assert(queue[head].1@.len() <= queue[j].1@.len());
        }
        assert(0 <= j < head && queue[j].0 == q.last() && queue[j].1@.len() <= q.len());
    }
}

/// The entries of a search queue, with the stored paths as sequences.
pub open spec fn entries(q: Seq<(usize, Vec<usize>)>) -> Seq<(usize, Seq<usize>)> {
    q.map_values(|e: (usize, Vec<usize>)| (e.0, e.1@))
}

/// One expansion round of the search: the out-neighbors of `cur`, taken
/// in increasing identity order from `m` upward; each one not yet visited
/// is marked and queued behind the path `p` extended by it.
pub open spec fn bfs_expand(
    g: DiGraph,
    vis: Seq<bool>,
    p: Seq<usize>,
    cur: usize,
    m: nat,
) -> (Seq<bool>, Seq<(usize, Seq<usize>)>)
    decreases g.node_cnt() - m,
    when m <= g.node_cnt()
{
    if m >= g.node_cnt() {
        (vis, Seq::empty())
    } else if g.has_edge(cur, m as usize) && !vis[m as int] {
        let r = bfs_expand(g, vis.update(m as int, true), p, cur, m + 1);
        (r.0, seq![(m as usize, p.push(m as usize))] + r.1)
    } else {
        bfs_expand(g, vis, p, cur, m + 1)
    }
}

/// The rest of the search, given the pending entries and the visited
/// mask: pop entries in order until one holds `target`, expanding each
/// popped node. The fuel `k` bounds the rounds; a run started by
/// `bfs_spec` never runs out, since every queued node is distinct.
pub open spec fn bfs_run(
    g: DiGraph,
    target: usize,
    pend: Seq<(usize, Seq<usize>)>,
    vis: Seq<bool>,
    k: nat,
) -> Option<Seq<usize>>
    decreases k,
{
    if pend.len() == 0 || k == 0 {
        None
    } else if pend[0].0 == target {
        Some(pend[0].1)
    } else {
        let r = bfs_expand(g, vis, pend[0].1, pend[0].0, 0);
        bfs_run(g, target, pend.drop_first() + r.1, r.0, (k - 1) as nat)
    }
}

/// The search this library performs from `start`: breadth first, each
/// node's out-neighbors taken in increasing identity order.
pub open spec fn bfs_spec(g: DiGraph, start: usize, target: usize) -> Option<Seq<usize>> {
    bfs_run(
        g,
        target,
        seq![(start, seq![start])],
        Seq::new(g.node_cnt(), |i: int| false).update(start as int, true),
        g.node_cnt(),
    )
}

/// Whether `x` occurs in `v`.
fn seq_has(v: &Vec<usize>, x: usize) -> (b: bool)
    ensures
        b == v@.contains(x),
{
    let mut j: usize = 0;
    while j < v.len()
        invariant
            j <= v@.len(),
            forall|k: int| 0 <= k < j ==> v@[k] != x,
        decreases v@.len() - j,
    {
        if v[j] == x {
            proof {
                assert(v@[j as int] == x);
            }
            return true;
        }
        j += 1;
    }
    false
}

/// A fresh copy of a path vector.
fn clone_path(v: &Vec<usize>) -> (r: Vec<usize>)
    ensures
        r@ == v@,
{
    let mut r: Vec<usize> = Vec::new();
    let mut j: usize = 0;
    while j < v.len()
        invariant
            j <= v@.len(),
            r@ == v@.subrange(0, j as int),
        decreases v@.len() - j,
    {
        r.push(v[j]);
        j += 1;
        proof {
            assert(r@ =~= v@.subrange(0, j as int));
        }
    }
    proof {
        assert(r@ =~= v@);
    }
    r
}

/// Breadth-first search along forward edges. Returns a forward path from
/// `start` to `target` (inclusive of both, `start` first) when one
/// exists — one no longer than any other such path — and `None` exactly
/// when `target` cannot be reached from `start`. The result is precisely
/// the path that `bfs_spec` settles on.
pub fn find_path(g: &DiGraph, start: usize, target: usize) -> (r: Option<Vec<usize>>)
    requires
        g.wf(),
        (start as nat) < g.node_cnt(),
    ensures
        (r is Some) == reachable(*g, start, target),
        r matches Some(p) ==> is_path_between(*g, p@, start, target) && (forall|q: Seq<usize>|
            is_path_between(*g, q, start, target) ==> p@.len() <= q.len()),
        r matches Some(p) ==> bfs_spec(*g, start, target) == Some(p@),
        r is None ==> bfs_spec(*g, start, target) is None,
{
    let n = g.node_count();
    let mut visited: Vec<bool> = Vec::new();
    let mut j: usize = 0;
    while j < n
        invariant
            j <= n,
            n == g.node_cnt(),
            visited@.len() == j,
            forall|m: int| 0 <= m < j ==> !(#[trigger] visited@[m]),
        decreases n - j,
    {
        visited.push(false);
        j += 1;
    }

    let mut queue: Vec<(usize, Vec<usize>)> = Vec::new();
    let mut first_path: Vec<usize> = Vec::new();
    first_path.push(start);
    proof {
        assert(first_path@ =~= seq![start]);
        assert(is_path_between(*g, first_path@, start, start));
    }
    let ghost pre_fill = visited@;
    queue.push((start, first_path));
    *vstd::std_specs::vec::vec_index_mut(&mut visited, start) = true;
    proof {
        assert(queue@[0].0 == start);
        assert(pre_fill =~= Seq::new(g.node_cnt(), |i: int| false));
        assert(visited@ =~= pre_fill.update(start as int, true));
        assert(entries(queue@) =~= seq![(start, seq![start])]);
        assert(entries(queue@).skip(0) =~= entries(queue@));
        assert forall|m: usize|
            (m as nat) < g.node_cnt() && #[trigger] visited@[m as int] implies exists|k: int|
            0 <= k < queue@.len() && (#[trigger] queue@[k].0) == m by {
            assert(m == start);
            assert(queue@[0].0 == m);
        }
    }

    let mut head: usize = 0;
    proof {
        assert(bfs_spec(*g, start, target) == bfs_run(
            *g,
            target,
            entries(queue@).skip(0),
            visited@,
            g.node_cnt(),
        ));
    }
    while head < queue.len()
        invariant
            g.wf(),
            (start as nat) < g.node_cnt(),
            n == g.node_cnt(),
            visited@.len() == g.node_cnt(),
            visited@[start as int],
            head <= queue@.len(),
            queue@.len() <= g.node_cnt(),
            queue@[0].0 == start && queue@[0].1@.len() == 1,
            bfs_spec(*g, start, target) == bfs_run(
                *g,
                target,
                entries(queue@).skip(head as int),
                visited@,
                (g.node_cnt() - head) as nat,
            ),
            forall|k: int|
                0 <= k < queue@.len() ==> ((#[trigger] queue@[k].0) as nat) < g.node_cnt(),
            forall|k: int| 0 <= k < queue@.len() ==> visited@[(#[trigger] queue@[k].0) as int],
            forall|k: int|
                0 <= k < queue@.len() ==> is_path_between(
                    *g,
                    (#[trigger] queue@[k].1)@,
                    start,
                    queue@[k].0,
                ),
            forall|k1: int, k2: int|
                #![trigger queue@[k1].0, queue@[k2].0]
                0 <= k1 < k2 < queue@.len() ==> queue@[k1].0 != queue@[k2].0,
            forall|k1: int, k2: int|
                #![trigger queue@[k1].1, queue@[k2].1]
                0 <= k1 <= k2 < queue@.len() ==> queue@[k1].1@.len() <= queue@[k2].1@.len(),
            head < queue@.len() ==> queue@[queue@.len() - 1].1@.len() <= queue@[head as int].1@.len()
                + 1,
            forall|m: usize|
                (m as nat) < g.node_cnt() && #[trigger] visited@[m as int] ==> exists|k: int|
                    0 <= k < queue@.len() && (#[trigger] queue@[k].0) == m,
            forall|k: int, m: usize|
                0 <= k < head && (m as nat) < g.node_cnt() && #[trigger] g.has_edge(
                    queue@[k].0,
                    m,
                ) ==> visited@[m as int],
            forall|k: int, m: usize|
                0 <= k < head && (m as nat) < g.node_cnt() && #[trigger] g.has_edge(
                    queue@[k].0,
                    m,
                ) ==> exists|j: int|
                    0 <= j < queue@.len() && queue@[j].0 == m && queue@[j].1@.len()
                        <= queue@[k].1@.len() + 1,
            forall|k: int| 0 <= k < head ==> (#[trigger] queue@[k].0) != target,
        decreases g.node_cnt() - head,
    {
        let ghost q_at_pop = queue@;
        let ghost vis_at_pop = visited@;
        let ghost pend = entries(queue@).skip(head as int);
        proof {
            assert(pend.len() == queue@.len() - head);
            assert(pend[0] == entries(queue@)[head as int]);
            assert(pend[0].0 == queue@[head as int].0 && pend[0].1 == queue@[head as int].1@);
        }
        let cur: usize = queue[head].0;
        if cur == target {
            let path = clone_path(&queue[head].1);
            proof {
                assert(is_path_between(*g, path@, start, target));
                assert(bfs_run(
                    *g,
                    target,
                    pend,
                    visited@,
                    (g.node_cnt() - head) as nat,
                ) == Some(path@));
                assert forall|q: Seq<usize>|
                    is_path_between(*g, q, start, target) implies path@.len() <= q.len() by {
                    if q.len() < queue@[head as int].1@.len() {
                        lemma_bfs_entry(*g, start, queue@, head as int, q);
                        let j = choose|j: int|
                            0 <= j < head && #[trigger] queue@[j].0 == q.last()
                                && queue@[j].1@.len() <= q.len();
                        assert(queue@[j].0 != target);
                    }
                }
            }
            return Some(path);
        }
        let cur_path = clone_path(&queue[head].1);
        let ns = g.neighbors(cur);
        let ghost base = queue@.len() as int;
        let ghost expand_full = bfs_expand(*g, visited@, cur_path@, cur, 0);
        let mut m: usize = 0;
        proof {
            assert(pend == entries(q_at_pop).skip(head as int));
            assert(queue@.subrange(0, base) =~= q_at_pop);
            assert(entries(queue@).skip(base) =~= Seq::<(usize, Seq<usize>)>::empty());
            assert(Seq::<(usize, Seq<usize>)>::empty() + bfs_expand(
                *g,
                visited@,
                cur_path@,
                cur,
                0,
            ).1 =~= bfs_expand(*g, visited@, cur_path@, cur, 0).1);
        }
        while m < n
            invariant
                g.wf(),
                (start as nat) < g.node_cnt(),
                n == g.node_cnt(),
                (cur as nat) < g.node_cnt(),
                cur != target,
                m <= n,
                visited@.len() == g.node_cnt(),
                visited@[start as int],
                head < queue@.len(),
                base <= queue@.len() <= g.node_cnt(),
                queue@[0].0 == start && queue@[0].1@.len() == 1,
                queue@[head as int].0 == cur,
                cur_path@ == queue@[head as int].1@,
                is_path_between(*g, cur_path@, start, cur),
                base == q_at_pop.len(),
                queue@.subrange(0, base) == q_at_pop,
                expand_full.0 == bfs_expand(*g, visited@, cur_path@, cur, m as nat).0,
                expand_full.1 == entries(queue@).skip(base) + bfs_expand(
                    *g,
                    visited@,
                    cur_path@,
                    cur,
                    m as nat,
                ).1,
                forall|k: int|
                    0 <= k < ns@.len() ==> g.has_edge(cur, #[trigger] ns@[k]) && ((
                    ns@[k] as nat) < g.node_cnt()),
                forall|m2: usize|
                    (m2 as nat) < g.node_cnt() && #[trigger] g.has_edge(cur, m2)
                        ==> ns@.contains(m2),
                forall|m2: usize|
                    m2 < m && (m2 as nat) < g.node_cnt() && #[trigger] g.has_edge(cur, m2)
                        ==> visited@[m2 as int],
                forall|k: int|
                    0 <= k < queue@.len() ==> ((#[trigger] queue@[k].0) as nat) < g.node_cnt(),
                forall|k: int| 0 <= k < queue@.len() ==> visited@[(#[trigger] queue@[k].0) as int],
                forall|k: int|
                    0 <= k < queue@.len() ==> is_path_between(
                        *g,
                        (#[trigger] queue@[k].1)@,
                        start,
                        queue@[k].0,
                    ),
                forall|k1: int, k2: int|
                    #![trigger queue@[k1].0, queue@[k2].0]
                    0 <= k1 < k2 < queue@.len() ==> queue@[k1].0 != queue@[k2].0,
                forall|k1: int, k2: int|
                    #![trigger queue@[k1].1, queue@[k2].1]
                    0 <= k1 <= k2 < queue@.len() ==> queue@[k1].1@.len() <= queue@[k2].1@.len(),
                queue@[queue@.len() - 1].1@.len() <= queue@[head as int].1@.len() + 1,
                forall|m2: usize|
                    (m2 as nat) < g.node_cnt() && #[trigger] visited@[m2 as int] ==> exists|k: int|
                        0 <= k < queue@.len() && (#[trigger] queue@[k].0) == m2,
                forall|k: int, m2: usize|
                    0 <= k < head && (m2 as nat) < g.node_cnt() && #[trigger] g.has_edge(
                        queue@[k].0,
                        m2,
                    ) ==> visited@[m2 as int],
                forall|k: int, m2: usize|
                    0 <= k < head && (m2 as nat) < g.node_cnt() && #[trigger] g.has_edge(
                        queue@[k].0,
                        m2,
                    ) ==> exists|j: int|
                        0 <= j < queue@.len() && queue@[j].0 == m2 && queue@[j].1@.len()
                            <= queue@[k].1@.len() + 1,
                forall|k: int| 0 <= k < head ==> (#[trigger] queue@[k].0) != target,
            decreases n - m,
        {
            let is_neighbor = seq_has(&ns, m);
            proof {
                if is_neighbor {
                    let k = choose|k: int| 0 <= k < ns@.len() && ns@[k] == m;
                    assert(g.has_edge(cur, ns@[k]));
                } else {
                    if (m as nat) < g.node_cnt() && g.has_edge(cur, m) {
                        assert(ns@.contains(m));
                    }
                }
            }
            if is_neighbor && !visited[m] {
                let mut newp = clone_path(&cur_path);
                newp.push(m);
                proof {
                    assert(newp@ =~= cur_path@ + seq![m]);
                    assert(newp@ =~= cur_path@.push(m));
                    assert forall|i: int|
                        0 <= i < newp@.len() implies ((#[trigger] newp@[i]) as nat)
                        < g.node_cnt() by {
                        if i < newp@.len() - 1 {
                            assert(newp@[i] == cur_path@[i]);
                        }
                    }
                    assert forall|i: int|
                        0 <= i < newp@.len() - 1 implies #[trigger] g.has_edge(
                        newp@[i],
                        newp@[i + 1],
                    ) by {
                        if i < newp@.len() - 2 {
                            assert(newp@[i] == cur_path@[i] && newp@[i + 1] == cur_path@[i + 1]);
                            assert(g.has_edge(cur_path@[i], cur_path@[i + 1]));
                        } else {
                            assert(newp@[i] == cur);
                            assert(newp@[i + 1] == m);
                        }
                    }
                    assert(is_path_between(*g, newp@, start, m));
                }
                let ghost vis0 = visited@;
                let ghost q0 = queue@;
                *vstd::std_specs::vec::vec_index_mut(&mut visited, m) = true;
                queue.push((m, newp));
                proof {
                    assert(visited@ =~= vis0.update(m as int, true));
                    assert(queue@ =~= q0.push((m, newp)));
                    assert forall|mm: usize|
                        (mm as nat) < g.node_cnt() && #[trigger] visited@[mm as int] implies
                        exists|k: int|
                        0 <= k < queue@.len() && (#[trigger] queue@[k].0) == mm by {
                        if mm == m {
                            assert(queue@[queue@.len() - 1].0 == mm);
                        } else {
                            assert(vis0[mm as int]);
                            let k = choose|k: int| 0 <= k < q0.len() && (#[trigger] q0[k].0) == mm;
                            assert(queue@[k].0 == mm);
                        }
                    }
                    let nodes = queue@.map_values(|e: (usize, Vec<usize>)| e.0);
                    assert(nodes.no_duplicates()) by {
                        assert forall|i: int, j: int|
                            0 <= i < nodes.len() && 0 <= j < nodes.len() && i
                            != j implies nodes[i] != nodes[j] by {
                            assert(nodes[i] == queue@[i].0 && nodes[j] == queue@[j].0);
                            if j == nodes.len() - 1 && i < j {
                                assert(vis0[q0[i].0 as int]);
                                assert(!vis0[m as int]);
                            }
                            if i == nodes.len() - 1 && j < i {
                                assert(vis0[q0[j].0 as int]);
                                assert(!vis0[m as int]);
                            }
                        }
                    }
                    assert forall|i: int|
                        0 <= i < nodes.len() implies ((#[trigger] nodes[i]) as nat)
                        < g.node_cnt() by {
                        assert(nodes[i] == queue@[i].0);
                    }
                    lemma_distinct_bounded(nodes, g.node_cnt());
                    assert(newp@.len() == cur_path@.len() + 1);
                    assert forall|k1: int, k2: int|
                        #![trigger queue@[k1].1, queue@[k2].1]
                        0 <= k1 <= k2 < queue@.len() implies queue@[k1].1@.len()
                        <= queue@[k2].1@.len() by {
                        if k2 == queue@.len() - 1 {
                            if k1 < k2 {
                                assert(q0[k1].1@.len() <= q0[q0.len() - 1].1@.len());
                                assert(q0[q0.len() - 1].1@.len() <= q0[head as int].1@.len() + 1);
                            }
                        } else {
                            assert(q0[k1].1@.len() <= q0[k2].1@.len());
                        }
                    }
                    assert forall|k: int, m2: usize|
                        0 <= k < head && (m2 as nat) < g.node_cnt() && #[trigger] g.has_edge(
                        queue@[k].0,
                        m2,
                    ) implies exists|j: int|
                        0 <= j < queue@.len() && queue@[j].0 == m2 && queue@[j].1@.len()
                            <= queue@[k].1@.len() + 1 by {
                        assert(g.has_edge(q0[k].0, m2));
                        let j = choose|j: int|
                            0 <= j < q0.len() && q0[j].0 == m2 && q0[j].1@.len() <= q0[k].1@.len()
                                + 1;
                        assert(queue@[j].0 == m2 && queue@[j].1@.len() <= queue@[k].1@.len() + 1);
                    }
                    assert(queue@.subrange(0, base) =~= q0.subrange(0, base));
                    assert(bfs_expand(*g, vis0, cur_path@, cur, m as nat) == (
                        bfs_expand(*g, visited@, cur_path@, cur, m as nat + 1).0,
                        seq![(m, cur_path@.push(m))] + bfs_expand(
                            *g,
                            visited@,
                            cur_path@,
                            cur,
                            m as nat + 1,
                        ).1,
                    ));
                    let lhs = entries(queue@).skip(base);
                    let mid = entries(q0).skip(base) + seq![(m, newp@)];
                    assert forall|i: int| 0 <= i < lhs.len() implies lhs[i] == mid[i] by {
                        assert(lhs[i] == entries(queue@)[base + i]);
                        assert(entries(queue@)[base + i] == (
                            queue@[base + i].0,
                            queue@[base + i].1@,
                        ));
                        if base + i < q0.len() {
                            assert(queue@[base + i] == q0[base + i]);
                            assert(entries(q0)[base + i] == (q0[base + i].0, q0[base + i].1@));
                        } else {
                            assert(queue@[base + i] == (m, newp));
                        }
                    }
                    assert(lhs =~= mid);
                    let rest = bfs_expand(*g, visited@, cur_path@, cur, m as nat + 1).1;
                    assert(entries(q0).skip(base) + (seq![(m, newp@)] + rest) =~= (entries(
                        q0,
                    ).skip(base) + seq![(m, newp@)]) + rest);
                }
            } else {
                proof {
                    if (m as nat) < g.node_cnt() {
                        assert(!(g.has_edge(cur, m) && !visited@[m as int]));
                    }
                    assert(bfs_expand(*g, visited@, cur_path@, cur, m as nat) == bfs_expand(
                        *g,
                        visited@,
                        cur_path@,
                        cur,
                        m as nat + 1,
                    ));
                }
            }
            m += 1;
        }
        proof {
            assert(bfs_expand(*g, visited@, cur_path@, cur, n as nat) == (
                visited@,
                Seq::<(usize, Seq<usize>)>::empty(),
            ));
            assert(entries(queue@).skip(base) + Seq::<(usize, Seq<usize>)>::empty() =~= entries(
                queue@,
            ).skip(base));
            assert(expand_full.0 == visited@);
            assert(expand_full.1 == entries(queue@).skip(base));
            assert(expand_full == bfs_expand(*g, vis_at_pop, cur_path@, cur, 0));
            assert(bfs_run(
                *g,
                target,
                pend,
                vis_at_pop,
                (g.node_cnt() - head) as nat,
            ) == bfs_run(
                *g,
                target,
                pend.drop_first() + expand_full.1,
                expand_full.0,
                (g.node_cnt() - head - 1) as nat,
            ));
            let after = entries(queue@).skip(head as int + 1);
            let combo = pend.drop_first() + entries(queue@).skip(base);
            assert forall|i: int| 0 <= i < after.len() implies after[i] == combo[i] by {
                assert(after[i] == entries(queue@)[head + 1 + i]);
                assert(entries(queue@)[head + 1 + i] == (
                    queue@[head + 1 + i].0,
                    queue@[head + 1 + i].1@,
                ));
                if head + 1 + i < base {
                    assert(queue@.subrange(0, base)[head + 1 + i] == queue@[head + 1 + i]);
                    assert(queue@[head + 1 + i] == q_at_pop[head + 1 + i]);
                    assert(pend.drop_first()[i] == pend[i + 1]);
                    assert(pend[i + 1] == entries(q_at_pop)[head + 1 + i]);
                    assert(entries(q_at_pop)[head + 1 + i] == (
                        q_at_pop[head + 1 + i].0,
                        q_at_pop[head + 1 + i].1@,
                    ));
                } else {
                    assert(combo[i] == entries(queue@).skip(base)[i - (base - head - 1)]);
                    assert(entries(queue@).skip(base)[i - (base - head - 1)] == entries(queue@)[
                        base + (i - (base - head - 1))
                    ]);
                }
            }
            assert(after =~= combo);
            assert forall|m2: usize|
                (m2 as nat) < g.node_cnt() && #[trigger] g.has_edge(
                queue@[head as int].0,
                m2,
            ) implies exists|j: int|
                0 <= j < queue@.len() && queue@[j].0 == m2 && queue@[j].1@.len()
                    <= queue@[head as int].1@.len() + 1 by {
                assert(visited@[m2 as int]);
                let j = choose|j: int| 0 <= j < queue@.len() && (#[trigger] queue@[j].0) == m2;
                assert(queue@[j].1@.len() <= queue@[queue@.len() - 1].1@.len());
                assert(queue@[j].0 == m2 && queue@[j].1@.len() <= queue@[head as int].1@.len() + 1);
            }
            if head + 1 < queue@.len() {
                assert(queue@[head as int].1@.len() <= queue@[head as int + 1].1@.len());
            }
        }
        head += 1;
    }

    proof {
        assert(entries(queue@).skip(head as int) =~= Seq::<(usize, Seq<usize>)>::empty());
        if reachable(*g, start, target) {
            let p = choose|p: Seq<usize>| is_path_between(*g, p, start, target);
            assert((p[p.len() - 1] as nat) < g.node_cnt());
            assert forall|a: usize, b: usize|
                (a as nat) < g.node_cnt() && visited@[a as int] && #[trigger] g.has_edge(a, b)
                    && (b as nat) < g.node_cnt() implies visited@[b as int] by {
                let k = choose|k: int| 0 <= k < queue@.len() && (#[trigger] queue@[k].0) == a;
                assert(g.has_edge(queue@[k].0, b));
            }
            lemma_closed_set_blocks(*g, visited@, p);
            assert(visited@[target as int]);
            let k = choose|k: int| 0 <= k < queue@.len() && (#[trigger] queue@[k].0) == target;
            assert(queue@[k].0 != target);
        }
    }
    None
}

} // verus!
