//! The directed-graph container: a set of node identities `0 .. n` plus a
//! directed edge relation over them. Storage and adjacency iteration are
//! delegated to a petgraph adjacency structure behind a small trusted
//! interface; everything built on top of that interface is verified.

use vstd::prelude::*;

verus! {

/// Number of nodes held by a petgraph graph. Node identities are exactly
/// the indices `0 .. pg_node_count(g)`.
pub uninterp spec fn pg_node_count(
    g: petgraph::graph::Graph<String, (), petgraph::Directed, u32>,
) -> nat;

/// The directed edge relation held by a petgraph graph, as ordered pairs
/// of node indices.
pub uninterp spec fn pg_edges(
    g: petgraph::graph::Graph<String, (), petgraph::Directed, u32>,
) -> Set<(nat, nat)>;

/// Number of edge insertions a petgraph graph has seen, parallel edges
/// counted separately. It bounds when a further insertion would panic.
pub uninterp spec fn pg_edge_total(
    g: petgraph::graph::Graph<String, (), petgraph::Directed, u32>,
) -> nat;

#[verifier::external_type_specification]
#[verifier::external_body]
#[verifier::reject_recursive_types(N)]
#[verifier::reject_recursive_types(E)]
#[verifier::reject_recursive_types(Ty)]
#[verifier::reject_recursive_types(Ix)]
pub struct ExPetgraph<N, E, Ty, Ix>(petgraph::graph::Graph<N, E, Ty, Ix>);

#[verifier::external_type_specification]
#[verifier::external_body]
pub struct ExDirected(petgraph::Directed);

/// A directed graph whose nodes are the identities `0 .. self.node_cnt()`
/// and whose edges all join existing nodes. Each node carries a label that
/// the ancestor queries never read: they work on identities alone.
pub struct DiGraph {
    inner: petgraph::graph::Graph<String, (), petgraph::Directed, u32>,
}

impl DiGraph {
    /// The number of nodes; node identities are `0 .. self.node_cnt()`.
    pub closed spec fn node_cnt(self) -> nat {
        pg_node_count(self.inner)
    }

    /// The directed edge relation.
    pub closed spec fn edge_set(self) -> Set<(nat, nat)> {
        pg_edges(self.inner)
    }

    /// How many edge insertions the graph has seen.
    pub closed spec fn edge_insertions(self) -> nat {
        pg_edge_total(self.inner)
    }

    /// There is a directed edge from `a` to `b`.
    pub open spec fn has_edge(self, a: usize, b: usize) -> bool {
        self.edge_set().contains((a as nat, b as nat))
    }

    /// Every edge joins existing nodes, and both counts stay below the
    /// index type's sentinel value, so that a further insertion cannot
    /// panic inside the container.
    pub open spec fn wf(self) -> bool {
        &&& self.node_cnt() <= 0xFFFF_FFFF
        &&& self.edge_insertions() <= 0xFFFF_FFFF
        &&& forall|e: (nat, nat)|
            #[trigger] self.edge_set().contains(e) ==> e.0 < self.node_cnt() && e.1
                < self.node_cnt()
    }

    /// Relies on petgraph's `Graph::new`: a graph with no nodes and no
    /// edges.
    #[verifier::external_body]
    fn inner_new() -> (g: DiGraph)
        ensures
            pg_node_count(g.inner) == 0,
            pg_edges(g.inner) == Set::<(nat, nat)>::empty(),
            pg_edge_total(g.inner) == 0,
    {
        DiGraph { inner: petgraph::graph::Graph::new() }
    }

    /// Relies on petgraph's `Graph::node_count`: the number of nodes.
    #[verifier::external_body]
    fn inner_node_count(&self) -> (c: usize)
        ensures
            c == pg_node_count(self.inner),
    {
        self.inner.node_count()
    }

    /// Relies on petgraph's `Graph::add_node`: appends one node, whose
    /// index is the previous node count; the edges are untouched. It
    /// panics only at the index type's limit, which the precondition
    /// rules out.
    #[verifier::external_body]
    fn inner_add_node(&mut self, label: &str) -> (i: usize)
        requires
            pg_node_count(old(self).inner) < 0xFFFF_FFFF,
        ensures
            i == pg_node_count(old(self).inner),
            pg_node_count(final(self).inner) == pg_node_count(old(self).inner) + 1,
            pg_edges(final(self).inner) == pg_edges(old(self).inner),
            pg_edge_total(final(self).inner) == pg_edge_total(old(self).inner),
    {
        self.inner.add_node(label.to_string()).index()
    }

    /// Relies on petgraph's `Graph::add_edge`: records the directed edge
    /// `a -> b` and nothing else; parallel edges are kept, so the edge
    /// relation gains at most the one pair. It panics only on a missing
    /// endpoint or at the index type's limit, which the preconditions
    /// rule out.
    #[verifier::external_body]
    fn inner_add_edge(&mut self, a: usize, b: usize)
        requires
            a < pg_node_count(old(self).inner),
            b < pg_node_count(old(self).inner),
            pg_edge_total(old(self).inner) < 0xFFFF_FFFF,
        ensures
            pg_node_count(final(self).inner) == pg_node_count(old(self).inner),
            pg_edges(final(self).inner) == pg_edges(old(self).inner).insert((a as nat, b as nat)),
            pg_edge_total(final(self).inner) == pg_edge_total(old(self).inner) + 1,
    {
        self.inner.add_edge(
            petgraph::graph::NodeIndex::new(a),
            petgraph::graph::NodeIndex::new(b),
            (),
        );
    }

    /// Relies on petgraph's `Graph::neighbors`: on a directed graph, the
    /// targets of all edges leaving `n`, one entry per edge.
    #[verifier::external_body]
    fn inner_neighbors(&self, n: usize) -> (r: Vec<usize>)
        requires
            n < pg_node_count(self.inner),
        ensures
            forall|k: int|
                0 <= k < r@.len() ==> pg_edges(self.inner).contains(
                    (n as nat, #[trigger] r@[k] as nat),
                ),
            forall|m: nat|
                #[trigger] pg_edges(self.inner).contains((n as nat, m)) ==> exists|k: int|
                    0 <= k < r@.len() && r@[k] as nat == m,
    {
        self.inner.neighbors(petgraph::graph::NodeIndex::new(n)).map(|x| x.index()).collect()
    }

    /// Relies on petgraph's `Graph::neighbors_directed` with `Incoming`:
    /// the sources of all edges entering `n`, one entry per edge.
    #[verifier::external_body]
    fn inner_in_neighbors(&self, n: usize) -> (r: Vec<usize>)
        requires
            n < pg_node_count(self.inner),
        ensures
            forall|k: int|
                0 <= k < r@.len() ==> pg_edges(self.inner).contains(
                    (#[trigger] r@[k] as nat, n as nat),
                ),
            forall|m: nat|
                #[trigger] pg_edges(self.inner).contains((m, n as nat)) ==> exists|k: int|
                    0 <= k < r@.len() && r@[k] as nat == m,
    {
        self.inner.neighbors_directed(
            petgraph::graph::NodeIndex::new(n),
            petgraph::Direction::Incoming,
        ).map(|x| x.index()).collect()
    }

    /// An empty graph.
    pub fn new() -> (g: DiGraph)
        ensures
            g.wf(),
            g.node_cnt() == 0,
            g.edge_set() == Set::<(nat, nat)>::empty(),
            g.edge_insertions() == 0,
    {
        let g = Self::inner_new();
        proof {
            assert forall|e: (nat, nat)| #[trigger]
                g.edge_set().contains(e) implies e.0 < g.node_cnt() && e.1 < g.node_cnt() by {
                assert(!Set::<(nat, nat)>::empty().contains(e));
            }
        }
        g
    }

    /// The number of nodes.
    pub fn node_count(&self) -> (c: usize)
        ensures
            c == self.node_cnt(),
    {
        self.inner_node_count()
    }

    /// Adds a node labelled `label` and returns its identity, the previous
    /// node count. The edge relation is unchanged.
    pub fn add_node(&mut self, label: &str) -> (i: usize)
        requires
            old(self).wf(),
            old(self).node_cnt() < 0xFFFF_FFFF,
        ensures
            final(self).wf(),
            i == old(self).node_cnt(),
            final(self).node_cnt() == old(self).node_cnt() + 1,
            final(self).edge_set() == old(self).edge_set(),
            final(self).edge_insertions() == old(self).edge_insertions(),
    {
        let i = self.inner_add_node(label);
        proof {
            assert forall|e: (nat, nat)| #[trigger]
                self.edge_set().contains(e) implies e.0 < self.node_cnt() && e.1
                < self.node_cnt() by {
                assert(old(self).edge_set().contains(e));
            }
        }
        i
    }

    /// Adds the directed edge `a -> b` between two existing nodes. The
    /// node set is unchanged.
    pub fn add_edge(&mut self, a: usize, b: usize)
        requires
            old(self).wf(),
            a < old(self).node_cnt(),
            b < old(self).node_cnt(),
            old(self).edge_insertions() < 0xFFFF_FFFF,
        ensures
            final(self).wf(),
            final(self).node_cnt() == old(self).node_cnt(),
            final(self).edge_set() == old(self).edge_set().insert((a as nat, b as nat)),
            final(self).edge_insertions() == old(self).edge_insertions() + 1,
    {
        self.inner_add_edge(a, b);
        proof {
            assert forall|e: (nat, nat)| #[trigger]
                self.edge_set().contains(e) implies e.0 < self.node_cnt() && e.1
                < self.node_cnt() by {
                if e != ((a as nat, b as nat)) {
                    assert(old(self).edge_set().contains(e));
                }
            }
        }
    }

    /// The targets of all edges leaving `n`: every entry is an out-neighbor
    /// of `n`, and every out-neighbor of `n` appears among the entries.
    pub fn neighbors(&self, n: usize) -> (r: Vec<usize>)
        requires
            self.wf(),
            n < self.node_cnt(),
        ensures
            forall|k: int|
                0 <= k < r@.len() ==> self.has_edge(n, #[trigger] r@[k]) && r@[k]
                    < self.node_cnt(),
            forall|m: usize|
                m < self.node_cnt() && #[trigger] self.has_edge(n, m) ==> r@.contains(m),
    {
        let r = self.inner_neighbors(n);
        proof {
            assert forall|k: int|
                0 <= k < r@.len() implies self.has_edge(n, r@[k]) && r@[k]
                < self.node_cnt() by {
                assert(pg_edges(self.inner).contains((n as nat, r@[k] as nat)));
                assert(self.edge_set().contains((n as nat, r@[k] as nat)));
            }
            assert forall|m: usize| m < self.node_cnt() && #[trigger]
                self.has_edge(n, m) implies r@.contains(m) by {
                let k = choose|k: int| 0 <= k < r@.len() && r@[k] as nat == m as nat;
                assert(r@[k] == m);
            }
        }
        r
    }

    /// The sources of all edges entering `n`: every entry is an in-neighbor
    /// of `n`, and every in-neighbor of `n` appears among the entries.
    pub(crate) fn in_neighbors(&self, n: usize) -> (r: Vec<usize>)
        requires
            self.wf(),
            n < self.node_cnt(),
        ensures
            forall|k: int|
                0 <= k < r@.len() ==> self.has_edge(#[trigger] r@[k], n) && r@[k]
                    < self.node_cnt(),
            forall|m: usize|
                m < self.node_cnt() && #[trigger] self.has_edge(m, n) ==> r@.contains(m),
    {
        let r = self.inner_in_neighbors(n);
        proof {
            assert forall|k: int|
                0 <= k < r@.len() implies self.has_edge(r@[k], n) && r@[k]
                < self.node_cnt() by {
                assert(pg_edges(self.inner).contains((r@[k] as nat, n as nat)));
                assert(self.edge_set().contains((r@[k] as nat, n as nat)));
            }
            assert forall|m: usize| m < self.node_cnt() && #[trigger]
                self.has_edge(m, n) implies r@.contains(m) by {
                let k = choose|k: int| 0 <= k < r@.len() && r@[k] as nat == m as nat;
                assert(r@[k] == m);
            }
        }
        r
    }
}

} // verus!
