//! Undirected simple-graph handle used by every attachment policy.
//!
//! The graph storage itself comes from petgraph; this module declares the
//! outside type, names its contents (node total and edge list), and exposes
//! verified operations whose contracts speak over those names.

use vstd::prelude::*;

verus! {

#[verifier::external_type_specification]
#[verifier::external_body]
#[verifier::reject_recursive_types(N)]
#[verifier::reject_recursive_types(E)]
#[verifier::reject_recursive_types(Ty)]
#[verifier::reject_recursive_types(Ix)]
pub struct ExGraph<N, E, Ty, Ix>(petgraph::graph::Graph<N, E, Ty, Ix>);

#[verifier::external_type_specification]
#[verifier::external_body]
pub struct ExUndirected(petgraph::Undirected);

/// The edges a graph value holds, in insertion order, each as the pair of
/// endpoint identifiers it was added with.
pub uninterp spec fn graph_edge_seq(
    g: petgraph::graph::Graph<(), (), petgraph::Undirected, u32>,
) -> Seq<(usize, usize)>;

/// How many nodes a graph value holds; identifiers are 0 up to this total.
pub uninterp spec fn graph_node_total(
    g: petgraph::graph::Graph<(), (), petgraph::Undirected, u32>,
) -> nat;

/// Does `e` touch node `v`?
pub open spec fn incident(e: (usize, usize), v: usize) -> bool {
    e.0 == v || e.1 == v
}

/// Number of edges in `edges` that touch `v` (a parallel edge counts each
/// time it occurs; a self-loop counts once).
pub open spec fn degree_of(edges: Seq<(usize, usize)>, v: usize) -> int
    decreases edges.len(),
{
    if edges.len() == 0 {
        0
    } else {
        degree_of(edges.drop_last(), v) + if incident(edges.last(), v) {
            1int
        } else {
            0int
        }
    }
}

/// Is there an edge between `a` and `b`, in either orientation?
pub open spec fn has_edge_spec(edges: Seq<(usize, usize)>, a: usize, b: usize) -> bool {
    exists|k: int|
        0 <= k < edges.len() && (edges[k] == (a, b) || edges[k] == (b, a))
}

/// Do `e1` and `e2` join the same unordered pair of nodes?
pub open spec fn same_pair(e1: (usize, usize), e2: (usize, usize)) -> bool {
    e1 == e2 || (e1.0 == e2.1 && e1.1 == e2.0)
}

/// Every endpoint is a valid node identifier below `n`.
pub open spec fn endpoints_below(edges: Seq<(usize, usize)>, n: int) -> bool {
    forall|k: int| 0 <= k < edges.len() ==> edges[k].0 < n && edges[k].1 < n
}

pub open spec fn no_self_loops(edges: Seq<(usize, usize)>) -> bool {
    forall|k: int| 0 <= k < edges.len() ==> edges[k].0 != edges[k].1
}

pub open spec fn no_duplicate_edges(edges: Seq<(usize, usize)>) -> bool {
    forall|k1: int, k2: int|
        0 <= k1 < k2 < edges.len() ==> !same_pair(edges[k1], edges[k2])
}

/// No self-loops and no multi-edges.
pub open spec fn simple_graph(edges: Seq<(usize, usize)>) -> bool {
    no_self_loops(edges) && no_duplicate_edges(edges)
}

/// Largest node identifier petgraph accepts with its 32-bit index type; the
/// index equal to this value is reserved as a sentinel.
pub open spec fn index_limit() -> int {
    0xffff_ffff
}

/// Undirected graph with integer node identifiers assigned in creation order.
pub struct SimGraph {
    inner: petgraph::graph::Graph<(), (), petgraph::Undirected, u32>,
}

impl SimGraph {
    /// Node total of this graph.
    pub closed spec fn nodes(self) -> nat {
        graph_node_total(self.inner)
    }

    /// Edge list of this graph, in insertion order.
    pub closed spec fn edges(self) -> Seq<(usize, usize)> {
        graph_edge_seq(self.inner)
    }

    /// Relies on petgraph's `Graph::new_undirected`: an empty graph.
    #[verifier::external_body]
    fn new_raw() -> (g: SimGraph)
        ensures
            graph_node_total(g.inner) == 0,
            graph_edge_seq(g.inner) == Seq::<(usize, usize)>::empty(),
    {
        SimGraph { inner: petgraph::graph::UnGraph::new_undirected() }
    }

    /// Relies on petgraph's `Graph::add_node`: appends one node and returns
    /// its identifier, the previous node total. Panics only at the index
    /// limit, which the precondition rules out.
    #[verifier::external_body]
    pub(crate) fn add_node_raw(&mut self) -> (id: usize)
        requires
            old(self).nodes() < index_limit(),
        ensures
            id == old(self).nodes(),
            final(self).nodes() == old(self).nodes() + 1,
            final(self).edges() == old(self).edges(),
    {
        self.inner.add_node(()).index()
    }

    /// Relies on petgraph's `Graph::add_edge`: appends the edge `(a, b)` to
    /// the edge list. Panics on an unknown endpoint or at the index limit,
    /// which the preconditions rule out.
    #[verifier::external_body]
    pub(crate) fn add_edge_raw(&mut self, a: usize, b: usize)
        requires
            a < old(self).nodes(),
            b < old(self).nodes(),
            old(self).edges().len() < index_limit(),
        ensures
            final(self).nodes() == old(self).nodes(),
            final(self).edges() == old(self).edges().push((a, b)),
    {
        self.inner.add_edge(
            petgraph::graph::NodeIndex::new(a),
            petgraph::graph::NodeIndex::new(b),
            (),
        );
    }

    /// Relies on petgraph's `Graph::node_count`: the node total.
    #[verifier::external_body]
    fn node_count_raw(&self) -> (n: usize)
        ensures
            n == self.nodes(),
    {
        self.inner.node_count()
    }

    /// Relies on petgraph's `Graph::edge_count`: the edge list length.
    #[verifier::external_body]
    fn edge_count_raw(&self) -> (n: usize)
        ensures
            n == self.edges().len(),
    {
        self.inner.edge_count()
    }

    /// Relies on petgraph's `Graph::edges` iterator, which on an undirected
    /// graph yields each edge touching the node exactly once. The
    /// precondition keeps the identifier below the 32-bit index range, where
    /// petgraph's index constructor is exact.
    #[verifier::external_body]
    fn degree_raw(&self, v: usize) -> (d: usize)
        requires
            v < index_limit(),
        ensures
            d == degree_of(self.edges(), v),
    {
        self.inner.edges(petgraph::graph::NodeIndex::new(v)).count()
    }

    /// Relies on petgraph's `Graph::find_edge`, which on an undirected graph
    /// looks the pair up in either orientation and never panics. The
    /// preconditions keep both identifiers below the 32-bit index range,
    /// where petgraph's index constructor is exact.
    #[verifier::external_body]
    fn find_edge_raw(&self, a: usize, b: usize) -> (found: bool)
        requires
            a < index_limit(),
            b < index_limit(),
        ensures
            found == has_edge_spec(self.edges(), a, b),
    {
        self.inner.find_edge(
            petgraph::graph::NodeIndex::new(a),
            petgraph::graph::NodeIndex::new(b),
        ).is_some()
    }

    /// Relies on petgraph's `Clone` for `Graph`, which copies the node and
    /// edge storage unchanged.
    #[verifier::external_body]
    pub(crate) fn clone_graph(&self) -> (g: SimGraph)
        ensures
            g.nodes() == self.nodes(),
            g.edges() == self.edges(),
    {
        SimGraph { inner: self.inner.clone() }
    }

    /// Relies on petgraph's `Graph::raw_edges`: the stored edge list in
    /// insertion order; each entry is converted to its endpoint pair.
    #[verifier::external_body]
    fn edge_list_raw(&self) -> (out: Vec<(usize, usize)>)
        ensures
            out@ == self.edges(),
    {
        self.inner
            .raw_edges()
            .iter()
            .map(|e| (e.source().index(), e.target().index()))
            .collect()
    }

    /// Relies on petgraph_gen's `complete_graph`: nodes `0..n` and exactly
    /// one edge for every unordered pair of distinct nodes, each stored with
    /// its smaller endpoint first.
    #[verifier::external_body]
    pub(crate) fn seed_complete(n: usize) -> (g: SimGraph)
        requires
            n < index_limit(),
            n * n <= usize::MAX,
            n * (n - 1) / 2 < index_limit(),
        ensures
            g.nodes() == n,
            g.edges().len() == n * (n - 1) / 2,
            forall|k: int|
                0 <= k < g.edges().len() ==> (#[trigger] g.edges()[k]).0 < g.edges()[k].1
                    && g.edges()[k].1 < n,
            no_duplicate_edges(g.edges()),
            forall|i: usize, j: usize| i < j && j < n ==> #[trigger] has_edge_spec(g.edges(), i, j),
    {
        SimGraph { inner: petgraph_gen::complete_graph(n) }
    }

    /// Relies on petgraph_gen's `star_graph`: node 0 is the center, with one
    /// edge `(0, i)` to each of the leaves `1..=leaves`, added in order.
    #[verifier::external_body]
    pub(crate) fn seed_star(leaves: usize) -> (g: SimGraph)
        requires
            leaves + 1 < index_limit(),
        ensures
            g.nodes() == leaves + 1,
            g.edges().len() == leaves,
            forall|k: int|
                0 <= k < g.edges().len() ==> (#[trigger] g.edges()[k]) == (
                    0usize,
                    (k + 1) as usize,
                ),
    {
        SimGraph { inner: petgraph_gen::star_graph(leaves) }
    }

    /// Graph with `n` isolated nodes and no edges.
    pub fn with_nodes(n: usize) -> (g: SimGraph)
        requires
            n < index_limit(),
        ensures
            g.nodes() == n,
            g.edges() == Seq::<(usize, usize)>::empty(),
    {
        let mut g = SimGraph::new_raw();
        let mut i: usize = 0;
        while i < n
            invariant
                i <= n,
                n < index_limit(),
                g.nodes() == i,
                g.edges() == Seq::<(usize, usize)>::empty(),
            decreases n - i,
        {
            g.add_node_raw();
            i = i + 1;
        }
        g
    }

    pub fn node_count(&self) -> (n: usize)
        ensures
            n == self.nodes(),
    {
        self.node_count_raw()
    }

    pub fn edge_count(&self) -> (n: usize)
        ensures
            n == self.edges().len(),
    {
        self.edge_count_raw()
    }

    /// Degree of `v`. An identifier at or above the index limit is never a
    /// stored node, so it reports zero.
    pub fn degree(&self, v: usize) -> (d: usize)
        ensures
            v < index_limit() ==> d == degree_of(self.edges(), v),
            v >= index_limit() ==> d == 0,
    {
        if v < 0xffff_ffff {
            self.degree_raw(v)
        } else {
            0
        }
    }

    /// Is there an edge between `a` and `b`? Identifiers at or above the
    /// index limit are never stored nodes, so such a pair reports false.
    pub fn has_edge(&self, a: usize, b: usize) -> (found: bool)
        ensures
            a < index_limit() && b < index_limit() ==> found == has_edge_spec(
                self.edges(),
                a,
                b,
            ),
            !(a < index_limit() && b < index_limit()) ==> !found,
    {
        if a < 0xffff_ffff && b < 0xffff_ffff {
            self.find_edge_raw(a, b)
        } else {
            false
        }
    }

    pub fn edge_list(&self) -> (out: Vec<(usize, usize)>)
        ensures
            out@ == self.edges(),
    {
        self.edge_list_raw()
    }

    /// Adds the edge `(a, b)` if both endpoints exist within the index
    /// range, the endpoints differ, the pair is not yet joined and the edge
    /// list is below the index limit; reports whether the edge was added.
    pub fn connect(&mut self, a: usize, b: usize) -> (added: bool)
        ensures
            added == (a < old(self).nodes() && b < old(self).nodes() && a < index_limit()
                && b < index_limit() && a != b && !has_edge_spec(old(self).edges(), a, b)
                && old(self).edges().len() < index_limit()),
            added ==> final(self).edges() == old(self).edges().push((a, b)),
            !added ==> final(self).edges() == old(self).edges(),
            final(self).nodes() == old(self).nodes(),
    {
        let n = self.node_count();
        let e = self.edge_count();
        if a < n && b < n && a < 0xffff_ffff && b < 0xffff_ffff && a != b && !self.has_edge(a, b)
            && e < 0xffff_ffff {
            self.add_edge_raw(a, b);
            true
        } else {
            false
        }
    }
}

} // verus!
