//! Graph invariant helpers: degree sequence, completeness check, and the
//! specification vocabulary for connectivity.

use vstd::prelude::*;
use vstd::seq_lib::*;
use vstd::set_lib::*;

use crate::graph::SimGraph;
use crate::graph::degree_of;
use crate::graph::endpoints_below;
use crate::graph::has_edge_spec;
use crate::graph::incident;
use crate::graph::index_limit;
use crate::graph::no_duplicate_edges;
use crate::graph::no_self_loops;
use crate::graph::same_pair;
use crate::graph::simple_graph;

verus! {

/// Sum of a sequence of degree counts.
pub open spec fn sum_usize(s: Seq<usize>) -> int
    decreases s.len(),
{
    if s.len() == 0 {
        0
    } else {
        sum_usize(s.drop_last()) + s.last()
    }
}

/// Sum of `degree_of` over the node identifiers `0..n`.
pub open spec fn degree_sum(edges: Seq<(usize, usize)>, n: int) -> int
    decreases n,
{
    if n <= 0 {
        0
    } else {
        degree_sum(edges, n - 1) + degree_of(edges, (n - 1) as usize)
    }
}

/// Greatest number of edges a simple graph on `n` nodes can hold.
pub open spec fn max_edges(n: int) -> int {
    n * (n - 1) / 2
}

/// Appending an edge raises a node's degree by one exactly when the edge
/// touches it.
pub proof fn lemma_degree_push(edges: Seq<(usize, usize)>, e: (usize, usize), v: usize)
    ensures
        degree_of(edges.push(e), v) == degree_of(edges, v) + if incident(e, v) {
            1int
        } else {
            0int
        },
{
    assert(edges.push(e).drop_last() =~= edges);
    assert(edges.push(e).last() == e);
}

/// Appending an edge with two distinct endpoints raises the degree sum over
/// `0..n` by one for each endpoint below `n`.
proof fn lemma_degree_sum_push(edges: Seq<(usize, usize)>, e: (usize, usize), n: int)
    requires
        e.0 != e.1,
        n <= usize::MAX,
    ensures
        degree_sum(edges.push(e), n) == degree_sum(edges, n) + (if e.0 < n {
            1int
        } else {
            0int
        }) + (if e.1 < n {
            1int
        } else {
            0int
        }),
    decreases n,
{
    if n > 0 {
        lemma_degree_sum_push(edges, e, n - 1);
        let v = (n - 1) as usize;
        lemma_degree_push(edges, e, v);
        assert(v == n - 1);
    }
}

/// The degree sum of an edgeless graph is zero.
proof fn lemma_degree_sum_empty(edges: Seq<(usize, usize)>, n: int)
    requires
        edges.len() == 0,
    ensures
        degree_sum(edges, n) == 0,
    decreases n,
{
    if n > 0 {
        lemma_degree_sum_empty(edges, n - 1);
    }
}

/// Handshake identity: in a graph without self-loops whose endpoints all lie
/// below `n`, the degrees over `0..n` sum to twice the edge count.
pub proof fn lemma_handshake(edges: Seq<(usize, usize)>, n: int)
    requires
        endpoints_below(edges, n),
        no_self_loops(edges),
        n <= usize::MAX,
    ensures
        degree_sum(edges, n) == 2 * edges.len(),
    decreases edges.len(),
{
    if edges.len() == 0 {
        lemma_degree_sum_empty(edges, n);
    } else {
        let head = edges.drop_last();
        let e = edges.last();
        assert(head.push(e) =~= edges);
        assert(edges[edges.len() - 1] == e);
        assert(e.0 < n && e.1 < n && e.0 != e.1);
        assert(endpoints_below(head, n) && no_self_loops(head)) by {
            assert(forall|k: int| 0 <= k < head.len() ==> head[k] == edges[k]);
        }
        lemma_handshake(head, n);
        lemma_degree_sum_push(head, e, n);
        assert(degree_sum(edges, n) == degree_sum(head.push(e), n));
    }
}

/// A model that is able to compute its degree sequence.
pub trait DegreeSequence {
    fn degree_sequence(&self) -> Vec<usize>;
}

/// A model that can tell whether its graph is complete.
pub trait Complete {
    fn is_complete(&self) -> bool;
}

impl DegreeSequence for SimGraph {
    /// One entry per node, in identifier order, holding that node's degree.
    /// For a simple graph with in-range endpoints the entries sum to twice
    /// the edge count.
    fn degree_sequence(&self) -> (out: Vec<usize>)
        ensures
            out@.len() == self.nodes(),
            forall|v: int|
                0 <= v < self.nodes() ==> out@[v] == (if v < index_limit() {
                    degree_of(self.edges(), v as usize)
                } else {
                    0int
                }),
            endpoints_below(self.edges(), self.nodes() as int) && no_self_loops(self.edges())
                && self.nodes() <= index_limit() ==> sum_usize(out@) == 2 * self.edges().len(),
    {
        let n = self.node_count();
        let mut out: Vec<usize> = Vec::new();
        let mut v: usize = 0;
        while v < n
            invariant
                v <= n,
                n == self.nodes(),
                out@.len() == v,
                forall|i: int|
                    0 <= i < v ==> out@[i] == (if i < index_limit() {
                        degree_of(self.edges(), i as usize)
                    } else {
                        0int
                    }),
                self.nodes() <= index_limit() ==> sum_usize(out@) == degree_sum(
                    self.edges(),
                    v as int,
                ),
            decreases n - v,
        {
            let d = self.degree(v);
            let ghost prev = out@;
            out.push(d);
            proof {
                assert(out@.drop_last() =~= prev);
            }
            v = v + 1;
        }
        proof {
            if endpoints_below(self.edges(), self.nodes() as int) && no_self_loops(self.edges())
                && self.nodes() <= index_limit() {
                lemma_handshake(self.edges(), self.nodes() as int);
            }
        }
        out
    }
}

impl Complete for SimGraph {
    /// Whether the edge count has reached the maximum a simple graph on this
    /// node set can hold.
    fn is_complete(&self) -> (r: bool)
        ensures
            r == (self.edges().len() == max_edges(self.nodes() as int)),
    {
        let n = self.node_count();
        let e = self.edge_count();
        let nn = n as u128;
        let expected: u128 = if nn == 0 {
            0
        } else {
            proof {
                assert(nn * (nn - 1) <= u128::MAX) by (nonlinear_arith)
                    requires
                        0 < nn <= u64::MAX,
                ;
            }
            nn * (nn - 1) / 2
        };
        proof {
            let ni = self.nodes() as int;
            assert(nn == ni);
            if nn == 0 {
                assert(expected == 0);
                assert(ni == 0);
                assert(ni * (ni - 1) == 0) by (nonlinear_arith)
                    requires
                        ni == 0,
                ;
                assert(max_edges(ni) == 0);
            } else {
                assert(expected == ni * (ni - 1) / 2);
            }
            assert(expected == max_edges(ni));
            assert(e as u128 == e as int);
        }
        (e as u128) == expected
    }
}


/// Triangular numbers: `tri(h)` is the number of unordered pairs of
/// distinct values below `h`.
pub open spec fn tri(h: int) -> int
    decreases h,
{
    if h <= 0 {
        0
    } else {
        tri(h - 1) + (h - 1)
    }
}

proof fn lemma_tri_mono(a: int, b: int)
    requires
        0 <= a <= b,
    ensures
        tri(a) <= tri(b),
    decreases b,
{
    if a < b {
        lemma_tri_mono(a, b - 1);
    }
}

proof fn lemma_tri_double(h: int)
    requires
        h >= 0,
    ensures
        2 * tri(h) == h * (h - 1),
    decreases h,
{
    if h > 0 {
        lemma_tri_double(h - 1);
        assert((h - 1) * (h - 2) + 2 * (h - 1) == h * (h - 1)) by (nonlinear_arith);
    } else {
        assert(h * (h - 1) == 0) by (nonlinear_arith)
            requires
                h == 0,
        ;
    }
}

/// Injective code of the unordered pair an edge joins.
spec fn pair_code(e: (usize, usize)) -> int {
    if e.0 < e.1 {
        tri(e.1 as int) + e.0
    } else {
        tri(e.0 as int) + e.1
    }
}

proof fn lemma_pair_code_range(e: (usize, usize), n: int)
    requires
        e.0 != e.1,
        e.0 < n,
        e.1 < n,
    ensures
        0 <= pair_code(e) < tri(n),
{
    let hi: int = if e.0 < e.1 {
        e.1 as int
    } else {
        e.0 as int
    };
    let lo: int = if e.0 < e.1 {
        e.0 as int
    } else {
        e.1 as int
    };
    lemma_tri_mono(0, hi);
    assert(tri(hi + 1) == tri(hi) + hi);
    lemma_tri_mono(hi + 1, n);
}

proof fn lemma_pair_code_injective(e1: (usize, usize), e2: (usize, usize))
    requires
        e1.0 != e1.1,
        e2.0 != e2.1,
        pair_code(e1) == pair_code(e2),
    ensures
        same_pair(e1, e2),
{
    let hi1: int = if e1.0 < e1.1 {
        e1.1 as int
    } else {
        e1.0 as int
    };
    let hi2: int = if e2.0 < e2.1 {
        e2.1 as int
    } else {
        e2.0 as int
    };
    if hi1 < hi2 {
        assert(tri(hi1 + 1) == tri(hi1) + hi1);
        lemma_tri_mono(hi1 + 1, hi2);
        assert(false);
    } else if hi2 < hi1 {
        assert(tri(hi2 + 1) == tri(hi2) + hi2);
        lemma_tri_mono(hi2 + 1, hi1);
        assert(false);
    }
}

/// A simple graph on `n` nodes holds at most one edge per unordered pair of
/// distinct nodes, so never more than `n * (n - 1) / 2` edges.
pub proof fn lemma_simple_edge_bound(edges: Seq<(usize, usize)>, n: int)
    requires
        simple_graph(edges),
        endpoints_below(edges, n),
        n >= 0,
    ensures
        edges.len() <= max_edges(n),
{
    broadcast use seq_to_set_is_finite;

    let codes = edges.map_values(|e: (usize, usize)| pair_code(e));
    assert forall|i: int, j: int| 0 <= i < j < codes.len() implies codes[i] != codes[j] by {
        assert(codes[i] == pair_code(edges[i]));
        assert(codes[j] == pair_code(edges[j]));
        if codes[i] == codes[j] {
            lemma_pair_code_injective(edges[i], edges[j]);
            assert(!same_pair(edges[i], edges[j]));
        }
    }
    assert(codes.no_duplicates());
    codes.unique_seq_to_set();
    lemma_tri_mono(0, n);
    let range = set_int_range(0, tri(n));
    lemma_int_range(0, tri(n));
    assert forall|c: int| codes.to_set().contains(c) implies range.contains(c) by {
        assert(codes.contains(c));
        let k = choose|k: int| 0 <= k < codes.len() && codes[k] == c;
        assert(codes[k] == pair_code(edges[k]));
        lemma_pair_code_range(edges[k], n);
    }
    lemma_len_subset(codes.to_set(), range);
    lemma_tri_double(n);
    assert(max_edges(n) == tri(n));
}

/// Node `v` has an edge to some lower-numbered node.
pub open spec fn attached_below(edges: Seq<(usize, usize)>, v: usize) -> bool {
    exists|u: usize| u < v && #[trigger] has_edge_spec(edges, u, v)
}

/// Every node beyond the first has an edge to some lower-numbered node; the
/// invariant by which a growing policy keeps its graph in one piece.
pub open spec fn attached(n: nat, edges: Seq<(usize, usize)>) -> bool {
    forall|v: usize| 1 <= v < n ==> #[trigger] attached_below(edges, v)
}

/// `p` lists nodes that consecutive edges of `edges` join.
pub open spec fn is_path(edges: Seq<(usize, usize)>, p: Seq<usize>) -> bool {
    forall|i: int| 0 <= i < p.len() - 1 ==> #[trigger] has_edge_spec(edges, p[i], p[i + 1])
}

/// Some path through `edges` leads from `a` to `b`.
pub open spec fn connects(edges: Seq<(usize, usize)>, a: usize, b: usize) -> bool {
    exists|p: Seq<usize>| p.len() >= 1 && p.first() == a && p.last() == b && is_path(edges, p)
}

/// All nodes of `0..n` lie in a single connected component.
pub open spec fn connected(n: nat, edges: Seq<(usize, usize)>) -> bool {
    forall|a: usize, b: usize| a < n && b < n ==> #[trigger] connects(edges, a, b)
}

pub proof fn lemma_connects_refl(edges: Seq<(usize, usize)>, a: usize)
    ensures
        connects(edges, a, a),
{
    let p = seq![a];
    assert(p.len() >= 1 && p.first() == a && p.last() == a && is_path(edges, p));
}

/// A path may be extended by one edge at its end.
pub proof fn lemma_connects_step(edges: Seq<(usize, usize)>, a: usize, b: usize, c: usize)
    requires
        connects(edges, a, b),
        has_edge_spec(edges, b, c),
    ensures
        connects(edges, a, c),
{
    let p = choose|p: Seq<usize>|
        p.len() >= 1 && p.first() == a && p.last() == b && is_path(edges, p);
    let q = p.push(c);
    assert(q.first() == a);
    assert(q.last() == c);
    assert(is_path(edges, q)) by {
        assert forall|i: int| 0 <= i < q.len() - 1 implies #[trigger] has_edge_spec(
            edges,
            q[i],
            q[i + 1],
        ) by {
            if i < p.len() - 1 {
                assert(q[i] == p[i] && q[i + 1] == p[i + 1]);
            } else {
                assert(q[i] == p.last() && q[i + 1] == c);
            }
        }
    }
}

/// A path may be extended by one edge at its start.
pub proof fn lemma_connects_step_front(edges: Seq<(usize, usize)>, a: usize, b: usize, c: usize)
    requires
        has_edge_spec(edges, a, b),
        connects(edges, b, c),
    ensures
        connects(edges, a, c),
{
    let p = choose|p: Seq<usize>|
        p.len() >= 1 && p.first() == b && p.last() == c && is_path(edges, p);
    let q = seq![a] + p;
    assert(q.len() >= 2);
    assert(q.first() == a);
    assert(q.last() == c);
    assert(is_path(edges, q)) by {
        assert forall|i: int| 0 <= i < q.len() - 1 implies #[trigger] has_edge_spec(
            edges,
            q[i],
            q[i + 1],
        ) by {
            if i == 0 {
                assert(q[0] == a && q[1] == p[0]);
                assert(p[0] == b);
                assert(has_edge_spec(edges, q[0], q[1]) == has_edge_spec(edges, a, b));
            } else {
                assert(is_path(edges, p));
                let j = i - 1;
                assert(0 <= j < p.len() - 1);
                assert(has_edge_spec(edges, p[j], p[j + 1]));
                assert(q[i] == p[j] && q[i + 1] == p[j + 1]);
                assert(has_edge_spec(edges, q[i], q[i + 1]) == has_edge_spec(
                    edges,
                    p[j],
                    p[j + 1],
                ));
            }
        }
    }
}

/// Paths compose.
pub proof fn lemma_connects_trans(edges: Seq<(usize, usize)>, a: usize, b: usize, c: usize)
    requires
        connects(edges, a, b),
        connects(edges, b, c),
    ensures
        connects(edges, a, c),
{
    let p2 = choose|p: Seq<usize>|
        p.len() >= 1 && p.first() == b && p.last() == c && is_path(edges, p);
    if p2.len() == 1 {
        assert(b == c);
    } else {
        let p1 = choose|p: Seq<usize>|
            p.len() >= 1 && p.first() == a && p.last() == b && is_path(edges, p);
        let q = p1 + p2.subrange(1, p2.len() as int);
        assert(q.len() == p1.len() + p2.len() - 1);
        assert(q.first() == a);
        assert(q.last() == p2[p2.len() - 1]);
        assert(is_path(edges, q)) by {
            assert forall|i: int| 0 <= i < q.len() - 1 implies #[trigger] has_edge_spec(
                edges,
                q[i],
                q[i + 1],
            ) by {
                if i < p1.len() - 1 {
                    assert(q[i] == p1[i] && q[i + 1] == p1[i + 1]);
                } else if i == p1.len() - 1 {
                    assert(q[i] == p1.last());
                    assert(q[i + 1] == p2[1]);
                    assert(has_edge_spec(edges, p2[0], p2[1]));
                } else {
                    assert(q[i] == p2[i - p1.len() + 1]);
                    assert(q[i + 1] == p2[i - p1.len() + 2]);
                    assert(has_edge_spec(edges, p2[i - p1.len() + 1], p2[i - p1.len() + 2]));
                }
            }
        }
    }
}

/// In an attached graph every node connects to node 0.
proof fn lemma_attached_connects_zero(n: nat, edges: Seq<(usize, usize)>, v: usize)
    requires
        attached(n, edges),
        v < n,
    ensures
        connects(edges, v, 0),
        connects(edges, 0, v),
    decreases v,
{
    if v == 0 {
        lemma_connects_refl(edges, 0);
    } else {
        assert(attached_below(edges, v));
        let u = choose|u: usize| u < v && #[trigger] has_edge_spec(edges, u, v);
        lemma_attached_connects_zero(n, edges, u);
        assert(has_edge_spec(edges, v, u));
        lemma_connects_step_front(edges, v, u, 0);
        lemma_connects_step(edges, 0, u, v);
    }
}

/// An attached graph is connected: the law behind the growth policies'
/// single-component guarantee.
pub proof fn lemma_attached_connected(n: nat, edges: Seq<(usize, usize)>)
    requires
        attached(n, edges),
    ensures
        connected(n, edges),
{
    assert forall|a: usize, b: usize| a < n && b < n implies connects(edges, a, b) by {
        lemma_attached_connects_zero(n, edges, a);
        lemma_attached_connects_zero(n, edges, b);
        lemma_connects_trans(edges, a, 0, b);
    }
}

} // verus!
