//! The three Barabasi-Albert attachment policies and their configuration.

use vstd::prelude::*;

use crate::args::Args;
use crate::args::ArgsGraphType;
use crate::graph::SimGraph;
use crate::graph::degree_of;
use crate::graph::endpoints_below;
use crate::graph::has_edge_spec;
use crate::graph::index_limit;
use crate::graph::no_self_loops;
use crate::graph::no_duplicate_edges;
use crate::graph::same_pair;
use crate::graph::simple_graph;
use crate::graph_utils::attached;
use crate::graph_utils::attached_below;
use crate::graph_utils::connected;
use crate::graph_utils::Complete;
use crate::graph_utils::degree_sum;
use crate::graph_utils::lemma_attached_connected;
use crate::graph_utils::lemma_degree_push;
use crate::graph_utils::lemma_handshake;
use crate::graph_utils::lemma_simple_edge_bound;
use crate::graph_utils::max_edges;
use crate::sampling::StubPool;
use crate::sampling::TargetSelector;
use crate::sampling::fresh_rng;
use crate::sampling::sample_below;
use crate::vertices_evolution::TrackVertices as TrackerUpdate;
use crate::vertices_evolution::VerticesEvolution;

verus! {

#[derive(Debug, Copy, Clone, PartialEq, Eq, Structural)]
pub enum GraphType {
    Complete,
    Star,
    Disconnected,
}

/// Represents the starting parameters of a Barabasi-Albert model.
#[derive(Debug, Clone)]
pub struct ModelConfig {
    pub initial_nodes: usize,
    /// Number of new edges per time step of the simulation.
    pub edges_increment: usize,
    /// Number of iterations of the simulation.
    pub end_time: usize,
    pub starting_graph_type: GraphType,
    /// Arrival times whose vertex's degree evolution is recorded. The
    /// growth policies track the node whose identifier equals the arrival
    /// time (identifiers are assigned in creation order, so arrival times
    /// count from the seed nodes); the policy without growth tracks the
    /// source picked at that step.
    pub tracked_arrivals: Vec<usize>,
}

/// Field-wise agreement of two configurations.
pub open spec fn same_config(a: ModelConfig, b: ModelConfig) -> bool {
    &&& a.initial_nodes == b.initial_nodes
    &&& a.edges_increment == b.edges_increment
    &&& a.end_time == b.end_time
    &&& a.starting_graph_type == b.starting_graph_type
    &&& a.tracked_arrivals@ == b.tracked_arrivals@
}

/// Edge count of the configured seed graph.
pub open spec fn seed_edge_count(mc: ModelConfig) -> int {
    match mc.starting_graph_type {
        GraphType::Complete => max_edges(mc.initial_nodes as int),
        GraphType::Star => mc.initial_nodes - 1,
        GraphType::Disconnected => 0,
    }
}

/// Edge count a growth policy reaches after all steps.
pub open spec fn final_edge_target(mc: ModelConfig) -> int {
    seed_edge_count(mc) + mc.edges_increment * mc.end_time
}

impl ModelConfig {
    /// Validity: the documented parameter constraints, plus the machine
    /// limits under which node identifiers, edge indices and the stub pool
    /// length stay representable.
    pub open spec fn wf(self) -> bool {
        &&& 2 <= self.initial_nodes
        &&& 1 <= self.edges_increment <= self.initial_nodes
        &&& self.initial_nodes + self.end_time < index_limit()
        &&& self.initial_nodes * self.initial_nodes <= usize::MAX
        &&& final_edge_target(self) < index_limit()
        &&& self.initial_nodes + 2 * final_edge_target(self) <= usize::MAX
    }

    pub fn from_args(args: &Args, tracked_arrivals: Vec<usize>) -> (r: ModelConfig)
        requires
            args.n >= 2,
            args.m >= 1,
            args.m <= args.n,
        ensures
            r.initial_nodes == args.n,
            r.edges_increment == args.m,
            r.end_time == args.t_max,
            r.starting_graph_type == graph_type_of_args(args.starting_graph),
            r.tracked_arrivals@ == tracked_arrivals@,
    {
        ModelConfig {
            initial_nodes: args.n,
            edges_increment: args.m,
            end_time: args.t_max,
            starting_graph_type: match args.starting_graph {
                ArgsGraphType::Complete => GraphType::Complete,
                ArgsGraphType::Star => GraphType::Star,
                ArgsGraphType::Disconnected => GraphType::Disconnected,
            },
            tracked_arrivals,
        }
    }

    /// A copy with the same field values.
    pub fn duplicate(&self) -> (r: ModelConfig)
        ensures
            same_config(r, *self),
    {
        ModelConfig {
            initial_nodes: self.initial_nodes,
            edges_increment: self.edges_increment,
            end_time: self.end_time,
            starting_graph_type: self.starting_graph_type,
            tracked_arrivals: copy_usizes(&self.tracked_arrivals),
        }
    }
}

/// The starting graph type an argument value selects.
pub open spec fn graph_type_of_args(g: ArgsGraphType) -> GraphType {
    match g {
        ArgsGraphType::Complete => GraphType::Complete,
        ArgsGraphType::Star => GraphType::Star,
        ArgsGraphType::Disconnected => GraphType::Disconnected,
    }
}

/// A model that is capable of building itself from a `ModelConfig`.
pub trait FromModelConfig: Sized {
    /// Which configurations this policy can start from.
    spec fn accepts(mc: ModelConfig) -> bool;

    /// Structural soundness of the model state.
    spec fn inv(&self) -> bool;

    /// The configuration the model was built from.
    spec fn config(&self) -> ModelConfig;

    /// Number of completed steps.
    spec fn steps_done(&self) -> nat;

    fn from_model_config(model_config: ModelConfig) -> (r: Self)
        requires
            model_config.wf(),
            Self::accepts(model_config),
        ensures
            r.inv(),
            same_config(r.config(), model_config),
            r.steps_done() == 0,
    ;

    /// Acceptance depends only on the configuration's field values.
    proof fn accepts_same(a: ModelConfig, b: ModelConfig)
        requires
            Self::accepts(a),
            same_config(a, b),
        ensures
            Self::accepts(b),
    ;
}

/// A model that is capable of stepping through the simulation.
pub trait Step: FromModelConfig {
    fn step(&mut self) -> (advanced: bool)
        requires
            old(self).inv(),
            old(self).steps_done() < old(self).config().end_time,
        ensures
            final(self).inv(),
            same_config(final(self).config(), old(self).config()),
            advanced ==> final(self).steps_done() == old(self).steps_done() + 1,
            !advanced ==> final(self).steps_done() == old(self).steps_done(),
    ;
}

/// A model that can generate its graph by running all steps.
pub trait Gen: FromModelConfig {
    /// Node count of the finished graph.
    spec fn final_nodes(mc: ModelConfig) -> nat;

    /// The final node count depends only on the configuration's field
    /// values.
    proof fn final_nodes_same(a: ModelConfig, b: ModelConfig)
        requires
            same_config(a, b),
        ensures
            Self::final_nodes(a) == Self::final_nodes(b),
    ;

    /// Has the run finished, so the recorded trajectories are final?
    spec fn done(&self) -> bool;

    /// The trajectory recorded for arrival time `a` in the current state,
    /// absent when the arrival was never registered or never reached.
    spec fn recorded(&self, a: usize) -> Option<Seq<usize>>;

    /// The trajectory length every finished run records for arrival `a`,
    /// when `spans_determined` says the configuration pins it.
    spec fn arrival_span(mc: ModelConfig, a: usize) -> Option<nat>;

    /// Does the configuration alone determine the trajectory recorded for
    /// each arrival over a finished run?
    spec fn spans_determined(mc: ModelConfig) -> bool;

    /// Span determinism depends only on the configuration's field values.
    proof fn spans_same(a: ModelConfig, b: ModelConfig, arrival: usize)
        requires
            same_config(a, b),
        ensures
            Self::spans_determined(a) == Self::spans_determined(b),
            Self::arrival_span(a, arrival) == Self::arrival_span(b, arrival),
    ;

    fn generate(&mut self) -> (g: SimGraph)
        requires
            old(self).inv(),
            old(self).steps_done() == 0,
        ensures
            final(self).inv(),
            same_config(final(self).config(), old(self).config()),
            g.nodes() == Self::final_nodes(old(self).config()),
            simple_graph(g.edges()),
            endpoints_below(g.edges(), g.nodes() as int),
            final(self).done(),
            Self::spans_determined(old(self).config()) ==> forall|a: usize|
                match Self::arrival_span(old(self).config(), a) {
                    Some(l) => (#[trigger] final(self).recorded(a)) is Some && final(self).recorded(a)->Some_0.len() == l,
                    None => final(self).recorded(a) is None,
                },
    ;
}

/// A model that tracks the degree evolution of chosen vertices.
pub trait TrackVertices: Gen {
    fn get_vertex_evolution(&self, vertex_id: usize) -> Vec<usize>;

    fn get_arrival_evolution(&self, arrival: usize) -> (r: Option<Vec<usize>>)
        ensures
            r is Some <==> self.recorded(arrival) is Some,
            r is Some ==> r->Some_0@ == self.recorded(arrival)->Some_0,
    ;

    fn update_vertices_evolution(&mut self, time: usize);
}

/// Entries never decrease along the sequence.
pub open spec fn nondecreasing(s: Seq<usize>) -> bool {
    forall|i: int, j: int| 0 <= i <= j < s.len() ==> s[i] <= s[j]
}

/// Element-by-element copy.
pub(crate) fn copy_usizes(v: &Vec<usize>) -> (r: Vec<usize>)
    ensures
        r@ == v@,
{
    let mut r: Vec<usize> = Vec::new();
    let mut i: usize = 0;
    while i < v.len()
        invariant
            i <= v@.len(),
            r@ == v@.subrange(0, i as int),
        decreases v@.len() - i,
    {
        r.push(v[i]);
        proof {
            assert(r@ =~= v@.subrange(0, i + 1 as int));
        }
        i = i + 1;
    }
    proof {
        assert(v@.subrange(0, v@.len() as int) =~= v@);
    }
    r
}

/// Linear membership scan.
fn contains_value(v: &Vec<usize>, x: usize) -> (r: bool)
    ensures
        r == v@.contains(x),
{
    let mut i: usize = 0;
    while i < v.len()
        invariant
            i <= v@.len(),
            forall|k: int| 0 <= k < i ==> v@[k] != x,
        decreases v@.len() - i,
    {
        if v[i] == x {
            return true;
        }
        i = i + 1;
    }
    false
}

/// Attempt budget for one step's rejection sampling; chosen generously so a
/// draw practically never falls back, while keeping every loop bounded.
fn attempt_budget(m: usize) -> (b: usize)
    ensures
        b >= 1,
{
    if m < 0x0100_0000 {
        64 * m + 64
    } else {
        m
    }
}

/// A degree never shrinks when the edge list is extended.
pub proof fn lemma_degree_prefix_monotone(e1: Seq<(usize, usize)>, e2: Seq<(usize, usize)>, v: usize)
    requires
        e1.is_prefix_of(e2),
    ensures
        degree_of(e1, v) <= degree_of(e2, v),
    decreases e2.len(),
{
    if e1.len() == e2.len() {
        assert(e1 =~= e2);
    } else {
        let head = e2.drop_last();
        assert(e1.is_prefix_of(head));
        lemma_degree_prefix_monotone(e1, head, v);
    }
}

/// A node's degree is bounded by the number of edges.
pub proof fn lemma_degree_bound(edges: Seq<(usize, usize)>, v: usize)
    ensures
        0 <= degree_of(edges, v) <= edges.len(),
    decreases edges.len(),
{
    if edges.len() > 0 {
        lemma_degree_bound(edges.drop_last(), v);
    }
}

/// An edge present in a prefix is present in the whole list.
pub proof fn lemma_has_edge_prefix(
    e1: Seq<(usize, usize)>,
    e2: Seq<(usize, usize)>,
    a: usize,
    b: usize,
)
    requires
        e1.is_prefix_of(e2),
        has_edge_spec(e1, a, b),
    ensures
        has_edge_spec(e2, a, b),
{
    let k = choose|k: int| 0 <= k < e1.len() && (e1[k] == (a, b) || e1[k] == (b, a));
    assert(e2[k] == e1[k]);
}

} // verus!

verus! {

/// Time-independent soundness of a growth policy's tracker: each entry
/// tracks the node that arrived at its arrival time, within the graph, with
/// a non-decreasing trajectory that never exceeds the node's current degree.
pub open spec fn growth_tracker_basic(
    ve: VerticesEvolution,
    edges: Seq<(usize, usize)>,
    nodes: nat,
    steps: nat,
    arrivals: Seq<usize>,
) -> bool {
    &&& ve.wf()
    &&& forall|i: int|
        0 <= i < ve.entry_seq().len() ==> {
            let e = #[trigger] ve.entry_seq()[i];
            &&& e.1 == e.0
            &&& 1 <= e.0 <= steps
            &&& arrivals.contains(e.0)
            &&& e.1 < nodes
            &&& nondecreasing(e.2)
            &&& e.2.len() >= 1
            &&& e.2.last() <= degree_of(edges, e.1)
        }
}

/// Every tracked arrival reached by `time` is registered, and each entry
/// holds one observation per step since its arrival.
pub open spec fn growth_tracker_synced(
    ve: VerticesEvolution,
    time: int,
    arrivals: Seq<usize>,
) -> bool {
    &&& forall|i: int|
        0 <= i < ve.entry_seq().len() ==> (#[trigger] ve.entry_seq()[i]).2.len() == time
            - ve.entry_seq()[i].0 + 1
    &&& forall|a: usize| #[trigger] arrivals.contains(a) && 1 <= a <= time ==> ve.has_arrival(a)
}

/// A non-decreasing trajectory stays non-decreasing when a value at least as
/// large as its last entry is appended.
proof fn lemma_nondecreasing_push(s: Seq<usize>, d: usize)
    requires
        nondecreasing(s),
        s.len() > 0 ==> s.last() <= d,
    ensures
        nondecreasing(s.push(d)),
{
    let t = s.push(d);
    assert forall|i: int, j: int| 0 <= i <= j < t.len() implies t[i] <= t[j] by {
        if j < s.len() {
            assert(t[i] == s[i] && t[j] == s[j]);
        } else if i < s.len() {
            assert(t[i] == s[i] && t[j] == d);
            assert(s[i] <= s.last());
        }
    }
}

/// Registers the arrival occurring at `time` (the growth policies track the
/// node whose identifier equals the arrival time) and appends every tracked
/// node's current degree observation.
fn advance_growth_tracker(
    ve: &mut VerticesEvolution,
    graph: &SimGraph,
    arrivals: &Vec<usize>,
    time: usize,
)
    ensures
        (1 <= time && time < graph.nodes() && time < index_limit()
            && graph.edges().len() <= usize::MAX && growth_tracker_basic(
            *old(ve),
            graph.edges(),
            graph.nodes(),
            (time - 1) as nat,
            arrivals@,
        ) && growth_tracker_synced(*old(ve), time - 1, arrivals@)) ==> (growth_tracker_basic(
            *final(ve),
            graph.edges(),
            graph.nodes(),
            time as nat,
            arrivals@,
        ) && growth_tracker_synced(*final(ve), time as int, arrivals@)),
{
    let ghost ok = 1 <= time && time < graph.nodes() && time < index_limit()
        && graph.edges().len() <= usize::MAX && growth_tracker_basic(
        *ve,
        graph.edges(),
        graph.nodes(),
        (time - 1) as nat,
        arrivals@,
    ) && growth_tracker_synced(*ve, time - 1, arrivals@);
    let registered = contains_value(arrivals, time);
    if registered && time >= 1 {
        proof {
            if ok {
                assert forall|i: int|
                    0 <= i < ve.entry_seq().len() implies (#[trigger] ve.entry_seq()[i]).0 != time
                        && ve.entry_seq()[i].1 != time by {}
                assert(!ve.has_arrival(time));
                assert(!ve.has_node(time));
            }
        }
        ve.track_vertex(time, time);
    }
    let ghost mid = *ve;
    proof {
        if ok {
            // Each entry of the registration result is either an old entry or
            // the fresh one for this arrival.
            assert(mid.wf()) by {
                if registered {
                    assert(mid.entry_seq() == old(ve).entry_seq().push(
                        (time, time, Seq::<usize>::empty()),
                    ));
                    assert forall|i: int, j: int|
                        0 <= i < j < mid.entry_seq().len() implies (#[trigger] mid.entry_seq()[i]).0
                        != (#[trigger] mid.entry_seq()[j]).0 && mid.entry_seq()[i].1
                        != mid.entry_seq()[j].1 by {
                        if j < mid.entry_seq().len() - 1 {
                            assert(mid.entry_seq()[i] == old(ve).entry_seq()[i]);
                            assert(mid.entry_seq()[j] == old(ve).entry_seq()[j]);
                        } else {
                            assert(mid.entry_seq()[i] == old(ve).entry_seq()[i]);
                            assert(mid.entry_seq()[j].0 == time);
                        }
                    }
                }
            }
        }
    }
    ve.update(graph, time);
    proof {
        if ok {
            let es = ve.entry_seq();
            let n = graph.nodes();
            let edges = graph.edges();
            assert forall|i: int| 0 <= i < es.len() implies {
                let e = #[trigger] es[i];
                &&& e.1 == e.0
                &&& 1 <= e.0 <= time as nat
                &&& arrivals@.contains(e.0)
                &&& e.1 < n
                &&& nondecreasing(e.2)
                &&& e.2.len() >= 1
                &&& e.2.last() <= degree_of(edges, e.1)
                &&& e.2.len() == time - e.0 + 1
            } by {
                let me = mid.entry_seq()[i];
                assert(me.0 <= time && me.1 < n && me.1 < index_limit()) by {
                    if registered && i == mid.entry_seq().len() - 1 && !old(ve).has_arrival(time) {
                        assert(me == (time, time, Seq::<usize>::empty()));
                    } else {
                        assert(me == old(ve).entry_seq()[i]);
                    }
                }
                assert(0 <= degree_of(edges, me.1) <= edges.len()) by {
                    lemma_degree_bound(edges, me.1);
                }
                assert(es[i] == (me.0, me.1, me.2.push(degree_of(edges, me.1) as usize)));
                let d = degree_of(edges, me.1) as usize;
                assert(d == degree_of(edges, me.1));
                if registered && i == mid.entry_seq().len() - 1 && !old(ve).has_arrival(time) {
                    assert(me == (time, time, Seq::<usize>::empty()));
                    lemma_nondecreasing_push(me.2, d);
                } else {
                    assert(me == old(ve).entry_seq()[i]);
                    lemma_nondecreasing_push(me.2, d);
                }
            }
            assert(ve.wf()) by {
                assert forall|i: int, j: int|
                    0 <= i < j < es.len() implies (#[trigger] es[i]).0 != (#[trigger] es[j]).0
                    && es[i].1 != es[j].1 by {
                    assert(es[i].0 == mid.entry_seq()[i].0 && es[i].1 == mid.entry_seq()[i].1);
                    assert(es[j].0 == mid.entry_seq()[j].0 && es[j].1 == mid.entry_seq()[j].1);
                }
            }
            assert forall|a: usize|
                #[trigger] arrivals@.contains(a) && 1 <= a <= time implies ve.has_arrival(a) by {
                if a < time {
                    assert(old(ve).has_arrival(a));
                    let i = choose|i: int|
                        0 <= i < old(ve).entry_seq().len() && (#[trigger] old(
                            ve,
                        ).entry_seq()[i]).0 == a;
                    assert(mid.entry_seq()[i].0 == a);
                    assert(es[i].0 == a);
                } else {
                    assert(a == time && registered);
                    let i = mid.entry_seq().len() - 1;
                    assert(mid.entry_seq()[i].0 == time);
                    assert(es[i].0 == time);
                }
            }
        }
    }
}

} // verus!

verus! {

/// Builds the configured seed graph for a growth policy and establishes its
/// structural properties.
#[verifier::loop_isolation(false)]
fn build_seed(mc: &ModelConfig) -> (g: SimGraph)
    requires
        mc.wf(),
        mc.starting_graph_type != GraphType::Disconnected,
    ensures
        g.nodes() == mc.initial_nodes,
        g.edges().len() == seed_edge_count(*mc),
        endpoints_below(g.edges(), mc.initial_nodes as int),
        simple_graph(g.edges()),
        attached(mc.initial_nodes as nat, g.edges()),
{
    proof {
        assert(mc.edges_increment * mc.end_time >= 0) by (nonlinear_arith);
    }
    match mc.starting_graph_type {
        GraphType::Complete => {
            let g = SimGraph::seed_complete(mc.initial_nodes);
            proof {
                assert(no_self_loops(g.edges()));
                assert forall|v: usize|
                    1 <= v < mc.initial_nodes implies #[trigger] attached_below(
                    g.edges(),
                    v,
                ) by {
                    assert(has_edge_spec(g.edges(), 0usize, v));
                }
            }
            g
        },
        GraphType::Star => {
            let g = SimGraph::seed_star(mc.initial_nodes - 1);
            proof {
                assert(no_self_loops(g.edges()));
                assert(no_duplicate_edges(g.edges())) by {
                    assert forall|k1: int, k2: int|
                        0 <= k1 < k2 < g.edges().len() implies !same_pair(
                        g.edges()[k1],
                        g.edges()[k2],
                    ) by {
                        assert(g.edges()[k1] == (0usize, (k1 + 1) as usize));
                        assert(g.edges()[k2] == (0usize, (k2 + 1) as usize));
                    }
                }
                assert forall|v: usize|
                    1 <= v < mc.initial_nodes implies #[trigger] attached_below(
                    g.edges(),
                    v,
                ) by {
                    assert(g.edges()[v - 1] == (0usize, v));
                    assert(has_edge_spec(g.edges(), 0usize, v));
                }
            }
            g
        },
        GraphType::Disconnected => {
            proof {
                assert(false);
            }
            SimGraph::with_nodes(0)
        },
    }
}

/// Fills a pool with one stub per edge endpoint: node `v` appears once for
/// each edge that touches it, so its multiplicity equals its degree.
#[verifier::loop_isolation(false)]
fn build_stub_pool(graph: &SimGraph) -> (p: StubPool)
    requires
        endpoints_below(graph.edges(), graph.nodes() as int),
        no_self_loops(graph.edges()),
        graph.nodes() <= crate::graph::index_limit(),
    ensures
        p.stubs().len() == 2 * graph.edges().len(),
        forall|i: int| 0 <= i < p.stubs().len() ==> p.stubs()[i] < graph.nodes(),
        stubs_match_degrees(p.stubs(), graph.edges(), false, graph.nodes()),
{
    broadcast use vstd::seq_lib::group_to_multiset_ensures;

    let n = graph.node_count();
    let mut p = StubPool::new();
    let mut v: usize = 0;
    proof {
        assert(forall|x: usize| #[trigger] p.stubs().to_multiset().count(x) == 0);
    }
    while v < n
        invariant
            v <= n,
            p.stubs().len() == degree_sum(graph.edges(), v as int),
            forall|i: int| 0 <= i < p.stubs().len() ==> p.stubs()[i] < n,
            forall|x: usize|
                #[trigger] p.stubs().to_multiset().count(x) == if x < v {
                    degree_of(graph.edges(), x)
                } else {
                    0int
                },
        decreases n - v,
    {
        let d = graph.degree(v);
        let mut j: usize = 0;
        while j < d
            invariant
                j <= d,
                v < n,
                p.stubs().len() == degree_sum(graph.edges(), v as int) + j,
                forall|i: int| 0 <= i < p.stubs().len() ==> p.stubs()[i] < n,
                forall|x: usize|
                    #[trigger] p.stubs().to_multiset().count(x) == if x < v {
                        degree_of(graph.edges(), x)
                    } else if x == v {
                        j as int
                    } else {
                        0int
                    },
            decreases d - j,
        {
            let ghost pre = p.stubs();
            p.push_one(v);
            proof {
                assert(p.stubs().to_multiset() =~= pre.to_multiset().insert(v));
            }
            j = j + 1;
        }
        proof {
            assert(degree_sum(graph.edges(), v + 1 as int) == degree_sum(graph.edges(), v as int)
                + degree_of(graph.edges(), v));
        }
        v = v + 1;
    }
    proof {
        lemma_handshake(graph.edges(), n as int);
        assert forall|x: usize|
            #[trigger] p.stubs().to_multiset().count(x) == degree_of(graph.edges(), x) by {
            if x >= n {
                lemma_degree_out_of_range(graph.edges(), n as int, x);
            }
        }
    }
    p
}

/// A Barabasi-Albert model with vertex growth and preferential attachement.
pub struct BarabasiAlbertClassic {
    pub model_config: ModelConfig,
    graph: SimGraph,
    stubs: StubPool,
    selector: TargetSelector,
    vertices_evolution: VerticesEvolution,
    rng: rand::rngs::ThreadRng,
}

impl BarabasiAlbertClassic {
    /// The graph as built so far.
    pub closed spec fn graph_state(&self) -> SimGraph {
        self.graph
    }

    /// The tracker state.
    pub closed spec fn tracker(&self) -> VerticesEvolution {
        self.vertices_evolution
    }
}

impl FromModelConfig for BarabasiAlbertClassic {
    /// A growing policy cannot start from an edgeless seed.
    open spec fn accepts(mc: ModelConfig) -> bool {
        mc.starting_graph_type != GraphType::Disconnected
    }

    proof fn accepts_same(a: ModelConfig, b: ModelConfig) {
    }

    closed spec fn inv(&self) -> bool {
        let mc = self.model_config;
        let n = self.graph.nodes();
        let edges = self.graph.edges();
        &&& mc.wf()
        &&& mc.starting_graph_type != GraphType::Disconnected
        &&& mc.initial_nodes <= n <= mc.initial_nodes + mc.end_time
        &&& edges.len() == seed_edge_count(mc) + mc.edges_increment * (n - mc.initial_nodes)
        &&& edges.len() <= final_edge_target(mc)
        &&& endpoints_below(edges, n as int)
        &&& simple_graph(edges)
        &&& attached(n, edges)
        &&& self.stubs.stubs().len() == 2 * edges.len()
        &&& forall|i: int| 0 <= i < self.stubs.stubs().len() ==> self.stubs.stubs()[i] < n
        &&& stubs_match_degrees(self.stubs.stubs(), edges, false, n)
        &&& self.selector.clean()
        &&& self.selector.capacity() == mc.initial_nodes + mc.end_time
        &&& growth_tracker_basic(
            self.vertices_evolution,
            edges,
            n,
            (n - mc.initial_nodes) as nat,
            mc.tracked_arrivals@,
        )
    }

    closed spec fn config(&self) -> ModelConfig {
        self.model_config
    }

    closed spec fn steps_done(&self) -> nat {
        (self.graph.nodes() - self.model_config.initial_nodes) as nat
    }

    fn from_model_config(model_config: ModelConfig) -> (r: Self) {
        let graph = build_seed(&model_config);
        let stubs = build_stub_pool(&graph);
        let selector = TargetSelector::new(model_config.initial_nodes + model_config.end_time);
        let r = BarabasiAlbertClassic {
            model_config,
            graph,
            stubs,
            selector,
            vertices_evolution: VerticesEvolution::new(),
            rng: fresh_rng(),
        };
        proof {
            assert(r.graph.edges().len() == seed_edge_count(r.model_config)
                + r.model_config.edges_increment * 0) by (nonlinear_arith)
                requires
                    r.graph.edges().len() == seed_edge_count(r.model_config),
            ;
            assert(seed_edge_count(r.model_config) <= final_edge_target(r.model_config)) by {
                assert(r.model_config.edges_increment * r.model_config.end_time >= 0)
                    by (nonlinear_arith);
            }
        }
        r
    }
}

impl Step for BarabasiAlbertClassic {
    /// One step: add one node, pick `edges_increment` distinct existing
    /// nodes weighted by degree, join the new node to each, and extend the
    /// stub pool with both endpoints of every new edge.
    #[verifier::loop_isolation(false)]
    fn step(&mut self) -> (advanced: bool)
        ensures
            advanced,
            final(self).graph_state().nodes() == old(self).graph_state().nodes() + 1,
            final(self).graph_state().edges().len() == old(self).graph_state().edges().len() + old(
                self,
            ).config().edges_increment,
            old(self).graph_state().edges().is_prefix_of(final(self).graph_state().edges()),
            forall|k: int|
                0 <= k < old(self).config().edges_increment ==> (#[trigger] final(self).graph_state().edges()[old(self).graph_state().edges().len() + k]).0 == old(self).graph_state().nodes()
                    && final(self).graph_state().edges()[old(self).graph_state().edges().len() + k].1 < old(self).graph_state().nodes(),
            forall|k1: int, k2: int|
                0 <= k1 < k2 < old(self).config().edges_increment ==> (#[trigger] final(self).graph_state().edges()[old(self).graph_state().edges().len() + k1]).1 != (#[trigger] final(self).graph_state().edges()[old(self).graph_state().edges().len() + k2]).1,
            final(self).tracker() == old(self).tracker(),
    {
        let ghost cfg = self.model_config;
        let m = self.model_config.edges_increment;
        let n = self.graph.node_count();
        proof {
            assert(seed_edge_count(cfg) >= 1) by {
                if cfg.starting_graph_type == GraphType::Complete {
                    assert(cfg.initial_nodes * (cfg.initial_nodes - 1) >= 2) by (nonlinear_arith)
                        requires
                            cfg.initial_nodes >= 2,
                    ;
                }
            }
            assert(self.graph.edges().len() >= 1) by {
                assert(cfg.edges_increment * (self.graph.nodes() - cfg.initial_nodes) >= 0)
                    by (nonlinear_arith)
                    requires
                        cfg.edges_increment >= 0,
                        self.graph.nodes() >= cfg.initial_nodes,
                ;
            }
        }
        let budget = attempt_budget(m);
        self.selector.select_weighted(&self.stubs, &mut self.rng, m, n, budget);
        let new_node = self.graph.add_node_raw();
        let ghost base = self.graph.edges();
        let ghost tgts = self.selector.chosen();
        proof {
            // Room for this step's edges under the final target.
            assert(base.len() + m <= final_edge_target(cfg)) by {
                let t = self.graph.nodes() - cfg.initial_nodes - 1;
                assert(base.len() == seed_edge_count(cfg) + cfg.edges_increment * t);
                assert(cfg.edges_increment * t + cfg.edges_increment == cfg.edges_increment * (t
                    + 1)) by (nonlinear_arith);
                assert(cfg.edges_increment * (t + 1) <= cfg.edges_increment * cfg.end_time)
                    by (nonlinear_arith)
                    requires
                        0 <= t + 1 <= cfg.end_time,
                        cfg.edges_increment >= 0,
                ;
            }
        }
        let mut idx: usize = 0;
        while idx < m
            invariant
                idx <= m,
                self.model_config == cfg,
                self.graph.nodes() == new_node + 1,
                self.graph.edges().len() == base.len() + idx,
                base.is_prefix_of(self.graph.edges()),
                forall|k: int|
                    0 <= k < idx ==> self.graph.edges()[base.len() + k] == (
                        new_node,
                        tgts[k],
                    ),
                self.stubs.stubs().len() == 2 * (base.len() + idx),
                forall|i: int|
                    0 <= i < self.stubs.stubs().len() ==> self.stubs.stubs()[i] < new_node + 1,
                stubs_match_degrees(
                    self.stubs.stubs(),
                    self.graph.edges(),
                    false,
                    (new_node + 1) as nat,
                ),
                self.selector.chosen() == tgts,
                self.selector.clean(),
                self.selector.capacity() == cfg.initial_nodes + cfg.end_time,
                self.vertices_evolution == old(self).vertices_evolution,
            decreases m - idx,
        {
            let t = self.selector.target_at(idx);
            let ghost pre_stubs = self.stubs.stubs();
            let ghost pre_edges = self.graph.edges();
            self.graph.add_edge_raw(new_node, t);
            self.stubs.push_pair(new_node, t);
            proof {
                assert(base.is_prefix_of(self.graph.edges())) by {
                    assert(self.graph.edges().subrange(0, base.len() as int) =~= base);
                }
                lemma_stubs_push_edge(
                    pre_stubs,
                    pre_edges,
                    (new_node, t),
                    new_node,
                    t,
                    false,
                    (new_node + 1) as nat,
                );
            }
            idx = idx + 1;
        }
        proof {
            let edges = self.graph.edges();
            let nn = new_node;
            let n1 = (nn + 1) as nat;
            // Every new edge joins the new node to a distinct older node.
            assert(endpoints_below(edges, n1 as int)) by {
                assert forall|k: int| 0 <= k < edges.len() implies edges[k].0 < n1 && edges[k].1
                    < n1 by {
                    if k < base.len() {
                        assert(edges[k] == base[k]);
                    } else {
                        assert(edges[k] == (nn, tgts[k - base.len()]));
                    }
                }
            }
            assert(no_self_loops(edges)) by {
                assert forall|k: int| 0 <= k < edges.len() implies edges[k].0 != edges[k].1 by {
                    if k < base.len() {
                        assert(edges[k] == base[k]);
                    } else {
                        assert(edges[k] == (nn, tgts[k - base.len()]));
                        assert(tgts[k - base.len()] < nn);
                    }
                }
            }
            assert(no_duplicate_edges(edges)) by {
                assert forall|k1: int, k2: int|
                    0 <= k1 < k2 < edges.len() implies !same_pair(edges[k1], edges[k2]) by {
                    if k2 < base.len() {
                        assert(edges[k1] == base[k1] && edges[k2] == base[k2]);
                    } else if k1 < base.len() {
                        assert(edges[k1] == base[k1]);
                        assert(edges[k2] == (nn, tgts[k2 - base.len()]));
                        assert(base[k1].0 < nn && base[k1].1 < nn);
                    } else {
                        assert(edges[k1] == (nn, tgts[k1 - base.len()]));
                        assert(edges[k2] == (nn, tgts[k2 - base.len()]));
                        assert(tgts[k1 - base.len()] != tgts[k2 - base.len()]);
                        assert(tgts[k1 - base.len()] < nn && tgts[k2 - base.len()] < nn);
                    }
                }
            }
            assert forall|k: int| 0 <= k < m implies (#[trigger] edges[base.len() + k]).0 == nn
                && edges[base.len() + k].1 < nn by {
                assert(edges[base.len() + k] == (nn, tgts[k]));
            }
            assert forall|k1: int, k2: int|
                0 <= k1 < k2 < m implies (#[trigger] edges[base.len() + k1]).1 != (
            #[trigger] edges[base.len() + k2]).1 by {
                assert(edges[base.len() + k1] == (nn, tgts[k1]));
                assert(edges[base.len() + k2] == (nn, tgts[k2]));
                assert(tgts[k1] != tgts[k2]);
            }
            assert(attached(n1, edges)) by {
                assert forall|v: usize| 1 <= v < n1 implies #[trigger] attached_below(
                    edges,
                    v,
                ) by {
                    if v < nn {
                        assert(attached_below(base, v));
                        let u = choose|u: usize| u < v && #[trigger] has_edge_spec(base, u, v);
                        lemma_has_edge_prefix(base, edges, u, v);
                    } else {
                        assert(edges[base.len() as int] == (nn, tgts[0]));
                        assert(has_edge_spec(edges, tgts[0], nn));
                        assert(tgts[0] < v);
                    }
                }
            }
            // Counts for the invariant.
            assert(edges.len() == seed_edge_count(cfg) + cfg.edges_increment * (n1
                - cfg.initial_nodes)) by {
                let t = nn - cfg.initial_nodes;
                assert(cfg.edges_increment * t + cfg.edges_increment == cfg.edges_increment * (t
                    + 1)) by (nonlinear_arith);
            }
            // Tracked degrees only grow.
            assert(growth_tracker_basic(
                self.vertices_evolution,
                edges,
                n1,
                (n1 - cfg.initial_nodes) as nat,
                cfg.tracked_arrivals@,
            )) by {
                assert forall|i: int|
                    0 <= i < self.vertices_evolution.entry_seq().len() implies {
                    let e = #[trigger] self.vertices_evolution.entry_seq()[i];
                    &&& e.1 == e.0
                    &&& 1 <= e.0 <= (n1 - cfg.initial_nodes) as nat
                    &&& cfg.tracked_arrivals@.contains(e.0)
                    &&& e.1 < n1
                    &&& nondecreasing(e.2)
                    &&& e.2.len() >= 1
                    &&& e.2.last() <= degree_of(edges, e.1)
                } by {
                    let e = self.vertices_evolution.entry_seq()[i];
                    lemma_degree_prefix_monotone(base, edges, e.1);
                }
            }
        }
        true
    }
}

impl Gen for BarabasiAlbertClassic {
    open spec fn final_nodes(mc: ModelConfig) -> nat {
        (mc.initial_nodes + mc.end_time) as nat
    }

    proof fn final_nodes_same(a: ModelConfig, b: ModelConfig) {
    }

    closed spec fn done(&self) -> bool {
        self.graph.nodes() == self.model_config.initial_nodes + self.model_config.end_time
    }

    closed spec fn recorded(&self, a: usize) -> Option<Seq<usize>> {
        self.vertices_evolution.lookup(a)
    }

    /// Every tracked arrival within the horizon is recorded with one
    /// observation per step since the arrival; other arrivals never are.
    open spec fn arrival_span(mc: ModelConfig, a: usize) -> Option<nat> {
        if mc.tracked_arrivals@.contains(a) && 1 <= a <= mc.end_time {
            Some((mc.end_time - a + 1) as nat)
        } else {
            None
        }
    }

    open spec fn spans_determined(mc: ModelConfig) -> bool {
        true
    }

    proof fn spans_same(a: ModelConfig, b: ModelConfig, arrival: usize) {
    }

    /// Runs all steps. The finished graph has exactly `initial_nodes +
    /// end_time` nodes and `seed + edges_increment * end_time` edges, is
    /// simple and connected, and every tracked arrival within the horizon
    /// carries a full, non-decreasing degree trajectory.
    #[verifier::loop_isolation(false)]
    fn generate(&mut self) -> (g: SimGraph)
        ensures
            g.edges().len() == seed_edge_count(old(self).config()) + old(
                self,
            ).config().edges_increment * old(self).config().end_time,
            connected(g.nodes(), g.edges()),
            final(self).tracker().wf(),
            forall|a: usize|
                old(self).config().tracked_arrivals@.contains(a) && 1 <= a <= old(
                    self,
                ).config().end_time ==> final(self).tracker().has_arrival(a) && final(self).tracker().traj_of(a).len() == old(self).config().end_time - a + 1
                    && nondecreasing(final(self).tracker().traj_of(a)),
    {
        let ghost cfg = self.model_config;
        let t_max = self.model_config.end_time;
        let mut time: usize = 1;
        proof {
            assert(growth_tracker_synced(self.vertices_evolution, 0, cfg.tracked_arrivals@)) by {
                assert forall|i: int|
                    0 <= i < self.vertices_evolution.entry_seq().len() implies (
                    #[trigger] self.vertices_evolution.entry_seq()[i]).2.len() == 0
                        - self.vertices_evolution.entry_seq()[i].0 + 1 by {
                    assert(self.vertices_evolution.entry_seq()[i].0 >= 1);
                    assert(self.vertices_evolution.entry_seq()[i].2.len() >= 1);
                }
            }
        }
        while time <= t_max
            invariant
                1 <= time <= t_max + 1,
                same_config(self.model_config, cfg),
                self.inv(),
                self.steps_done() == time - 1,
                growth_tracker_synced(self.vertices_evolution, time - 1, cfg.tracked_arrivals@),
            decreases t_max + 1 - time,
        {
            self.step();
            self.update_vertices_evolution(time);
            time = time + 1;
        }
        proof {
            lemma_attached_connected(self.graph.nodes(), self.graph.edges());
            assert forall|a: usize|
                cfg.tracked_arrivals@.contains(a) && 1 <= a <= t_max implies self.tracker(
            ).has_arrival(a) && self.tracker().traj_of(a).len() == t_max - a + 1 && nondecreasing(
                self.tracker().traj_of(a),
            ) by {
                assert(self.vertices_evolution.has_arrival(a));
                let i = choose|i: int|
                    0 <= i < self.vertices_evolution.entry_seq().len() && (
                    #[trigger] self.vertices_evolution.entry_seq()[i]).0 == a;
                assert(self.vertices_evolution.entry_seq()[i].2.len() == t_max - a + 1);
                assert(nondecreasing(self.vertices_evolution.entry_seq()[i].2));
            }
            assert forall|a: usize|
                match Self::arrival_span(cfg, a) {
                    Some(l) => (#[trigger] self.recorded(a)) is Some && self.recorded(
                        a,
                    )->Some_0.len() == l,
                    None => self.recorded(a) is None,
                } by {
                if cfg.tracked_arrivals@.contains(a) && 1 <= a <= t_max {
                    self.vertices_evolution.lemma_lookup_traj(a);
                } else {
                    assert(!self.vertices_evolution.has_arrival(a)) by {
                        assert forall|i: int|
                            0 <= i < self.vertices_evolution.entry_seq().len() implies (
                            #[trigger] self.vertices_evolution.entry_seq()[i]).0 != a by {}
                    }
                    self.vertices_evolution.lemma_lookup_absent(a);
                }
            }
        }
        self.graph.clone_graph()
    }
}

impl TrackVertices for BarabasiAlbertClassic {
    /// The recorded trajectory of `vertex_id`, empty when it is not tracked.
    fn get_vertex_evolution(&self, vertex_id: usize) -> (r: Vec<usize>)
        ensures
            self.tracker().has_node(vertex_id) ==> exists|i: int|
                0 <= i < self.tracker().entry_seq().len() && (
                #[trigger] self.tracker().entry_seq()[i]).1 == vertex_id && r@ == self.tracker(
                ).entry_seq()[i].2,
            !self.tracker().has_node(vertex_id) ==> r@ == Seq::<usize>::empty(),
    {
        self.vertices_evolution.node_evolution(vertex_id)
    }

    /// The trajectory of the vertex that arrived at `arrival`, or absence
    /// when that arrival was never tracked.
    fn get_arrival_evolution(&self, arrival: usize) -> (r: Option<Vec<usize>>)
        ensures
            !self.tracker().has_arrival(arrival) ==> r is None,
            self.tracker().wf() ==> ((r is Some) <==> (self.tracker().has_arrival(arrival)
                && self.tracker().traj_of(arrival).len() > 0)),
            self.tracker().wf() && r is Some ==> r->Some_0@ == self.tracker().traj_of(arrival),
    {
        let r = self.vertices_evolution.get_arrival_evolution(&arrival);
        proof {
            if !self.vertices_evolution.has_arrival(arrival) {
                self.vertices_evolution.lemma_lookup_absent(arrival);
            }
            if self.vertices_evolution.wf() {
                self.vertices_evolution.lemma_lookup_traj(arrival);
            }
        }
        r
    }

    /// Registers the vertex arriving now, when its arrival time is tracked,
    /// and appends every tracked vertex's current degree.
    fn update_vertices_evolution(&mut self, time: usize)
        ensures
            same_config(final(self).config(), old(self).config()),
            final(self).steps_done() == old(self).steps_done(),
            final(self).graph_state() == old(self).graph_state(),
            (old(self).inv() && 1 <= time && time == old(self).steps_done()
                && growth_tracker_synced(
                old(self).tracker(),
                time - 1,
                old(self).config().tracked_arrivals@,
            )) ==> (final(self).inv() && growth_tracker_synced(
                final(self).tracker(),
                time as int,
                final(self).config().tracked_arrivals@,
            )),
    {
        let ghost ok = old(self).inv() && 1 <= time && time == old(self).steps_done()
            && growth_tracker_synced(
            old(self).tracker(),
            time - 1,
            old(self).config().tracked_arrivals@,
        );
        proof {
            if ok {
                // Entries are one observation behind and so arrived earlier.
                assert(growth_tracker_basic(
                    self.vertices_evolution,
                    self.graph.edges(),
                    self.graph.nodes(),
                    (time - 1) as nat,
                    self.model_config.tracked_arrivals@,
                )) by {
                    assert forall|i: int|
                        0 <= i < self.vertices_evolution.entry_seq().len() implies (
                        #[trigger] self.vertices_evolution.entry_seq()[i]).0 <= (time - 1) as nat
                            && 1 <= self.vertices_evolution.entry_seq()[i].0 by {
                        assert(self.vertices_evolution.entry_seq()[i].2.len() >= 1);
                        assert(self.vertices_evolution.entry_seq()[i].2.len() == time - 1
                            - self.vertices_evolution.entry_seq()[i].0 + 1);
                    }
                }
                assert(time < self.graph.nodes());
                assert(time < index_limit()) by {
                    assert(time == old(self).steps_done());
                    assert(old(self).steps_done() <= self.model_config.end_time);
                    assert(self.model_config.initial_nodes + self.model_config.end_time
                        < index_limit());
                }
                assert(self.graph.edges().len() <= usize::MAX);
            }
        }
        advance_growth_tracker(
            &mut self.vertices_evolution,
            &self.graph,
            &self.model_config.tracked_arrivals,
            time,
        );
    }
}

} // verus!

verus! {

/// A Barabasi-Albert model with vertex growth and random attachement.
pub struct BarabasiAlbertRandomAttachement {
    pub model_config: ModelConfig,
    graph: SimGraph,
    /// Kept alongside the graph so the sampling domain is available without
    /// asking the storage.
    node_count: usize,
    selector: TargetSelector,
    vertices_evolution: VerticesEvolution,
    rng: rand::rngs::ThreadRng,
}

impl BarabasiAlbertRandomAttachement {
    /// The graph as built so far.
    pub closed spec fn graph_state(&self) -> SimGraph {
        self.graph
    }

    /// The tracker state.
    pub closed spec fn tracker(&self) -> VerticesEvolution {
        self.vertices_evolution
    }
}

impl FromModelConfig for BarabasiAlbertRandomAttachement {
    /// A growing policy cannot start from an edgeless seed.
    open spec fn accepts(mc: ModelConfig) -> bool {
        mc.starting_graph_type != GraphType::Disconnected
    }

    proof fn accepts_same(a: ModelConfig, b: ModelConfig) {
    }

    closed spec fn inv(&self) -> bool {
        let mc = self.model_config;
        let n = self.graph.nodes();
        let edges = self.graph.edges();
        &&& mc.wf()
        &&& mc.starting_graph_type != GraphType::Disconnected
        &&& self.node_count == n
        &&& mc.initial_nodes <= n <= mc.initial_nodes + mc.end_time
        &&& edges.len() == seed_edge_count(mc) + mc.edges_increment * (n - mc.initial_nodes)
        &&& edges.len() <= final_edge_target(mc)
        &&& endpoints_below(edges, n as int)
        &&& simple_graph(edges)
        &&& self.selector.clean()
        &&& self.selector.capacity() == mc.initial_nodes + mc.end_time
        &&& growth_tracker_basic(
            self.vertices_evolution,
            edges,
            n,
            (n - mc.initial_nodes) as nat,
            mc.tracked_arrivals@,
        )
    }

    closed spec fn config(&self) -> ModelConfig {
        self.model_config
    }

    closed spec fn steps_done(&self) -> nat {
        (self.graph.nodes() - self.model_config.initial_nodes) as nat
    }

    fn from_model_config(model_config: ModelConfig) -> (r: Self) {
        let graph = build_seed(&model_config);
        let node_count = graph.node_count();
        let selector = TargetSelector::new(model_config.initial_nodes + model_config.end_time);
        let r = BarabasiAlbertRandomAttachement {
            model_config,
            graph,
            node_count,
            selector,
            vertices_evolution: VerticesEvolution::new(),
            rng: fresh_rng(),
        };
        proof {
            assert(r.graph.edges().len() == seed_edge_count(r.model_config)
                + r.model_config.edges_increment * 0) by (nonlinear_arith)
                requires
                    r.graph.edges().len() == seed_edge_count(r.model_config),
            ;
            assert(seed_edge_count(r.model_config) <= final_edge_target(r.model_config)) by {
                assert(r.model_config.edges_increment * r.model_config.end_time >= 0)
                    by (nonlinear_arith);
            }
        }
        r
    }
}

impl Step for BarabasiAlbertRandomAttachement {
    /// One step: add one node, pick `edges_increment` distinct existing
    /// nodes uniformly at random, and join the new node to each.
    #[verifier::loop_isolation(false)]
    fn step(&mut self) -> (advanced: bool)
        ensures
            advanced,
            final(self).graph_state().nodes() == old(self).graph_state().nodes() + 1,
            final(self).graph_state().edges().len() == old(self).graph_state().edges().len() + old(
                self,
            ).config().edges_increment,
            old(self).graph_state().edges().is_prefix_of(final(self).graph_state().edges()),
            forall|k: int|
                0 <= k < old(self).config().edges_increment ==> (#[trigger] final(self).graph_state().edges()[old(self).graph_state().edges().len() + k]).0 == old(self).graph_state().nodes()
                    && final(self).graph_state().edges()[old(self).graph_state().edges().len() + k].1 < old(self).graph_state().nodes(),
            forall|k1: int, k2: int|
                0 <= k1 < k2 < old(self).config().edges_increment ==> (#[trigger] final(self).graph_state().edges()[old(self).graph_state().edges().len() + k1]).1 != (#[trigger] final(self).graph_state().edges()[old(self).graph_state().edges().len() + k2]).1,
            final(self).tracker() == old(self).tracker(),
    {
        let ghost cfg = self.model_config;
        let m = self.model_config.edges_increment;
        let n = self.node_count;
        let budget = attempt_budget(m);
        self.selector.select_uniform(&mut self.rng, m, n, budget);
        let new_node = self.graph.add_node_raw();
        self.node_count = self.node_count + 1;
        let ghost base = self.graph.edges();
        let ghost tgts = self.selector.chosen();
        proof {
            assert(base.len() + m <= final_edge_target(cfg)) by {
                let t = self.graph.nodes() - cfg.initial_nodes - 1;
                assert(base.len() == seed_edge_count(cfg) + cfg.edges_increment * t);
                assert(cfg.edges_increment * t + cfg.edges_increment == cfg.edges_increment * (t
                    + 1)) by (nonlinear_arith);
                assert(cfg.edges_increment * (t + 1) <= cfg.edges_increment * cfg.end_time)
                    by (nonlinear_arith)
                    requires
                        0 <= t + 1 <= cfg.end_time,
                        cfg.edges_increment >= 0,
                ;
            }
        }
        let mut idx: usize = 0;
        while idx < m
            invariant
                idx <= m,
                self.model_config == cfg,
                self.node_count == new_node + 1,
                self.graph.nodes() == new_node + 1,
                self.graph.edges().len() == base.len() + idx,
                base.is_prefix_of(self.graph.edges()),
                forall|k: int|
                    0 <= k < idx ==> self.graph.edges()[base.len() + k] == (
                        new_node,
                        tgts[k],
                    ),
                self.selector.chosen() == tgts,
                self.selector.clean(),
                self.selector.capacity() == cfg.initial_nodes + cfg.end_time,
                self.vertices_evolution == old(self).vertices_evolution,
            decreases m - idx,
        {
            let t = self.selector.target_at(idx);
            self.graph.add_edge_raw(new_node, t);
            proof {
                assert(base.is_prefix_of(self.graph.edges())) by {
                    assert(self.graph.edges().subrange(0, base.len() as int) =~= base);
                }
            }
            idx = idx + 1;
        }
        proof {
            let edges = self.graph.edges();
            let nn = new_node;
            let n1 = (nn + 1) as nat;
            assert(endpoints_below(edges, n1 as int)) by {
                assert forall|k: int| 0 <= k < edges.len() implies edges[k].0 < n1 && edges[k].1
                    < n1 by {
                    if k < base.len() {
                        assert(edges[k] == base[k]);
                    } else {
                        assert(edges[k] == (nn, tgts[k - base.len()]));
                    }
                }
            }
            assert(no_self_loops(edges)) by {
                assert forall|k: int| 0 <= k < edges.len() implies edges[k].0 != edges[k].1 by {
                    if k < base.len() {
                        assert(edges[k] == base[k]);
                    } else {
                        assert(edges[k] == (nn, tgts[k - base.len()]));
                        assert(tgts[k - base.len()] < nn);
                    }
                }
            }
            assert(no_duplicate_edges(edges)) by {
                assert forall|k1: int, k2: int|
                    0 <= k1 < k2 < edges.len() implies !same_pair(edges[k1], edges[k2]) by {
                    if k2 < base.len() {
                        assert(edges[k1] == base[k1] && edges[k2] == base[k2]);
                    } else if k1 < base.len() {
                        assert(edges[k1] == base[k1]);
                        assert(edges[k2] == (nn, tgts[k2 - base.len()]));
                        assert(base[k1].0 < nn && base[k1].1 < nn);
                    } else {
                        assert(edges[k1] == (nn, tgts[k1 - base.len()]));
                        assert(edges[k2] == (nn, tgts[k2 - base.len()]));
                        assert(tgts[k1 - base.len()] != tgts[k2 - base.len()]);
                        assert(tgts[k1 - base.len()] < nn && tgts[k2 - base.len()] < nn);
                    }
                }
            }
            assert forall|k: int| 0 <= k < m implies (#[trigger] edges[base.len() + k]).0 == nn
                && edges[base.len() + k].1 < nn by {
                assert(edges[base.len() + k] == (nn, tgts[k]));
            }
            assert forall|k1: int, k2: int|
                0 <= k1 < k2 < m implies (#[trigger] edges[base.len() + k1]).1 != (
            #[trigger] edges[base.len() + k2]).1 by {
                assert(edges[base.len() + k1] == (nn, tgts[k1]));
                assert(edges[base.len() + k2] == (nn, tgts[k2]));
                assert(tgts[k1] != tgts[k2]);
            }
            assert(edges.len() == seed_edge_count(cfg) + cfg.edges_increment * (n1
                - cfg.initial_nodes)) by {
                let t = nn - cfg.initial_nodes;
                assert(cfg.edges_increment * t + cfg.edges_increment == cfg.edges_increment * (t
                    + 1)) by (nonlinear_arith);
            }
            assert(growth_tracker_basic(
                self.vertices_evolution,
                edges,
                n1,
                (n1 - cfg.initial_nodes) as nat,
                cfg.tracked_arrivals@,
            )) by {
                assert forall|i: int|
                    0 <= i < self.vertices_evolution.entry_seq().len() implies {
                    let e = #[trigger] self.vertices_evolution.entry_seq()[i];
                    &&& e.1 == e.0
                    &&& 1 <= e.0 <= (n1 - cfg.initial_nodes) as nat
                    &&& cfg.tracked_arrivals@.contains(e.0)
                    &&& e.1 < n1
                    &&& nondecreasing(e.2)
                    &&& e.2.len() >= 1
                    &&& e.2.last() <= degree_of(edges, e.1)
                } by {
                    let e = self.vertices_evolution.entry_seq()[i];
                    lemma_degree_prefix_monotone(base, edges, e.1);
                }
            }
        }
        true
    }
}

impl Gen for BarabasiAlbertRandomAttachement {
    open spec fn final_nodes(mc: ModelConfig) -> nat {
        (mc.initial_nodes + mc.end_time) as nat
    }

    proof fn final_nodes_same(a: ModelConfig, b: ModelConfig) {
    }

    closed spec fn done(&self) -> bool {
        self.graph.nodes() == self.model_config.initial_nodes + self.model_config.end_time
    }

    closed spec fn recorded(&self, a: usize) -> Option<Seq<usize>> {
        self.vertices_evolution.lookup(a)
    }

    /// Every tracked arrival within the horizon is recorded with one
    /// observation per step since the arrival; other arrivals never are.
    open spec fn arrival_span(mc: ModelConfig, a: usize) -> Option<nat> {
        if mc.tracked_arrivals@.contains(a) && 1 <= a <= mc.end_time {
            Some((mc.end_time - a + 1) as nat)
        } else {
            None
        }
    }

    open spec fn spans_determined(mc: ModelConfig) -> bool {
        true
    }

    proof fn spans_same(a: ModelConfig, b: ModelConfig, arrival: usize) {
    }

    /// Runs all steps; the finished graph has exactly `initial_nodes +
    /// end_time` nodes and `seed + edges_increment * end_time` edges and is
    /// simple.
    #[verifier::loop_isolation(false)]
    fn generate(&mut self) -> (g: SimGraph)
        ensures
            g.edges().len() == seed_edge_count(old(self).config()) + old(
                self,
            ).config().edges_increment * old(self).config().end_time,
            final(self).tracker().wf(),
            forall|a: usize|
                old(self).config().tracked_arrivals@.contains(a) && 1 <= a <= old(
                    self,
                ).config().end_time ==> final(self).tracker().has_arrival(a) && final(self).tracker().traj_of(a).len() == old(self).config().end_time - a + 1
                    && nondecreasing(final(self).tracker().traj_of(a)),
    {
        let ghost cfg = self.model_config;
        let t_max = self.model_config.end_time;
        let mut time: usize = 1;
        proof {
            assert(growth_tracker_synced(self.vertices_evolution, 0, cfg.tracked_arrivals@)) by {
                assert forall|i: int|
                    0 <= i < self.vertices_evolution.entry_seq().len() implies (
                    #[trigger] self.vertices_evolution.entry_seq()[i]).2.len() == 0
                        - self.vertices_evolution.entry_seq()[i].0 + 1 by {
                    assert(self.vertices_evolution.entry_seq()[i].0 >= 1);
                    assert(self.vertices_evolution.entry_seq()[i].2.len() >= 1);
                }
            }
        }
        while time <= t_max
            invariant
                1 <= time <= t_max + 1,
                same_config(self.model_config, cfg),
                self.inv(),
                self.steps_done() == time - 1,
                growth_tracker_synced(self.vertices_evolution, time - 1, cfg.tracked_arrivals@),
            decreases t_max + 1 - time,
        {
            self.step();
            self.update_vertices_evolution(time);
            time = time + 1;
        }
        proof {
            assert forall|a: usize|
                cfg.tracked_arrivals@.contains(a) && 1 <= a <= t_max implies self.tracker(
            ).has_arrival(a) && self.tracker().traj_of(a).len() == t_max - a + 1 && nondecreasing(
                self.tracker().traj_of(a),
            ) by {
                assert(self.vertices_evolution.has_arrival(a));
                let i = choose|i: int|
                    0 <= i < self.vertices_evolution.entry_seq().len() && (
                    #[trigger] self.vertices_evolution.entry_seq()[i]).0 == a;
                assert(self.vertices_evolution.entry_seq()[i].2.len() == t_max - a + 1);
                assert(nondecreasing(self.vertices_evolution.entry_seq()[i].2));
            }
            assert forall|a: usize|
                match Self::arrival_span(cfg, a) {
                    Some(l) => (#[trigger] self.recorded(a)) is Some && self.recorded(
                        a,
                    )->Some_0.len() == l,
                    None => self.recorded(a) is None,
                } by {
                if cfg.tracked_arrivals@.contains(a) && 1 <= a <= t_max {
                    self.vertices_evolution.lemma_lookup_traj(a);
                } else {
                    assert(!self.vertices_evolution.has_arrival(a)) by {
                        assert forall|i: int|
                            0 <= i < self.vertices_evolution.entry_seq().len() implies (
                            #[trigger] self.vertices_evolution.entry_seq()[i]).0 != a by {}
                    }
                    self.vertices_evolution.lemma_lookup_absent(a);
                }
            }
        }
        self.graph.clone_graph()
    }
}

impl TrackVertices for BarabasiAlbertRandomAttachement {
    /// The recorded trajectory of `vertex_id`, empty when it is not tracked.
    fn get_vertex_evolution(&self, vertex_id: usize) -> (r: Vec<usize>)
        ensures
            self.tracker().has_node(vertex_id) ==> exists|i: int|
                0 <= i < self.tracker().entry_seq().len() && (
                #[trigger] self.tracker().entry_seq()[i]).1 == vertex_id && r@ == self.tracker(
                ).entry_seq()[i].2,
            !self.tracker().has_node(vertex_id) ==> r@ == Seq::<usize>::empty(),
    {
        self.vertices_evolution.node_evolution(vertex_id)
    }

    /// The trajectory of the vertex that arrived at `arrival`, or absence
    /// when that arrival was never tracked.
    fn get_arrival_evolution(&self, arrival: usize) -> (r: Option<Vec<usize>>)
        ensures
            !self.tracker().has_arrival(arrival) ==> r is None,
            self.tracker().wf() ==> ((r is Some) <==> (self.tracker().has_arrival(arrival)
                && self.tracker().traj_of(arrival).len() > 0)),
            self.tracker().wf() && r is Some ==> r->Some_0@ == self.tracker().traj_of(arrival),
    {
        let r = self.vertices_evolution.get_arrival_evolution(&arrival);
        proof {
            if !self.vertices_evolution.has_arrival(arrival) {
                self.vertices_evolution.lemma_lookup_absent(arrival);
            }
            if self.vertices_evolution.wf() {
                self.vertices_evolution.lemma_lookup_traj(arrival);
            }
        }
        r
    }

    /// Registers the vertex arriving now, when its arrival time is tracked,
    /// and appends every tracked vertex's current degree.
    fn update_vertices_evolution(&mut self, time: usize)
        ensures
            same_config(final(self).config(), old(self).config()),
            final(self).steps_done() == old(self).steps_done(),
            final(self).graph_state() == old(self).graph_state(),
            (old(self).inv() && 1 <= time && time == old(self).steps_done()
                && growth_tracker_synced(
                old(self).tracker(),
                time - 1,
                old(self).config().tracked_arrivals@,
            )) ==> (final(self).inv() && growth_tracker_synced(
                final(self).tracker(),
                time as int,
                final(self).config().tracked_arrivals@,
            )),
    {
        let ghost ok = old(self).inv() && 1 <= time && time == old(self).steps_done()
            && growth_tracker_synced(
            old(self).tracker(),
            time - 1,
            old(self).config().tracked_arrivals@,
        );
        proof {
            if ok {
                assert(growth_tracker_basic(
                    self.vertices_evolution,
                    self.graph.edges(),
                    self.graph.nodes(),
                    (time - 1) as nat,
                    self.model_config.tracked_arrivals@,
                )) by {
                    assert forall|i: int|
                        0 <= i < self.vertices_evolution.entry_seq().len() implies (
                        #[trigger] self.vertices_evolution.entry_seq()[i]).0 <= (time - 1) as nat
                            && 1 <= self.vertices_evolution.entry_seq()[i].0 by {
                        assert(self.vertices_evolution.entry_seq()[i].2.len() >= 1);
                        assert(self.vertices_evolution.entry_seq()[i].2.len() == time - 1
                            - self.vertices_evolution.entry_seq()[i].0 + 1);
                    }
                }
                assert(time < self.graph.nodes());
                assert(time < index_limit()) by {
                    assert(time == old(self).steps_done());
                    assert(old(self).steps_done() <= self.model_config.end_time);
                    assert(self.model_config.initial_nodes + self.model_config.end_time
                        < index_limit());
                }
                assert(self.graph.edges().len() <= usize::MAX);
            }
        }
        advance_growth_tracker(
            &mut self.vertices_evolution,
            &self.graph,
            &self.model_config.tracked_arrivals,
            time,
        );
    }
}

} // verus!

verus! {

/// Stubs the policy without growth starts from: one per seed edge endpoint,
/// or one per node when the seed has no edges at all, so that sampling is
/// possible from the first step.
pub open spec fn no_growth_stub_base(mc: ModelConfig) -> int {
    if mc.starting_graph_type == GraphType::Disconnected {
        mc.initial_nodes as int
    } else {
        2 * seed_edge_count(mc)
    }
}

/// Tracker soundness for the policy without growth: arrivals are distinct
/// step times of the run, each subject node exists.
pub open spec fn no_growth_tracker_ok(
    ve: VerticesEvolution,
    nodes: nat,
    time_bound: int,
    arrivals: Seq<usize>,
) -> bool {
    &&& ve.wf()
    &&& forall|i: int|
        0 <= i < ve.entry_seq().len() ==> 1 <= (#[trigger] ve.entry_seq()[i]).0 <= time_bound
            && ve.entry_seq()[i].1 < nodes && arrivals.contains(ve.entry_seq()[i].0)
}

/// A Barabasi-Albert model with preferential attachement but without vertex
/// growth.
pub struct BarabasiAlbertNoGrowth {
    model_config: ModelConfig,
    graph: SimGraph,
    stubs: StubPool,
    selector: TargetSelector,
    vertices_evolution: VerticesEvolution,
    rng: rand::rngs::ThreadRng,
    current_time_step: usize,
    /// Set once the run is over, whether because the graph is complete or
    /// because no valid target set could be drawn within the attempt
    /// budget; later steps are no-ops.
    terminated: bool,
}

impl BarabasiAlbertNoGrowth {
    /// The graph as built so far.
    pub closed spec fn graph_state(&self) -> SimGraph {
        self.graph
    }

    /// The tracker state.
    pub closed spec fn tracker(&self) -> VerticesEvolution {
        self.vertices_evolution
    }

    /// Whether the run is over.
    pub closed spec fn is_terminated(&self) -> bool {
        self.terminated
    }
}

impl FromModelConfig for BarabasiAlbertNoGrowth {
    /// The fixed-node policy accepts every seed, the edgeless one included.
    open spec fn accepts(mc: ModelConfig) -> bool {
        true
    }

    proof fn accepts_same(a: ModelConfig, b: ModelConfig) {
    }

    closed spec fn inv(&self) -> bool {
        let mc = self.model_config;
        let n = self.graph.nodes();
        let edges = self.graph.edges();
        &&& mc.wf()
        &&& n == mc.initial_nodes
        &&& self.current_time_step <= mc.end_time
        &&& edges.len() == seed_edge_count(mc) + mc.edges_increment * self.current_time_step
        &&& edges.len() <= final_edge_target(mc)
        &&& endpoints_below(edges, n as int)
        &&& simple_graph(edges)
        &&& self.stubs.stubs().len() == no_growth_stub_base(mc) + 2 * (edges.len()
            - seed_edge_count(mc))
        &&& self.stubs.stubs().len() >= 1
        &&& forall|i: int| 0 <= i < self.stubs.stubs().len() ==> self.stubs.stubs()[i] < n
        &&& stubs_match_degrees(
            self.stubs.stubs(),
            edges,
            mc.starting_graph_type == GraphType::Disconnected,
            n,
        )
        &&& self.selector.clean()
        &&& self.selector.capacity() == mc.initial_nodes + mc.end_time
        &&& no_growth_tracker_ok(
            self.vertices_evolution,
            n,
            self.current_time_step + (if self.terminated {
                1int
            } else {
                0int
            }),
            mc.tracked_arrivals@,
        )
    }

    closed spec fn config(&self) -> ModelConfig {
        self.model_config
    }

    closed spec fn steps_done(&self) -> nat {
        self.current_time_step as nat
    }

    #[verifier::loop_isolation(false)]
    fn from_model_config(model_config: ModelConfig) -> (r: Self) {
        let graph;
        let stubs;
        if matches!(model_config.starting_graph_type, GraphType::Disconnected) {
            let n = model_config.initial_nodes;
            graph = SimGraph::with_nodes(n);
            let mut p = StubPool::new();
            let mut v: usize = 0;
            proof {
                broadcast use vstd::seq_lib::group_to_multiset_ensures;

                assert(forall|x: usize| #[trigger] p.stubs().to_multiset().count(x) == 0);
            }
            while v < n
                invariant
                    v <= n,
                    p.stubs().len() == v,
                    forall|i: int| 0 <= i < p.stubs().len() ==> p.stubs()[i] < n,
                    forall|x: usize|
                        #[trigger] p.stubs().to_multiset().count(x) == if x < v {
                            1int
                        } else {
                            0int
                        },
                decreases n - v,
            {
                let ghost pre = p.stubs();
                p.push_one(v);
                proof {
                    broadcast use vstd::seq_lib::group_to_multiset_ensures;

                    assert(p.stubs().to_multiset() =~= pre.to_multiset().insert(v));
                }
                v = v + 1;
            }
            stubs = p;
        } else {
            graph = build_seed(&model_config);
            stubs = build_stub_pool(&graph);
            proof {
                assert(seed_edge_count(model_config) >= 1) by {
                    if model_config.starting_graph_type == GraphType::Complete {
                        assert(model_config.initial_nodes * (model_config.initial_nodes - 1) >= 2)
                            by (nonlinear_arith)
                            requires
                                model_config.initial_nodes >= 2,
                        ;
                    }
                }
            }
        }
        let selector = TargetSelector::new(model_config.initial_nodes + model_config.end_time);
        let r = BarabasiAlbertNoGrowth {
            model_config,
            graph,
            stubs,
            selector,
            vertices_evolution: VerticesEvolution::new(),
            rng: fresh_rng(),
            current_time_step: 0,
            terminated: false,
        };
        proof {
            assert(r.graph.edges().len() == seed_edge_count(r.model_config)
                + r.model_config.edges_increment * 0) by (nonlinear_arith)
                requires
                    r.graph.edges().len() == seed_edge_count(r.model_config),
            ;
            assert(seed_edge_count(r.model_config) <= final_edge_target(r.model_config)) by {
                assert(r.model_config.edges_increment * r.model_config.end_time >= 0)
                    by (nonlinear_arith);
            }
        }
        r
    }
}

impl Step for BarabasiAlbertNoGrowth {
    /// One step: unless the run is over or the graph is already complete,
    /// pick a source uniformly at random, register it when the current time
    /// is a tracked arrival (redrawing, within the attempt budget, when the
    /// source is already tracked under an earlier arrival; a source that
    /// stays tracked after the budget keeps its earlier registration), draw
    /// `edges_increment` distinct valid targets from the stub pool, and join
    /// the source to each. Reports `false` exactly when the run is over.
    #[verifier::loop_isolation(false)]
    fn step(&mut self) -> (advanced: bool)
        ensures
            !advanced <==> final(self).is_terminated(),
            old(self).is_terminated() ==> *final(self) == *old(self),
            old(self).graph_state().edges().len() == max_edges(
                old(self).graph_state().nodes() as int,
            ) ==> !advanced && final(self).tracker() == old(self).tracker(),
            !advanced ==> final(self).graph_state() == old(self).graph_state(),
            advanced ==> final(self).graph_state().edges().len() == old(
                self,
            ).graph_state().edges().len() + old(self).config().edges_increment,
            final(self).graph_state().nodes() == old(self).graph_state().nodes(),
    {
        if self.terminated {
            return false;
        }
        if self.graph.is_complete() {
            self.terminated = true;
            return false;
        }
        let ghost cfg = self.model_config;
        let n = self.graph.node_count();
        let m = self.model_config.edges_increment;
        let mut source = sample_below(&mut self.rng, n);
        let t_next = self.current_time_step + 1;
        let ghost g0 = self.graph;
        let ghost s0 = self.stubs;
        let ghost sel0 = self.selector;
        if contains_value(&self.model_config.tracked_arrivals, t_next) {
            let redraw_budget = attempt_budget(m);
            let mut tries: usize = 0;
            while self.vertices_evolution.is_tracked(source) && tries < redraw_budget
                invariant
                    source < n,
                    tries <= redraw_budget,
                    self.graph == g0,
                    self.stubs == s0,
                    self.selector == sel0,
                    self.model_config == cfg,
                    self.vertices_evolution == old(self).vertices_evolution,
                    self.current_time_step == old(self).current_time_step,
                    self.terminated == old(self).terminated,
                decreases redraw_budget - tries,
            {
                source = sample_below(&mut self.rng, n);
                tries = tries + 1;
            }
            if !self.vertices_evolution.is_tracked(source) {
                proof {
                    assert(!self.vertices_evolution.has_arrival(t_next)) by {
                        assert forall|i: int|
                            0 <= i < self.vertices_evolution.entry_seq().len() implies (
                            #[trigger] self.vertices_evolution.entry_seq()[i]).0 != t_next by {}
                    }
                }
                self.vertices_evolution.track_vertex(t_next, source);
                proof {
                    assert(self.vertices_evolution.wf()) by {
                        let es = self.vertices_evolution.entry_seq();
                        let pre = old(self).vertices_evolution.entry_seq();
                        assert forall|i: int, j: int|
                            0 <= i < j < es.len() implies (#[trigger] es[i]).0 != (
                            #[trigger] es[j]).0 && es[i].1 != es[j].1 by {
                            if j < es.len() - 1 || es.len() == pre.len() {
                                assert(es[i] == pre[i] && es[j] == pre[j]);
                            } else {
                                assert(es[i] == pre[i]);
                                assert(es[j] == (t_next, source, Seq::<usize>::empty()));
                                assert(!old(self).vertices_evolution.has_node(source));
                            }
                        }
                    }
                }
            }
        }
        let budget = attempt_budget(m);
        let ghost ve1 = self.vertices_evolution;
        let ok = self.selector.select_for_source(
            &self.stubs,
            &mut self.rng,
            m,
            source,
            &self.graph,
            budget,
        );
        if !ok {
            self.terminated = true;
            return false;
        }
        let ghost base = self.graph.edges();
        let ghost tgts = self.selector.chosen();
        proof {
            assert(base.len() + m <= final_edge_target(cfg)) by {
                let t = self.current_time_step as int;
                assert(base.len() == seed_edge_count(cfg) + cfg.edges_increment * t);
                assert(cfg.edges_increment * t + cfg.edges_increment == cfg.edges_increment * (t
                    + 1)) by (nonlinear_arith);
                assert(cfg.edges_increment * (t + 1) <= cfg.edges_increment * cfg.end_time)
                    by (nonlinear_arith)
                    requires
                        0 <= t + 1 <= cfg.end_time,
                        cfg.edges_increment >= 0,
                ;
            }
        }
        let mut idx: usize = 0;
        while idx < m
            invariant
                idx <= m,
                source < n,
                n == self.graph.nodes(),
                self.model_config == cfg,
                self.graph.edges().len() == base.len() + idx,
                base.is_prefix_of(self.graph.edges()),
                forall|k: int|
                    0 <= k < idx ==> self.graph.edges()[base.len() + k] == (
                        source,
                        tgts[k],
                    ),
                self.stubs.stubs().len() == s0.stubs().len() + 2 * idx,
                forall|i: int|
                    0 <= i < self.stubs.stubs().len() ==> self.stubs.stubs()[i] < n,
                stubs_match_degrees(
                    self.stubs.stubs(),
                    self.graph.edges(),
                    cfg.starting_graph_type == GraphType::Disconnected,
                    n as nat,
                ),
                self.selector.chosen() == tgts,
                self.selector.clean(),
                self.selector.capacity() == cfg.initial_nodes + cfg.end_time,
                self.vertices_evolution == ve1,
                self.current_time_step == old(self).current_time_step,
                self.terminated == old(self).terminated,
            decreases m - idx,
        {
            let t = self.selector.target_at(idx);
            let ghost pre_stubs = self.stubs.stubs();
            let ghost pre_edges = self.graph.edges();
            self.graph.add_edge_raw(source, t);
            self.stubs.push_pair(t, source);
            proof {
                assert(base.is_prefix_of(self.graph.edges())) by {
                    assert(self.graph.edges().subrange(0, base.len() as int) =~= base);
                }
                lemma_stubs_push_edge(
                    pre_stubs,
                    pre_edges,
                    (source, t),
                    t,
                    source,
                    cfg.starting_graph_type == GraphType::Disconnected,
                    n as nat,
                );
            }
            idx = idx + 1;
        }
        self.current_time_step = t_next;
        proof {
            let edges = self.graph.edges();
            assert(endpoints_below(edges, n as int)) by {
                assert forall|k: int| 0 <= k < edges.len() implies edges[k].0 < n && edges[k].1
                    < n by {
                    if k < base.len() {
                        assert(edges[k] == base[k]);
                    } else {
                        assert(edges[k] == (source, tgts[k - base.len()]));
                    }
                }
            }
            assert(no_self_loops(edges)) by {
                assert forall|k: int| 0 <= k < edges.len() implies edges[k].0 != edges[k].1 by {
                    if k < base.len() {
                        assert(edges[k] == base[k]);
                    } else {
                        assert(edges[k] == (source, tgts[k - base.len()]));
                        assert(tgts[k - base.len()] != source);
                    }
                }
            }
            assert(no_duplicate_edges(edges)) by {
                assert forall|k1: int, k2: int|
                    0 <= k1 < k2 < edges.len() implies !same_pair(edges[k1], edges[k2]) by {
                    if k2 < base.len() {
                        assert(edges[k1] == base[k1] && edges[k2] == base[k2]);
                    } else if k1 < base.len() {
                        assert(edges[k1] == base[k1]);
                        assert(edges[k2] == (source, tgts[k2 - base.len()]));
                        if same_pair(edges[k1], edges[k2]) {
                            assert(base[k1] == (source, tgts[k2 - base.len()]) || base[k1] == (
                                tgts[k2 - base.len()],
                                source,
                            ));
                            assert(has_edge_spec(base, source, tgts[k2 - base.len()]));
                        }
                    } else {
                        assert(edges[k1] == (source, tgts[k1 - base.len()]));
                        assert(edges[k2] == (source, tgts[k2 - base.len()]));
                        assert(tgts[k1 - base.len()] != tgts[k2 - base.len()]);
                        assert(tgts[k1 - base.len()] != source && tgts[k2 - base.len()]
                            != source);
                    }
                }
            }
            assert(edges.len() == seed_edge_count(cfg) + cfg.edges_increment * (
            self.current_time_step as int)) by {
                let t = (t_next - 1) as int;
                assert(cfg.edges_increment * t + cfg.edges_increment == cfg.edges_increment * (t
                    + 1)) by (nonlinear_arith);
            }
            assert(self.stubs.stubs().len() == no_growth_stub_base(cfg) + 2 * (edges.len()
                - seed_edge_count(cfg))) by {
                let t = (t_next - 1) as int;
                assert(cfg.edges_increment * t + cfg.edges_increment == cfg.edges_increment * (t
                    + 1)) by (nonlinear_arith);
            }
        }
        true
    }
}

impl Gen for BarabasiAlbertNoGrowth {
    open spec fn final_nodes(mc: ModelConfig) -> nat {
        mc.initial_nodes as nat
    }

    proof fn final_nodes_same(a: ModelConfig, b: ModelConfig) {
    }

    closed spec fn done(&self) -> bool {
        self.current_time_step == self.model_config.end_time || self.terminated
    }

    closed spec fn recorded(&self, a: usize) -> Option<Seq<usize>> {
        self.vertices_evolution.lookup(a)
    }

    /// Early termination makes the recorded trajectories depend on the run,
    /// so no span is determined by the configuration.
    open spec fn arrival_span(mc: ModelConfig, a: usize) -> Option<nat> {
        None
    }

    open spec fn spans_determined(mc: ModelConfig) -> bool {
        false
    }

    proof fn spans_same(a: ModelConfig, b: ModelConfig, arrival: usize) {
    }

    /// Runs steps until the horizon, stopping early as soon as a step
    /// reports termination; the node set never changes and the edge count
    /// grows by exactly `edges_increment` per completed step.
    fn generate(&mut self) -> (g: SimGraph)
        ensures
            final(self).steps_done() == old(self).config().end_time || final(self).is_terminated(),
            g.edges().len() == seed_edge_count(old(self).config()) + old(self).config().edges_increment * final(self).steps_done(),
            g.edges().len() <= final_edge_target(old(self).config()),
            g.edges().len() <= max_edges(g.nodes() as int),
    {
        let t_max = self.model_config.end_time;
        let mut time: usize = 1;
        while time <= t_max
            invariant_except_break
                1 <= time <= t_max + 1,
                t_max == old(self).config().end_time,
                same_config(self.model_config, old(self).model_config),
                self.inv(),
                self.steps_done() == time - 1,
            ensures
                same_config(self.model_config, old(self).model_config),
                self.inv(),
                self.steps_done() == old(self).config().end_time || self.is_terminated(),
            decreases t_max + 1 - time,
        {
            let advanced = self.step();
            if !advanced {
                break;
            }
            self.update_vertices_evolution(time);
            time = time + 1;
        }
        proof {
            lemma_simple_edge_bound(self.graph.edges(), self.graph.nodes() as int);
        }
        self.graph.clone_graph()
    }
}

impl TrackVertices for BarabasiAlbertNoGrowth {
    /// The recorded trajectory of `vertex_id`, empty when it is not tracked.
    fn get_vertex_evolution(&self, vertex_id: usize) -> (r: Vec<usize>)
        ensures
            self.tracker().has_node(vertex_id) ==> exists|i: int|
                0 <= i < self.tracker().entry_seq().len() && (
                #[trigger] self.tracker().entry_seq()[i]).1 == vertex_id && r@ == self.tracker(
                ).entry_seq()[i].2,
            !self.tracker().has_node(vertex_id) ==> r@ == Seq::<usize>::empty(),
    {
        self.vertices_evolution.node_evolution(vertex_id)
    }

    /// The trajectory of the source picked at step `arrival`, or absence
    /// when that arrival was never tracked.
    fn get_arrival_evolution(&self, arrival: usize) -> (r: Option<Vec<usize>>)
        ensures
            !self.tracker().has_arrival(arrival) ==> r is None,
            self.tracker().wf() ==> ((r is Some) <==> (self.tracker().has_arrival(arrival)
                && self.tracker().traj_of(arrival).len() > 0)),
            self.tracker().wf() && r is Some ==> r->Some_0@ == self.tracker().traj_of(arrival),
    {
        let r = self.vertices_evolution.get_arrival_evolution(&arrival);
        proof {
            if !self.vertices_evolution.has_arrival(arrival) {
                self.vertices_evolution.lemma_lookup_absent(arrival);
            }
            if self.vertices_evolution.wf() {
                self.vertices_evolution.lemma_lookup_traj(arrival);
            }
        }
        r
    }

    /// Appends, for every tracked vertex whose arrival has occurred, its
    /// current degree observation.
    fn update_vertices_evolution(&mut self, time: usize)
        ensures
            same_config(final(self).config(), old(self).config()),
            final(self).steps_done() == old(self).steps_done(),
            final(self).graph_state() == old(self).graph_state(),
            final(self).is_terminated() == old(self).is_terminated(),
            old(self).inv() ==> final(self).inv(),
            final(self).tracker().entry_seq().len() == old(self).tracker().entry_seq().len(),
            forall|i: int|
                0 <= i < old(self).tracker().entry_seq().len() ==> (#[trigger] final(self).tracker().entry_seq()[i]) == (if old(self).tracker().entry_seq()[i].0 <= time
                    && old(self).tracker().entry_seq()[i].1 < old(self).graph_state().nodes()
                    && old(self).tracker().entry_seq()[i].1 < index_limit() {
                    (
                        old(self).tracker().entry_seq()[i].0,
                        old(self).tracker().entry_seq()[i].1,
                        old(self).tracker().entry_seq()[i].2.push(
                            degree_of(
                                old(self).graph_state().edges(),
                                old(self).tracker().entry_seq()[i].1,
                            ) as usize,
                        ),
                    )
                } else {
                    old(self).tracker().entry_seq()[i]
                }),
    {
        self.vertices_evolution.update(&self.graph, time);
        proof {
            if old(self).inv() {
                let es = self.vertices_evolution.entry_seq();
                let pre = old(self).vertices_evolution.entry_seq();
                assert forall|i: int, j: int|
                    0 <= i < j < es.len() implies (#[trigger] es[i]).0 != (#[trigger] es[j]).0
                    && es[i].1 != es[j].1 by {
                    assert(es[i].0 == pre[i].0 && es[i].1 == pre[i].1);
                    assert(es[j].0 == pre[j].0 && es[j].1 == pre[j].1);
                }
                assert forall|i: int|
                    0 <= i < es.len() implies 1 <= (#[trigger] es[i]).0 <= old(
                    self,
                ).steps_done() + (if old(self).is_terminated() {
                    1int
                } else {
                    0int
                }) && es[i].1 < self.graph.nodes() && self.model_config.tracked_arrivals@.contains(
                    es[i].0,
                ) by {
                    assert(es[i].0 == pre[i].0 && es[i].1 == pre[i].1);
                }
            }
        }
    }
}

} // verus!

verus! {

/// The pool holds exactly the edge endpoints: each node appears once per
/// edge that touches it, plus one primer stub per node when the run began
/// from the edgeless seed. Drawing a stub uniformly therefore selects a
/// node with probability proportional to its degree (shifted by one for the
/// primed pool).
pub open spec fn stubs_match_degrees(
    stubs: Seq<usize>,
    edges: Seq<(usize, usize)>,
    primed: bool,
    n: nat,
) -> bool {
    forall|v: usize|
        #[trigger] stubs.to_multiset().count(v) == degree_of(edges, v) + (if primed && v < n {
            1int
        } else {
            0int
        })
}

/// A node beyond the endpoint bound has degree zero.
proof fn lemma_degree_out_of_range(edges: Seq<(usize, usize)>, n: int, v: usize)
    requires
        endpoints_below(edges, n),
        v >= n,
    ensures
        degree_of(edges, v) == 0,
    decreases edges.len(),
{
    if edges.len() > 0 {
        let head = edges.drop_last();
        assert(endpoints_below(head, n)) by {
            assert(forall|k: int| 0 <= k < head.len() ==> head[k] == edges[k]);
        }
        lemma_degree_out_of_range(head, n, v);
        assert(edges[edges.len() - 1].0 < n && edges[edges.len() - 1].1 < n);
    }
}

/// Appending an edge and pushing its two endpoints onto the pool keeps the
/// pool in step with the degrees.
proof fn lemma_stubs_push_edge(
    stubs: Seq<usize>,
    edges: Seq<(usize, usize)>,
    e: (usize, usize),
    x: usize,
    y: usize,
    primed: bool,
    n: nat,
)
    requires
        stubs_match_degrees(stubs, edges, primed, n),
        e.0 != e.1,
        (x == e.0 && y == e.1) || (x == e.1 && y == e.0),
    ensures
        stubs_match_degrees(stubs.push(x).push(y), edges.push(e), primed, n),
{
    broadcast use vstd::seq_lib::group_to_multiset_ensures;

    assert forall|v: usize|
        #[trigger] stubs.push(x).push(y).to_multiset().count(v) == degree_of(edges.push(e), v) + (
        if primed && v < n {
            1int
        } else {
            0int
        }) by {
        lemma_degree_push(edges, e, v);
        assert(stubs.push(x).to_multiset() =~= stubs.to_multiset().insert(x));
        assert(stubs.push(x).push(y).to_multiset() =~= stubs.push(x).to_multiset().insert(y));
        assert(stubs.to_multiset().count(v) == degree_of(edges, v) + (if primed && v < n {
            1int
        } else {
            0int
        }));
    }
}

} // verus!
