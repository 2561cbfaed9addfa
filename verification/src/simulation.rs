//! Trial-averaging harness.
//!
//! The Barabasi-Albert models are random by nature, so results are averaged
//! over repeated independent trials: the degree sequence of the network and
//! the degree evolution of the vertices identified by their arrival time.
//! The harness is split into a start phase and a completed phase so results
//! can only be read once aggregation has happened.

use vstd::prelude::*;

use crate::args::ArgsModelType;
use crate::graph_utils::DegreeSequence;
use crate::models::BarabasiAlbertClassic;
use crate::models::BarabasiAlbertNoGrowth;
use crate::models::BarabasiAlbertRandomAttachement;
use crate::models::FromModelConfig;
use crate::models::Gen;
use crate::models::GraphType;
use crate::models::ModelConfig;
use crate::models::TrackVertices;
use crate::models::copy_usizes;
use crate::models::same_config;

verus! {

/// Failure of the aggregation phase: two trials reported trajectories of
/// different lengths for one arrival, an internal inconsistency of the
/// per-trial generation step.
#[derive(Debug, Clone, Copy, PartialEq, Eq, Structural)]
pub enum SimulationError {
    InconsistentTrajectories,
}

impl SimulationError {
    /// Human-readable description.
    pub fn message(&self) -> (r: &'static str)
        ensures
            r@ == "trials reported trajectories of different lengths"@,
    {
        "trials reported trajectories of different lengths"
    }
}

pub trait SimulationState {

}

/// The completed phase: aggregated trajectories, one per tracked arrival.
pub struct Over {
    pub vertices_evolution: Option<Vec<(usize, Vec<usize>)>>,
}

/// The phase before any trial has run.
pub struct Start {}

impl SimulationState for Over {

}

impl SimulationState for Start {

}

/// The harness itself, parameterised by its phase.
pub struct Simulation<S: SimulationState> {
    pub iteration_number: usize,
    pub degree_sequence: Option<Vec<usize>>,
    state: S,
}

/// Ceiling of `sum / count` over integers.
pub open spec fn ceil_div(sum: int, count: int) -> int
    recommends
        count > 0,
{
    (sum + count - 1) / count
}

/// The row length every trial contributes for arrival `a`, when the
/// policy's spans are determined: the determined trajectory length, or zero
/// for an arrival the policy never records.
pub open spec fn span_len<G: Gen>(mc: ModelConfig, a: usize) -> nat {
    match G::arrival_span(mc, a) {
        Some(l) => l,
        None => 0,
    }
}

/// The views of a list of per-trial vectors.
pub open spec fn rows_view(vs: Seq<Vec<usize>>) -> Seq<Seq<usize>> {
    vs.map_values(|v: Vec<usize>| v@)
}

/// Sum of the entries at position `j` across all rows.
pub open spec fn col_sum(rows: Seq<Seq<usize>>, j: int) -> int
    decreases rows.len(),
{
    if rows.len() == 0 {
        0
    } else {
        col_sum(rows.drop_last(), j) + rows.last()[j]
    }
}

impl<S: SimulationState> Simulation<S> {
    /// The configured number of trials.
    pub closed spec fn iterations(&self) -> usize {
        self.iteration_number
    }

    /// The aggregated degree sequence, if one has been produced.
    pub closed spec fn sequence(&self) -> Option<Vec<usize>> {
        self.degree_sequence
    }

    /// Element-wise mean of equally long vectors, rounded up to the nearest
    /// integer: degree counts are integral and slight over-estimation is
    /// preferred over truncation bias.
    #[verifier::loop_isolation(false)]
    pub fn mean_vectors(vectors: &[Vec<usize>]) -> (r: Vec<usize>)
        requires
            vectors@.len() >= 1,
            forall|i: int| 0 <= i < vectors@.len() ==> (#[trigger] vectors@[i])@.len()
                == vectors@[0]@.len(),
        ensures
            r@.len() == vectors@[0]@.len(),
            forall|j: int|
                0 <= j < r@.len() ==> r@[j] == ceil_div(
                    col_sum(rows_view(vectors@), j),
                    vectors@.len() as int,
                ),
    {
        let k = vectors.len();
        let width = vectors[0].len();
        let mut out: Vec<usize> = Vec::new();
        let mut j: usize = 0;
        while j < width
            invariant
                j <= width,
                out@.len() == j,
                forall|q: int|
                    0 <= q < j ==> out@[q] == ceil_div(
                        col_sum(rows_view(vectors@), q),
                        k as int,
                    ),
            decreases width - j,
        {
            let mut sum: u128 = 0;
            let mut i: usize = 0;
            while i < k
                invariant
                    i <= k,
                    j < width,
                    sum == col_sum(rows_view(vectors@.subrange(0, i as int)), j as int),
                    sum <= i * (usize::MAX as int),
                decreases k - i,
            {
                let ghost pre = vectors@.subrange(0, i as int);
                proof {
                    assert(vectors@.subrange(0, i + 1 as int).drop_last() =~= pre);
                    assert(rows_view(vectors@.subrange(0, i + 1 as int)).drop_last() =~= rows_view(
                        pre,
                    ));
                    assert(sum + vectors@[i as int]@[j as int] <= (i + 1) * (usize::MAX as int))
                        by (nonlinear_arith)
                        requires
                            sum <= i * (usize::MAX as int),
                            0 <= vectors@[i as int]@[j as int] <= usize::MAX,
                    ;
                    assert((i + 1) * (usize::MAX as int) <= (usize::MAX as int) * (
                    usize::MAX as int)) by (nonlinear_arith)
                        requires
                            0 <= i + 1 <= usize::MAX as int,
                    ;
                    assert((usize::MAX as int) * (usize::MAX as int) + usize::MAX
                        <= u128::MAX as int) by (nonlinear_arith)
                        requires
                            usize::MAX as int <= 0xffff_ffff_ffff_ffff,
                    ;
                }
                sum = sum + (vectors[i][j] as u128);
                i = i + 1;
            }
            proof {
                assert(vectors@.subrange(0, k as int) =~= vectors@);
            }
            let kk = k as u128;
            proof {
                assert(sum + kk <= u128::MAX) by (nonlinear_arith)
                    requires
                        sum <= (usize::MAX as int) * (usize::MAX as int),
                        0 < kk <= usize::MAX as int,
                        usize::MAX as int <= 0xffff_ffff_ffff_ffff,
                ;
            }
            let ceil = (sum + kk - 1) / kk;
            proof {
                assert(ceil <= usize::MAX) by (nonlinear_arith)
                    requires
                        ceil == ((sum + kk - 1) as int) / (kk as int),
                        sum <= kk * (usize::MAX as int),
                        kk >= 1,
                ;
            }
            out.push(ceil as usize);
            j = j + 1;
        }
        out
    }
}

} // verus!

verus! {

/// True when all rows have the same length as the first.
fn uniform_width(rs: &Vec<Vec<usize>>) -> (r: bool)
    requires
        rs@.len() >= 1,
    ensures
        r == forall|i: int| 0 <= i < rs@.len() ==> (#[trigger] rs@[i])@.len() == rs@[0]@.len(),
{
    let width = rs[0].len();
    let mut i: usize = 0;
    while i < rs.len()
        invariant
            i <= rs@.len(),
            rs@.len() >= 1,
            width == rs@[0]@.len(),
            forall|q: int| 0 <= q < i ==> (#[trigger] rs@[q])@.len() == rs@[0]@.len(),
        decreases rs@.len() - i,
    {
        if rs[i].len() != width {
            return false;
        }
        i = i + 1;
    }
    true
}

impl Simulation<Start> {
    /// A harness set up for at least one trial; results are absent until a
    /// simulation runs.
    pub fn new(iteration_number: usize) -> (r: Simulation<Start>)
        requires
            iteration_number >= 1,
        ensures
            r.iterations() == iteration_number,
            r.sequence() is None,
    {
        Simulation { iteration_number, degree_sequence: None, state: Start {  } }
    }

    /// Runs the policy for the configured number of independent trials and
    /// averages the trials' degree sequences element-wise with
    /// `mean_vectors`, rounding up; the result's length is the policy's
    /// final node count.
    #[verifier::loop_isolation(false)]
    pub fn simulate<G: FromModelConfig + Gen>(self, model_config: ModelConfig) -> (r: Simulation<
        Over,
    >)
        requires
            model_config.wf(),
            G::accepts(model_config),
            self.iterations() >= 1,
        ensures
            r.iterations() == self.iterations(),
            r.sequence() is Some,
            r.sequence()->Some_0@.len() == G::final_nodes(model_config),
            r.arrival_evolutions() is None,
    {
        let mut seqs: Vec<Vec<usize>> = Vec::new();
        let mut it: usize = 0;
        while it < self.iteration_number
            invariant
                it <= self.iteration_number,
                seqs@.len() == it,
                forall|p: int|
                    0 <= p < it ==> (#[trigger] seqs@[p])@.len() == G::final_nodes(
                        model_config,
                    ),
            decreases self.iteration_number - it,
        {
            let cfg = model_config.duplicate();
            proof {
                G::accepts_same(model_config, cfg);
            }
            let mut model: G = G::from_model_config(cfg);
            let ghost built = model.config();
            let graph = model.generate();
            proof {
                assert(same_config(built, model_config));
                G::final_nodes_same(built, model_config);
                assert(graph.nodes() == G::final_nodes(model_config));
            }
            seqs.push(graph.degree_sequence());
            it = it + 1;
        }
        let mean = Self::mean_vectors(seqs.as_slice());
        Simulation {
            degree_sequence: Some(mean),
            iteration_number: self.iteration_number,
            state: Over { vertices_evolution: None },
        }
    }

    /// Like `simulate`, and additionally gathers, for every tracked
    /// arrival, each trial's trajectory, then averages them element-wise
    /// with `mean_vectors`. Two trials that disagree on a trajectory's
    /// length are an internal inconsistency and surface as an error; a
    /// policy whose trajectory spans are determined by the configuration
    /// alone, as both growth policies' are, always succeeds.
    #[verifier::loop_isolation(false)]
    pub fn simulate_with_tracking<G: FromModelConfig + Gen + TrackVertices>(
        self,
        model_config: ModelConfig,
    ) -> (r: Result<Simulation<Over>, SimulationError>)
        requires
            model_config.wf(),
            G::accepts(model_config),
            self.iterations() >= 1,
        ensures
            G::spans_determined(model_config) ==> r is Ok,
            r is Ok ==> {
                let s = r->Ok_0;
                &&& s.iterations() == self.iterations()
                &&& s.sequence() is Some
                &&& s.sequence()->Some_0@.len() == G::final_nodes(model_config)
                &&& s.arrival_evolutions() is Some
                &&& s.arrival_evolutions()->Some_0@.len()
                    == model_config.tracked_arrivals@.len()
                &&& forall|q: int|
                    0 <= q < model_config.tracked_arrivals@.len() ==> (
                    #[trigger] s.arrival_evolutions()->Some_0@[q]).0
                        == model_config.tracked_arrivals@[q]
                &&& G::spans_determined(model_config) ==> forall|q: int|
                    0 <= q < model_config.tracked_arrivals@.len() ==> (
                    #[trigger] s.arrival_evolutions()->Some_0@[q]).1@.len() == span_len::<G>(
                        model_config,
                        model_config.tracked_arrivals@[q],
                    )
            },
    {
        let mut seqs: Vec<Vec<usize>> = Vec::new();
        let n_tracked = model_config.tracked_arrivals.len();
        let mut rows: Vec<Vec<Vec<usize>>> = Vec::new();
        let mut q: usize = 0;
        while q < n_tracked
            invariant
                q <= n_tracked,
                rows@.len() == q,
                forall|p: int| 0 <= p < q ==> (#[trigger] rows@[p])@.len() == 0,
            decreases n_tracked - q,
        {
            rows.push(Vec::new());
            q = q + 1;
        }
        let mut it: usize = 0;
        while it < self.iteration_number
            invariant
                it <= self.iteration_number,
                rows@.len() == n_tracked,
                forall|p: int| 0 <= p < n_tracked ==> (#[trigger] rows@[p])@.len() == it,
                G::spans_determined(model_config) ==> forall|x: int, ri: int|
                    0 <= x < n_tracked && 0 <= ri < rows@[x]@.len() ==> (
                    #[trigger] rows@[x]@[ri])@.len() == span_len::<G>(
                        model_config,
                        model_config.tracked_arrivals@[x],
                    ),
                seqs@.len() == it,
                forall|p: int|
                    0 <= p < it ==> (#[trigger] seqs@[p])@.len() == G::final_nodes(
                        model_config,
                    ),
            decreases self.iteration_number - it,
        {
            let cfg = model_config.duplicate();
            proof {
                G::accepts_same(model_config, cfg);
            }
            let mut model: G = G::from_model_config(cfg);
            let ghost built = model.config();
            let graph = model.generate();
            proof {
                assert(same_config(built, model_config));
                G::final_nodes_same(built, model_config);
                assert(graph.nodes() == G::final_nodes(model_config));
            }
            let mut p: usize = 0;
            while p < n_tracked
                invariant
                    p <= n_tracked,
                    rows@.len() == n_tracked,
                    forall|x: int| p <= x < n_tracked ==> (#[trigger] rows@[x])@.len() == it,
                    forall|x: int| 0 <= x < p ==> (#[trigger] rows@[x])@.len() == it + 1,
                    G::spans_determined(model_config) ==> forall|x: int, ri: int|
                        0 <= x < n_tracked && 0 <= ri < rows@[x]@.len() ==> (
                        #[trigger] rows@[x]@[ri])@.len() == span_len::<G>(
                            model_config,
                            model_config.tracked_arrivals@[x],
                        ),
                decreases n_tracked - p,
            {
                let arrival = model_config.tracked_arrivals[p];
                let got = model.get_arrival_evolution(arrival);
                proof {
                    if G::spans_determined(model_config) {
                        G::spans_same(built, model_config, arrival);
                        assert(match G::arrival_span(built, arrival) {
                            Some(l) => model.recorded(arrival) is Some && model.recorded(
                                arrival,
                            )->Some_0.len() == l,
                            None => model.recorded(arrival) is None,
                        });
                    }
                }
                let row = match got {
                    Some(t) => t,
                    None => Vec::new(),
                };
                proof {
                    if G::spans_determined(model_config) {
                        assert(row@.len() == span_len::<G>(model_config, arrival));
                    }
                }
                let ghost pre = rows@;
                rows[p].push(row);
                proof {
                    assert(rows@[p as int]@.len() == pre[p as int]@.len() + 1);
                    assert(forall|x: int| 0 <= x < n_tracked && x != p ==> rows@[x] == pre[x]);
                    assert(rows@[p as int]@.drop_last() =~= pre[p as int]@);
                }
                p = p + 1;
            }
            seqs.push(graph.degree_sequence());
            it = it + 1;
        }
        let mut evolutions: Vec<(usize, Vec<usize>)> = Vec::new();
        let mut q2: usize = 0;
        while q2 < n_tracked
            invariant
                q2 <= n_tracked,
                rows@.len() == n_tracked,
                forall|p: int|
                    0 <= p < n_tracked ==> (#[trigger] rows@[p])@.len()
                        == self.iteration_number,
                G::spans_determined(model_config) ==> forall|x: int, ri: int|
                    0 <= x < n_tracked && 0 <= ri < rows@[x]@.len() ==> (
                    #[trigger] rows@[x]@[ri])@.len() == span_len::<G>(
                        model_config,
                        model_config.tracked_arrivals@[x],
                    ),
                evolutions@.len() == q2,
                forall|p: int|
                    0 <= p < q2 ==> (#[trigger] evolutions@[p]).0
                        == model_config.tracked_arrivals@[p],
                G::spans_determined(model_config) ==> forall|p: int|
                    0 <= p < q2 ==> (#[trigger] evolutions@[p]).1@.len() == span_len::<G>(
                        model_config,
                        model_config.tracked_arrivals@[p],
                    ),
            decreases n_tracked - q2,
        {
            if !uniform_width(&rows[q2]) {
                proof {
                    if G::spans_determined(model_config) {
                        assert forall|i: int|
                            0 <= i < rows@[q2 as int]@.len() implies (
                            #[trigger] rows@[q2 as int]@[i])@.len()
                            == rows@[q2 as int]@[0]@.len() by {}
                        assert(false);
                    }
                }
                return Err(SimulationError::InconsistentTrajectories);
            }
            let mean = Self::mean_vectors(rows[q2].as_slice());
            evolutions.push((model_config.tracked_arrivals[q2], mean));
            q2 = q2 + 1;
        }
        let mean_sequence = Self::mean_vectors(seqs.as_slice());
        Ok(
            Simulation {
                degree_sequence: Some(mean_sequence),
                iteration_number: self.iteration_number,
                state: Over { vertices_evolution: Some(evolutions) },
            },
        )
    }
}

impl Simulation<Over> {
    /// The aggregated per-arrival trajectories, absent when the simulation
    /// ran without tracking.
    pub closed spec fn arrival_evolutions(&self) -> Option<Vec<(usize, Vec<usize>)>> {
        self.state.vertices_evolution
    }

    /// The aggregated degree sequence; the phase split guarantees it exists
    /// once a simulation has produced this value.
    pub fn get_mean_degree_sequence(&self) -> (r: Vec<usize>)
        requires
            self.sequence() is Some,
        ensures
            r@ == self.sequence()->Some_0@,
    {
        match &self.degree_sequence {
            Some(ds) => copy_usizes(ds),
            None => {
                proof {
                    assert(false);
                }
                Vec::new()
            },
        }
    }

    /// The aggregated trajectory per tracked arrival time.
    pub fn get_vertex_evolution<G: TrackVertices>(&self) -> (r: Vec<(usize, Vec<usize>)>)
        requires
            self.arrival_evolutions() is Some,
        ensures
            r@.len() == self.arrival_evolutions()->Some_0@.len(),
            forall|i: int|
                0 <= i < r@.len() ==> (#[trigger] r@[i]).0
                    == self.arrival_evolutions()->Some_0@[i].0 && r@[i].1@
                    == self.arrival_evolutions()->Some_0@[i].1@,
    {
        match &self.state.vertices_evolution {
            Some(ve) => {
                let mut out: Vec<(usize, Vec<usize>)> = Vec::new();
                let mut i: usize = 0;
                while i < ve.len()
                    invariant
                        i <= ve@.len(),
                        out@.len() == i,
                        forall|p: int|
                            0 <= p < i ==> (#[trigger] out@[p]).0 == ve@[p].0 && out@[p].1@
                                == ve@[p].1@,
                    decreases ve@.len() - i,
                {
                    let arrival = ve[i].0;
                    let traj = copy_usizes(&ve[i].1);
                    out.push((arrival, traj));
                    i = i + 1;
                }
                out
            },
            None => {
                proof {
                    assert(false);
                }
                Vec::new()
            },
        }
    }
}

/// Node count the selected policy finishes with.
pub open spec fn expected_node_total(model_type: ArgsModelType, mc: ModelConfig) -> nat {
    match model_type {
        ArgsModelType::GrowthPreferential => (mc.initial_nodes + mc.end_time) as nat,
        ArgsModelType::GrowthRandom => (mc.initial_nodes + mc.end_time) as nat,
        ArgsModelType::NoGrowthPreferential => mc.initial_nodes as nat,
    }
}

/// Trajectory length a growth policy's tracked arrival accumulates over a
/// full run: one observation per step from the arrival to the horizon, and
/// none for an arrival outside it.
pub open spec fn growth_trajectory_len(mc: ModelConfig, a: usize) -> nat {
    if mc.tracked_arrivals@.contains(a) && 1 <= a <= mc.end_time {
        (mc.end_time - a + 1) as nat
    } else {
        0
    }
}

/// Builds the selected policy and runs the tracked simulation for the given
/// number of trials. Both growth policies determine their trajectory
/// lengths from the configuration alone, so for them the run always
/// succeeds; only the policy without growth, which can stop early, can
/// report inconsistent trajectories.
pub fn simulate_custom(
    model_config: &ModelConfig,
    iteration_number: usize,
    model_type: ArgsModelType,
) -> (r: Result<Simulation<Over>, SimulationError>)
    requires
        model_config.wf(),
        iteration_number >= 1,
        (model_type == ArgsModelType::GrowthPreferential || model_type
            == ArgsModelType::GrowthRandom) ==> model_config.starting_graph_type
            != GraphType::Disconnected,
    ensures
        (model_type == ArgsModelType::GrowthPreferential || model_type
            == ArgsModelType::GrowthRandom) ==> r is Ok,
        r is Ok ==> {
            let s = r->Ok_0;
            &&& s.iterations() == iteration_number
            &&& s.sequence() is Some
            &&& s.sequence()->Some_0@.len() == expected_node_total(
                model_type,
                *model_config,
            )
            &&& s.arrival_evolutions() is Some
            &&& s.arrival_evolutions()->Some_0@.len()
                == model_config.tracked_arrivals@.len()
            &&& forall|q: int|
                0 <= q < model_config.tracked_arrivals@.len() ==> (
                #[trigger] s.arrival_evolutions()->Some_0@[q]).0
                    == model_config.tracked_arrivals@[q]
            &&& (model_type == ArgsModelType::GrowthPreferential || model_type
                == ArgsModelType::GrowthRandom) ==> forall|q: int|
                0 <= q < model_config.tracked_arrivals@.len() ==> (
                #[trigger] s.arrival_evolutions()->Some_0@[q]).1@.len()
                    == growth_trajectory_len(
                    *model_config,
                    model_config.tracked_arrivals@[q],
                )
        },
{
    let sim = Simulation::new(iteration_number);
    let cfg = model_config.duplicate();
    let ghost gcfg = cfg;
    let r = match model_type {
        ArgsModelType::GrowthPreferential => sim.simulate_with_tracking::<
            BarabasiAlbertClassic,
        >(cfg),
        ArgsModelType::GrowthRandom => sim.simulate_with_tracking::<
            BarabasiAlbertRandomAttachement,
        >(cfg),
        ArgsModelType::NoGrowthPreferential => sim.simulate_with_tracking::<
            BarabasiAlbertNoGrowth,
        >(cfg),
    };
    proof {
        assert(gcfg.tracked_arrivals@ == model_config.tracked_arrivals@);
        if model_type == ArgsModelType::GrowthPreferential {
            assert forall|q: int|
                0 <= q < gcfg.tracked_arrivals@.len() implies span_len::<BarabasiAlbertClassic>(
                gcfg,
                gcfg.tracked_arrivals@[q],
            ) == growth_trajectory_len(*model_config, model_config.tracked_arrivals@[q]) by {}
        }
        if model_type == ArgsModelType::GrowthRandom {
            assert forall|q: int|
                0 <= q < gcfg.tracked_arrivals@.len() implies span_len::<
                BarabasiAlbertRandomAttachement,
            >(gcfg, gcfg.tracked_arrivals@[q]) == growth_trajectory_len(
                *model_config,
                model_config.tracked_arrivals@[q],
            ) by {}
        }
    }
    r
}

} // verus!
