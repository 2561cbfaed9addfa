use barabasi_albert_simulation::args::Args;
use barabasi_albert_simulation::args::ArgsGraphType;
use barabasi_albert_simulation::args::ArgsModelType;
use barabasi_albert_simulation::args::validate_args;
use barabasi_albert_simulation::gen::AttachementMethod;
use barabasi_albert_simulation::gen::BarabasiAlbertGenConfig;
use barabasi_albert_simulation::models::BarabasiAlbertClassic;
use barabasi_albert_simulation::models::BarabasiAlbertNoGrowth;
use barabasi_albert_simulation::models::BarabasiAlbertRandomAttachement;
use barabasi_albert_simulation::models::FromModelConfig;
use barabasi_albert_simulation::models::Gen;
use barabasi_albert_simulation::models::GraphType;
use barabasi_albert_simulation::models::ModelConfig;
use barabasi_albert_simulation::models::Step;
use barabasi_albert_simulation::models::TrackVertices;
use barabasi_albert_simulation::simulation::Simulation;
use barabasi_albert_simulation::simulation::Start;

fn config() -> ModelConfig {
    ModelConfig {
        initial_nodes: 5,
        edges_increment: 3,
        end_time: 10,
        starting_graph_type: GraphType::Complete,
        tracked_arrivals: vec![],
    }
}

fn root(parent: &mut Vec<usize>, mut x: usize) -> usize {
    while parent[x] != x {
        parent[x] = parent[parent[x]];
        x = parent[x];
    }
    x
}

/// Number of connected components, from the edge list.
fn component_count(node_count: usize, edges: &[(usize, usize)]) -> usize {
    let mut parent: Vec<usize> = (0..node_count).collect();
    for &(a, b) in edges {
        let ra = root(&mut parent, a);
        let rb = root(&mut parent, b);
        if ra != rb {
            parent[ra] = rb;
        }
    }
    let mut count = 0;
    for v in 0..node_count {
        if root(&mut parent, v) == v {
            count += 1;
        }
    }
    count
}

#[test]
fn test_barabasi_classic_node_count() {
    let mut model: BarabasiAlbertClassic = FromModelConfig::from_model_config(config());
    let graph = model.generate();

    // Total nodes = Initial nodes + nodes added at each time step
    assert_eq!(graph.node_count(), config().initial_nodes + config().end_time);
}

#[test]
fn test_barabasi_classic_edge_count() {
    let mut model: BarabasiAlbertClassic = FromModelConfig::from_model_config(config());
    let graph = model.generate();

    // Initial edges = (n * (n - 1)) / 2 for a fully connected graph
    let initial_edges = (config().initial_nodes * (config().initial_nodes - 1)) / 2;
    let expected_edges = initial_edges + (config().edges_increment * config().end_time);

    assert_eq!(graph.edge_count(), expected_edges);
}

#[test]
fn test_barabasi_classic_no_multi_edges() {
    let mut model: BarabasiAlbertClassic = FromModelConfig::from_model_config(config());
    let graph = model.generate();

    let edges = graph.edge_list();
    for node in 0..graph.node_count() {
        let mut neighbors = vec![];
        for &(a, b) in &edges {
            let target = if a == node {
                b
            } else if b == node {
                a
            } else {
                continue;
            };
            assert!(!neighbors.contains(&target), "Multi-edge detected!");
            neighbors.push(target);
        }
    }
}

#[test]
fn test_barabasi_classic_graph_connectivity() {
    let mut model: BarabasiAlbertClassic = FromModelConfig::from_model_config(config());
    let graph = model.generate();

    let connected_components = component_count(graph.node_count(), &graph.edge_list());
    assert_eq!(connected_components, 1, "Graph is not connected");
}

#[test]
fn test_barabasi_random_attachement_counts_and_simplicity() {
    let mut cfg = config();
    cfg.starting_graph_type = GraphType::Star;
    let mut model: BarabasiAlbertRandomAttachement = FromModelConfig::from_model_config(cfg);
    let graph = model.generate();

    assert_eq!(graph.node_count(), 15);
    // Star seed on 5 nodes has 4 edges.
    assert_eq!(graph.edge_count(), 4 + 3 * 10);
    for (a, b) in graph.edge_list() {
        assert_ne!(a, b, "self-loop detected");
    }
}

#[test]
fn test_no_growth_terminates_when_complete() {
    let cfg = ModelConfig {
        initial_nodes: 4,
        edges_increment: 1,
        end_time: 10,
        starting_graph_type: GraphType::Complete,
        tracked_arrivals: vec![],
    };
    let mut model: BarabasiAlbertNoGrowth = FromModelConfig::from_model_config(cfg);
    // The seed is already complete, so the very first step reports
    // termination and later steps stay no-ops.
    assert!(!model.step());
    assert!(!model.step());
    let graph = model.generate();
    assert_eq!(graph.node_count(), 4);
    assert_eq!(graph.edge_count(), 6);
}

#[test]
fn test_no_growth_disconnected_seed_adds_edges() {
    let cfg = ModelConfig {
        initial_nodes: 6,
        edges_increment: 1,
        end_time: 3,
        starting_graph_type: GraphType::Disconnected,
        tracked_arrivals: vec![],
    };
    let mut model: BarabasiAlbertNoGrowth = FromModelConfig::from_model_config(cfg);
    let graph = model.generate();
    assert_eq!(graph.node_count(), 6);
    assert!(graph.edge_count() <= 3);
    for (a, b) in graph.edge_list() {
        assert_ne!(a, b, "self-loop detected");
    }
}

#[test]
fn test_classic_tracked_arrival_trajectory() {
    let cfg = ModelConfig {
        initial_nodes: 3,
        edges_increment: 2,
        end_time: 7,
        starting_graph_type: GraphType::Complete,
        tracked_arrivals: vec![1],
    };
    let mut model: BarabasiAlbertClassic = FromModelConfig::from_model_config(cfg);
    model.generate();

    let trajectory = model
        .get_arrival_evolution(1)
        .expect("arrival 1 must be tracked once the first step has run");
    assert_eq!(trajectory.len(), 7);
    for w in trajectory.windows(2) {
        assert!(w[0] <= w[1], "degrees along a trajectory never decrease");
    }
    assert_eq!(model.get_vertex_evolution(1), trajectory);
    assert!(model.get_arrival_evolution(2).is_none());
}

#[test]
fn test_mean_vectors_example() {
    let rows = vec![vec![2, 4], vec![4, 6]];
    let mean = Simulation::<Start>::mean_vectors(&rows);
    assert_eq!(mean, vec![3, 5]);
}

#[test]
fn test_mean_vectors_rounds_up() {
    let rows = vec![vec![1, 0, 7], vec![2, 0, 8], vec![2, 1, 8]];
    let mean = Simulation::<Start>::mean_vectors(&rows);
    // ceil(5/3), ceil(1/3), ceil(23/3)
    assert_eq!(mean, vec![2, 1, 8]);
}

#[test]
fn test_simulate_mean_degree_sequence() {
    // With a single trial the element-wise ceiling mean is that trial's
    // degree sequence itself, so the handshake total is exact.
    let sim = Simulation::new(1);
    let over = sim.simulate::<BarabasiAlbertClassic>(config());
    assert_eq!(over.iteration_number, 1);
    let sequence = over.get_mean_degree_sequence();
    assert_eq!(sequence.len(), 15);
    let total: usize = sequence.iter().sum();
    assert_eq!(total, 2 * 40, "degree sum is twice the edge count");
}

#[test]
fn test_simulate_averages_across_trials() {
    let sim = Simulation::new(3);
    let over = sim.simulate::<BarabasiAlbertClassic>(config());
    let sequence = over.get_mean_degree_sequence();
    assert_eq!(sequence.len(), 15);
    // Rounding up never loses the handshake total of any single trial.
    let total: usize = sequence.iter().sum();
    assert!(total >= 2 * 40);
}

#[test]
fn test_simulate_with_tracking_means_trajectories() {
    let cfg = ModelConfig {
        initial_nodes: 4,
        edges_increment: 2,
        end_time: 5,
        starting_graph_type: GraphType::Complete,
        tracked_arrivals: vec![1, 3],
    };
    let sim = Simulation::new(4);
    let over = sim
        .simulate_with_tracking::<BarabasiAlbertClassic>(cfg)
        .expect("growth trials always agree on trajectory lengths");
    let evolutions = over.get_vertex_evolution::<BarabasiAlbertClassic>();
    assert_eq!(evolutions.len(), 2);
    assert_eq!(evolutions[0].0, 1);
    assert_eq!(evolutions[0].1.len(), 5);
    assert_eq!(evolutions[1].0, 3);
    assert_eq!(evolutions[1].1.len(), 3);
}

#[test]
fn test_simulate_custom_dispatches() {
    let over = barabasi_albert_simulation::simulation::simulate_custom(
        &config(),
        2,
        ArgsModelType::GrowthPreferential,
    )
    .expect("growth trials always agree on trajectory lengths");
    assert_eq!(over.get_mean_degree_sequence().len(), 15);
}

#[test]
fn test_model_config_from_args() {
    let args = Args {
        n: 7,
        m: 2,
        t_max: 11,
        iterations: 9,
        starting_graph: ArgsGraphType::Star,
        model: ArgsModelType::GrowthRandom,
    };
    let cfg = ModelConfig::from_args(&args, vec![1, 10]);
    assert_eq!(cfg.initial_nodes, 7);
    assert_eq!(cfg.edges_increment, 2);
    assert_eq!(cfg.end_time, 11);
    assert!(matches!(cfg.starting_graph_type, GraphType::Star));
    assert_eq!(cfg.tracked_arrivals, vec![1, 10]);
}

#[test]
fn test_validate_args_rejects_disconnected_growth() {
    let mut args = Args {
        n: 5,
        m: 2,
        t_max: 10,
        iterations: 1,
        starting_graph: ArgsGraphType::Disconnected,
        model: ArgsModelType::GrowthPreferential,
    };
    assert!(validate_args(&args).is_err());
    args.model = ArgsModelType::GrowthRandom;
    assert!(validate_args(&args).is_err());
    args.model = ArgsModelType::NoGrowthPreferential;
    assert!(validate_args(&args).is_ok());
    args.model = ArgsModelType::GrowthPreferential;
    args.starting_graph = ArgsGraphType::Complete;
    assert!(validate_args(&args).is_ok());
}

#[test]
fn test_model_type_labels() {
    assert_eq!(ArgsModelType::GrowthPreferential.label(), "growth_preferential");
    assert_eq!(ArgsModelType::GrowthRandom.label(), "growth_random");
    assert_eq!(
        ArgsModelType::NoGrowthPreferential.label(),
        "no_growth_preferential"
    );
}

#[test]
fn test_simulation_error_message() {
    let err = barabasi_albert_simulation::simulation::SimulationError::InconsistentTrajectories;
    assert_eq!(err.message(), "trials reported trajectories of different lengths");
}

#[test]
fn test_gen_config_new() {
    let cfg = BarabasiAlbertGenConfig::new(true, AttachementMethod::Random);
    assert!(cfg.growth);
    assert!(matches!(cfg.attachement_method, AttachementMethod::Random));
    let cfg2 = BarabasiAlbertGenConfig::new(false, AttachementMethod::Preferential);
    assert!(!cfg2.growth);
}
