use barabasi_albert_simulation::graph::SimGraph;
use barabasi_albert_simulation::sampling::StubPool;
use barabasi_albert_simulation::sampling::TargetSelector;
use barabasi_albert_simulation::graph_utils::Complete;
use barabasi_albert_simulation::graph_utils::DegreeSequence;
use barabasi_albert_simulation::vertices_evolution::TrackVertices;
use barabasi_albert_simulation::vertices_evolution::VerticesEvolution;

#[test]
fn test_degree_sequence_empty_graph() {
    let graph = SimGraph::with_nodes(0);
    let degree_seq = graph.degree_sequence();

    assert!(
        degree_seq.is_empty(),
        "Degree sequence of an empty graph should be empty"
    );
}

#[test]
fn test_degree_sequence_single_node() {
    let graph = SimGraph::with_nodes(1);

    let degree_seq = graph.degree_sequence();

    assert_eq!(
        degree_seq,
        vec![0],
        "Single node graph should have a degree sequence of [0]"
    );
}

#[test]
fn test_degree_sequence_fully_connected() {
    let mut graph = SimGraph::with_nodes(5);

    for i in 0..5 {
        for j in (i + 1)..5 {
            assert!(graph.connect(i, j));
        }
    }

    let degree_seq = graph.degree_sequence();
    assert_eq!(
        degree_seq,
        vec![4, 4, 4, 4, 4],
        "Fully connected graph with 5 nodes should have degree sequence [4, 4, 4, 4, 4]"
    );
}

#[test]
fn test_degree_sequence_path_graph() {
    let mut graph = SimGraph::with_nodes(5);

    for i in 0..4 {
        assert!(graph.connect(i, i + 1));
    }

    let degree_seq = graph.degree_sequence();
    assert_eq!(
        degree_seq,
        vec![1, 2, 2, 2, 1],
        "Path graph with 5 nodes should have degree sequence [1, 2, 2, 2, 1]"
    );
}

#[test]
fn test_degree_sequence_star_graph() {
    let mut graph = SimGraph::with_nodes(5);

    for peripheral in 1..5 {
        assert!(graph.connect(0, peripheral));
    }

    let degree_seq = graph.degree_sequence();
    let mut expected = vec![4];
    expected.extend(vec![1; 4]);

    assert_eq!(
        degree_seq, expected,
        "Star graph with 5 nodes should have degree sequence [4, 1, 1, 1, 1]"
    );
}

#[test]
fn test_degree_sequence_with_isolated_nodes() {
    let mut graph = SimGraph::with_nodes(4);

    assert!(graph.connect(2, 3));

    let degree_seq = graph.degree_sequence();
    let expected = vec![0, 0, 1, 1];
    assert_eq!(
        degree_seq, expected,
        "Graph with isolated nodes should include zeros in the degree sequence"
    );
}

#[test]
fn test_degree_sequence_sum_equals_twice_edges() {
    let mut graph = SimGraph::with_nodes(4);

    assert!(graph.connect(0, 1));
    assert!(graph.connect(1, 2));
    assert!(graph.connect(2, 3));
    assert!(graph.connect(3, 0));
    assert!(graph.connect(0, 2));

    let degree_seq = graph.degree_sequence();
    let degree_sum: usize = degree_seq.iter().sum();

    assert_eq!(
        degree_sum,
        2 * graph.edge_count(),
        "Sum of degree sequence should be twice the number of edges"
    );
}

#[test]
fn test_edge_list_reports_connections() {
    let mut graph = SimGraph::with_nodes(3);
    assert!(graph.connect(0, 1));
    assert!(graph.connect(1, 2));

    assert_eq!(graph.edge_list(), vec![(0, 1), (1, 2)]);
    assert!(graph.has_edge(1, 0));
    assert!(graph.has_edge(1, 2));
    assert!(!graph.has_edge(0, 2));
    assert_eq!(graph.degree(1), 2);
}

#[test]
fn test_connect_rejects_self_loops_and_duplicates() {
    let mut graph = SimGraph::with_nodes(3);
    assert!(!graph.connect(1, 1), "a self-loop must be rejected");
    assert!(graph.connect(0, 1));
    assert!(!graph.connect(1, 0), "a duplicate edge must be rejected");
    assert!(!graph.connect(0, 3), "an unknown endpoint must be rejected");
    assert_eq!(graph.edge_count(), 1);
}

#[test]
fn test_is_complete() {
    let mut graph = SimGraph::with_nodes(3);
    assert!(!graph.is_complete());
    assert!(graph.connect(0, 1));
    assert!(graph.connect(0, 2));
    assert!(!graph.is_complete());
    assert!(graph.connect(1, 2));
    assert!(graph.is_complete());

    let empty = SimGraph::with_nodes(0);
    assert!(empty.is_complete());
}

#[test]
fn test_stub_pool_sample_returns_stored_endpoint() {
    let mut pool = StubPool::new();
    pool.push_pair(2, 5);
    pool.push_pair(5, 7);
    assert_eq!(pool.len(), 4);
    let mut rng = rand::thread_rng();
    for _ in 0..20 {
        let stub = pool.sample(&mut rng);
        assert!(stub == 2 || stub == 5 || stub == 7);
    }
}

#[test]
fn test_selector_uniform_exhausted_budget_falls_back() {
    let mut selector = TargetSelector::new(8);
    let mut rng = rand::thread_rng();
    // With no random attempts allowed, the deterministic completion picks
    // the smallest unmarked identifiers in order.
    selector.select_uniform(&mut rng, 3, 5, 0);
    assert_eq!(selector.target_count(), 3);
    assert_eq!(selector.target_at(0), 0);
    assert_eq!(selector.target_at(1), 1);
    assert_eq!(selector.target_at(2), 2);
}

#[test]
fn test_selector_for_source_gives_up_without_valid_targets() {
    let graph = SimGraph::with_nodes(2);
    let mut pool = StubPool::new();
    pool.push_one(0);
    let mut selector = TargetSelector::new(2);
    let mut rng = rand::thread_rng();
    // Every stub resolves to the source itself, so no valid target exists.
    let ok = selector.select_for_source(&pool, &mut rng, 1, 0, &graph, 50);
    assert!(!ok);
    assert_eq!(selector.target_count(), 0);
}

#[test]
fn test_tracker_absent_until_first_observation() {
    let mut graph = SimGraph::with_nodes(3);
    assert!(graph.connect(0, 1));
    let mut tracker = VerticesEvolution::new();
    tracker.track_vertex(7, 1);
    // Registered but never reached within a run: no observation, so absent.
    assert!(tracker.get_arrival_evolution(&7).is_none());
    tracker.update(&graph, 7);
    assert_eq!(tracker.get_arrival_evolution(&7), Some(vec![1]));
    assert!(tracker.get_arrival_evolution(&8).is_none());
}
