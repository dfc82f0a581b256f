use graph_components::components::ConnectedComponents;
use graph_components::graph::Graph;
use rand::Rng;

/// A randomly generated graph with many uniformly random out-edges per node
/// almost always collapses into very few forward-reachability classes; this
/// is a statistical smoke test, not an exact equality.
#[test]
fn random_dense_graph_has_few_components() {
    let node_count: usize = 300;
    let edges_per_node: usize = 8;
    let mut rng = rand::rng();
    let mut g = Graph::new();
    for _ in 0..node_count {
        g.add_node();
    }
    for _ in 0..node_count {
        for _ in 0..edges_per_node {
            g.add_edge(
                rng.random_range(0..node_count),
                rng.random_range(0..node_count),
                0,
            );
        }
    }
    let mut c = ConnectedComponents::new();
    let count = c.count_connected_components(&g);
    assert!(count >= 1);
    assert!(count <= 15, "unexpectedly many components: {count}");
}

/// Re-running the counter on the same random graph gives the same figure.
#[test]
fn random_graph_recount_matches() {
    let node_count: usize = 120;
    let mut rng = rand::rng();
    let mut g = Graph::new();
    for _ in 0..node_count {
        g.add_node();
    }
    for _ in 0..node_count {
        g.add_edge(rng.random_range(0..node_count), rng.random_range(0..node_count), 0);
    }
    let mut c = ConnectedComponents::new();
    let first = c.count_connected_components(&g);
    let second = c.count_connected_components(&g);
    assert_eq!(first, second);
}
