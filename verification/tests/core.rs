use graph_components::bfs::BFS;
use graph_components::components::ConnectedComponents;
use graph_components::graph::{Edge, Graph};

#[test]
fn empty_graph_has_zero_components() {
    let g = Graph::new();
    assert_eq!(g.get_number_of_nodes(), 0);
    let mut c = ConnectedComponents::new();
    assert_eq!(c.count_connected_components(&g), 0);
}

#[test]
fn single_isolated_node() {
    let mut g = Graph::new();
    g.add_node();
    assert_eq!(g.get_number_of_nodes(), 1);
    let mut c = ConnectedComponents::new();
    assert_eq!(c.count_connected_components(&g), 1);
    // counting launched a run from node 0; its state stays inspectable
    assert_eq!(c.bfs.depth(0), Some(0));
    assert_eq!(c.bfs.parent(0), Some(0));
}

#[test]
fn two_isolated_nodes() {
    let mut g = Graph::new();
    g.add_node();
    g.add_node();
    let mut c = ConnectedComponents::new();
    assert_eq!(c.count_connected_components(&g), 2);
}

#[test]
fn chain_bfs_distances_and_parents() {
    // 0 -> 1 -> 2 -> 3
    let mut g = Graph::new();
    for _ in 0..4 {
        g.add_node();
    }
    g.add_edge(0, 1, 0);
    g.add_edge(1, 2, 0);
    g.add_edge(2, 3, 0);
    let mut b = BFS::new();
    b.sssp(&g, 0);
    assert_eq!(b.connected_nodes().clone(), vec![0, 1, 2, 3]);
    assert_eq!(b.depth(0), Some(0));
    assert_eq!(b.depth(1), Some(1));
    assert_eq!(b.depth(2), Some(2));
    assert_eq!(b.depth(3), Some(3));
    assert_eq!(b.parent(0), Some(0));
    assert_eq!(b.parent(1), Some(0));
    assert_eq!(b.parent(2), Some(1));
    assert_eq!(b.parent(3), Some(2));
    let mut c = ConnectedComponents::new();
    assert_eq!(c.count_connected_components(&g), 1);
}

#[test]
fn reverse_chain_per_run_reached_sets() {
    // 0 <- 1 <- 2 <- 3: edges 1->0, 2->1, 3->2
    let mut g = Graph::new();
    for _ in 0..4 {
        g.add_node();
    }
    g.add_edge(1, 0, 0);
    g.add_edge(2, 1, 0);
    g.add_edge(3, 2, 0);
    // node 0 has no outgoing edges, so a run from it reaches only itself
    let mut b = BFS::new();
    b.sssp(&g, 0);
    assert_eq!(b.connected_nodes().clone(), vec![0]);
    // a run from node 1 reaches 1 and then 0 along the edge 1 -> 0
    b.sssp(&g, 1);
    assert_eq!(b.connected_nodes().clone(), vec![1, 0]);
    assert_eq!(b.depth(0), Some(1));
    assert_eq!(b.parent(0), Some(1));
    // index-order forward-reachability counting launches a run from every
    // node here, although the chain is a single weak component
    let mut c = ConnectedComponents::new();
    assert_eq!(c.count_connected_components(&g), 4);
}

#[test]
fn bidirectional_edge_links_both_ways() {
    let mut g = Graph::new();
    g.add_node();
    g.add_node();
    g.add_bidirectional_edge(0, 1, 7);
    assert_eq!(g.get_all_neighbours(0), vec![1]);
    assert_eq!(g.get_all_neighbours(1), vec![0]);
    let mut c = ConnectedComponents::new();
    assert_eq!(c.count_connected_components(&g), 1);
}

#[test]
fn parallel_edges_min_weight() {
    let mut g = Graph::new();
    g.add_node();
    g.add_node();
    g.add_edge(0, 1, 5);
    g.add_edge(0, 1, 3);
    assert_eq!(g.get_shortest_weight_between_neighbours(0, 1), Some(3));
    assert_eq!(g.get_all_neighbours(0), vec![1, 1]);
}

#[test]
fn missing_edge_weight_is_none() {
    let mut g = Graph::new();
    g.add_node();
    g.add_node();
    assert_eq!(g.get_shortest_weight_between_neighbours(0, 1), None);
    g.add_edge(0, 1, 9);
    assert_eq!(g.get_shortest_weight_between_neighbours(0, 1), Some(9));
    assert_eq!(g.get_shortest_weight_between_neighbours(1, 0), None);
}

#[test]
fn recount_is_idempotent() {
    let mut g = Graph::new();
    for _ in 0..5 {
        g.add_node();
    }
    g.add_edge(0, 1, 0);
    g.add_edge(3, 4, 0);
    let mut c = ConnectedComponents::new();
    let first = c.count_connected_components(&g);
    let second = c.count_connected_components(&g);
    assert_eq!(first, second);
    let mut fresh = ConnectedComponents::new();
    assert_eq!(fresh.count_connected_components(&g), first);
    // classes: {0,1}, {2}, {3,4}
    assert_eq!(first, 3);
}

#[test]
fn queries_before_any_run_return_none() {
    let b = BFS::new();
    assert_eq!(b.depth(0), None);
    assert_eq!(b.parent(0), None);
    assert!(b.connected_nodes().is_empty());
}

#[test]
fn edge_stores_target_and_weight() {
    let e = Edge::new(2, -7);
    assert_eq!(e.to, 2);
    assert_eq!(e.weight, -7);
}

#[test]
fn node_without_edges_has_no_neighbours() {
    let mut g = Graph::new();
    g.add_node();
    assert!(g.get_all_neighbours(0).is_empty());
}

#[test]
fn diamond_first_discoverer_wins() {
    // 0 -> 1, 0 -> 2, 1 -> 3, 2 -> 3: node 3 has two possible parents and
    // keeps the first discoverer in breadth-first order, node 1
    let mut g = Graph::new();
    for _ in 0..4 {
        g.add_node();
    }
    g.add_edge(0, 1, 0);
    g.add_edge(0, 2, 0);
    g.add_edge(1, 3, 0);
    g.add_edge(2, 3, 0);
    let mut b = BFS::new();
    b.sssp(&g, 0);
    assert_eq!(b.connected_nodes().clone(), vec![0, 1, 2, 3]);
    assert_eq!(b.depth(3), Some(2));
    assert_eq!(b.parent(3), Some(1));
    assert_eq!(b.depth(2), Some(1));
}

#[test]
fn bidirectional_edge_on_one_node_gives_two_loops() {
    let mut g = Graph::new();
    g.add_node();
    g.add_bidirectional_edge(0, 0, 4);
    assert_eq!(g.get_all_neighbours(0), vec![0, 0]);
    assert_eq!(g.get_shortest_weight_between_neighbours(0, 0), Some(4));
}

#[test]
fn self_loop_is_one_component() {
    let mut g = Graph::new();
    g.add_node();
    g.add_edge(0, 0, 1);
    let mut c = ConnectedComponents::new();
    assert_eq!(c.count_connected_components(&g), 1);
    assert_eq!(c.bfs.depth(0), Some(0));
    assert_eq!(g.get_shortest_weight_between_neighbours(0, 0), Some(1));
}
