use team_graph::builder::{build_graph, GraphError};
use team_graph::closeness::compute_closeness_centrality;
use team_graph::closeness::closeness_of;
use team_graph::densest::densest_subgraph;
use team_graph::graph::SimGraph;

fn names(list: &[&str]) -> Vec<String> {
    list.iter().map(|s| s.to_string()).collect()
}

/// A table linking exactly the given pairs, both ways round.
fn table(n: usize, pairs: &[(usize, usize)]) -> Vec<Vec<bool>> {
    let mut t = vec![vec![false; n]; n];
    for &(a, b) in pairs {
        t[a][b] = true;
        t[b][a] = true;
    }
    t
}

fn score(reached: usize, total: u128) -> f64 {
    if total > 0 {
        (reached as f64 - 1.0) / total as f64
    } else {
        0.0
    }
}

// A=[1,0], B=[0,1], C=[1,0] at threshold 0.5: only A and C are similar enough.
#[test]
fn test_test_graph_building_node_count() {
    let g = build_graph(names(&["A", "B", "C"]), &vec![2, 2, 2], &table(3, &[(0, 2)])).unwrap();
    assert_eq!(g.node_count(), 3);
}

#[test]
fn tests_test_graph_building_node_count() {
    let g = build_graph(names(&["A", "B", "C"]), &vec![2, 2, 2], &table(3, &[(0, 2)])).unwrap();
    assert_eq!(g.node_count(), 3);
}

// A=[1,0], B=[1,0] at threshold 0.9: similarity 1.0 links them.
#[test]
fn test_test_graph_edge_creation() {
    let g = build_graph(names(&["A", "B"]), &vec![2, 2], &table(2, &[(0, 1)])).unwrap();
    assert_eq!(g.edge_count(), 1);
}

#[test]
fn tests_test_graph_edge_creation() {
    let g = build_graph(names(&["A", "B"]), &vec![2, 2], &table(2, &[(0, 1)])).unwrap();
    assert_eq!(g.edge_count(), 1);
}

// A=[1,0], B=[1,0], C=[0,1] at threshold 0.5.
#[test]
fn three_entities_one_pair() {
    let g = build_graph(names(&["A", "B", "C"]), &vec![2, 2, 2], &table(3, &[(0, 1)])).unwrap();
    assert_eq!(g.node_count(), 3);
    assert_eq!(g.edge_count(), 1);
    assert_eq!(g.edges, vec![(0, 1)]);
    let c = compute_closeness_centrality(&g);
    assert_eq!(score(c[0].reached, c[0].total_distance), 1.0);
    assert_eq!(score(c[1].reached, c[1].total_distance), 1.0);
    assert_eq!(score(c[2].reached, c[2].total_distance), 0.0);
    let d = densest_subgraph(&g);
    assert_eq!(d.members, vec![true, true, false]);
    assert_eq!(d.node_count, 2);
    assert_eq!(d.edge_count, 1);
    assert_eq!(d.edge_count as f64 / d.node_count as f64, 0.5);
}

#[test]
fn two_identical_entities() {
    let g = build_graph(names(&["A", "B"]), &vec![2, 2], &table(2, &[(0, 1)])).unwrap();
    assert_eq!(g.node_count(), 2);
    assert_eq!(g.edge_count(), 1);
    assert_eq!(g.edges, vec![(0, 1)]);
}

#[test]
fn single_entity() {
    let g = build_graph(names(&["A"]), &vec![2], &table(1, &[])).unwrap();
    assert_eq!(g.node_count(), 1);
    assert_eq!(g.edge_count(), 0);
    let d = densest_subgraph(&g);
    assert_eq!(d.members, vec![true]);
    assert_eq!(d.node_count, 1);
    assert_eq!(d.edge_count, 0);
    let c = compute_closeness_centrality(&g);
    assert_eq!(c.len(), 1);
    assert_eq!(c[0].reached, 1);
    assert_eq!(c[0].total_distance, 0);
}

#[test]
fn empty_graph() {
    let g = build_graph(Vec::new(), &Vec::new(), &Vec::new()).unwrap();
    assert_eq!(g.node_count(), 0);
    assert_eq!(g.edge_count(), 0);
    let d = densest_subgraph(&g);
    assert!(d.members.is_empty());
    assert_eq!(d.node_count, 0);
    assert_eq!(d.edge_count, 0);
    assert!(compute_closeness_centrality(&g).is_empty());
}

#[test]
fn mismatched_feature_lengths() {
    let r = build_graph(names(&["A", "B", "C"]), &vec![3, 3, 2], &table(3, &[]));
    assert_eq!(
        r.err(),
        Some(GraphError::FeatureLengthMismatch { index: 2, expected: 3, found: 2 })
    );
}

#[test]
fn edges_listed_row_by_row() {
    let g = build_graph(
        names(&["A", "B", "C", "D"]),
        &vec![1, 1, 1, 1],
        &table(4, &[(2, 3), (0, 3), (1, 2), (0, 1)]),
    )
    .unwrap();
    assert_eq!(g.edges, vec![(0, 1), (0, 3), (1, 2), (2, 3)]);
}

#[test]
fn complete_graph_edge_count_and_closeness() {
    let n = 5;
    let mut pairs = Vec::new();
    for i in 0..n {
        for j in i + 1..n {
            pairs.push((i, j));
        }
    }
    let g = build_graph(names(&["A", "B", "C", "D", "E"]), &vec![4; 5], &table(n, &pairs)).unwrap();
    assert_eq!(g.edge_count(), n * (n - 1) / 2);
    for c in compute_closeness_centrality(&g) {
        assert_eq!(c.reached, 5);
        assert_eq!(c.total_distance, 4);
        assert_eq!(score(c.reached, c.total_distance), 1.0);
    }
    let d = densest_subgraph(&g);
    assert_eq!(d.node_count, 5);
    assert_eq!(d.edge_count, 10);
}

#[test]
fn fewer_links_no_more_edges() {
    let names5 = names(&["A", "B", "C", "D", "E"]);
    let low = build_graph(names5.clone(), &vec![1; 5], &table(5, &[(0, 1), (1, 2), (3, 4), (0, 4)])).unwrap();
    let high = build_graph(names5, &vec![1; 5], &table(5, &[(0, 1), (3, 4)])).unwrap();
    assert!(high.edge_count() <= low.edge_count());
    assert_eq!(high.edge_count(), 2);
    assert_eq!(low.edge_count(), 4);
}

#[test]
fn path_distances() {
    // A - B - C - D, and E alone.
    let g = build_graph(
        names(&["A", "B", "C", "D", "E"]),
        &vec![1; 5],
        &table(5, &[(0, 1), (1, 2), (2, 3)]),
    )
    .unwrap();
    let a = closeness_of(&g, 0);
    assert_eq!(a.reached, 4);
    assert_eq!(a.total_distance, 6);
    let b = closeness_of(&g, 1);
    assert_eq!(b.reached, 4);
    assert_eq!(b.total_distance, 4);
    let e = closeness_of(&g, 4);
    assert_eq!(e.reached, 1);
    assert_eq!(e.total_distance, 0);
    assert_eq!(score(b.reached, b.total_distance), 0.75);
}

#[test]
fn distances_are_shortest_paths() {
    // A cycle of six: the far side is three hops away either way round.
    let g = build_graph(
        names(&["A", "B", "C", "D", "E", "F"]),
        &vec![1; 6],
        &table(6, &[(0, 1), (1, 2), (2, 3), (3, 4), (4, 5), (0, 5)]),
    )
    .unwrap();
    let c = closeness_of(&g, 0);
    assert_eq!(c.reached, 6);
    assert_eq!(c.total_distance, 1 + 1 + 2 + 2 + 3);
}

#[test]
fn densest_peels_pendant_nodes() {
    // A triangle A, B, C with D hanging off C and E alone. Without E the
    // density is 4 / 4; the triangle alone only ties it, so the larger set stays.
    let g = build_graph(
        names(&["A", "B", "C", "D", "E"]),
        &vec![1; 5],
        &table(5, &[(0, 1), (0, 2), (1, 2), (2, 3)]),
    )
    .unwrap();
    let d = densest_subgraph(&g);
    assert_eq!(d.members, vec![true, true, true, true, false]);
    assert_eq!(d.node_count, 4);
    assert_eq!(d.edge_count, 4);
    assert!(d.edge_count * g.node_count() >= g.edge_count() * d.node_count);
}

#[test]
fn densest_of_edgeless_graph_is_whole_graph() {
    let g = build_graph(names(&["A", "B", "C"]), &vec![1; 3], &table(3, &[])).unwrap();
    let d = densest_subgraph(&g);
    assert_eq!(d.members, vec![true, true, true]);
    assert_eq!(d.edge_count, 0);
    assert_eq!(d.node_count, 3);
}

#[test]
fn node_lookup_by_label() {
    let g = SimGraph { labels: names(&["A", "B", "A"]), edges: Vec::new() };
    assert_eq!(g.node_index(&"A".to_string()), Some(2));
    assert_eq!(g.node_index(&"B".to_string()), Some(1));
    assert_eq!(g.node_index(&"Z".to_string()), None);
}
