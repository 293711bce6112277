use rand::rngs::StdRng;
use rand::{Rng, SeedableRng};
use std::collections::HashSet;
use venom_db::index::hnsw::distance::DistanceMetric;
use venom_db::index::hnsw::{select_neighbors, HnswConfig, HnswGraph, HnswNode};

type Vector = Vec<f64>;

fn distance(metric: DistanceMetric, a: &[f64], b: &[f64]) -> f64 {
    assert_eq!(a.len(), b.len(), "vector dimension mismatch");
    let dot: f64 = a.iter().zip(b).map(|(x, y)| x * y).sum();
    match metric {
        DistanceMetric::Euclidean => {
            a.iter().zip(b).map(|(x, y)| (x - y) * (x - y)).sum::<f64>().sqrt()
        }
        DistanceMetric::Cosine => {
            let size = |v: &[f64]| v.iter().map(|x| x * x).sum::<f64>().sqrt();
            if size(a) == 0.0 || size(b) == 0.0 {
                return 1.0;
            }
            1.0 - dot / (size(a) * size(b))
        }
        DistanceMetric::DotProduct => -dot,
    }
}

/// A number that orders distances as they are ordered.
fn key(d: f64) -> u64 {
    let bits = (d + 0.0).to_bits();
    if bits >> 63 == 0 {
        bits | 1 << 63
    } else {
        !bits
    }
}

fn metric_of(m: DistanceMetric) -> impl Fn(&Vector, &Vector) -> u64 {
    move |a, b| key(distance(m, a, b))
}

fn random_level(config: &HnswConfig) -> usize {
    let ml = 1.0 / (config.m as f64).ln();
    let r: f64 = rand::thread_rng().gen();
    (-r.ln() * ml).floor() as usize
}

fn insert(graph: &mut HnswGraph<Vector>, id: u32, v: Vector, m: DistanceMetric) {
    let level = random_level(&graph.config);
    graph.insert(id, v, level, &metric_of(m));
}

fn make_node(id: u32, coords: Vec<f64>, layer0_neighbors: Vec<u32>) -> HnswNode<Vector> {
    HnswNode { id, vector: coords, layers: vec![layer0_neighbors] }
}

#[test]
fn test_config_default_params() {
    let config = HnswConfig::default();
    assert_eq!(config.m, 16);
    assert_eq!(config.m_max, 32);
    assert_eq!(config.ef_construction, 200);
    assert_eq!(config.ef_search, 50);
}

#[test]
fn test_graph_new_is_empty() {
    let config = HnswConfig::default();
    let graph: HnswGraph<Vector> = HnswGraph::new(128, config);
    assert!(graph.is_empty());
    assert_eq!(graph.len(), 0);
    assert!(graph.entry_point.is_none());
    assert_eq!(graph.dims, 128);
}

#[test]
fn test_graph_get_nonexistent_node() {
    let config = HnswConfig::default();
    let graph: HnswGraph<Vector> = HnswGraph::new(3, config);
    assert!(graph.get_node(999).is_none());
}

#[test]
fn test_search_layer_single_node() {
    let config = HnswConfig::new(4, 16, 10);
    let mut graph = HnswGraph::new(2, config);
    graph.nodes.push(make_node(0, vec![1.0, 1.0], vec![]));
    let query = vec![0.0, 0.0];
    let metric = metric_of(DistanceMetric::Euclidean);
    let results = graph.search_layer(&query, &[0], 10, 0, &metric);
    assert_eq!(results.len(), 1);
    assert_eq!(results[0].0, 0);
}

#[test]
fn test_search_layer_ordering() {
    let config = HnswConfig::new(4, 16, 10);
    let mut graph = HnswGraph::new(2, config);
    graph.nodes.push(make_node(0, vec![10.0, 10.0], vec![1, 2]));
    graph.nodes.push(make_node(1, vec![1.0, 1.0], vec![0, 2]));
    graph.nodes.push(make_node(2, vec![5.0, 5.0], vec![0, 1]));
    let query = vec![0.0, 0.0];
    let metric = metric_of(DistanceMetric::Euclidean);
    let results = graph.search_layer(&query, &[0], 10, 0, &metric);
    assert_eq!(results.len(), 3);
    assert_eq!(results[0].0, 1);
    assert_eq!(results[1].0, 2);
    assert_eq!(results[2].0, 0);
}

#[test]
fn test_search_layer_ef_limits_results() {
    let config = HnswConfig::new(4, 16, 10);
    let mut graph = HnswGraph::new(2, config);
    graph.nodes.push(make_node(0, vec![0.0, 0.0], vec![1, 2, 3, 4]));
    graph.nodes.push(make_node(1, vec![1.0, 0.0], vec![0]));
    graph.nodes.push(make_node(2, vec![2.0, 0.0], vec![0]));
    graph.nodes.push(make_node(3, vec![3.0, 0.0], vec![0]));
    graph.nodes.push(make_node(4, vec![4.0, 0.0], vec![0]));
    let query = vec![0.5, 0.0];
    let metric = metric_of(DistanceMetric::Euclidean);
    let results = graph.search_layer(&query, &[0], 1, 0, &metric);
    assert_eq!(results.len(), 1);
    let results3 = graph.search_layer(&query, &[0], 3, 0, &metric);
    assert_eq!(results3.len(), 3);
}

#[test]
fn test_search_layer_unreachable_nodes() {
    let config = HnswConfig::new(4, 16, 10);
    let mut graph = HnswGraph::new(2, config);
    graph.nodes.push(make_node(0, vec![10.0, 10.0], vec![1]));
    graph.nodes.push(make_node(1, vec![9.0, 9.0], vec![0]));
    graph.nodes.push(make_node(2, vec![0.0, 0.0], vec![]));
    let query = vec![0.0, 0.0];
    let metric = metric_of(DistanceMetric::Euclidean);
    let results = graph.search_layer(&query, &[0], 10, 0, &metric);
    let ids: Vec<u32> = results.iter().map(|(id, _)| *id).collect();
    assert!(!ids.contains(&2));
}

#[test]
fn test_select_neighbors_returns_closest_m() {
    let candidates = vec![(0, key(1.0)), (1, key(2.0)), (2, key(3.0)), (3, key(4.0)), (4, key(5.0))];
    let selected = select_neighbors(&candidates, 3);
    assert_eq!(selected.len(), 3);
    assert_eq!(selected, vec![0, 1, 2]);
}

#[test]
fn test_select_neighbors_fewer_than_m() {
    let candidates = vec![(0, key(1.0)), (1, key(2.0))];
    let selected = select_neighbors(&candidates, 5);
    assert_eq!(selected.len(), 2);
    assert_eq!(selected, vec![0, 1]);
}

#[test]
fn test_search_layer_multilayer() {
    let config = HnswConfig::new(4, 16, 10);
    let mut graph = HnswGraph::new(2, config);
    graph.nodes.push(HnswNode {
        id: 0,
        vector: vec![0.0, 0.0],
        layers: vec![vec![1, 2], vec![1]],
    });
    graph.nodes.push(HnswNode {
        id: 1,
        vector: vec![3.0, 0.0],
        layers: vec![vec![0, 2], vec![0]],
    });
    graph.nodes.push(HnswNode {
        id: 2,
        vector: vec![1.0, 0.0],
        layers: vec![vec![0, 1]],
    });
    let query = vec![0.5, 0.0];
    let metric = metric_of(DistanceMetric::Euclidean);
    let layer1_results = graph.search_layer(&query, &[0], 10, 1, &metric);
    let layer1_ids: Vec<u32> = layer1_results.iter().map(|(id, _)| *id).collect();
    assert!(layer1_ids.contains(&0));
    assert!(layer1_ids.contains(&1));
    assert!(!layer1_ids.contains(&2));
}

#[test]
fn test_insert_first_sets_entry_point() {
    let config = HnswConfig::new(4, 16, 10);
    let mut graph = HnswGraph::new(2, config);
    insert(&mut graph, 0, vec![1.0, 2.0], DistanceMetric::Euclidean);
    assert_eq!(graph.len(), 1);
    assert!(graph.entry_point.is_some());
    assert!(graph.get_node(0).is_some());
}

#[test]
fn test_insert_10_all_retrievable() {
    let config = HnswConfig::new(4, 16, 10);
    let mut graph = HnswGraph::new(2, config);
    for i in 0..10 {
        insert(&mut graph, i, vec![i as f64, 0.0], DistanceMetric::Euclidean);
    }
    assert_eq!(graph.len(), 10);
    for i in 0..10 {
        assert!(graph.get_node(i).is_some());
    }
}

#[test]
fn test_insert_neighbor_lists_bounded() {
    let config = HnswConfig::new(4, 16, 10);
    let mut graph = HnswGraph::new(3, config);
    for i in 0..50 {
        insert(&mut graph, i, vec![i as f64, 0.0, 0.0], DistanceMetric::Euclidean);
    }
    for node in &graph.nodes {
        for (layer_idx, neighbors) in node.layers.iter().enumerate() {
            let limit = if layer_idx == 0 { graph.config.m_max } else { graph.config.m };
            assert!(
                neighbors.len() <= limit,
                "node {} layer {} has {} neighbors, limit {}",
                node.id, layer_idx, neighbors.len(), limit
            );
        }
    }
}

#[test]
fn test_insert_bidirectional() {
    let config = HnswConfig::new(4, 16, 10);
    let mut graph = HnswGraph::new(2, config);
    for i in 0..20 {
        insert(&mut graph, i, vec![i as f64, 0.0], DistanceMetric::Euclidean);
    }
    for node in &graph.nodes {
        for (layer_idx, neighbors) in node.layers.iter().enumerate() {
            for &neighbor_id in neighbors {
                let neighbor = graph.get_node(neighbor_id).unwrap();
                assert!(
                    layer_idx < neighbor.layers.len() && neighbor.layers[layer_idx].contains(&node.id),
                    "node {} -> {} on layer {} but not reverse",
                    node.id, neighbor_id, layer_idx
                );
            }
        }
    }
}

#[test]
fn test_insert_max_layer_monotonic() {
    let config = HnswConfig::new(4, 16, 10);
    let mut graph = HnswGraph::new(2, config);
    let mut prev_max = 0;
    for i in 0..100 {
        insert(&mut graph, i, vec![i as f64, 0.0], DistanceMetric::Euclidean);
        assert!(graph.max_layer >= prev_max);
        prev_max = graph.max_layer;
    }
}

#[test]
fn test_insert_100_has_multiple_layers() {
    let config = HnswConfig::default();
    let mut graph = HnswGraph::new(2, config);
    for i in 0..100 {
        insert(&mut graph, i, vec![i as f64, 0.0], DistanceMetric::Euclidean);
    }
    assert!(graph.max_layer >= 1, "100 inserts with M=16 should produce max_layer >= 1");
}

#[test]
fn test_search_empty_graph() {
    let config = HnswConfig::default();
    let graph: HnswGraph<Vector> = HnswGraph::new(2, config);
    let metric = metric_of(DistanceMetric::Euclidean);
    let results = graph.search(&vec![1.0, 2.0], 5, &metric);
    assert!(results.is_empty());
}

#[test]
fn test_search_k1_closest() {
    let config = HnswConfig::new(4, 50, 50);
    let mut graph = HnswGraph::new(2, config);
    let points = vec![
        vec![0.0, 0.0],
        vec![10.0, 10.0],
        vec![1.0, 0.0],
        vec![20.0, 20.0],
        vec![0.5, 0.5],
    ];
    for (i, p) in points.iter().enumerate() {
        insert(&mut graph, i as u32, p.clone(), DistanceMetric::Euclidean);
    }
    let query = vec![0.0, 0.0];
    let results = graph.search(&query, 1, &metric_of(DistanceMetric::Euclidean));
    assert_eq!(results.len(), 1);
    assert_eq!(results[0].0, 0);
    assert_eq!(results[0].1, key(0.0));
}

#[test]
fn test_search_k_larger_than_graph() {
    let config = HnswConfig::new(4, 50, 50);
    let mut graph = HnswGraph::new(2, config);
    for i in 0..3 {
        insert(&mut graph, i, vec![i as f64, 0.0], DistanceMetric::Euclidean);
    }
    let results = graph.search(&vec![0.0, 0.0], 100, &metric_of(DistanceMetric::Euclidean));
    assert_eq!(results.len(), 3);
}

#[test]
fn test_search_ordering() {
    let config = HnswConfig::new(4, 50, 50);
    let mut graph = HnswGraph::new(2, config);
    insert(&mut graph, 0, vec![10.0, 0.0], DistanceMetric::Euclidean);
    insert(&mut graph, 1, vec![1.0, 0.0], DistanceMetric::Euclidean);
    insert(&mut graph, 2, vec![5.0, 0.0], DistanceMetric::Euclidean);
    let results = graph.search(&vec![0.0, 0.0], 3, &metric_of(DistanceMetric::Euclidean));
    assert_eq!(results[0].0, 1);
    assert_eq!(results[1].0, 2);
    assert_eq!(results[2].0, 0);
}

#[test]
fn test_search_single_node() {
    let config = HnswConfig::new(4, 50, 50);
    let mut graph = HnswGraph::new(2, config);
    insert(&mut graph, 42, vec![99.0, 99.0], DistanceMetric::Euclidean);
    let metric = metric_of(DistanceMetric::Euclidean);
    let r1 = graph.search(&vec![0.0, 0.0], 1, &metric);
    assert_eq!(r1.len(), 1);
    assert_eq!(r1[0].0, 42);
    let r2 = graph.search(&vec![1000.0, 1000.0], 1, &metric);
    assert_eq!(r2[0].0, 42);
}

fn recall(
    metric: DistanceMetric,
    dims: usize,
    n: usize,
    k: usize,
    mut build_rng: StdRng,
    query_rng: Option<StdRng>,
) -> f64 {
    let mut vectors: Vec<Vector> = Vec::new();
    let mut graph = HnswGraph::new(dims, HnswConfig::default());
    for i in 0..n {
        let data: Vector = (0..dims).map(|_| build_rng.gen::<f64>()).collect();
        vectors.push(data.clone());
        insert(&mut graph, i as u32, data, metric);
    }
    let mut query_rng = query_rng.unwrap_or(build_rng);
    let mut total_recall = 0.0;
    for _ in 0..10 {
        let query: Vector = (0..dims).map(|_| query_rng.gen::<f64>()).collect();
        let mut bf: Vec<(u32, f64)> = vectors
            .iter()
            .enumerate()
            .map(|(i, v)| (i as u32, distance(metric, &query, v)))
            .collect();
        bf.sort_by(|a, b| a.1.partial_cmp(&b.1).unwrap());
        let truth: HashSet<u32> = bf.iter().take(k).map(|(id, _)| *id).collect();
        let found: HashSet<u32> = graph
            .search(&query, k, &metric_of(metric))
            .iter()
            .map(|(id, _)| *id)
            .collect();
        total_recall += truth.intersection(&found).count() as f64 / k as f64;
    }
    total_recall / 10.0
}

#[test]
fn test_recall_500_nodes() {
    let rng = StdRng::seed_from_u64(12345);
    let avg_recall = recall(DistanceMetric::Euclidean, 16, 500, 10, rng, None);
    assert!(avg_recall >= 0.90, "recall {:.2}% is below 90% threshold", avg_recall * 100.0);
}

#[test]
fn test_recall_euclidean() {
    let build_rng = StdRng::seed_from_u64(42);
    let query_rng = StdRng::seed_from_u64(99);
    let avg = recall(DistanceMetric::Euclidean, 32, 500, 10, build_rng, Some(query_rng));
    assert!(avg >= 0.90, "euclidean recall {:.1}% < 90%", avg * 100.0);
}

#[test]
fn test_recall_high_dim() {
    let build_rng = StdRng::seed_from_u64(42);
    let query_rng = StdRng::seed_from_u64(99);
    let avg = recall(DistanceMetric::Cosine, 128, 300, 10, build_rng, Some(query_rng));
    assert!(avg >= 0.85, "high-dim cosine recall {:.1}% < 85%", avg * 100.0);
}

#[test]
fn test_recall_small_dataset() {
    let build_rng = StdRng::seed_from_u64(42);
    let query_rng = StdRng::seed_from_u64(99);
    let avg = recall(DistanceMetric::Euclidean, 8, 50, 5, build_rng, Some(query_rng));
    assert!((avg - 1.0).abs() < 1e-10, "small dataset recall {:.1}% != 100%", avg * 100.0);
}

#[test]
fn test_default_is_cosine() {
    let d = DistanceMetric::default();
    let result = distance(d, &[1.0, 0.0], &[0.0, 1.0]);
    assert!((result - 1.0).abs() < 1e-10);
    assert_eq!(d, DistanceMetric::Cosine);
}

#[test]
fn pruning_keeps_the_nearest_and_drops_both_directions() {
    // One neighbour per node and layer, two on the lowest.
    let metric = |a: &i64, b: &i64| (a - b).unsigned_abs();
    let mut graph = HnswGraph::new(1, HnswConfig::new(1, 16, 10));
    graph.insert(0, 0i64, 0, &metric);
    graph.insert(1, 10i64, 0, &metric);
    graph.insert(2, 20i64, 0, &metric);
    assert_eq!(graph.get_node(0).unwrap().layers, vec![vec![1, 2]]);
    // The nearest two to 11 are 1 and 2; each keeps its two nearest.
    graph.insert(3, 11i64, 0, &metric);
    assert_eq!(graph.get_node(3).unwrap().layers, vec![vec![1, 2]]);
    assert_eq!(graph.get_node(1).unwrap().layers, vec![vec![3, 0]]);
    assert_eq!(graph.get_node(2).unwrap().layers, vec![vec![0, 3]]);
    assert_eq!(graph.get_node(0).unwrap().layers, vec![vec![1, 2]]);
    assert_eq!(graph.search(&12, 2, &metric), vec![(3, 1), (1, 2)]);
}

#[test]
fn a_node_with_more_layers_becomes_the_entry_point() {
    let metric = |a: &i64, b: &i64| (a - b).unsigned_abs();
    let mut graph = HnswGraph::new(1, HnswConfig::new(4, 16, 10));
    graph.insert(7, 0i64, 0, &metric);
    assert_eq!((graph.entry_point, graph.max_layer), (Some(7), 0));
    graph.insert(8, 5i64, 2, &metric);
    assert_eq!((graph.entry_point, graph.max_layer), (Some(8), 2));
    graph.insert(9, 6i64, 1, &metric);
    assert_eq!((graph.entry_point, graph.max_layer), (Some(8), 2));
    assert_eq!(graph.get_node(9).unwrap().layers, vec![vec![8, 7], vec![8]]);
    assert_eq!(graph.get_node(8).unwrap().layers, vec![vec![7, 9], vec![9], vec![]]);
}

#[test]
fn a_search_that_may_find_all_reachable_nodes_finds_them() {
    let metric = |a: &i64, b: &i64| (a - b).unsigned_abs();
    let mut graph = HnswGraph::new(1, HnswConfig::new(4, 16, 10));
    let links: [(u32, i64, Vec<u32>); 5] = [
        (0, 0, vec![1, 77]),
        (1, 100, vec![2]),
        (2, 5, vec![3, 0]),
        (3, 900, vec![]),
        (4, 1, vec![0]),
    ];
    for (id, vector, list) in links {
        graph.nodes.push(HnswNode { id, vector, layers: vec![list] });
    }
    let hits = graph.search_layer(&0, &[0], 4, 0, &metric);
    assert_eq!(hits, vec![(0, 0), (2, 5), (1, 100), (3, 900)]);
    let hits = graph.search_layer(&0, &[0, 4], 5, 0, &metric);
    assert_eq!(hits, vec![(0, 0), (4, 1), (2, 5), (1, 100), (3, 900)]);
}
