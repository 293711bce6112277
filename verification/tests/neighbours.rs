use venom_db::index::hnsw::distance::DistanceMetric;
use venom_db::index::hnsw::{select_neighbors, HnswConfig, HnswGraph};

fn metric(a: &i64, b: &i64) -> u64 {
    a.abs_diff(*b)
}

fn graph(count: u32) -> HnswGraph<i64> {
    let mut g = HnswGraph::new(1, HnswConfig::new(2, 8, 4));
    for id in 0..count {
        let vector = (id as i64 * 37) % 101;
        let level = if id % 7 == 0 { 2 } else { (id % 2) as usize };
        g.insert(id, vector, level, &metric);
    }
    g
}

#[test]
fn links_go_both_ways_and_are_bounded() {
    let g = graph(60);
    assert_eq!(g.len(), 60);
    for node in &g.nodes {
        for (layer, list) in node.layers.iter().enumerate() {
            assert!(list.len() <= if layer == 0 { 4 } else { 2 });
            for (i, &other) in list.iter().enumerate() {
                assert_ne!(other, node.id);
                assert!(!list[..i].contains(&other));
                assert!(g.get_node(other).unwrap().layers[layer].contains(&node.id));
            }
        }
    }
    assert_eq!(g.max_layer, 2);
    assert_eq!(g.get_node(g.entry_point.unwrap()).unwrap().layers.len(), 3);
}

#[test]
fn hits_are_nodes_in_order_of_distance() {
    let g = graph(60);
    for query in [0, 33, 100, 500] {
        let hits = g.search(&query, 5, &metric);
        assert!(!hits.is_empty() && hits.len() <= 5);
        for (i, &(id, d)) in hits.iter().enumerate() {
            assert_eq!(d, metric(&query, &g.get_node(id).unwrap().vector));
            assert!(hits[..i].iter().all(|&(o, e)| o != id && e <= d));
        }
    }
    assert!(g.search(&0, 0, &metric).is_empty());
}

#[test]
fn the_nearest_are_selected() {
    assert_eq!(select_neighbors(&[(4, 1), (2, 5), (9, 7)], 2), [4, 2]);
    assert_eq!(select_neighbors(&[], 2), Vec::<u32>::new());
    assert!(matches!(DistanceMetric::default(), DistanceMetric::Cosine));
}

#[test]
fn a_small_graph_has_its_links() {
    let mut g = HnswGraph::new(1, HnswConfig::new(2, 8, 4));
    for (id, v) in [(0, 10), (1, 20), (2, 30)] {
        g.insert(id, v, 0, &metric);
    }
    assert_eq!(g.get_node(0).unwrap().layers, [vec![1, 2]]);
    assert_eq!(g.get_node(1).unwrap().layers, [vec![0, 2]]);
    assert_eq!(g.get_node(2).unwrap().layers, [vec![1, 0]]);
    assert_eq!(g.search(&29, 3, &metric), [(2, 1), (1, 9), (0, 19)]);
}
