use langviz_core::cluster;
use langviz_core::cluster::UnionFind;

fn w(x: f64) -> u64 {
    (x * 1_000_000.0) as u64
}

#[test]
fn cluster_test_union_find() {
    let mut uf = UnionFind::new(5);
    uf.union(0, 1);
    uf.union(2, 3);
    uf.union(1, 2);

    assert_eq!(uf.find(0), uf.find(3));
    assert_ne!(uf.find(0), uf.find(4));
}

#[test]
fn integration_test_test_union_find() {
    let mut uf = UnionFind::new(5);
    uf.union(0, 1);
    uf.union(2, 3);

    assert_eq!(uf.find(0), uf.find(1));
    assert_ne!(uf.find(0), uf.find(2));

    uf.union(1, 2);
    assert_eq!(uf.find(0), uf.find(3));
}

#[test]
fn cluster_test_threshold_clustering() {
    let similarities = vec![(0, 1, w(0.9)), (1, 2, w(0.85)), (3, 4, w(0.95))];

    let clusters = cluster::threshold_clustering(similarities, 5, w(0.8));
    assert_eq!(clusters.len(), 2);
}

#[test]
fn integration_test_test_threshold_clustering() {
    let similarities = vec![(0, 1, w(0.9)), (1, 2, w(0.85)), (3, 4, w(0.95))];

    let clusters = cluster::threshold_clustering(similarities, 5, w(0.8));

    assert_eq!(clusters.len(), 2);
}

#[test]
fn test_clustering_sizes_sum_to_n() {
    let similarities = vec![(0, 1, w(0.9)), (1, 2, w(0.85)), (3, 4, w(0.95))];
    let clusters = cluster::threshold_clustering(similarities, 6, w(0.8));
    let total: usize = clusters.iter().map(|c| c.len()).sum();
    assert_eq!(total, 6);
}

#[test]
fn test_clustering_with_ids() {
    let similarities = vec![
        ("a".to_string(), "b".to_string(), w(0.9)),
        ("b".to_string(), "c".to_string(), w(0.85)),
    ];

    let clusters = cluster::threshold_clustering_with_ids(similarities, w(0.8));
    assert!(!clusters.is_empty());
    assert!(clusters[0].len() >= 2);
}

#[test]
fn test_clustering_with_ids_distinct_count() {
    let similarities = vec![
        ("a".to_string(), "b".to_string(), w(0.9)),
        ("b".to_string(), "c".to_string(), w(0.85)),
        ("d".to_string(), "e".to_string(), w(0.2)),
    ];
    let clusters = cluster::threshold_clustering_with_ids(similarities, w(0.8));
    let total: usize = clusters.iter().map(|c| c.len()).sum();
    assert_eq!(total, 5);
}

#[test]
fn test_silhouette_two_tight_clusters() {
    let sims = vec![(0, 1, w(0.9)), (2, 3, w(0.9)), (0, 2, w(0.1)), (0, 3, w(0.1)), (1, 2, w(0.1)), (1, 3, w(0.1))];
    let clusters = vec![vec![0, 1], vec![2, 3]];
    let s = cluster::silhouette_score(&sims, &clusters);
    // intra distance 0.1, inter distance 0.9: score 1 - 0.1/0.9 per point
    assert!(s > 800_000 && s <= 1_000_000);
}

#[test]
fn test_silhouette_empty() {
    let sims: Vec<(usize, usize, u64)> = Vec::new();
    let clusters: Vec<Vec<usize>> = Vec::new();
    assert_eq!(cluster::silhouette_score(&sims, &clusters), 0);
}

#[test]
fn test_variance_identical_similarities() {
    let sims = vec![(0, 1, w(0.5)), (0, 2, w(0.5)), (1, 2, w(0.5))];
    let clusters = vec![vec![0, 1, 2]];
    assert_eq!(cluster::within_cluster_variance(&sims, &clusters), 0);
}

#[test]
fn test_variance_spread() {
    let sims = vec![(0, 1, w(1.0)), (0, 2, w(0.0)), (1, 2, w(0.5))];
    let clusters = vec![vec![0, 1, 2]];
    let v = cluster::within_cluster_variance(&sims, &clusters);
    // mean 0.5, squared deviations 0.25, 0.25, 0 over three pairs
    assert!(v > 150_000 && v < 170_000);
}

#[test]
fn test_clustering_matches_cognate_sets() {
    // the union-find clusters and the graph components agree as partitions
    let sims = vec![
        ("a".to_string(), "b".to_string(), w(0.9)),
        ("b".to_string(), "c".to_string(), w(0.85)),
        ("d".to_string(), "e".to_string(), w(0.95)),
    ];
    let clusters = cluster::threshold_clustering_with_ids(sims.clone(), w(0.8));
    let edges: Vec<langviz_core::types::SimilarityEdge> = sims
        .into_iter()
        .map(|(s, t, wt)| langviz_core::types::SimilarityEdge::new(s, t, wt))
        .collect();
    let sets = langviz_core::graph::CognateGraph::from_edges(edges, w(0.8)).find_cognate_sets();

    let mut p1: Vec<Vec<String>> = clusters
        .into_iter()
        .map(|mut c| {
            c.sort();
            c
        })
        .collect();
    p1.sort();
    let mut p2: Vec<Vec<String>> = sets
        .into_iter()
        .map(|s| {
            let mut m = s.members;
            m.sort();
            m
        })
        .collect();
    p2.sort();
    assert_eq!(p1, p2);
}
