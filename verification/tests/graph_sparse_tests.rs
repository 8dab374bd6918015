use langviz_core::graph::CognateGraph;
use langviz_core::sparse;
use langviz_core::sparse::SparseSimilarityMatrix;
use langviz_core::types::SimilarityEdge;

fn w(x: f64) -> u64 {
    (x * 1_000_000.0) as u64
}

#[test]
fn test_graph_construction() {
    let edges = vec![
        SimilarityEdge::new("a".to_string(), "b".to_string(), w(0.9)),
        SimilarityEdge::new("b".to_string(), "c".to_string(), w(0.85)),
    ];

    let graph = CognateGraph::from_edges(edges, w(0.5));
    let stats = graph.stats();

    assert_eq!(stats.num_nodes, 3);
    assert_eq!(stats.num_edges, 2);
}

#[test]
fn test_cognate_sets() {
    let edges = vec![
        SimilarityEdge::new("a".to_string(), "b".to_string(), w(0.9)),
        SimilarityEdge::new("b".to_string(), "c".to_string(), w(0.85)),
        SimilarityEdge::new("d".to_string(), "e".to_string(), w(0.95)),
    ];

    let graph = CognateGraph::from_edges(edges, w(0.8));
    let sets = graph.find_cognate_sets();

    assert_eq!(sets.len(), 2);
}

#[test]
fn test_cognate_sets_partition() {
    let edges = vec![
        SimilarityEdge::new("a".to_string(), "b".to_string(), w(0.9)),
        SimilarityEdge::new("b".to_string(), "c".to_string(), w(0.85)),
        SimilarityEdge::new("d".to_string(), "e".to_string(), w(0.95)),
    ];

    let graph = CognateGraph::from_edges(edges, w(0.8));
    let sets = graph.find_cognate_sets();
    let total: usize = sets.iter().map(|s| s.size).sum();
    assert_eq!(total, 5);
    let mut all: Vec<String> = sets.iter().flat_map(|s| s.members.clone()).collect();
    all.sort();
    assert_eq!(all, vec!["a", "b", "c", "d", "e"]);
}

#[test]
fn test_pagerank() {
    let edges = vec![
        SimilarityEdge::new("a".to_string(), "b".to_string(), w(0.9)),
        SimilarityEdge::new("b".to_string(), "c".to_string(), w(0.85)),
        SimilarityEdge::new("c".to_string(), "a".to_string(), w(0.8)),
    ];

    let graph = CognateGraph::from_edges(edges, w(0.7));
    let ranks = graph.compute_pagerank(w(0.85), 20);

    assert_eq!(ranks.len(), 3);

    let sum: f64 = ranks.iter().map(|(_, r)| *r as f64 / 1e12).sum();
    assert!((sum - 1.0).abs() < 0.01);
}

#[test]
fn test_communities_partition() {
    let edges = vec![
        SimilarityEdge::new("a".to_string(), "b".to_string(), w(0.9)),
        SimilarityEdge::new("b".to_string(), "c".to_string(), w(0.85)),
        SimilarityEdge::new("c".to_string(), "a".to_string(), w(0.8)),
        SimilarityEdge::new("d".to_string(), "e".to_string(), w(0.95)),
    ];
    let graph = CognateGraph::from_edges(edges, w(0.7));
    let communities = graph.detect_communities(1_000_000);
    let total: usize = communities.iter().map(|c| c.len()).sum();
    assert_eq!(total, 5);
}

#[test]
fn test_graph_json_shape() {
    let edges = vec![SimilarityEdge::new("a".to_string(), "b".to_string(), w(0.9))];
    let graph = CognateGraph::from_edges(edges, w(0.5));
    let json = graph.to_json();
    assert!(json.starts_with("{\"nodes\":["));
    assert!(json.contains("\"source\":\"a\""));
    assert!(json.contains("\"weight\":900000"));
    assert!(json.ends_with("]}"));
}

#[test]
fn test_graph_json_escapes() {
    let edges = vec![SimilarityEdge::new("a\"x".to_string(), "b".to_string(), w(0.9))];
    let graph = CognateGraph::from_edges(edges, w(0.5));
    let json = graph.to_json();
    assert!(json.contains("a\\\"x"));
}

#[test]
fn test_shortest_paths_triangle() {
    let edges = vec![
        SimilarityEdge::new("a".to_string(), "b".to_string(), 2),
        SimilarityEdge::new("b".to_string(), "c".to_string(), 3),
    ];
    let graph = CognateGraph::from_edges(edges, 0);
    let paths = graph.shortest_paths("a").unwrap();
    let get = |id: &str| paths.iter().find(|(k, _)| k == id).map(|(_, d)| *d);
    assert_eq!(get("a"), Some(0));
    assert_eq!(get("b"), Some(2));
    assert_eq!(get("c"), Some(5));
    assert!(graph.shortest_paths("zzz").is_none());
}

#[test]
fn test_sparse_matrix_creation() {
    let edges = vec![
        ("a".to_string(), "b".to_string(), w(0.9)),
        ("b".to_string(), "c".to_string(), w(0.8)),
        ("a".to_string(), "c".to_string(), w(0.7)),
    ];

    let matrix = SparseSimilarityMatrix::from_edges(edges, w(0.5));
    assert_eq!(matrix.shape().0, 3);
    assert!(matrix.nnz() > 0);
}

#[test]
fn test_knn() {
    let edges = vec![
        ("a".to_string(), "b".to_string(), w(0.9)),
        ("a".to_string(), "c".to_string(), w(0.7)),
        ("a".to_string(), "d".to_string(), w(0.5)),
    ];

    let matrix = SparseSimilarityMatrix::from_edges(edges, w(0.4));
    let neighbors = matrix.knn("a", 2);
    assert_eq!(neighbors.len(), 2);
    assert_eq!(neighbors[0].0, "b");
}

#[test]
fn test_sparse_knn() {
    let edges = vec![
        ("a".to_string(), "b".to_string(), w(0.9)),
        ("a".to_string(), "c".to_string(), w(0.7)),
        ("a".to_string(), "d".to_string(), w(0.5)),
    ];

    let matrix = SparseSimilarityMatrix::from_edges(edges, w(0.4));
    let neighbors = matrix.knn("a", 2);

    assert_eq!(neighbors.len(), 2);
    assert_eq!(neighbors[0].0, "b");
    assert!((neighbors[0].1 as f64 / 1e6 - 0.9).abs() < 0.01);
    assert_eq!(neighbors[1].0, "c");
    assert!((neighbors[1].1 as f64 / 1e6 - 0.7).abs() < 0.01);
}

#[test]
fn test_sparsity() {
    let edges = vec![("a".to_string(), "b".to_string(), w(0.9))];

    let matrix = SparseSimilarityMatrix::from_edges(edges, w(0.5));
    // two stored off-diagonal entries plus the two diagonal ones fill the
    // whole two-by-two matrix, so exactly none of it is empty
    let s = matrix.sparsity();
    let v = s.num as f64 / s.den as f64;
    assert!(v >= 0.0 && v < 1.0);
    assert_eq!(s.num, 0);
}

#[test]
fn test_sparse_matrix() {
    let edges = vec![
        ("a".to_string(), "b".to_string(), w(0.9)),
        ("b".to_string(), "c".to_string(), w(0.8)),
        ("a".to_string(), "c".to_string(), w(0.7)),
    ];

    let matrix = SparseSimilarityMatrix::from_edges(edges, w(0.5));

    assert_eq!(matrix.shape().0, 3);
    assert!(matrix.nnz() > 0);
    let s = matrix.sparsity();
    assert!((s.num as f64 / s.den as f64) < 1.0);
}

#[test]
fn test_neighbors_above_threshold() {
    let edges = vec![
        ("a".to_string(), "b".to_string(), w(0.9)),
        ("a".to_string(), "c".to_string(), w(0.7)),
        ("a".to_string(), "d".to_string(), w(0.5)),
    ];
    let matrix = SparseSimilarityMatrix::from_edges(edges, w(0.4));
    let nbrs = matrix.neighbors_above_threshold("a", w(0.6));
    assert_eq!(nbrs.len(), 2);
    assert!(nbrs.iter().all(|(_, v)| *v >= w(0.6)));
    assert!(matrix.neighbors_above_threshold("zzz", 0).is_empty());
}

#[test]
fn test_threshold_filter() {
    let edges = vec![
        ("a".to_string(), "b".to_string(), w(0.9)),
        ("b".to_string(), "c".to_string(), w(0.3)),
    ];
    let kept = sparse::threshold_filter(edges, w(0.5));
    assert_eq!(kept.len(), 1);
    assert_eq!(kept[0].0, "a");
}

#[test]
fn test_batch_knn_lengths() {
    let edges = vec![
        ("a".to_string(), "b".to_string(), w(0.9)),
        ("a".to_string(), "c".to_string(), w(0.7)),
    ];
    let matrix = SparseSimilarityMatrix::from_edges(edges, w(0.4));
    let queries = vec!["a".to_string(), "b".to_string(), "zzz".to_string()];
    let answers = sparse::batch_knn(&matrix, &queries, 1);
    assert_eq!(answers.len(), 3);
    assert_eq!(answers[0].len(), 1);
    assert!(answers[2].is_empty());
}

#[test]
fn test_diagonal_is_one() {
    let edges = vec![("a".to_string(), "b".to_string(), w(0.9))];
    let matrix = SparseSimilarityMatrix::from_edges(edges, w(0.5));
    let nbrs = matrix.neighbors_above_threshold("a", 0);
    // the diagonal is skipped by the query, so only "b" is listed
    assert_eq!(nbrs.len(), 1);
    assert_eq!(nbrs[0].0, "b");
    assert_eq!(nbrs[0].1, w(0.9));
}

#[test]
fn test_filter_then_build_same_graph() {
    let edges = vec![
        ("a".to_string(), "b".to_string(), w(0.9)),
        ("b".to_string(), "c".to_string(), w(0.3)),
        ("d".to_string(), "e".to_string(), w(0.95)),
    ];
    let tau = w(0.5);
    let kept = sparse::threshold_filter(edges.clone(), tau);
    let direct = CognateGraph::from_edges(
        edges.into_iter().map(|(s, t, wt)| SimilarityEdge::new(s, t, wt)).collect(),
        tau,
    );
    let filtered = CognateGraph::from_edges(
        kept.into_iter().map(|(s, t, wt)| SimilarityEdge::new(s, t, wt)).collect(),
        0,
    );
    assert_eq!(direct.to_json(), filtered.to_json());
}

#[test]
fn test_union_find_components_cover() {
    let mut uf = langviz_core::cluster::UnionFind::new(4);
    uf.union(0, 3);
    let comps = uf.components();
    let total: usize = comps.iter().map(|c| c.len()).sum();
    assert_eq!(total, 4);
}

#[test]
fn test_to_dense_submatrix() {
    let edges = vec![
        ("a".to_string(), "b".to_string(), w(0.9)),
        ("a".to_string(), "c".to_string(), w(0.7)),
    ];
    let matrix = SparseSimilarityMatrix::from_edges(edges, w(0.4));
    let dense = matrix.to_dense_submatrix(&vec![
        "a".to_string(),
        "c".to_string(),
        "zzz".to_string(),
    ]);
    // the unknown id is skipped
    assert_eq!(dense.len(), 2);
    assert_eq!(dense[0][0], w(1.0));
    assert_eq!(dense[0][1], w(0.7));
    assert_eq!(dense[1][0], w(0.7));
    assert_eq!(dense[1][1], w(1.0));
}

#[test]
fn test_matvec() {
    let edges = vec![("a".to_string(), "b".to_string(), w(0.5))];
    let matrix = SparseSimilarityMatrix::from_edges(edges, 0);
    // rows: a -> [(a,1.0),(b,0.5)], b -> [(a,0.5),(b,1.0)]
    let v = vec![2u64, 4u64];
    let r = matrix.matvec(&v);
    assert_eq!(r.len(), 2);
    assert_eq!(r[0], 2 * w(1.0) + 4 * w(0.5));
    assert_eq!(r[1], 2 * w(0.5) + 4 * w(1.0));
}

#[test]
fn test_sort_ranks_desc() {
    let ranks = vec![
        ("a".to_string(), 10u64),
        ("b".to_string(), 30u64),
        ("c".to_string(), 20u64),
    ];
    let sorted = langviz_core::graph::sort_ranks_desc(ranks);
    assert_eq!(sorted.len(), 3);
    assert_eq!(sorted[0].0, "b");
    assert_eq!(sorted[1].0, "c");
    assert_eq!(sorted[2].0, "a");
}
