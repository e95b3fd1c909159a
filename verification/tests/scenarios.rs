use redisxann::error::Error;
use redisxann::index::Index;
use redisxann::metrics::MetricFuncs;

fn level_mult(m: usize) -> u64 {
    (1.0f64 / (m as f64).ln()).to_bits()
}

fn small_index() -> Index {
    let mut idx = Index::new("i", MetricFuncs::Euclidean, 3, 8, 20, level_mult(8), 7).unwrap();
    idx.add_node("a", &vec![1000, 0, 0]).unwrap();
    idx.add_node("b", &vec![0, 1000, 0]).unwrap();
    idx.add_node("c", &vec![0, 0, 1000]).unwrap();
    idx
}

#[test]
fn three_points_nearest_two() {
    let idx = small_index();
    let hits = idx.search_kann(&vec![900, 100, 0], 2).unwrap();
    assert_eq!(hits.len(), 2);
    assert_eq!(hits[0].name, "a");
    assert_eq!(hits[1].name, "b");
    assert_eq!(hits[0].sim, -(100 * 100 + 100 * 100));
    assert_eq!(hits[1].sim, -(900 * 900 + 900 * 900));
}

#[test]
fn delete_then_search() {
    let mut idx = small_index();
    let touched = idx.delete_node("a").unwrap();
    assert!(touched.len() <= 2);
    let hits = idx.search_kann(&vec![900, 100, 0], 3).unwrap();
    assert!(hits.len() >= 1 && hits.len() <= 2);
    assert_eq!(hits[0].name, "b");
    assert!(!idx.contains("a"));
    assert_eq!(idx.node_count(), 2);
    assert_eq!(idx.delete_node("a"), Err(Error::NotFound));
}

#[test]
fn wrong_dimension_is_refused() {
    let mut idx = Index::new("i", MetricFuncs::Euclidean, 3, 8, 20, level_mult(8), 7).unwrap();
    assert_eq!(idx.add_node("x", &vec![1, 2]), Err(Error::BadArgument));
    assert_eq!(idx.node_count(), 0);
    assert!(!idx.contains("x"));
}

#[test]
fn empty_index_has_no_hit() {
    let idx = Index::new("i", MetricFuncs::Euclidean, 3, 8, 20, level_mult(8), 7).unwrap();
    let hits = idx.search_kann(&vec![0, 0, 0], 5).unwrap();
    assert!(hits.is_empty());
}
