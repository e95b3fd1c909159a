use rand::rngs::StdRng;
use rand::Rng;
use rand::SeedableRng;
use redisxann::error::Error;
use redisxann::index::Index;
use redisxann::kann::SearchResult;
use redisxann::metrics::similarity;
use redisxann::metrics::MetricFuncs;

fn mult(m: usize) -> u64 {
    (1.0f64 / (m as f64).ln()).to_bits()
}

fn unit_points(seed: u64, count: usize) -> Vec<Vec<i32>> {
    let mut rng = StdRng::seed_from_u64(seed);
    let mut out = Vec::new();
    for _ in 0..count {
        let x: f32 = rng.gen();
        let y: f32 = rng.gen();
        out.push(vec![(x * 1_000_000.0) as i32, (y * 1_000_000.0) as i32]);
    }
    out
}

fn build(points: &Vec<Vec<i32>>, seed: u64) -> Index {
    let mut idx = Index::new("i", MetricFuncs::Euclidean, 2, 4, 10, mult(4), seed).unwrap();
    for (i, p) in points.iter().enumerate() {
        idx.add_node(&format!("n{}", i), p).unwrap();
    }
    idx
}

#[test]
fn same_seed_gives_the_same_answer() {
    let points = unit_points(42, 1000);
    let first = build(&points, 42);
    let second = build(&points, 42);
    let q = vec![500_000, 500_000];
    let a = first.search_kann(&q, 10).unwrap();
    let b = second.search_kann(&q, 10).unwrap();
    assert_eq!(a.len(), 10);
    assert_eq!(a, b);
    for i in 0..9 {
        assert!(a[i].sim >= a[i + 1].sim);
    }
}

#[test]
fn search_is_repeatable_and_leaves_the_index_alone() {
    let points = unit_points(7, 200);
    let idx = build(&points, 3);
    let q = vec![250_000, 750_000];
    let a = idx.search_kann(&q, 5).unwrap();
    let b = idx.search_kann(&q, 5).unwrap();
    assert_eq!(a, b);
    assert_eq!(idx.node_count(), 200);
}

#[test]
fn hits_carry_their_true_similarity() {
    let points = unit_points(9, 150);
    let idx = build(&points, 5);
    let q = vec![100_000, 900_000];
    let hits = idx.search_kann(&q, 20).unwrap();
    assert_eq!(hits.len(), 20);
    let mut names = Vec::new();
    for h in &hits {
        let v = idx.vector(&h.name).unwrap();
        assert_eq!(h.sim, similarity(MetricFuncs::Euclidean, &q, &v));
        assert!(!names.contains(&h.name));
        names.push(h.name.clone());
    }
}

#[test]
fn recall_is_high_on_a_small_set() {
    let points = unit_points(13, 300);
    let idx = build(&points, 8);
    let q = vec![400_000, 400_000];
    let hits = idx.search_kann(&q, 10).unwrap();
    let mut exact: Vec<(i128, usize)> = points
        .iter()
        .enumerate()
        .map(|(i, p)| (similarity(MetricFuncs::Euclidean, &q, p), i))
        .collect();
    exact.sort_by(|a, b| b.0.cmp(&a.0).then(a.1.cmp(&b.1)));
    assert_eq!(hits[0].name, format!("n{}", exact[0].1));
    let mut found = 0;
    for h in &hits {
        if exact[..10].iter().any(|e| format!("n{}", e.1) == h.name) {
            found += 1;
        }
    }
    assert!(found >= 8);
}

#[test]
fn saturated_search_finds_every_node() {
    let mut idx = Index::new("i", MetricFuncs::Euclidean, 1, 16, 64, mult(16), 2).unwrap();
    for i in 0..40 {
        idx.add_node(&format!("n{}", i), &vec![i * 10]).unwrap();
    }
    let hits = idx.search_kann(&vec![123], 40).unwrap();
    assert_eq!(hits.len(), 40);
    let more = idx.search_kann(&vec![123], 100).unwrap();
    assert_eq!(more.len(), 40);
    assert_eq!(more[0].name, "n12");
    assert_eq!(more[0].sim, -9);
    assert_eq!(more[39].name, "n39");
}

#[test]
fn ties_go_to_the_node_that_came_first() {
    let mut idx = Index::new("i", MetricFuncs::Euclidean, 1, 8, 20, mult(8), 2).unwrap();
    idx.add_node("left", &vec![-5]).unwrap();
    idx.add_node("right", &vec![5]).unwrap();
    let hits = idx.search_kann(&vec![0], 2).unwrap();
    assert_eq!(
        hits,
        vec![
            SearchResult { sim: -25, name: "left".to_string() },
            SearchResult { sim: -25, name: "right".to_string() },
        ]
    );
}

#[test]
fn zero_hits_can_be_asked_for() {
    let mut idx = Index::new("i", MetricFuncs::Euclidean, 1, 8, 0, mult(8), 2).unwrap();
    idx.add_node("a", &vec![1]).unwrap();
    idx.add_node("b", &vec![2]).unwrap();
    assert_eq!(idx.search_kann(&vec![0], 0).unwrap().len(), 0);
    let one = idx.search_kann(&vec![0], 1).unwrap();
    assert_eq!(one.len(), 1);
    assert_eq!(one[0].name, "a");
}

#[test]
fn query_of_the_wrong_dimension_is_refused() {
    let mut idx = Index::new("i", MetricFuncs::Euclidean, 2, 8, 20, mult(8), 2).unwrap();
    assert_eq!(idx.search_kann(&vec![0], 1), Err(Error::BadArgument));
    idx.add_node("a", &vec![1, 1]).unwrap();
    assert_eq!(idx.search_kann(&vec![0, 0, 0], 1), Err(Error::BadArgument));
}

#[test]
fn inner_product_ranks_by_the_product() {
    let mut idx = Index::new("i", MetricFuncs::InnerProduct, 2, 8, 20, mult(8), 2).unwrap();
    idx.add_node("x", &vec![10, 0]).unwrap();
    idx.add_node("y", &vec![0, 10]).unwrap();
    idx.add_node("xy", &vec![7, 7]).unwrap();
    let hits = idx.search_kann(&vec![1, 2], 3).unwrap();
    assert_eq!(hits[0], SearchResult { sim: 21, name: "xy".to_string() });
    assert_eq!(hits[1], SearchResult { sim: 20, name: "y".to_string() });
    assert_eq!(hits[2], SearchResult { sim: 10, name: "x".to_string() });
}
