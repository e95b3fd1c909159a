use rand::rngs::StdRng;
use rand::Rng;
use rand::SeedableRng;
use redisxann::error::Error;
use redisxann::index::Index;
use redisxann::metrics::MetricFuncs;

fn level_mult(m: usize) -> u64 {
    (1.0f64 / (m as f64).ln()).to_bits()
}

fn point_name(i: usize) -> String {
    format!("pt{}", i)
}

fn random_points(seed: u64, count: usize, dim: usize) -> Vec<Vec<i32>> {
    let mut rng = StdRng::seed_from_u64(seed);
    let mut out = Vec::new();
    for _ in 0..count {
        let mut v = Vec::new();
        for _ in 0..dim {
            let x: f32 = rng.gen();
            v.push((x * 1_000_000.0) as i32);
        }
        out.push(v);
    }
    out
}

fn filled(seed: u64, points: &Vec<Vec<i32>>, dim: usize, m: usize, ef: usize) -> Index {
    let mut idx = Index::new("i", MetricFuncs::Euclidean, dim, m, ef, level_mult(m), seed).unwrap();
    for (i, p) in points.iter().enumerate() {
        idx.add_node(&point_name(i), p).unwrap();
    }
    idx
}

fn check_invariants(idx: &Index, names: &Vec<String>) {
    assert!(idx.validate().is_ok());
    assert_eq!(idx.node_count(), names.len());
    let mut top = 0;
    for name in names {
        let lists = idx.neighbors(name).unwrap();
        let level = idx.top_layer(name).unwrap();
        assert_eq!(lists.len(), level + 1);
        assert!(level <= idx.max_layer());
        if level > top {
            top = level;
        }
        for (l, list) in lists.iter().enumerate() {
            let cap = if l == 0 { idx.m_max_0() } else { idx.m_max() };
            assert!(list.len() <= cap);
            for other in list {
                assert!(other != name);
                assert!(idx.contains(other));
                let back = idx.neighbors(other).unwrap();
                assert!(back.len() > l);
                assert!(back[l].contains(name));
            }
            let mut sorted = list.clone();
            sorted.sort();
            sorted.dedup();
            assert_eq!(sorted.len(), list.len());
        }
    }
    match idx.enterpoint() {
        Some(e) => {
            assert_eq!(idx.top_layer(&e), Some(idx.max_layer()));
            assert_eq!(top, idx.max_layer());
        }
        None => {
            assert_eq!(idx.node_count(), 0);
            assert_eq!(idx.max_layer(), 0);
        }
    }
}

#[test]
fn invariants_hold_after_every_insert() {
    let points = random_points(3, 120, 3);
    let mut idx = Index::new("i", MetricFuncs::Euclidean, 3, 3, 8, level_mult(3), 11).unwrap();
    let mut names = Vec::new();
    check_invariants(&idx, &names);
    for (i, p) in points.iter().enumerate() {
        let touched = idx.add_node(&point_name(i), p).unwrap();
        assert_eq!(touched.last().unwrap(), &point_name(i));
        let mut once = touched.clone();
        once.sort();
        once.dedup();
        assert_eq!(once.len(), touched.len());
        names.push(point_name(i));
        check_invariants(&idx, &names);
    }
    assert!(idx.max_layer() >= 1);
}

#[test]
fn invariants_hold_after_every_delete() {
    let points = random_points(5, 80, 2);
    let mut idx = filled(9, &points, 2, 4, 10);
    let mut names: Vec<String> = (0..80).map(point_name).collect();
    let mut rng = StdRng::seed_from_u64(1);
    while !names.is_empty() {
        let at = rng.gen_range(0..names.len());
        let name = names.remove(at);
        let before = idx.neighbors(&name).unwrap();
        let touched = idx.delete_node(&name).unwrap();
        for layer in &before {
            for other in layer {
                assert!(touched.contains(other));
            }
        }
        assert!(!idx.contains(&name));
        check_invariants(&idx, &names);
    }
    assert_eq!(idx.enterpoint(), None);
}

#[test]
fn touched_nodes_cover_every_change() {
    let points = random_points(8, 60, 2);
    let mut idx = Index::new("i", MetricFuncs::Euclidean, 2, 2, 6, level_mult(2), 4).unwrap();
    for (i, p) in points.iter().enumerate() {
        let mut before = Vec::new();
        for j in 0..i {
            before.push(idx.neighbors(&point_name(j)).unwrap());
        }
        let touched = idx.add_node(&point_name(i), p).unwrap();
        for j in 0..i {
            let after = idx.neighbors(&point_name(j)).unwrap();
            if after != before[j] {
                assert!(touched.contains(&point_name(j)));
            }
        }
    }
}

#[test]
fn first_node_is_the_entry_point_on_layer_zero() {
    let mut idx = Index::new("i", MetricFuncs::Euclidean, 2, 4, 10, level_mult(4), 1).unwrap();
    assert_eq!(idx.enterpoint(), None);
    let touched = idx.insert_at_level("only", &vec![1, 2], 9).unwrap();
    assert_eq!(touched, vec!["only".to_string()]);
    assert_eq!(idx.enterpoint(), Some("only".to_string()));
    assert_eq!(idx.max_layer(), 0);
    assert_eq!(idx.top_layer("only"), Some(0));
    assert_eq!(idx.neighbors("only").unwrap(), vec![Vec::<String>::new()]);
}

#[test]
fn a_higher_node_becomes_the_entry_point() {
    let mut idx = Index::new("i", MetricFuncs::Euclidean, 2, 4, 10, level_mult(4), 1).unwrap();
    idx.insert_at_level("low", &vec![0, 0], 0).unwrap();
    idx.insert_at_level("high", &vec![10, 0], 3).unwrap();
    assert_eq!(idx.enterpoint(), Some("high".to_string()));
    assert_eq!(idx.max_layer(), 3);
    assert_eq!(idx.top_layer("high"), Some(3));
    let lists = idx.neighbors("high").unwrap();
    assert_eq!(lists.len(), 4);
    assert_eq!(lists[0], vec!["low".to_string()]);
    assert!(lists[1].is_empty() && lists[2].is_empty() && lists[3].is_empty());
    idx.insert_at_level("mid", &vec![5, 0], 1).unwrap();
    assert_eq!(idx.enterpoint(), Some("high".to_string()));
    assert_eq!(idx.neighbors("mid").unwrap()[1], vec!["high".to_string()]);
    assert_eq!(idx.insert_at_level("far", &vec![1, 1], 65), Err(Error::BadArgument));
}

#[test]
fn heuristic_keeps_diverse_neighbours() {
    let mut idx = Index::new("i", MetricFuncs::Euclidean, 2, 2, 10, level_mult(2), 1).unwrap();
    idx.insert_at_level("east", &vec![10, 0], 0).unwrap();
    idx.insert_at_level("east2", &vec![11, 0], 0).unwrap();
    idx.insert_at_level("west", &vec![-10, 0], 0).unwrap();
    idx.insert_at_level("origin", &vec![0, 0], 0).unwrap();
    let lists = idx.neighbors("origin").unwrap();
    assert_eq!(lists[0], vec!["east".to_string(), "west".to_string()]);
}

#[test]
fn full_neighbour_is_pruned_back_to_its_cap() {
    let mut idx = Index::new("i", MetricFuncs::Euclidean, 1, 1, 10, level_mult(1), 1).unwrap();
    assert_eq!(idx.m_max_0(), 2);
    idx.add_node("c", &vec![0]).unwrap();
    idx.add_node("l", &vec![-10]).unwrap();
    idx.add_node("r", &vec![10]).unwrap();
    assert_eq!(idx.neighbors("c").unwrap()[0].len(), 2);
    idx.add_node("n", &vec![1]).unwrap();
    let c = idx.neighbors("c").unwrap();
    assert_eq!(c[0].len(), 2);
    assert!(c[0].contains(&"n".to_string()));
    assert!(c[0].contains(&"l".to_string()));
    assert_eq!(idx.neighbors("r").unwrap()[0], Vec::<String>::new());
    assert!(idx.validate().is_ok());
}

#[test]
fn deleting_the_entry_point_picks_the_highest_node() {
    let mut idx = Index::new("i", MetricFuncs::Euclidean, 1, 4, 10, level_mult(4), 1).unwrap();
    idx.insert_at_level("a", &vec![0], 0).unwrap();
    idx.insert_at_level("b", &vec![1], 2).unwrap();
    idx.insert_at_level("c", &vec![2], 1).unwrap();
    idx.insert_at_level("d", &vec![3], 1).unwrap();
    assert_eq!(idx.enterpoint(), Some("b".to_string()));
    idx.delete_node("b").unwrap();
    assert_eq!(idx.enterpoint(), Some("c".to_string()));
    assert_eq!(idx.max_layer(), 1);
    idx.delete_node("c").unwrap();
    idx.delete_node("d").unwrap();
    assert_eq!(idx.enterpoint(), Some("a".to_string()));
    assert_eq!(idx.max_layer(), 0);
    idx.delete_node("a").unwrap();
    assert_eq!(idx.enterpoint(), None);
    assert_eq!(idx.node_count(), 0);
}

#[test]
fn a_held_node_cannot_be_deleted() {
    let mut idx = Index::new("i", MetricFuncs::Euclidean, 1, 4, 10, level_mult(4), 1).unwrap();
    idx.add_node("a", &vec![0]).unwrap();
    idx.add_node("b", &vec![1]).unwrap();
    assert_eq!(idx.pin("nobody"), Err(Error::NotFound));
    assert_eq!(idx.pin("a"), Ok(()));
    assert_eq!(idx.pin("a"), Ok(()));
    assert_eq!(idx.delete_node("a"), Err(Error::InUse));
    assert!(idx.contains("a"));
    assert_eq!(idx.unpin("a"), Ok(()));
    assert_eq!(idx.delete_node("a"), Err(Error::InUse));
    assert_eq!(idx.unpin("a"), Ok(()));
    assert_eq!(idx.unpin("a"), Ok(()));
    assert_eq!(idx.delete_node("a"), Ok(vec!["b".to_string()]));
    assert_eq!(idx.unpin("a"), Err(Error::NotFound));
}

#[test]
fn a_taken_name_already_exists() {
    let mut idx = Index::new("i", MetricFuncs::Euclidean, 2, 4, 10, level_mult(4), 1).unwrap();
    idx.add_node("a", &vec![0, 0]).unwrap();
    assert_eq!(idx.add_node("a", &vec![1, 1]), Err(Error::AlreadyExists));
    assert_eq!(idx.add_node("a", &vec![1]), Err(Error::BadArgument));
    assert_eq!(idx.vector("a"), Some(vec![0, 0]));
    assert_eq!(idx.node_count(), 1);
}

#[test]
fn delete_then_add_keeps_the_other_names() {
    let points = random_points(21, 30, 2);
    let mut idx = filled(2, &points, 2, 4, 10);
    idx.delete_node("pt7").unwrap();
    assert!(!idx.contains("pt7"));
    idx.add_node("pt7", &vec![5, 5]).unwrap();
    assert_eq!(idx.node_count(), 30);
    for i in 0..30 {
        assert!(idx.contains(&point_name(i)));
        if i != 7 {
            assert_eq!(idx.vector(&point_name(i)).unwrap(), points[i]);
        }
    }
    assert_eq!(idx.vector("pt7"), Some(vec![5, 5]));
    assert!(idx.validate().is_ok());
}

#[test]
fn limits_of_the_machine_are_bad_arguments() {
    let too_wide = 0xFFFF_FFFFusize + 1;
    assert!(Index::new("i", MetricFuncs::Euclidean, too_wide, 4, 10, 0, 1).is_err());
    assert!(Index::new("i", MetricFuncs::Euclidean, 3, usize::MAX, 10, 0, 1).is_err());
    let idx = Index::new("i", MetricFuncs::InnerProduct, 3, 5, 10, 77, 1).unwrap();
    assert_eq!(idx.name(), "i");
    assert_eq!(idx.mfunc_kind(), MetricFuncs::InnerProduct);
    assert_eq!(idx.data_dim(), 3);
    assert_eq!(idx.m(), 5);
    assert_eq!(idx.m_max(), 5);
    assert_eq!(idx.m_max_0(), 10);
    assert_eq!(idx.ef_construction(), 10);
    assert_eq!(idx.level_mult(), 77);
    assert_eq!(idx.find("x"), None);
}
