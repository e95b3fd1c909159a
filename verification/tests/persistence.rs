use rand::rngs::StdRng;
use rand::Rng;
use rand::SeedableRng;
use redisxann::codec::load_index;
use redisxann::codec::load_node;
use redisxann::codec::save_index;
use redisxann::codec::save_node;
use redisxann::error::Error;
use redisxann::fields::Field;
use redisxann::index::Index;
use redisxann::metrics::MetricFuncs;
use redisxann::records::IndexRedis;
use redisxann::records::NodeRedis;
use redisxann::restore::make_index;

fn mult(m: usize) -> u64 {
    (1.0f64 / (m as f64).ln()).to_bits()
}

fn sample_index(count: usize) -> Index {
    let mut rng = StdRng::seed_from_u64(42);
    let mut idx = Index::new("hnsw.i", MetricFuncs::Euclidean, 2, 4, 10, mult(4), 42).unwrap();
    for i in 0..count {
        let x: f32 = rng.gen();
        let y: f32 = rng.gen();
        let v = vec![(x * 1_000_000.0) as i32, (y * 1_000_000.0) as i32];
        idx.add_node(&format!("hnsw.i.n{}", i), &v).unwrap();
    }
    idx
}

fn records_of(idx: &Index, header: &IndexRedis) -> Vec<Option<NodeRedis>> {
    header.nodes.iter().map(|n| NodeRedis::from_node(idx, n)).collect()
}

fn through_the_stream(idx: &Index) -> Index {
    let header = IndexRedis::from_index(idx);
    let header_back = load_index(&save_index(&header), 0).unwrap();
    assert_eq!(header_back, header);
    let mut records = Vec::new();
    for name in &header_back.nodes {
        let record = NodeRedis::from_node(idx, name).unwrap();
        let back = load_node(&save_node(&record), 0).unwrap();
        assert_eq!(back, record);
        records.push(Some(back));
    }
    make_index(&header_back, &records, 1).unwrap()
}

fn same_structure(a: &Index, b: &Index) {
    let ha = IndexRedis::from_index(a);
    let hb = IndexRedis::from_index(b);
    assert_eq!(ha, hb);
    for name in &ha.nodes {
        assert_eq!(NodeRedis::from_node(a, name), NodeRedis::from_node(b, name));
    }
}

#[test]
fn header_lists_every_node_on_each_of_its_layers() {
    let idx = sample_index(200);
    let header = IndexRedis::from_index(&idx);
    assert_eq!(header.nodes.len(), 200);
    assert_eq!(header.node_count, 200);
    assert_eq!(header.layers.len(), idx.max_layer() + 1);
    assert_eq!(header.max_layer, idx.max_layer());
    assert_eq!(header.mfunc_kind, "Euclidean");
    assert_eq!(header.m, 4);
    assert_eq!(header.m_max, 4);
    assert_eq!(header.m_max_0, 8);
    assert_eq!(header.level_mult, mult(4));
    assert_eq!(header.enterpoint, idx.enterpoint());
    for name in &header.nodes {
        let top = idx.top_layer(name).unwrap();
        for (l, layer) in header.layers.iter().enumerate() {
            assert_eq!(layer.contains(name), l <= top);
        }
    }
    assert!(header.layers[header.max_layer].contains(header.enterpoint.as_ref().unwrap()));
}

#[test]
fn header_of_an_empty_index() {
    let idx = Index::new("hnsw.e", MetricFuncs::Cosine, 7, 3, 5, 9, 1).unwrap();
    let header = IndexRedis::from_index(&idx);
    assert_eq!(header.name, "hnsw.e");
    assert_eq!(header.mfunc_kind, "Cosine");
    assert!(header.layers.is_empty());
    assert!(header.nodes.is_empty());
    assert_eq!(header.enterpoint, None);
    let fields = save_index(&header);
    assert_eq!(
        fields,
        vec![
            Field::Str("hnsw.e".to_string()),
            Field::Str("Cosine".to_string()),
            Field::Unsigned(7),
            Field::Unsigned(3),
            Field::Unsigned(3),
            Field::Unsigned(6),
            Field::Unsigned(5),
            Field::Double(9),
            Field::Unsigned(0),
            Field::Unsigned(0),
            Field::Unsigned(0),
            Field::Unsigned(0),
            Field::Str("null".to_string()),
        ]
    );
    let back = make_index(&load_index(&fields, 0).unwrap(), &Vec::new(), 3).unwrap();
    assert_eq!(back.node_count(), 0);
    assert_eq!(back.mfunc_kind(), MetricFuncs::Cosine);
    assert_eq!(back.data_dim(), 7);
}

#[test]
fn fields_of_a_header_come_in_their_order() {
    let header = IndexRedis {
        name: "idx".to_string(),
        mfunc_kind: "Euclidean".to_string(),
        data_dim: 3,
        m: 5,
        m_max: 5,
        m_max_0: 10,
        ef_construction: 12,
        level_mult: 99,
        node_count: 2,
        max_layer: 1,
        layers: vec![vec!["a".to_string(), "b".to_string()], vec!["b".to_string()]],
        nodes: vec!["a".to_string(), "b".to_string()],
        enterpoint: Some("b".to_string()),
    };
    let fields = save_index(&header);
    assert_eq!(
        fields,
        vec![
            Field::Str("idx".to_string()),
            Field::Str("Euclidean".to_string()),
            Field::Unsigned(3),
            Field::Unsigned(5),
            Field::Unsigned(5),
            Field::Unsigned(10),
            Field::Unsigned(12),
            Field::Double(99),
            Field::Unsigned(2),
            Field::Unsigned(1),
            Field::Unsigned(2),
            Field::Unsigned(2),
            Field::Str("a".to_string()),
            Field::Str("b".to_string()),
            Field::Unsigned(1),
            Field::Str("b".to_string()),
            Field::Unsigned(2),
            Field::Str("a".to_string()),
            Field::Str("b".to_string()),
            Field::Str("b".to_string()),
        ]
    );
    assert_eq!(load_index(&fields, 0), Some(header));
    assert_eq!(load_index(&fields, 1), None);
    assert_eq!(load_index(&fields[..19].to_vec(), 0), None);
    let mut wrong = fields.clone();
    wrong[2] = Field::Str("three".to_string());
    assert_eq!(load_index(&wrong, 0), None);
    let mut short = fields.clone();
    short[11] = Field::Unsigned(3);
    assert_eq!(load_index(&short, 0), None);
}

#[test]
fn fields_of_a_node_come_in_their_order() {
    let node = NodeRedis {
        data: vec![7, -8],
        neighbors: vec![vec!["x".to_string(), "y".to_string()], vec![]],
    };
    let fields = save_node(&node);
    assert_eq!(
        fields,
        vec![
            Field::Unsigned(2),
            Field::Float(7),
            Field::Float(-8),
            Field::Unsigned(2),
            Field::Unsigned(2),
            Field::Str("x".to_string()),
            Field::Str("y".to_string()),
            Field::Unsigned(0),
        ]
    );
    assert_eq!(load_node(&fields, 0), Some(node));
    assert_eq!(load_node(&fields, 2), None);
    assert_eq!(load_node(&fields[..7].to_vec(), 0), None);
    let mut wrong = fields.clone();
    wrong[1] = Field::Unsigned(7);
    assert_eq!(load_node(&wrong, 0), None);
    assert_eq!(load_node(&Vec::new(), 0), None);
}

#[test]
fn an_entry_point_named_null_is_lost() {
    let mut idx = Index::new("i", MetricFuncs::Euclidean, 1, 4, 10, 0, 1).unwrap();
    idx.add_node("null", &vec![1]).unwrap();
    let header = IndexRedis::from_index(&idx);
    assert_eq!(header.enterpoint, Some("null".to_string()));
    let back = load_index(&save_index(&header), 0).unwrap();
    assert_eq!(back.enterpoint, None);
}

#[test]
fn saved_index_comes_back_with_the_same_structure() {
    let idx = sample_index(300);
    let back = through_the_stream(&idx);
    same_structure(&idx, &back);
    assert!(back.validate().is_ok());
}

#[test]
fn saved_index_answers_as_before() {
    let idx = sample_index(1000);
    let back = through_the_stream(&idx);
    let q = vec![500_000, 500_000];
    assert_eq!(idx.search_kann(&q, 10).unwrap(), back.search_kann(&q, 10).unwrap());
}

#[test]
fn index_with_deleted_nodes_comes_back() {
    let mut idx = sample_index(60);
    for i in [3, 17, 0, 59, 30] {
        idx.delete_node(&format!("hnsw.i.n{}", i)).unwrap();
    }
    let back = through_the_stream(&idx);
    same_structure(&idx, &back);
    assert_eq!(back.node_count(), 55);
    let q = vec![1, 2];
    assert_eq!(idx.search_kann(&q, 55).unwrap(), back.search_kann(&q, 55).unwrap());
}

#[test]
fn restored_index_takes_new_nodes() {
    let idx = sample_index(20);
    let mut back = through_the_stream(&idx);
    back.add_node("hnsw.i.late", &vec![5, 5]).unwrap();
    assert_eq!(back.node_count(), 21);
    assert_eq!(back.add_node("hnsw.i.n3", &vec![5, 5]), Err(Error::AlreadyExists));
    assert!(back.validate().is_ok());
}

#[test]
fn corrupt_snapshots_are_refused() {
    let idx = sample_index(10);
    let header = IndexRedis::from_index(&idx);
    let records = records_of(&idx, &header);
    assert!(make_index(&header, &records, 1).is_ok());

    let mut missing = records.clone();
    missing[4] = None;
    assert_eq!(make_index(&header, &missing, 1).err(), Some(Error::CorruptSnapshot));

    let mut fewer = records.clone();
    fewer.pop();
    assert_eq!(make_index(&header, &fewer, 1).err(), Some(Error::CorruptSnapshot));

    let mut dangling = records.clone();
    dangling[2].as_mut().unwrap().neighbors[0].push("hnsw.i.ghost".to_string());
    assert_eq!(make_index(&header, &dangling, 1).err(), Some(Error::CorruptSnapshot));

    let mut one_way = records.clone();
    let other = if one_way[0].as_ref().unwrap().neighbors[0].contains(&header.nodes[9]) {
        8
    } else {
        9
    };
    if !one_way[0].as_ref().unwrap().neighbors[0].contains(&header.nodes[other]) {
        one_way[0].as_mut().unwrap().neighbors[0].clear();
        one_way[0].as_mut().unwrap().neighbors[0].push(header.nodes[other].clone());
    }
    let symmetric = records == one_way;
    assert_eq!(make_index(&header, &one_way, 1).is_ok(), symmetric);

    let mut no_entry = header.clone();
    no_entry.enterpoint = Some("hnsw.i.ghost".to_string());
    assert_eq!(make_index(&no_entry, &records, 1).err(), Some(Error::CorruptSnapshot));

    let mut bad_layer = header.clone();
    bad_layer.layers[0].push("hnsw.i.ghost".to_string());
    assert_eq!(make_index(&bad_layer, &records, 1).err(), Some(Error::CorruptSnapshot));

    let mut wrong_count = header.clone();
    wrong_count.node_count = 11;
    assert_eq!(make_index(&wrong_count, &records, 1).err(), Some(Error::CorruptSnapshot));

    let mut wrong_dim = header.clone();
    wrong_dim.data_dim = 3;
    assert_eq!(make_index(&wrong_dim, &records, 1).err(), Some(Error::CorruptSnapshot));

    let mut twice = header.clone();
    twice.nodes[1] = twice.nodes[0].clone();
    assert_eq!(make_index(&twice, &records, 1).err(), Some(Error::CorruptSnapshot));
}

#[test]
fn unknown_metric_tag_restores_as_euclidean() {
    let idx = sample_index(5);
    let mut header = IndexRedis::from_index(&idx);
    header.mfunc_kind = "Manhattan".to_string();
    let records = records_of(&idx, &header);
    let back = make_index(&header, &records, 1).unwrap();
    assert_eq!(back.mfunc_kind(), MetricFuncs::Euclidean);
}

#[test]
fn reopened_index_has_no_empty_slot_and_the_same_nodes() {
    let mut idx = sample_index(50);
    for i in [0, 1, 2, 25, 49] {
        idx.delete_node(&format!("hnsw.i.n{}", i)).unwrap();
    }
    let header = IndexRedis::from_index(&idx);
    let records = idx.node_records();
    assert_eq!(records, records_of(&idx, &header));
    let back = idx.reopen(5);
    same_structure(&idx, &back);
    assert_eq!(back.find("hnsw.i.n3"), Some(0));
    assert_eq!(idx.find("hnsw.i.n3"), Some(3));
    assert!(back.validate().is_ok());
    let q = vec![700_000, 100_000];
    assert_eq!(idx.search_kann(&q, 7).unwrap(), back.search_kann(&q, 7).unwrap());
}
