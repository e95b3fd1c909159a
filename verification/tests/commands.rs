use redisxann::adapter::IndexOptions;
use redisxann::adapter::IndexOpts;
use redisxann::adapter::MKind;
use redisxann::adapter::MetricKind;
use redisxann::adapter::SKind;
use redisxann::adapter::ScalarKind;
use redisxann::backend::backend_key;
use redisxann::backend::index_file;
use redisxann::backend::module_args;
use redisxann::backend::name_matches;
use redisxann::backend::reserve_target;
use redisxann::backend::reserve_target_checked;
use redisxann::backend::MatchName;
use redisxann::backend::NodeNames;
use redisxann::command::backend_create_args;
use redisxann::command::check_arity;
use redisxann::command::check_backend_create;
use redisxann::command::BackendCreateArgs;
use redisxann::command::check_create;
use redisxann::command::create_args;
use redisxann::command::index_key;
use redisxann::command::node_key;
use redisxann::command::Command;
use redisxann::command::CreateArgs;
use redisxann::error::Error;
use redisxann::kann::SearchResult;
use redisxann::records::IndexRedis;
use redisxann::records::NodeRedis;
use redisxann::reply::search_reply;
use redisxann::reply::Reply;
use redisxann::snapshot::SearchResultRedis;

#[test]
fn each_command_has_its_arity() {
    assert_eq!(check_arity(Command::IndexCreate, 7), Err(Error::WrongArity));
    assert_eq!(check_arity(Command::IndexCreate, 8), Ok(()));
    assert_eq!(check_arity(Command::IndexCreate, 12), Ok(()));
    assert_eq!(check_arity(Command::IndexGet, 2), Ok(()));
    assert_eq!(check_arity(Command::IndexGet, 3), Err(Error::WrongArity));
    assert_eq!(check_arity(Command::IndexDel, 1), Err(Error::WrongArity));
    assert_eq!(check_arity(Command::IndexDel, 2), Ok(()));
    assert_eq!(check_arity(Command::NodeAdd, 3), Err(Error::WrongArity));
    assert_eq!(check_arity(Command::NodeAdd, 4), Ok(()));
    assert_eq!(check_arity(Command::NodeGet, 3), Ok(()));
    assert_eq!(check_arity(Command::NodeGet, 4), Err(Error::WrongArity));
    assert_eq!(check_arity(Command::NodeDel, 3), Ok(()));
    assert_eq!(check_arity(Command::NodeDel, 2), Err(Error::WrongArity));
    assert_eq!(check_arity(Command::SearchKann, 3), Err(Error::WrongArity));
    assert_eq!(check_arity(Command::SearchKann, 5), Ok(()));
}

#[test]
fn keywords_are_read_in_any_case() {
    let want = Ok(CreateArgs { dim: 3, m: 10, ef_construction: 12 });
    assert_eq!(check_create(8, "dim", Some(3), "m", Some(10), "efcon", Some(12)), want);
    assert_eq!(check_create(8, "DIM", Some(3), "M", Some(10), "EfCon", Some(12)), want);
    assert_eq!(
        check_create(7, "dim", Some(3), "m", Some(10), "efcon", Some(12)),
        Err(Error::WrongArity)
    );
    assert_eq!(
        check_create(8, "dims", Some(3), "m", Some(10), "efcon", Some(12)),
        Err(Error::WrongArity)
    );
    assert_eq!(
        check_create(8, "dim", Some(3), "n", Some(10), "efcon", Some(12)),
        Err(Error::WrongArity)
    );
    assert_eq!(
        check_create(8, "dim", Some(3), "m", Some(10), "ef", Some(12)),
        Err(Error::WrongArity)
    );
}

#[test]
fn words_are_read_from_the_left() {
    assert_eq!(
        create_args("dim", None, "x", Some(1), "efcon", Some(1)),
        Err(Error::BadArgument)
    );
    assert_eq!(
        create_args("x", None, "m", Some(1), "efcon", Some(1)),
        Err(Error::WrongArity)
    );
    assert_eq!(
        create_args("dim", Some(1), "m", None, "x", Some(1)),
        Err(Error::BadArgument)
    );
    assert_eq!(
        create_args("dim", Some(1), "m", Some(1), "efcon", None),
        Err(Error::BadArgument)
    );
    assert_eq!(
        create_args("DIM", Some(1), "m", Some(1), "efcon", Some(1)),
        Err(Error::WrongArity)
    );
}

#[test]
fn keys_are_made_of_prefix_index_and_node() {
    assert_eq!(index_key("idx0"), "hnsw.idx0");
    assert_eq!(node_key("hnsw.idx0", "n1"), "hnsw.idx0.n1");
    assert_eq!(node_key(&index_key(""), ""), "hnsw..");
    assert_eq!(backend_key("test_idx0"), "usearch.test_idx0");
    assert_eq!(index_file("/tmp/dir", "usearch.test_idx0"), "/tmp/dir/usearch.test_idx0.idx");
}

#[test]
fn errors_have_their_messages() {
    assert_eq!(Error::WrongArity.error_string(), "wrong number of arguments");
    assert_eq!(Error::BadArgument.error_string(), "bad argument");
    assert_eq!(Error::AlreadyExists.error_string(), "already exists");
    assert_eq!(Error::NotFound.error_string(), "does not exist");
    assert_eq!(
        Error::InUse.error_string(),
        "is being accessed, unable to delete. Try again later"
    );
    assert_eq!(Error::InvariantViolation.error_string(), "graph invariant violated");
    assert_eq!(Error::CorruptSnapshot.error_string(), "corrupt snapshot");
}

#[test]
fn index_description_lists_labels_and_values() {
    let header = IndexRedis {
        name: "hnsw.i".to_string(),
        mfunc_kind: "Euclidean".to_string(),
        data_dim: 3,
        m: 5,
        m_max: 5,
        m_max_0: 10,
        ef_construction: 12,
        level_mult: 4,
        node_count: 0,
        max_layer: 0,
        layers: Vec::new(),
        nodes: Vec::new(),
        enterpoint: None,
    };
    let text = |s: &str| Reply::Text(s.to_string());
    assert_eq!(
        header.reply(),
        vec![
            text("name"),
            text("hnsw.i"),
            text("metric"),
            text("Euclidean"),
            text("data_dim"),
            Reply::Integer(3),
            text("m"),
            Reply::Integer(5),
            text("ef_construction"),
            Reply::Integer(12),
            text("level_mult"),
            Reply::Double(4),
            text("node_count"),
            Reply::Integer(0),
            text("max_layer"),
            Reply::Integer(0),
            text("enterpoint"),
            Reply::Null,
        ]
    );
    let mut with_entry = header.clone();
    with_entry.enterpoint = Some("hnsw.i.a".to_string());
    assert_eq!(with_entry.reply()[17], text("hnsw.i.a"));
}

#[test]
fn node_and_hit_descriptions() {
    let node = NodeRedis { data: vec![1, 2], neighbors: vec![vec!["a".to_string()]] };
    assert_eq!(
        node.reply(),
        vec![
            Reply::Text("data".to_string()),
            Reply::Floats(vec![1, 2]),
            Reply::Text("neighbors".to_string()),
            Reply::Names(vec![vec!["a".to_string()]]),
        ]
    );
    let hits = vec![
        SearchResult { sim: -2, name: "a".to_string() },
        SearchResult { sim: -9, name: "b".to_string() },
    ];
    let out = search_reply(&hits);
    assert_eq!(
        out,
        vec![
            SearchResultRedis { sim: -2, name: "a".to_string() },
            SearchResultRedis { sim: -9, name: "b".to_string() },
        ]
    );
    assert_eq!(
        out[1].reply(),
        vec![
            Reply::Text("similarity".to_string()),
            Reply::Similarity(-9),
            Reply::Text("name".to_string()),
            Reply::Text("b".to_string()),
        ]
    );
}

#[test]
fn metric_words_and_their_kinds() {
    assert_eq!(MKind::from("l2sq".to_string()), MKind::L2sq);
    assert_eq!(MKind::from("cos".to_string()), MKind::Cos);
    assert_eq!(MKind::from("pearson".to_string()), MKind::Pearson);
    assert_eq!(MKind::from("haversine,".to_string()), MKind::Haversine);
    assert_eq!(MKind::from("haversine".to_string()), MKind::IP);
    assert_eq!(MKind::from("hamming".to_string()), MKind::Hamming);
    assert_eq!(MKind::from("tanimoto".to_string()), MKind::Tanimoto);
    assert_eq!(MKind::from("sorensen".to_string()), MKind::Sorensen);
    assert_eq!(MKind::from("f64".to_string()), MKind::IP);
    assert_eq!(MKind::from("ip".to_string()), MKind::IP);
    assert_eq!(MKind::from("anything".to_string()), MKind::IP);
    assert_eq!(MKind::Cos.map_metric_kind(), MetricKind::Cos);
    assert_eq!(MKind::IP.map_metric_kind(), MetricKind::IP);
    assert_eq!(MKind::L2sq.map_metric_kind(), MetricKind::L2sq);
    assert_eq!(MKind::Pearson.map_metric_kind(), MetricKind::Pearson);
    assert_eq!(MKind::Haversine.map_metric_kind(), MetricKind::Haversine);
    assert_eq!(MKind::Hamming.map_metric_kind(), MetricKind::Hamming);
    assert_eq!(MKind::Tanimoto.map_metric_kind(), MetricKind::Tanimoto);
    assert_eq!(MKind::Sorensen.map_metric_kind(), MetricKind::Sorensen);
    assert_eq!(MKind::Cos.label(), "Cos");
}

#[test]
fn scalar_words_and_their_kinds() {
    assert_eq!(SKind::from("f64".to_string()), SKind::F64);
    assert_eq!(SKind::from("f32".to_string()), SKind::F32);
    assert_eq!(SKind::from("f16".to_string()), SKind::F16);
    assert_eq!(SKind::from("i8".to_string()), SKind::I8);
    assert_eq!(SKind::from("b1".to_string()), SKind::B1);
    assert_eq!(SKind::from("u8".to_string()), SKind::F32);
    assert_eq!(SKind::F64.map_scalar_kind(), ScalarKind::F64);
    assert_eq!(SKind::F32.map_scalar_kind(), ScalarKind::F32);
    assert_eq!(SKind::F16.map_scalar_kind(), ScalarKind::F16);
    assert_eq!(SKind::I8.map_scalar_kind(), ScalarKind::I8);
    assert_eq!(SKind::B1.map_scalar_kind(), ScalarKind::B1);
    assert_eq!(SKind::F32.label(), "F32");
}

#[test]
fn options_have_defaults_and_map_to_the_backend() {
    let opts = IndexOpts::default();
    assert_eq!(
        opts,
        IndexOpts {
            dimensions: 128,
            metric: MKind::IP,
            quantization: SKind::F32,
            connectivity: 32,
            expansion_add: 2,
            expansion_search: 3,
            multi: false,
        }
    );
    let mut mine = opts.clone();
    mine.dimensions = 10;
    mine.metric = MKind::Cos;
    mine.connectivity = 12;
    mine.expansion_add = 100;
    assert_eq!(
        IndexOptions::from(mine),
        IndexOptions {
            dimensions: 10,
            metric: MetricKind::Cos,
            quantization: ScalarKind::F32,
            connectivity: 12,
            expansion_add: 100,
            expansion_search: 3,
            multi: false,
        }
    );
}

#[test]
fn capacity_grows_by_steps() {
    assert_eq!(reserve_target(10, 9, None), None);
    assert_eq!(reserve_target(10, 10, None), Some(20));
    assert_eq!(reserve_target(0, 5, None), Some(10));
    assert_eq!(reserve_target(0, 4, None), None);
    assert_eq!(reserve_target(10, 30, Some(50)), Some(60));
    assert_eq!(reserve_target(10, 29, Some(50)), None);
    assert_eq!(reserve_target(10, 50_005, Some(1_000_000)), Some(100_010));
    assert_eq!(reserve_target(10, 50_004, Some(1_000_000)), None);
    assert_eq!(reserve_target(7, 3, Some(0)), Some(7));
    assert_eq!(reserve_target_checked(usize::MAX - 5, usize::MAX, None), None);
    assert_eq!(reserve_target_checked(10, 10, None), Some(20));
}

#[test]
fn names_and_keys_go_in_pairs() {
    let mut names = NodeNames::new();
    assert_eq!(names.len(), 0);
    assert_eq!(names.insert(42, "a"), Ok(()));
    assert_eq!(names.insert(43, "b"), Ok(()));
    assert_eq!(names.insert(44, "a"), Err(Error::AlreadyExists));
    assert_eq!(names.insert(42, "c"), Err(Error::AlreadyExists));
    assert_eq!(names.len(), 2);
    assert!(names.contains_name("b"));
    assert!(!names.contains_name("c"));
    assert_eq!(names.id_of("b"), Some(43));
    assert_eq!(names.id_of("c"), None);
    assert_eq!(names.name_of(42), "a");
    assert_eq!(names.name_of(7), "");
    assert_eq!(names.remove("a"), Some(42));
    assert_eq!(names.remove("a"), None);
    assert_eq!(names.name_of(42), "");
    assert_eq!(names.len(), 1);
}

#[test]
fn removed_matches_are_left_out() {
    let mut names = NodeNames::new();
    names.insert(1, "one").unwrap();
    names.insert(3, "three").unwrap();
    let keys = vec![3, u64::MAX, 9, 1, u64::MAX];
    assert_eq!(
        name_matches(&keys, &names),
        vec![
            MatchName { pos: 0, id: 3, name: "three".to_string() },
            MatchName { pos: 2, id: 9, name: "".to_string() },
            MatchName { pos: 3, id: 1, name: "one".to_string() },
        ]
    );
    assert!(name_matches(&Vec::new(), &names).is_empty());
}

#[test]
fn module_arguments_come_in_pairs() {
    let args: Vec<String> =
        ["dir", "/tmp", "flag", "1"].iter().map(|s| s.to_string()).collect();
    assert_eq!(
        module_args(&args),
        Some(vec![
            ("dir".to_string(), "/tmp".to_string()),
            ("flag".to_string(), "1".to_string()),
        ])
    );
    assert_eq!(module_args(&args[..3].to_vec()), None);
    assert_eq!(module_args(&Vec::new()), Some(Vec::new()));
}

#[test]
fn backend_create_names_metric_and_quantization() {
    assert_eq!(check_arity(Command::BackendCreate, 11), Err(Error::WrongArity));
    assert_eq!(check_arity(Command::BackendCreate, 12), Ok(()));
    let got = check_backend_create(
        12,
        "dim",
        Some(10),
        "M",
        Some(12),
        "EFCON",
        Some(100),
        "Metric",
        "COS",
        "quantization",
        "F32",
    );
    assert_eq!(
        got,
        Ok(BackendCreateArgs {
            dim: 10,
            m: 12,
            ef_construction: 100,
            metric: "cos".to_string(),
            quantization: "f32".to_string(),
        })
    );
    assert_eq!(
        check_backend_create(
            11, "dim", Some(1), "m", Some(1), "efcon", Some(1), "metric", "cos", "quantization",
            "f32"
        ),
        Err(Error::WrongArity)
    );
    assert_eq!(
        check_backend_create(
            12, "dim", Some(1), "m", Some(1), "efcon", Some(1), "metrics", "cos", "quantization",
            "f32"
        ),
        Err(Error::WrongArity)
    );
    assert_eq!(
        check_backend_create(
            12, "dim", Some(1), "m", Some(1), "efcon", Some(1), "metric", "cos", "quant", "f32"
        ),
        Err(Error::WrongArity)
    );
    assert_eq!(
        check_backend_create(
            12, "dim", Some(1), "m", None, "efcon", Some(1), "metric", "cos", "quantization",
            "f32"
        ),
        Err(Error::BadArgument)
    );
    assert_eq!(
        backend_create_args(
            "dim", Some(1), "m", Some(2), "efcon", Some(3), "metric", "Cos", "quantization", "F32"
        ),
        Ok(BackendCreateArgs {
            dim: 1,
            m: 2,
            ef_construction: 3,
            metric: "Cos".to_string(),
            quantization: "F32".to_string(),
        })
    );
}
