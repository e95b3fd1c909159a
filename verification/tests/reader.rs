use redisxann::codec::load_index;
use redisxann::codec::load_node;
use redisxann::codec::save_index;
use redisxann::codec::save_node;
use redisxann::fields::Field;
use redisxann::reader::index_want;
use redisxann::reader::node_want;
use redisxann::reader::Want;
use redisxann::records::IndexRedis;
use redisxann::records::NodeRedis;

fn kind(f: &Field) -> Want {
    match f {
        Field::Str(_) => Want::Str,
        Field::Unsigned(_) => Want::Unsigned,
        Field::Double(_) => Want::Double,
        Field::Float(_) => Want::Float,
    }
}

fn follow(written: &Vec<Field>, want: fn(&Vec<Field>) -> Want) -> Vec<Field> {
    let mut read: Vec<Field> = Vec::new();
    for field in written {
        assert_eq!(want(&read), kind(field));
        read.push(field.clone());
    }
    assert_eq!(want(&read), Want::Done);
    read
}

fn header() -> IndexRedis {
    IndexRedis {
        name: "idx".to_string(),
        mfunc_kind: "Euclidean".to_string(),
        data_dim: 3,
        m: 5,
        m_max: 5,
        m_max_0: 10,
        ef_construction: 12,
        level_mult: 99,
        node_count: 3,
        max_layer: 2,
        layers: vec![
            vec!["a".to_string(), "b".to_string(), "c".to_string()],
            vec![],
            vec!["b".to_string()],
        ],
        nodes: vec!["a".to_string(), "b".to_string(), "c".to_string()],
        enterpoint: Some("b".to_string()),
    }
}

#[test]
fn reader_asks_for_the_fields_of_a_header_in_their_order() {
    let written = save_index(&header());
    let read = follow(&written, index_want);
    assert_eq!(load_index(&read, 0), Some(header()));

    let mut empty = header();
    empty.layers = Vec::new();
    empty.nodes = Vec::new();
    empty.enterpoint = None;
    let read = follow(&save_index(&empty), index_want);
    assert_eq!(load_index(&read, 0), Some(empty));
}

#[test]
fn reader_asks_for_the_fields_of_a_node_in_their_order() {
    let node = NodeRedis {
        data: vec![1, -2, 3],
        neighbors: vec![vec!["x".to_string(), "y".to_string()], vec![], vec!["z".to_string()]],
    };
    let read = follow(&save_node(&node), node_want);
    assert_eq!(load_node(&read, 0), Some(node));

    let bare = NodeRedis { data: Vec::new(), neighbors: Vec::new() };
    let read = follow(&save_node(&bare), node_want);
    assert_eq!(read, vec![Field::Unsigned(0), Field::Unsigned(0)]);
    assert_eq!(load_node(&read, 0), Some(bare));
}

#[test]
fn reader_is_stuck_on_what_begins_no_record() {
    let mut fields = save_index(&header());
    fields[10] = Field::Str("three".to_string());
    assert_eq!(index_want(&fields), Want::Stuck);
    let mut fields = save_index(&header());
    fields[11] = Field::Double(1);
    assert_eq!(index_want(&fields), Want::Stuck);
    assert_eq!(node_want(&vec![Field::Str("x".to_string())]), Want::Stuck);
    assert_eq!(
        node_want(&vec![Field::Unsigned(1), Field::Float(1), Field::Float(2)]),
        Want::Stuck
    );
    assert_eq!(index_want(&Vec::new()), Want::Str);
    assert_eq!(node_want(&Vec::new()), Want::Unsigned);
}
