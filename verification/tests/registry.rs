use redisxann::error::Error;
use redisxann::index::Index;
use redisxann::metrics::MetricFuncs;
use redisxann::records::IndexRedis;
use redisxann::records::NodeRedis;
use redisxann::registry::Registry;

fn fresh(name: &str) -> Index {
    Index::new(name, MetricFuncs::Euclidean, 2, 4, 10, 0, 9).unwrap()
}

#[test]
fn two_indexes_do_not_touch_each_other() {
    let mut reg = Registry::new();
    assert_eq!(reg.insert(fresh("i1")), Ok(0));
    assert_eq!(reg.insert(fresh("i2")), Ok(1));
    reg.add_node("i1", "a", &vec![1, 1]).unwrap();
    reg.add_node("i1", "b", &vec![2, 2]).unwrap();
    reg.add_node("i2", "z", &vec![9, 9]).unwrap();
    let before = reg.search_kann("i2", &vec![0, 0], 5).unwrap();
    let entry = reg.get(1).enterpoint();
    reg.add_node("i1", "c", &vec![3, 3]).unwrap();
    reg.delete_node("i1", "a").unwrap();
    assert_eq!(reg.get(1).node_count(), 1);
    assert_eq!(reg.get(1).enterpoint(), entry);
    assert_eq!(reg.search_kann("i2", &vec![0, 0], 5).unwrap(), before);
    assert_eq!(reg.get(0).node_count(), 2);
    assert_eq!(reg.search_kann("i1", &vec![0, 0], 5).unwrap().len(), 2);
}

#[test]
fn registry_knows_its_indexes_by_name() {
    let mut reg = Registry::new();
    assert_eq!(reg.len(), 0);
    reg.insert(fresh("i1")).unwrap();
    assert_eq!(reg.insert(fresh("i1")).err(), Some(Error::AlreadyExists));
    assert_eq!(reg.len(), 1);
    assert_eq!(reg.position("i1"), Some(0));
    assert_eq!(reg.position("i2"), None);
    assert_eq!(reg.add_node("i2", "a", &vec![1, 1]), Err(Error::NotFound));
    assert_eq!(reg.delete_node("i2", "a"), Err(Error::NotFound));
    assert_eq!(reg.delete_node("i1", "a"), Err(Error::NotFound));
    assert_eq!(reg.search_kann("i2", &vec![1, 1], 1), Err(Error::NotFound));
    assert_eq!(reg.search_kann("i1", &vec![1], 1), Err(Error::BadArgument));
    assert_eq!(reg.remove("i2").err(), Some(Error::NotFound));
    let out = reg.remove("i1").unwrap();
    assert_eq!(out.name(), "i1");
    assert_eq!(reg.len(), 0);
}

#[test]
fn absent_index_is_brought_back_once() {
    let mut source = fresh("i1");
    source.add_node("a", &vec![1, 1]).unwrap();
    source.add_node("b", &vec![2, 2]).unwrap();
    let header = IndexRedis::from_index(&source);
    let records: Vec<Option<NodeRedis>> =
        header.nodes.iter().map(|n| NodeRedis::from_node(&source, n)).collect();

    let mut reg = Registry::new();
    assert_eq!(reg.rehydrate("i1", None, &Vec::new(), 1), Err(Error::NotFound));
    assert_eq!(reg.rehydrate("i1", Some(&header), &records, 1), Ok(0));
    assert_eq!(reg.get(0).node_count(), 2);
    reg.add_node("i1", "c", &vec![3, 3]).unwrap();
    assert_eq!(reg.rehydrate("i1", Some(&header), &records, 1), Ok(0));
    assert_eq!(reg.get(0).node_count(), 3);
    assert_eq!(reg.rehydrate("i1", None, &Vec::new(), 1), Ok(0));

    let mut broken = records.clone();
    broken[0] = None;
    let mut other = header.clone();
    other.name = "i2".to_string();
    assert_eq!(reg.rehydrate("i2", Some(&other), &broken, 1), Err(Error::CorruptSnapshot));
    assert_eq!(reg.len(), 1);
}
