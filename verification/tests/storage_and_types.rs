use kvs::CommandRequest;
use kvs::Hget;
use kvs::Kvpair;
use kvs::KvError;
use kvs::MemTable;
use kvs::Storage;
use kvs::Value;

#[test]
fn value_conversions_should_work() {
    let v: Value = 10.into();
    assert_eq!(v, Value::Int(10));
    let v: Value = true.into();
    assert_eq!(v, Value::Bool(true));
    let v: Value = "world".into();
    assert_eq!(v, Value::Str("world".to_string()));
    let v: Value = "world".to_string().into();
    assert_eq!(v, Value::Str("world".to_string()));
    assert_eq!(Value::default(), Value::Empty);
}

#[test]
fn pair_constructors_should_work() {
    let p = Kvpair::new("k", 5.into());
    assert_eq!(p.key, "k");
    assert_eq!(p.value, Value::Int(5));
    let p = Kvpair::empty_value("k");
    assert_eq!(p.key, "k");
    assert_eq!(p.value, Value::Empty);
}

#[test]
fn request_constructors_should_work() {
    match CommandRequest::new_hget("t", "k") {
        CommandRequest::Hget(Hget { table, key }) => {
            assert_eq!(table, "t");
            assert_eq!(key, "k");
        }
        other => panic!("unexpected variant: {:?}", other),
    }
    match CommandRequest::new_hgetall("t") {
        CommandRequest::Hgetall(c) => assert_eq!(c.table, "t"),
        other => panic!("unexpected variant: {:?}", other),
    }
    match CommandRequest::new_hmdel("t", vec!["a".to_string()]) {
        CommandRequest::Hmdel(c) => assert_eq!(c.keys, vec!["a".to_string()]),
        other => panic!("unexpected variant: {:?}", other),
    }
}

#[test]
fn memtable_basic_operations() {
    let mut store = MemTable::new();
    assert_eq!(store.get("t", "k").unwrap(), None);
    assert_eq!(store.contains("t", "k").unwrap(), false);
    assert_eq!(store.set("t", "k".to_string(), 1.into()).unwrap(), None);
    assert_eq!(
        store.set("t", "k".to_string(), 2.into()).unwrap(),
        Some(Value::Int(1))
    );
    assert_eq!(store.get("t", "k").unwrap(), Some(Value::Int(2)));
    assert_eq!(store.contains("t", "k").unwrap(), true);

    // A second table does not see the first one's keys.
    assert_eq!(store.get("other", "k").unwrap(), None);

    assert_eq!(store.del("t", "k").unwrap(), Some(Value::Int(2)));
    assert_eq!(store.del("t", "k").unwrap(), None);
    assert_eq!(store.get("t", "k").unwrap(), None);
}

#[test]
fn memtable_get_all_snapshots_the_table() {
    let mut store = MemTable::new();
    store.set("t", "a".to_string(), 1.into()).unwrap();
    store.set("t", "b".to_string(), 2.into()).unwrap();
    let mut pairs = store.get_all("t").unwrap();
    pairs.sort_by(|x, y| x.partial_cmp(y).unwrap());
    assert_eq!(
        pairs,
        vec![Kvpair::new("a", 1.into()), Kvpair::new("b", 2.into())]
    );

    // A missing table reads as an empty one.
    assert_eq!(store.get_all("missing").unwrap(), vec![]);
}

#[test]
fn memtable_iterator_yields_the_snapshot() {
    let mut store = MemTable::new();
    store.set("t", "a".to_string(), 1.into()).unwrap();
    store.set("t", "b".to_string(), 2.into()).unwrap();
    let mut it = store.get_iter("t").unwrap();
    let mut pairs = Vec::new();
    while let Some(p) = it.next() {
        pairs.push(p);
    }
    pairs.sort_by(|x, y| x.partial_cmp(y).unwrap());
    assert_eq!(
        pairs,
        vec![Kvpair::new("a", 1.into()), Kvpair::new("b", 2.into())]
    );
    assert_eq!(it.next(), None);
}

#[test]
fn error_messages_carry_their_details() {
    let e = KvError::NotFound("score".to_string(), "u1".to_string());
    assert_eq!(e.message_text(), "Not found for table: score, key: u1");
    let e = KvError::InvalidCommand("NONE".to_string());
    assert_eq!(e.message_text(), "Invalid command: NONE");
    let e = KvError::ConvertError("string".to_string(), "integer".to_string());
    assert_eq!(e.message_text(), "Cannot convert value string to integer");
    let e = KvError::Internal("boom".to_string());
    assert_eq!(e.message_text(), "Internal error: boom");
}

#[test]
fn lazy_table_creation_is_invisible_to_reads() {
    let mut store = MemTable::new();
    let res = kvs::dispatch(CommandRequest::new_hget("x", "y"), &mut store);
    assert_eq!(res.status, 404);
    let res = kvs::dispatch(CommandRequest::new_hgetall("x"), &mut store);
    assert_eq!(res.status, 200);
    assert_eq!(res.pairs, vec![]);
}
