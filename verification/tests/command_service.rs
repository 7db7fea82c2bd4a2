use kvs::dispatch;
use kvs::CommandRequest;
use kvs::CommandResponse;
use kvs::Kvpair;
use kvs::MemTable;
use kvs::Value;

fn assert_res_ok(mut res: CommandResponse, values: &[Value], pairs: &[Kvpair]) {
    res.pairs.sort_by(|a, b| a.partial_cmp(b).unwrap());
    assert_eq!(res.status, 200);
    assert_eq!(res.message, "");
    assert_eq!(res.values, values);
    assert_eq!(res.pairs, pairs);
}

fn assert_res_error(res: CommandResponse, code: u32, msg: &str) {
    assert_eq!(res.status, code);
    assert!(res.message.contains(msg));
    assert_eq!(res.values, &[]);
    assert_eq!(res.pairs, &[]);
}

fn assert_res_not_found(res: CommandResponse) {
    assert_res_error(res, 404, "Not found");
}

#[test]
fn hset_should_work() {
    let mut store = MemTable::new();
    let cmd = CommandRequest::new_hset("t1", "hello", "world".into());
    let res = dispatch(cmd.clone(), &mut store);
    assert_res_ok(res, &[Value::default()], &[]);

    let res = dispatch(cmd, &mut store);
    assert_res_ok(res, &["world".into()], &[]);
}

#[test]
fn hget_should_work() {
    let mut store = MemTable::new();
    let cmd = CommandRequest::new_hset("score", "u1", 10.into());
    dispatch(cmd, &mut store);
    let cmd = CommandRequest::new_hget("score", "u1");
    let res = dispatch(cmd, &mut store);
    assert_res_ok(res, &[10.into()], &[]);
}

#[test]
fn hdel_should_work() {
    let mut store = MemTable::new();
    let cmd = CommandRequest::new_hdel("score", "u1");
    let res = dispatch(cmd, &mut store);
    assert_res_not_found(res);

    let cmd = CommandRequest::new_hset("score", "u1", 10.into());
    dispatch(cmd, &mut store);

    let cmd = CommandRequest::new_hdel("score", "u1");
    let res = dispatch(cmd, &mut store);
    assert_res_ok(res, &[10.into()], &[]);

    let cmd = CommandRequest::new_hget("score", "u1");
    let res = dispatch(cmd, &mut store);
    assert_res_not_found(res);
}

#[test]
fn hexist_should_work() {
    let mut store = MemTable::new();
    let cmd = CommandRequest::new_hexist("score", "u1");
    let res = dispatch(cmd, &mut store);
    assert_res_ok(res, &[false.into()], &[]);

    let cmd = CommandRequest::new_hset("score", "u1", 10.into());
    dispatch(cmd, &mut store);

    let cmd = CommandRequest::new_hexist("score", "u1");
    let res = dispatch(cmd, &mut store);
    assert_res_ok(res, &[true.into()], &[]);
}

#[test]
fn hmexit_should_work() {
    let mut store = MemTable::new();
    let cmd = CommandRequest::new_hmexist(
        "score",
        vec!["u1".to_string(), "u2".to_string(), "u3".to_string()],
    );
    let res = dispatch(cmd, &mut store);
    assert_res_ok(
        res,
        &[],
        &[
            Kvpair::empty_value("u1"),
            Kvpair::empty_value("u2"),
            Kvpair::empty_value("u3"),
        ],
    );

    let cmds = vec![
        CommandRequest::new_hset("score", "u2", 8.into()),
        CommandRequest::new_hset("score", "u1", 6.into()),
    ];
    for cmd in cmds {
        dispatch(cmd, &mut store);
    }

    let cmd = CommandRequest::new_hmexist(
        "score",
        vec!["u1".to_string(), "u2".to_string(), "u3".to_string()],
    );
    let res = dispatch(cmd, &mut store);
    assert_res_ok(
        res,
        &[],
        &[
            Kvpair::new("u1", 6.into()),
            Kvpair::new("u2", 8.into()),
            Kvpair::empty_value("u3"),
        ],
    );
}

#[test]
fn hget_with_non_exist_key_should_return_404() {
    let mut store = MemTable::new();
    let cmd = CommandRequest::new_hget("score", "u1");
    let res = dispatch(cmd, &mut store);
    assert_res_not_found(res);
}

#[test]
fn hgetall_should_work() {
    let mut store = MemTable::new();
    let cmds = vec![
        CommandRequest::new_hset("score", "u1", 10.into()),
        CommandRequest::new_hset("score", "u2", 8.into()),
        CommandRequest::new_hset("score", "u3", 11.into()),
        CommandRequest::new_hset("score", "u1", 6.into()),
    ];
    for cmd in cmds {
        dispatch(cmd, &mut store);
    }

    let cmd = CommandRequest::new_hgetall("score");
    let res = dispatch(cmd, &mut store);
    let pairs = &[
        Kvpair::new("u1", 6.into()),
        Kvpair::new("u2", 8.into()),
        Kvpair::new("u3", 11.into()),
    ];
    assert_res_ok(res, &[], pairs);
}

#[test]
fn hmget_should_work() {
    let mut store = MemTable::new();
    let cmds = vec![
        CommandRequest::new_hset("score", "u1", 10.into()),
        CommandRequest::new_hset("score", "u2", 8.into()),
        CommandRequest::new_hset("score", "u3", 11.into()),
        CommandRequest::new_hset("score", "u1", 6.into()),
    ];
    for cmd in cmds {
        dispatch(cmd, &mut store);
    }

    let cmd = CommandRequest::new_hmget(
        "score",
        vec!["u1".to_string(), "u2".to_string(), "u3".to_string()],
    );
    let res = dispatch(cmd, &mut store);
    let pairs = &[
        Kvpair::new("u1", 6.into()),
        Kvpair::new("u2", 8.into()),
        Kvpair::new("u3", 11.into()),
    ];
    assert_res_ok(res, &[], pairs);
}

#[test]
fn hmdel_should_work() {
    let mut store = MemTable::new();
    let cmd = CommandRequest::new_hmdel(
        "score",
        vec!["u1".to_string(), "u2".to_string(), "u3".to_string()],
    );
    let res = dispatch(cmd, &mut store);
    assert_res_ok(
        res,
        &[],
        &[
            Kvpair::empty_value("u1"),
            Kvpair::empty_value("u2"),
            Kvpair::empty_value("u3"),
        ],
    );

    let cmd = CommandRequest::new_hmset(
        "score",
        vec![
            Kvpair::new("u1", 6.into()),
            Kvpair::new("u2", 8.into()),
            Kvpair::new("u3", 11.into()),
        ],
    );
    dispatch(cmd, &mut store);

    let cmd = CommandRequest::new_hmdel(
        "score",
        vec!["u1".to_string(), "u2".to_string(), "u3".to_string()],
    );
    let res = dispatch(cmd, &mut store);
    assert_res_ok(
        res,
        &[],
        &[
            Kvpair::new("u1", 6.into()),
            Kvpair::new("u2", 8.into()),
            Kvpair::new("u3", 11.into()),
        ],
    );
}

#[test]
fn hmset_should_work() {
    let mut store = MemTable::new();
    let cmd = CommandRequest::new_hmset(
        "score",
        vec![
            Kvpair::new("u1", 6.into()),
            Kvpair::new("u2", 8.into()),
            Kvpair::new("u3", 11.into()),
        ],
    );
    let res = dispatch(cmd, &mut store);
    let pairs = &[
        Kvpair::empty_value("u1"),
        Kvpair::empty_value("u2"),
        Kvpair::empty_value("u3"),
    ];
    assert_res_ok(res, &[], pairs);

    let cmd = CommandRequest::new_hmset(
        "score",
        vec![
            Kvpair::new("u1", 12.into()),
            Kvpair::new("u2", 13.into()),
            Kvpair::new("u3", 15.into()),
        ],
    );
    let res = dispatch(cmd, &mut store);
    let pairs = &[
        Kvpair::new("u1", 6.into()),
        Kvpair::new("u2", 8.into()),
        Kvpair::new("u3", 11.into()),
    ];
    assert_res_ok(res, &[], pairs);
}

#[test]
fn hmset_then_hgetall_should_work() {
    let mut store = MemTable::new();
    let cmd = CommandRequest::new_hmset(
        "score",
        vec![
            Kvpair::new("u1", 6.into()),
            Kvpair::new("u2", 8.into()),
            Kvpair::new("u3", 11.into()),
        ],
    );
    dispatch(cmd, &mut store);

    let cmd = CommandRequest::new_hgetall("score");
    let res = dispatch(cmd, &mut store);
    let pairs = &[
        Kvpair::new("u1", 6.into()),
        Kvpair::new("u2", 8.into()),
        Kvpair::new("u3", 11.into()),
    ];
    assert_res_ok(res, &[], pairs);
}
