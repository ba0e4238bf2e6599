use rodent_redis::commands::CommandInfo;
use rodent_redis::db::{Db, Obj};
use rodent_redis::resp::Resp;

fn cmd(name: &str, key: &str, args: &[&str]) -> CommandInfo {
    CommandInfo {
        name: name.as_bytes().to_vec(),
        key: key.to_string(),
        args: args.iter().map(|a| a.as_bytes().to_vec()).collect(),
    }
}

fn bulk(s: &str) -> Resp {
    Resp::Bulk(s.as_bytes().to_vec())
}

fn ok() -> Resp {
    Resp::Simple(b"OK".to_vec())
}

#[test]
fn new_db_is_number_zero() {
    assert_eq!(Db::new().id(), 0);
}

#[test]
fn new_obj_is_empty() {
    let obj = Obj::new();
    assert!(obj.item.is_none());
    assert!(obj.items.is_empty());
}

#[test]
fn ping_replies_pong() {
    let mut db = Db::new();
    assert_eq!(db.execute(cmd("ping", "", &[])), Resp::Simple(b"PONG".to_vec()));
    assert_eq!(db.ping(), Resp::Simple(b"PONG".to_vec()));
}

#[test]
fn set_then_get() {
    let mut db = Db::new();
    assert_eq!(db.execute(cmd("set", "foo", &["bar"])), ok());
    assert_eq!(db.execute(cmd("get", "foo", &[])), bulk("bar"));
}

#[test]
fn set_empty_value_then_get() {
    let mut db = Db::new();
    assert_eq!(db.set(cmd("set", "k", &[""])), ok());
    assert_eq!(db.get(cmd("get", "k", &[])), bulk(""));
}

#[test]
fn set_overwrites() {
    let mut db = Db::new();
    db.execute(cmd("set", "k", &["one"]));
    db.execute(cmd("set", "k", &["two"]));
    assert_eq!(db.execute(cmd("get", "k", &[])), bulk("two"));
}

#[test]
fn get_unwritten_key_is_null() {
    let mut db = Db::new();
    db.execute(cmd("set", "other", &["x"]));
    assert_eq!(db.execute(cmd("get", "missing", &[])), Resp::Null);
}

#[test]
fn del_existing_then_get_is_null() {
    let mut db = Db::new();
    db.execute(cmd("set", "k", &["v"]));
    assert_eq!(db.execute(cmd("del", "k", &[])), ok());
    assert_eq!(db.execute(cmd("get", "k", &[])), Resp::Null);
}

#[test]
fn del_absent_key_replies_ok() {
    let mut db = Db::new();
    assert_eq!(db.del(cmd("del", "never", &[])), ok());
    assert_eq!(db.execute(cmd("get", "never", &[])), Resp::Null);
}

#[test]
fn del_keeps_other_keys() {
    let mut db = Db::new();
    db.execute(cmd("set", "a", &["1"]));
    db.execute(cmd("set", "b", &["2"]));
    db.execute(cmd("set", "c", &["3"]));
    db.execute(cmd("del", "a", &[]));
    assert_eq!(db.execute(cmd("get", "b", &[])), bulk("2"));
    assert_eq!(db.execute(cmd("get", "c", &[])), bulk("3"));
}

#[test]
fn lpush_lpush_rpop_rpop() {
    let mut db = Db::new();
    assert_eq!(db.execute(cmd("lpush", "l", &["v1"])), Resp::Integer(1));
    assert_eq!(db.execute(cmd("lpush", "l", &["v2"])), Resp::Integer(2));
    assert_eq!(db.execute(cmd("rpop", "l", &[])), bulk("v1"));
    assert_eq!(db.execute(cmd("rpop", "l", &[])), bulk("v2"));
    assert_eq!(db.execute(cmd("rpop", "l", &[])), Resp::Null);
}

#[test]
fn push_and_pop_methods() {
    let mut db = Db::new();
    assert_eq!(db.push(cmd("lpush", "q", &["a"])), Resp::Integer(1));
    assert_eq!(db.pop(cmd("rpop", "q", &[])), bulk("a"));
    assert_eq!(db.pop(cmd("rpop", "q", &[])), Resp::Null);
}

#[test]
fn rpop_absent_key_is_null() {
    let mut db = Db::new();
    assert_eq!(db.execute(cmd("rpop", "none", &[])), Resp::Null);
}

#[test]
fn lpush_then_get_is_null() {
    let mut db = Db::new();
    db.execute(cmd("lpush", "k", &["v"]));
    assert_eq!(db.execute(cmd("get", "k", &[])), Resp::Null);
}

#[test]
fn set_keeps_nothing_of_a_list() {
    let mut db = Db::new();
    db.execute(cmd("lpush", "k", &["v"]));
    db.execute(cmd("set", "k", &["s"]));
    assert_eq!(db.execute(cmd("rpop", "k", &[])), Resp::Null);
    assert_eq!(db.execute(cmd("get", "k", &[])), bulk("s"));
}

#[test]
fn lpush_after_set_keeps_scalar() {
    let mut db = Db::new();
    db.execute(cmd("set", "k", &["s"]));
    assert_eq!(db.execute(cmd("lpush", "k", &["v"])), Resp::Integer(1));
    assert_eq!(db.execute(cmd("get", "k", &[])), bulk("s"));
}

#[test]
fn unknown_name_is_null() {
    let mut db = Db::new();
    assert_eq!(db.execute(cmd("incr", "k", &[])), Resp::Null);
}

#[test]
fn missing_value_is_null() {
    let mut db = Db::new();
    assert_eq!(db.execute(cmd("set", "k", &[])), Resp::Null);
    assert_eq!(db.execute(cmd("lpush", "k", &[])), Resp::Null);
    assert_eq!(db.execute(cmd("get", "k", &[])), Resp::Null);
}
