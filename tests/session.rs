use std::sync::Arc;

use async_std::sync::Mutex;
use rodent_redis::commands::CommandInfo;
use rodent_redis::db::Db;
use rodent_redis::handler::{next_request, serve, Incoming};
use rodent_redis::resp::Resp;

/// Feeds `input` to a fresh connection as one closed stream and collects
/// every reply.
fn run_session(db: &mut Db, input: &[u8]) -> Vec<u8> {
    let mut out = Vec::new();
    let mut pos = 0;
    loop {
        match next_request(&input[pos..], true) {
            Incoming::Done => return out,
            Incoming::Wait => panic!("a closed stream never waits"),
            Incoming::Request(req, used) => {
                pos += used;
                out.extend(serve(db, req).serialize());
            }
        }
    }
}

fn reply(db: &mut Db, request: &[u8]) -> Vec<u8> {
    let (req, used) = Resp::parse(request, false).expect("a whole request");
    assert_eq!(used, request.len());
    serve(db, req).serialize()
}

#[test]
fn ping_scenario() {
    let mut db = Db::new();
    assert_eq!(reply(&mut db, b"*1\r\n$4\r\nPING\r\n"), b"-ERR unknown command 'PING'\r\n".to_vec());
    assert_eq!(reply(&mut db, b"*1\r\n$4\r\nping\r\n"), b"+PONG\r\n".to_vec());
}

#[test]
fn set_get_scenario() {
    let mut db = Db::new();
    assert_eq!(
        reply(&mut db, b"*3\r\n$3\r\nSET\r\n$3\r\nfoo\r\n$3\r\nbar\r\n"),
        b"-ERR unknown command 'SET'\r\n".to_vec()
    );
    assert_eq!(reply(&mut db, b"*3\r\n$3\r\nset\r\n$3\r\nfoo\r\n$3\r\nbar\r\n"), b"+OK\r\n".to_vec());
    assert_eq!(reply(&mut db, b"*2\r\n$3\r\nget\r\n$3\r\nfoo\r\n"), b"$3\r\nbar\r\n".to_vec());
}

#[test]
fn get_absent_scenario() {
    let mut db = Db::new();
    assert_eq!(reply(&mut db, b"*2\r\n$3\r\nget\r\n$6\r\nabsent\r\n"), b"$-1\r\n".to_vec());
}

#[test]
fn wrong_arity_keeps_connection_usable() {
    let mut db = Db::new();
    let out = run_session(
        &mut db,
        b"*2\r\n$3\r\nset\r\n$3\r\nkey\r\n*3\r\n$3\r\nset\r\n$3\r\nkey\r\n$1\r\nv\r\n*2\r\n$3\r\nget\r\n$3\r\nkey\r\n",
    );
    assert_eq!(out, b"-ERR wrong number of arguments for 'set' command\r\n+OK\r\n$1\r\nv\r\n".to_vec());
}

#[test]
fn session_ends_when_input_is_exhausted() {
    let mut db = Db::new();
    assert_eq!(run_session(&mut db, b""), Vec::<u8>::new());
    assert!(matches!(next_request(b"", true), Incoming::Done));
}

#[test]
fn open_connection_waits_for_more() {
    assert!(matches!(next_request(b"*2\r\n$3\r\nget\r\n", false), Incoming::Wait));
    assert!(matches!(next_request(b"", false), Incoming::Wait));
}

#[test]
fn concurrent_pushes_are_not_lost() {
    let tasks = 8usize;
    let pushes = 50usize;
    let db = Arc::new(Mutex::new(Db::new()));
    async_std::task::block_on(async {
        let mut handles = Vec::new();
        for t in 0..tasks {
            let db = db.clone();
            handles.push(async_std::task::spawn(async move {
                for m in 0..pushes {
                    let cmd = CommandInfo {
                        name: b"lpush".to_vec(),
                        key: "shared".to_string(),
                        args: vec![format!("{}-{}", t, m).into_bytes()],
                    };
                    let mut guard = db.lock().await;
                    let reply = guard.execute(cmd);
                    assert!(matches!(reply, Resp::Integer(_)));
                }
            }));
        }
        for h in handles {
            h.await;
        }
    });
    let mut guard = async_std::task::block_on(db.lock());
    let last = guard.execute(CommandInfo {
        name: b"lpush".to_vec(),
        key: "shared".to_string(),
        args: vec![b"last".to_vec()],
    });
    assert_eq!(last, Resp::Integer((tasks * pushes + 1) as i64));
}
