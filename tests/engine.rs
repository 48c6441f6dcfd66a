use rdis::engine::RedisEngine;
use rdis::store::RedisData;
use rdis::protocol::{ClientReq, RESP};
use rdis::session::{read_step, ReadStep};
use std::sync::Arc;

fn bulk(s: &str) -> RESP {
    RESP::BulkString(Arc::new(s.as_bytes().to_vec()))
}

fn cmd(words: &[&str]) -> RESP {
    RESP::Array(words.iter().map(|w| bulk(w)).collect())
}

fn arc(s: &str) -> Arc<Vec<u8>> {
    Arc::new(s.as_bytes().to_vec())
}

/// Feeds `input` to a session and the engine, and returns the bytes written back.
fn serve(engine: &mut RedisEngine, input: &[u8]) -> Vec<u8> {
    let mut out = Vec::new();
    let mut rest = input;
    loop {
        match read_step(rest) {
            ReadStep::Dispatch(req, used) => {
                let reply = engine.handle_bundle(&req, 1000);
                reply.write_to(&mut out);
                rest = &rest[used..];
            }
            ReadStep::NeedMore => return out,
            ReadStep::Fatal => panic!("fatal bytes"),
        }
    }
}

#[test]
fn set_then_get() {
    let mut e = RedisEngine::new();
    assert_eq!(e.handle_request(&cmd(&["SET", "k", "v"]), 1), RESP::SimpleString("OK".into()));
    assert_eq!(e.handle_request(&cmd(&["GET", "k"]), 2), bulk("v"));
    assert_eq!(e.handle_request(&cmd(&["SET", "k", "w"]), 3), RESP::SimpleString("OK".into()));
    assert_eq!(e.handle_request(&cmd(&["GET", "k"]), 4), bulk("w"));
}

#[test]
fn lpush_lpop_order() {
    let mut e = RedisEngine::new();
    e.handle_request(&cmd(&["LPUSH", "k", "a"]), 1);
    e.handle_request(&cmd(&["LPUSH", "k", "b"]), 1);
    assert_eq!(e.handle_request(&cmd(&["LPOP", "k"]), 1), bulk("b"));
    assert_eq!(e.handle_request(&cmd(&["LPOP", "k"]), 1), bulk("a"));
    assert_eq!(e.handle_request(&cmd(&["LPOP", "k"]), 1), RESP::Null);
}

#[test]
fn rpush_rpop_order() {
    let mut e = RedisEngine::new();
    e.handle_request(&cmd(&["RPUSH", "k", "a"]), 1);
    e.handle_request(&cmd(&["RPUSH", "k", "b"]), 1);
    assert_eq!(e.handle_request(&cmd(&["RPOP", "k"]), 1), bulk("b"));
    assert_eq!(e.handle_request(&cmd(&["RPOP", "k"]), 1), bulk("a"));
    assert_eq!(e.handle_request(&cmd(&["RPOP", "k"]), 1), RESP::Null);
}

#[test]
fn absent_keys_reply_null() {
    let mut e = RedisEngine::new();
    assert_eq!(e.handle_request(&cmd(&["GET", "nope"]), 1), RESP::Null);
    assert_eq!(e.handle_request(&cmd(&["LPOP", "nope"]), 1), RESP::Null);
    assert_eq!(e.handle_request(&cmd(&["RPOP", "nope"]), 1), RESP::Null);
    assert_eq!(e.handle_request(&cmd(&["INCR", "nope"]), 1), RESP::Null);
}

#[test]
fn empty_and_unknown_commands() {
    let mut e = RedisEngine::new();
    let arity = RESP::Error("Error".to_owned(), "too many arguments".to_owned());
    assert_eq!(
        e.handle_request(&RESP::Array(vec![]), 1),
        RESP::Error("todo".to_owned(), "empty command".to_owned())
    );
    assert_eq!(e.handle_request(&cmd(&["SET", "a", "b", "c"]), 1), arity);
    assert_eq!(e.handle_request(&cmd(&["FLUSHALL"]), 1), arity);
    assert_eq!(e.handle_request(&cmd(&["GET", "a", "b"]), 1), arity);
    assert_eq!(e.handle_request(&cmd(&["get", "a"]), 1), arity);
    assert_eq!(e.handle_request(&RESP::Array(vec![RESP::Integer(1)]), 1), arity);
    assert_eq!(RedisEngine::error_resp(), arity);
}

#[test]
fn single_frames_are_one_word_commands() {
    let mut e = RedisEngine::new();
    assert_eq!(e.handle_request(&bulk("PING"), 1), RESP::SimpleString("PONG".into()));
    assert_eq!(e.handle_request(&RESP::SimpleString("COMMAND".into()), 1), RedisEngine::ok());
    assert_eq!(
        e.handle_request(&RESP::Integer(3), 1),
        RESP::Error("Error".to_owned(), "too many arguments".to_owned())
    );
}

#[test]
fn incr_does_not_store() {
    let mut e = RedisEngine::new();
    e.handle_request(&cmd(&["SET", "n", "41"]), 1);
    assert_eq!(e.handle_request(&cmd(&["INCR", "n"]), 1), RESP::SimpleString("42".into()));
    assert_eq!(e.handle_request(&cmd(&["INCR", "n"]), 1), RESP::SimpleString("42".into()));
    assert_eq!(e.handle_request(&cmd(&["GET", "n"]), 1), bulk("41"));
    e.handle_request(&cmd(&["SET", "m", "-1"]), 1);
    assert_eq!(e.handle_request(&cmd(&["INCR", "m"]), 1), RESP::SimpleString("0".into()));
    e.handle_request(&cmd(&["SET", "p", "+9"]), 1);
    assert_eq!(e.handle_request(&cmd(&["INCR", "p"]), 1), RESP::SimpleString("10".into()));
}

#[test]
fn incr_errors() {
    let mut e = RedisEngine::new();
    let cases = [
        ("abc", "invalid digit found in string"),
        ("", "cannot parse integer from empty string"),
        ("9223372036854775807", "number too large to fit in target type"),
        ("99999999999999999999", "number too large to fit in target type"),
        ("-99999999999999999999", "number too small to fit in target type"),
    ];
    for (value, detail) in cases {
        e.handle_request(&cmd(&["SET", "x", value]), 1);
        assert_eq!(
            e.handle_request(&cmd(&["INCR", "x"]), 1),
            RESP::Error("WRONG_TYPE".to_owned(), detail.to_owned())
        );
    }
}

#[test]
fn pipeline_replies_in_order() {
    let mut e = RedisEngine::new();
    let req = ClientReq::Pipeline(vec![
        cmd(&["SET", "a", "1"]),
        cmd(&["GET", "a"]),
        cmd(&["GET", "b"]),
        RESP::Array(vec![]),
    ]);
    let reply = e.handle_bundle(&req, 5);
    assert_eq!(reply.len(), 4);
    assert_eq!(
        reply,
        ClientReq::Pipeline(vec![
            RESP::SimpleString("OK".into()),
            bulk("1"),
            RESP::Null,
            RESP::Error("todo".to_owned(), "empty command".to_owned()),
        ])
    );
    let single = e.handle_bundle(&ClientReq::Single(cmd(&["PING"])), 5);
    assert_eq!(single, ClientReq::Single(RESP::SimpleString("PONG".into())));
}

#[test]
fn eviction_scan_removes_due_keys() {
    let mut d = RedisData::new();
    d.set(arc("a"), arc("1"), Some(100));
    d.set(arc("b"), arc("2"), Some(200));
    d.set(arc("c"), arc("3"), None);
    assert_eq!(d.get(b"a", 50), Some(arc("1")));
    assert_eq!(d.get(b"a", 101), None);
    assert_eq!(d.get(b"b", 101), Some(arc("2")));
    assert_eq!(d.get(b"b", 200), Some(arc("2")));
    assert_eq!(d.get(b"b", 201), None);
    assert_eq!(d.get(b"c", 10_000), Some(arc("3")));
    // a scan at an instant already passed does nothing
    d.set(arc("a"), arc("again"), None);
    d.evict_if_needed(150);
    assert_eq!(d.get(b"a", 150), Some(arc("again")));
}

#[test]
fn eviction_attached_to_lists_and_incr() {
    let mut d = RedisData::new();
    d.insert_eviction(arc("n"), 10);
    d.set(arc("n"), arc("5"), None);
    assert_eq!(d.incr(b"n", 5).unwrap(), Some(6));
    assert_eq!(d.incr(b"n", 11).unwrap(), None);
    d.l_push(arc("l"), arc("x"), Some(20));
    d.r_push(arc("l"), arc("y"), None);
    d.evict_if_needed(30);
    assert_eq!(d.l_pop(b"l"), Some(arc("x")));
    assert_eq!(d.r_pop(b"l"), Some(arc("y")));
}

#[test]
fn wire_ping() {
    let mut e = RedisEngine::new();
    assert_eq!(serve(&mut e, b"*1\r\n$4\r\nPING\r\n"), b"+PONG\r\n".to_vec());
}

#[test]
fn wire_set_get() {
    let mut e = RedisEngine::new();
    assert_eq!(serve(&mut e, b"*3\r\n$3\r\nSET\r\n$1\r\nx\r\n$1\r\n1\r\n"), b"+OK\r\n".to_vec());
    assert_eq!(serve(&mut e, b"*2\r\n$3\r\nGET\r\n$1\r\nx\r\n"), b"$1\r\n1\r\n".to_vec());
}

#[test]
fn wire_get_missing() {
    let mut e = RedisEngine::new();
    assert_eq!(serve(&mut e, b"*2\r\n$3\r\nGET\r\n$1\r\nz\r\n"), b"$-1\r\n".to_vec());
}

#[test]
fn wire_inline_pipeline() {
    let mut e = RedisEngine::new();
    let input = b"PING\r\nPING\r\nPING\r\n";
    let req = match read_step(input) {
        ReadStep::Dispatch(req, used) => {
            assert_eq!(used, input.len());
            req
        }
        _ => panic!("expected a bundle"),
    };
    assert_eq!(req.len(), 3);
    let reply = e.handle_bundle(&req, 1);
    let mut out = Vec::new();
    reply.write_to(&mut out);
    assert_eq!(out, b"+PONG\r\n+PONG\r\n+PONG\r\n".to_vec());
}

#[test]
fn wire_lists() {
    let mut e = RedisEngine::new();
    let mut out = Vec::new();
    out.extend(serve(&mut e, b"*3\r\n$5\r\nLPUSH\r\n$1\r\nL\r\n$1\r\na\r\n"));
    out.extend(serve(&mut e, b"*3\r\n$5\r\nRPUSH\r\n$1\r\nL\r\n$1\r\nb\r\n"));
    out.extend(serve(&mut e, b"*2\r\n$4\r\nLPOP\r\n$1\r\nL\r\n"));
    out.extend(serve(&mut e, b"*2\r\n$4\r\nRPOP\r\n$1\r\nL\r\n"));
    assert_eq!(out, b"+OK\r\n+OK\r\n$1\r\na\r\n$1\r\nb\r\n".to_vec());
}

#[test]
fn wire_incr_wrong_type() {
    let mut e = RedisEngine::new();
    serve(&mut e, b"*3\r\n$3\r\nSET\r\n$1\r\nx\r\n$3\r\nabc\r\n");
    let out = serve(&mut e, b"*2\r\n$4\r\nINCR\r\n$1\r\nx\r\n");
    assert_eq!(out, b"-WRONG_TYPE invalid digit found in string\r\n".to_vec());
}

#[test]
fn keys_stay_in_one_store() {
    let mut e = RedisEngine::new();
    e.handle_request(&cmd(&["SET", "s", "1"]), 1);
    e.handle_request(&cmd(&["LPUSH", "l", "x"]), 1);
    assert_eq!(e.handle_request(&cmd(&["GET", "l"]), 1), RESP::Null);
    assert_eq!(e.handle_request(&cmd(&["LPOP", "s"]), 1), RESP::Null);
    assert_eq!(e.handle_request(&cmd(&["GET", "s"]), 1), bulk("1"));
    assert_eq!(e.handle_request(&cmd(&["RPOP", "l"]), 1), bulk("x"));
}
