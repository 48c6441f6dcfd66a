use rdis::protocol::{ClientReq, RESP};
use rdis::session::{fill_output_pipeline_req, grown_capacity, read_step, ReadStep};
use std::sync::Arc;

#[test]
fn test_resp_encoding() {
    let req: Vec<(RESP, Vec<u8>)> = vec![
        (RESP::SimpleString("OK".into()), b"+OK\r\n".to_vec()),
        (RESP::Integer(129), b":129\r\n".to_vec()),
        (
            RESP::BulkString(Arc::new("foobar".into())),
            b"$6\r\nfoobar\r\n".to_vec(),
        ),
        (RESP::Null, b"$-1\r\n".to_vec()),
        (
            RESP::Array(vec![
                RESP::BulkString(Arc::new("foo".into())),
                RESP::BulkString(Arc::new("bar".into())),
            ]),
            b"*2\r\n$3\r\nfoo\r\n$3\r\nbar\r\n".to_vec(),
        ),
        (
            RESP::Array(vec![1, 2, 3].iter().map(|i| RESP::Integer(*i)).collect()),
            b"*3\r\n:1\r\n:2\r\n:3\r\n".to_vec(),
        ),
        (RESP::Null, b"$-1\r\n".to_vec()),
    ];
    for (en, bytes) in req {
        let mut b = Vec::new();
        en.write_to(&mut b);
        assert_eq!(b, bytes);
    }
}

#[test]
fn encode_integers_and_errors() {
    let mut b = Vec::new();
    RESP::Integer(i64::MIN).write_to(&mut b);
    assert_eq!(b, b":-9223372036854775808\r\n".to_vec());
    let mut b = Vec::new();
    RESP::Integer(0).write_to(&mut b);
    assert_eq!(b, b":0\r\n".to_vec());
    let mut b = Vec::new();
    RESP::Error("WRONG_TYPE".to_owned(), "bad".to_owned()).write_to(&mut b);
    assert_eq!(b, b"-WRONG_TYPE bad\r\n".to_vec());
}

#[test]
fn test_pipeline_req() {
    let sent_msg = RESP::SimpleString("PING".into());
    let mut wire = Vec::new();
    for _ in 0..3i8 {
        RESP::SimpleString("PING".into()).write_to(&mut wire);
    }
    let (req, used) = match read_step(&wire) {
        ReadStep::Dispatch(req, used) => (req, used),
        _ => panic!("expected a bundle"),
    };
    assert_eq!(used, wire.len());
    let resp = req.into_vec();
    assert_eq!(resp.len(), 3);
    for r in resp {
        assert_eq!(r, sent_msg)
    }
}

#[test]
fn test_pipeline_req_benchmark() {
    let pipeline_reqs = b"PING\r\nPING\r\nPING\r\n";
    let (req, _) = match read_step(pipeline_reqs) {
        ReadStep::Dispatch(req, used) => (req, used),
        _ => panic!("expected a bundle"),
    };
    let resp = req.into_vec();
    // it's an array because it uses the compact form
    let sent_msg = RESP::Array(vec![RESP::SimpleString("PING".into())]);
    assert_eq!(resp.len(), 3);
    for r in resp {
        assert_eq!(r, sent_msg)
    }
}

#[test]
fn read_step_cases() {
    assert!(matches!(read_step(b""), ReadStep::NeedMore));
    assert!(matches!(read_step(b"*1\r\n$4\r\nPI"), ReadStep::NeedMore));
    assert!(matches!(read_step(b":x\r\n"), ReadStep::Fatal));
    match read_step(b"*1\r\n$4\r\nPING\r\n*1\r\n$4") {
        ReadStep::Dispatch(ClientReq::Single(r), used) => {
            assert_eq!(used, 14);
            assert_eq!(
                r,
                RESP::Array(vec![RESP::BulkString(Arc::new("PING".into()))])
            );
        }
        _ => panic!("expected a single request"),
    }
}

#[test]
fn bundles_keep_shape_and_order() {
    let one = fill_output_pipeline_req(vec![RESP::Integer(1)]);
    assert_eq!(one, ClientReq::Single(RESP::Integer(1)));
    assert_eq!(one.len(), 1);
    let two = fill_output_pipeline_req(vec![RESP::Integer(1), RESP::Integer(2)]);
    assert_eq!(two, ClientReq::Pipeline(vec![RESP::Integer(1), RESP::Integer(2)]));
    assert_eq!(two.len(), 2);
    let mut out = Vec::new();
    two.write_to(&mut out);
    assert_eq!(out, b":1\r\n:2\r\n".to_vec());
}

#[test]
fn capacity_doubles_when_full() {
    assert_eq!(grown_capacity(10, 4096), 4096);
    assert_eq!(grown_capacity(4096, 4096), 8192);
    assert_eq!(grown_capacity(0, 0), 4096);
}
