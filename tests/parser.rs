use rdis::parser::{read, read_array, read_integer_ascii, ReadError};
use rdis::protocol::RESP;
use std::sync::Arc;

#[test]
fn test_read_simple() {
    let res = read(b"+OK!! \r\n").unwrap();
    assert_eq!(res.0.len(), 0);
    assert_eq!(RESP::SimpleString("OK!! ".into()), res.1);
}

#[test]
fn test_read_bulk_easy() {
    let res = read(b"$5\r\nhello\r\n").unwrap();
    assert_eq!(res.0.len(), 0);
    assert_eq!(RESP::BulkString(Arc::new("hello".into())), res.1);
}

#[test]
fn test_read_decimal_easy() {
    assert_eq!(RESP::Integer(299), read(b":299\r\n").unwrap().1);
}

#[test]
fn test_read_decimal_negative() {
    assert_eq!(RESP::Integer(-299), read(b":-299\r\n").unwrap().1);
}

#[test]
fn test_read_decimal_should_fail() {
    match read(b"c299") {
        Ok(_) => panic!("test failed"),
        Err(_) => (),
    }
    match read(b"") {
        Ok(_) => panic!("test failed"),
        Err(_) => (),
    }
}

#[test]
fn test_read_decimal_rem() {
    assert_eq!(RESP::Integer(299), read(b":299\r\nbdc").unwrap().1);
    assert_eq!(b"bdc", read(b":299\r\nbdc").unwrap().0);
}

#[test]
fn test_read_null() {
    assert_eq!(RESP::Null, read(b"$-1\r\n").unwrap().1);
}

#[test]
fn test_read_array() {
    assert_eq!(
        RESP::Array(vec![
            RESP::BulkString(Arc::new("hello".into())),
            RESP::BulkString(Arc::new("world".into()))
        ]),
        read_array(b"*2\r\n$5\r\nhello\r\n$5\r\nworld\r\n")
            .unwrap()
            .1
    );
    assert_eq!(RESP::Array(vec![]), read_array(b"*0\r\n").unwrap().1);
}

#[test]
fn read_integer_ascii_test() {
    for i in 0..10000 {
        assert_eq!(read_integer_ascii(i.to_string().as_bytes()), i);
    }
}

#[test]
fn read_integer_ascii_panic_test() {
    read_integer_ascii("a".as_bytes());
}

#[test]
fn read_incomplete_and_fatal() {
    assert_eq!(read(b"$5\r\nhel").unwrap_err(), ReadError::Incomplete);
    assert_eq!(read(b"*2\r\n$1\r\na\r\n").unwrap_err(), ReadError::Incomplete);
    assert_eq!(read(b"+OK").unwrap_err(), ReadError::Incomplete);
    assert_eq!(read(b":12a\r\n").unwrap_err(), ReadError::Fatal);
    assert_eq!(read(b"$-2\r\n").unwrap_err(), ReadError::Fatal);
    assert_eq!(read(b"$1\r\nab\r\n").unwrap_err(), ReadError::Fatal);
    assert_eq!(read(b"\r\n").unwrap_err(), ReadError::Fatal);
    assert_eq!(read(b"PING \r\n").unwrap_err(), ReadError::Fatal);
    assert_eq!(read_array(b":1\r\n").unwrap_err(), ReadError::Fatal);
}

#[test]
fn read_integer_limits() {
    assert_eq!(RESP::Integer(i64::MAX), read(b":9223372036854775807\r\n").unwrap().1);
    assert_eq!(RESP::Integer(i64::MIN), read(b":-9223372036854775808\r\n").unwrap().1);
    assert_eq!(read(b":9223372036854775808\r\n").unwrap_err(), ReadError::Fatal);
    assert_eq!(read(b":-9223372036854775809\r\n").unwrap_err(), ReadError::Fatal);
    assert_eq!(read(b":99999999999999999999999\r\n").unwrap_err(), ReadError::Fatal);
    assert_eq!(RESP::Integer(7), read(b":007\r\n").unwrap().1);
}

#[test]
fn read_empty_bulk_and_nested_array() {
    assert_eq!(RESP::BulkString(Arc::new(vec![])), read(b"$0\r\n\r\n").unwrap().1);
    assert_eq!(
        RESP::Array(vec![RESP::Array(vec![RESP::Integer(1)]), RESP::Null]),
        read(b"*2\r\n*1\r\n:1\r\n$-1\r\n").unwrap().1
    );
}

#[test]
fn read_error_frames() {
    let res = read(b"-ERR bad  thing\r\nx").unwrap();
    assert_eq!(res.1, RESP::Error("ERR".to_owned(), "bad  thing".to_owned()));
    assert_eq!(res.0, b"x");
    let res = read("-E2 caf\u{e9}\r\n".as_bytes()).unwrap();
    assert_eq!(res.1, RESP::Error("E2".to_owned(), "caf\u{e9}".to_owned()));
    assert_eq!(read(b"-ERR \xff\r\n").unwrap_err(), ReadError::Fatal);
    assert_eq!(read(b"-ERR\r\n").unwrap_err(), ReadError::Fatal);
}

#[test]
fn read_inline_commands() {
    let res = read(b"SET  a 1\r\n").unwrap();
    assert_eq!(
        res.1,
        RESP::Array(vec![
            RESP::SimpleString("SET".into()),
            RESP::SimpleString("a".into()),
            RESP::SimpleString("1".into())
        ])
    );
}

#[test]
fn decoded_frames_encode_back() {
    let inputs: Vec<&[u8]> = vec![
        b"+OK!! \r\n",
        b"-ERR bad thing\r\n",
        b":-42\r\n",
        b"$5\r\nhe\r\no\r\n",
        b"$-1\r\n",
        b"*3\r\n$3\r\nSET\r\n*0\r\n:1\r\n",
    ];
    for input in inputs {
        let (_, frame) = read(input).unwrap();
        let mut out = Vec::new();
        frame.write_to(&mut out);
        assert_eq!(out, input.to_vec());
        let (rest, again) = read(&out).unwrap();
        assert_eq!(rest.len(), 0);
        assert_eq!(again, frame);
    }
}
