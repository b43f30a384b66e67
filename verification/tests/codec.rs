//! Round trips through the codec, the incomplete/malformed distinction,
//! and the request step that rides on it.

use velocity::database::DatabaseOps;
use velocity::de::{decode, RespError};
use velocity::query::{respond, step, Query, StepResult};
use velocity::serializer::encode;
use velocity::value::Value;

fn round_trip(v: Value) {
    let bytes = encode(&v);
    let n = bytes.len();
    let decoded = decode(&bytes, 0).expect("an encoding must decode");
    assert_eq!(decoded, (v, n));
}

#[test]
fn round_trip_every_kind() {
    round_trip(Value::SimpleString(b"OK".to_vec()));
    round_trip(Value::SimpleString(b"".to_vec()));
    round_trip(Value::Error(b"ERR something".to_vec()));
    round_trip(Value::Integer(0));
    round_trip(Value::Integer(-123));
    round_trip(Value::Integer(i64::MAX));
    round_trip(Value::Integer(i64::MIN));
    round_trip(Value::BulkString(b"".to_vec()));
    round_trip(Value::BulkString(b"with\r\ninside".to_vec()));
    round_trip(Value::Null);
    round_trip(Value::Array(vec![]));
    round_trip(Value::Array(vec![
        Value::BulkString(b"SET".to_vec()),
        Value::BulkString(b"k".to_vec()),
        Value::Integer(7),
        Value::Null,
        Value::Array(vec![Value::SimpleString(b"nested".to_vec())]),
    ]));
}

#[test]
fn short_buffer_is_incomplete_not_malformed() {
    let full = b"*1\r\n$4\r\nPING\r\n";
    for cut in 1..full.len() {
        assert_eq!(
            decode(&full[..cut], 0),
            Err(RespError::Incomplete),
            "prefix of {} bytes",
            cut
        );
    }
    assert!(decode(full, 0).is_ok());
}

#[test]
fn bad_marker_is_malformed() {
    assert_eq!(decode(b"%3\r\n", 0), Err(RespError::Malformed));
    assert_eq!(decode(b":abc\r\n", 0), Err(RespError::Malformed));
    assert_eq!(decode(b"$-2\r\n", 0), Err(RespError::Malformed));
}

#[test]
fn query_parses_name_and_args() {
    let buf = b"*3\r\n$3\r\nSET\r\n$1\r\nk\r\n$1\r\nv\r\n";
    let (q, used) = Query::new(buf).expect("a whole request must parse");
    assert_eq!(q.command_str, b"SET".to_vec());
    assert_eq!(q.args, vec![b"k".to_vec(), b"v".to_vec()]);
    assert_eq!(used, buf.len());
}

#[test]
fn query_rejects_non_array() {
    assert_eq!(Query::new(b"+PING\r\n"), Err(RespError::Malformed));
    assert_eq!(Query::new(b"*0\r\n"), Err(RespError::Malformed));
}

#[test]
fn split_request_is_answered_exactly_once() {
    let mut db = DatabaseOps::new();
    let full = b"*1\r\n$4\r\nPING\r\n".to_vec();

    // The header alone arrives first: no reply yet, buffer kept.
    let mut pending: Vec<u8> = full[..4].to_vec();
    match step(&mut db, &pending, 0) {
        StepResult::Incomplete => {}
        StepResult::Respond(..) => panic!("a partial request must not be answered"),
    }

    // The rest arrives: exactly one reply, consuming the one request.
    pending.extend_from_slice(&full[4..]);
    match step(&mut db, &pending, 0) {
        StepResult::Respond(reply, consumed, close) => {
            assert_eq!(reply, b"+PONG\r\n".to_vec());
            assert_eq!(consumed, pending.len());
            assert!(!close);
        }
        StepResult::Incomplete => panic!("a whole request must be answered"),
    }
}

#[test]
fn respond_reads_the_clock_and_answers() {
    let mut db = DatabaseOps::new();
    match respond(&mut db, b"*1\r\n$4\r\nPING\r\n") {
        StepResult::Respond(reply, _, close) => {
            assert_eq!(reply, b"+PONG\r\n".to_vec());
            assert!(!close);
        }
        StepResult::Incomplete => panic!("a whole request must be answered"),
    }
}

#[test]
fn malformed_envelope_closes_with_protocol_error() {
    let mut db = DatabaseOps::new();
    match step(&mut db, b"hello\r\n", 0) {
        StepResult::Respond(reply, consumed, close) => {
            assert_eq!(reply, b"-ERR protocol error\r\n".to_vec());
            assert_eq!(consumed, 7);
            assert!(close);
        }
        StepResult::Incomplete => panic!("a broken envelope must be answered"),
    }
}

#[test]
fn crlf_in_a_bad_modifier_cannot_break_framing() {
    let mut db = DatabaseOps::new();
    // SET k v <token holding \r\n>: the token is echoed into the error
    // line, so its terminator bytes must not survive there.
    let req = b"*4\r\n$3\r\nSET\r\n$1\r\nk\r\n$1\r\nv\r\n$4\r\na\r\nb\r\n";
    match step(&mut db, req, 0) {
        StepResult::Respond(reply, consumed, close) => {
            assert_eq!(
                reply,
                b"-ERR syntax error. Invalid modifier: a  b\r\n".to_vec()
            );
            assert_eq!(consumed, req.len());
            assert!(!close);
            // The reply is exactly one well-formed frame: it decodes
            // whole, leaving nothing over and splitting nowhere.
            assert_eq!(
                decode(&reply, 0),
                Ok((
                    Value::Error(b"ERR syntax error. Invalid modifier: a  b".to_vec()),
                    reply.len()
                ))
            );
        }
        StepResult::Incomplete => panic!("a whole request must be answered"),
    }
}

#[test]
fn pipelined_requests_are_consumed_one_at_a_time() {
    let mut db = DatabaseOps::new();
    let one = b"*1\r\n$4\r\nPING\r\n";
    let mut pending: Vec<u8> = Vec::new();
    pending.extend_from_slice(one);
    pending.extend_from_slice(one);
    match step(&mut db, &pending, 0) {
        StepResult::Respond(reply, consumed, close) => {
            assert_eq!(reply, b"+PONG\r\n".to_vec());
            assert_eq!(consumed, one.len());
            assert!(!close);
        }
        StepResult::Incomplete => panic!("a whole request must be answered"),
    }
}
