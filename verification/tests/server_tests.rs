use ferrite_kv::connection::{closed_outcome, parse_frame, ConnectionError};
use ferrite_kv::resp::{Frame, RespError};
use ferrite_kv::server::{serve_request, serve_request_at};
use ferrite_kv::storage::Storage;
use ferrite_kv::aof::replay;

/// Feeds `input` to one connection's decision step and returns what is
/// written back, as bytes, and the log records, as bytes.
fn exchange(db: &mut Storage, input: &[u8], logging: bool) -> (Vec<u8>, Vec<u8>) {
    let mut buffered = input.to_vec();
    let mut out = Vec::new();
    let mut log = Vec::new();
    loop {
        match parse_frame(&buffered).unwrap() {
            Some((frame, used)) => {
                buffered.drain(..used);
                let (reply, record) = serve_request(frame, db, logging).unwrap();
                if let Some(rec) = record {
                    rec.serialize(&mut log);
                }
                reply.serialize(&mut out);
            }
            None => break,
        }
    }
    (out, log)
}

#[test]
fn test_end_to_end_server() {
    let mut db = Storage::new();
    let send = |db: &mut Storage, bytes: &[u8]| exchange(db, bytes, false).0;

    assert_eq!(send(&mut db, b"*1\r\n$4\r\nPING\r\n"), b"+PONG\r\n".to_vec());
    assert_eq!(
        send(&mut db, b"*3\r\n$3\r\nSET\r\n$4\r\nname\r\n$9\r\nrustacean\r\n"),
        b"+OK\r\n".to_vec()
    );
    assert_eq!(send(&mut db, b"*2\r\n$3\r\nGET\r\n$4\r\nname\r\n"), b"$9\r\nrustacean\r\n".to_vec());
    assert_eq!(send(&mut db, b"*2\r\n$4\r\nINCR\r\n$7\r\ncounter\r\n"), b":1\r\n".to_vec());
    assert_eq!(send(&mut db, b"*2\r\n$3\r\nDEL\r\n$4\r\nname\r\n"), b":1\r\n".to_vec());
    assert_eq!(send(&mut db, b"*2\r\n$3\r\nGET\r\n$4\r\nname\r\n"), b"$-1\r\n".to_vec());
}

#[test]
fn test_server_with_aof_persistence() {
    let mut db1 = Storage::new();
    let (out, log) = exchange(
        &mut db1,
        b"*3\r\n$3\r\nSET\r\n$4\r\nhero\r\n$7\r\nferrite\r\n*2\r\n$4\r\nINCR\r\n$5\r\nstars\r\n",
        true,
    );
    assert_eq!(out, b"+OK\r\n:1\r\n".to_vec());

    let mut db2 = Storage::new();
    assert_eq!(replay(&log, &mut db2), Ok(2));
    let (out, _) = exchange(&mut db2, b"*2\r\n$3\r\nGET\r\n$4\r\nhero\r\n", false);
    assert_eq!(out, b"$7\r\nferrite\r\n".to_vec());
    let (out, _) = exchange(&mut db2, b"*2\r\n$3\r\nGET\r\n$5\r\nstars\r\n", false);
    assert_eq!(out, b"$1\r\n1\r\n".to_vec());
}

#[test]
fn reads_are_not_logged() {
    let mut db = Storage::new();
    let (_, log) = exchange(&mut db, b"*2\r\n$3\r\nGET\r\n$1\r\na\r\n*1\r\n$4\r\nPING\r\n", true);
    assert!(log.is_empty());
    let (_, log) = exchange(&mut db, b"*2\r\n$4\r\nINCR\r\n$1\r\na\r\n", false);
    assert!(log.is_empty());
}

#[test]
fn bad_request_gets_error_reply() {
    let mut db = Storage::new();
    let (out, log) = exchange(&mut db, b"*1\r\n$3\r\nGET\r\n", true);
    assert_eq!(out, b"-ERR wrong number of arguments for 'get' command\r\n".to_vec());
    assert!(log.is_empty());
}

#[test]
fn pipelined_and_inline_requests() {
    let mut db = Storage::new();
    let (out, _) = exchange(&mut db, b"SET k 5\r\nINCR k\r\nGET k\r\n", false);
    assert_eq!(out, b"+OK\r\n:6\r\n$1\r\n6\r\n".to_vec());
}

#[test]
fn parse_frame_reports_length_and_partial_input() {
    let input = b"+OK\r\n:1";
    assert_eq!(parse_frame(input), Ok(Some((Frame::Simple("OK".into()), 5))));
    assert_eq!(parse_frame(&input[5..]), Ok(None));
    assert_eq!(parse_frame(b""), Ok(None));
    assert_eq!(
        parse_frame(b":abc\r\n"),
        Err(RespError::Invalid("failed to parse integer".into()))
    );
}

#[test]
fn decrby_of_smallest_i64_is_refused() {
    let mut db = Storage::new();
    let frame = Frame::Array(vec![
        Frame::Bulk(b"DECRBY".to_vec()),
        Frame::Bulk(b"k".to_vec()),
        Frame::Bulk(b"-9223372036854775808".to_vec()),
    ]);
    assert_eq!(serve_request_at(frame, &mut db, true, 0), None);
    assert_eq!(db.dbsize_at(0), 0);
}

#[test]
fn closed_connection_outcomes() {
    assert!(matches!(closed_outcome(0), Ok(None)));
    assert!(matches!(closed_outcome(3), Err(ConnectionError::ResetByPeer)));
}

#[test]
fn connection_error_texts() {
    assert_eq!(ConnectionError::ResetByPeer.describe(), "Connection reset by peer");
    assert_eq!(
        ConnectionError::from(RespError::Incomplete).describe(),
        "Protocol error: incomplete RESP frame"
    );
    assert_eq!(
        ConnectionError::Protocol(RespError::Invalid("x".into())).describe(),
        "Protocol error: invalid RESP frame: x"
    );
    let io = std::io::Error::new(std::io::ErrorKind::Other, "disk on fire");
    assert_eq!(ConnectionError::from(io).describe(), "IO error: disk on fire");
}

#[test]
fn law_frame_cut_from_pipeline_on_concrete_bytes() {
    let f = Frame::Array(vec![Frame::Bulk(b"GET".to_vec()), Frame::Bulk(b"k".to_vec())]);
    let mut bytes = Vec::new();
    f.serialize(&mut bytes);
    let len = bytes.len();
    bytes.extend_from_slice(b"*1\r\n$4\r\nPI");
    assert_eq!(parse_frame(&bytes), Ok(Some((f, len))));
}
