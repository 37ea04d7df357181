use ferrite_kv::command::Command;
use ferrite_kv::resp::Frame;
use ferrite_kv::storage::Storage;

const SECOND: u128 = 1_000_000_000;

fn bulk(s: &str) -> Frame {
    Frame::Bulk(s.as_bytes().to_vec())
}

fn array(parts: &[&str]) -> Frame {
    Frame::Array(parts.iter().map(|p| bulk(p)).collect())
}

fn decode(parts: &[&str]) -> Result<Command, String> {
    Command::from_frame(array(parts))
}

#[test]
fn test_parse_ping_and_get_set() {
    let ping_frame = Frame::Array(vec![Frame::Bulk(b"PING".to_vec())]);
    let cmd = Command::from_frame(ping_frame).unwrap();
    assert_eq!(cmd, Command::Ping(None));

    let set_frame = Frame::Array(vec![
        Frame::Bulk(b"SET".to_vec()),
        Frame::Bulk(b"mykey".to_vec()),
        Frame::Bulk(b"myval".to_vec()),
        Frame::Bulk(b"EX".to_vec()),
        Frame::Bulk(b"60".to_vec()),
    ]);
    let cmd = Command::from_frame(set_frame).unwrap();
    assert_eq!(
        cmd,
        Command::SetKey {
            key: "mykey".into(),
            value: b"myval".to_vec(),
            ttl: Some(60 * SECOND),
        }
    );
    assert!(cmd.is_mutating());
}

#[test]
fn test_execute_set_get() {
    let mut db = Storage::new();
    let set_cmd = Command::SetKey {
        key: "user:1".into(),
        value: b"Alice".to_vec(),
        ttl: None,
    };
    let res = set_cmd.execute(&mut db);
    assert_eq!(res, Frame::Simple("OK".into()));

    let get_cmd = Command::Get("user:1".into());
    let res = get_cmd.execute(&mut db);
    assert_eq!(res, Frame::Bulk(b"Alice".to_vec()));
}

#[test]
fn decode_names_case_insensitively() {
    assert_eq!(decode(&["get", "k"]), Ok(Command::Get("k".into())));
    assert_eq!(decode(&["GeT", "k"]), Ok(Command::Get("k".into())));
    let simple_name = Frame::Array(vec![Frame::Simple("ping".into())]);
    assert_eq!(Command::from_frame(simple_name), Ok(Command::Ping(None)));
}

#[test]
fn decode_every_command() {
    assert_eq!(decode(&["PING", "hi"]), Ok(Command::Ping(Some(b"hi".to_vec()))));
    assert_eq!(decode(&["ECHO", "yo"]), Ok(Command::Echo(b"yo".to_vec())));
    assert_eq!(decode(&["DEL", "a", "b"]), Ok(Command::Del(vec!["a".into(), "b".into()])));
    assert_eq!(decode(&["EXISTS", "a"]), Ok(Command::Exists(vec!["a".into()])));
    assert_eq!(
        decode(&["EXPIRE", "a", "10"]),
        Ok(Command::Expire { key: "a".into(), ttl: 10 * SECOND })
    );
    assert_eq!(decode(&["TTL", "a"]), Ok(Command::Ttl("a".into())));
    assert_eq!(decode(&["INCR", "a"]), Ok(Command::Incr("a".into())));
    assert_eq!(decode(&["DECR", "a"]), Ok(Command::Decr("a".into())));
    assert_eq!(
        decode(&["INCRBY", "a", "-3"]),
        Ok(Command::IncrBy { key: "a".into(), delta: -3 })
    );
    assert_eq!(
        decode(&["DECRBY", "a", "4"]),
        Ok(Command::DecrBy { key: "a".into(), delta: 4 })
    );
    assert_eq!(decode(&["MGET", "a", "b"]), Ok(Command::MGet(vec!["a".into(), "b".into()])));
    assert_eq!(
        decode(&["MSET", "a", "1", "b", "2"]),
        Ok(Command::MSet(vec![("a".into(), b"1".to_vec()), ("b".into(), b"2".to_vec())]))
    );
    assert_eq!(decode(&["DBSIZE"]), Ok(Command::DbSize));
    assert_eq!(decode(&["FLUSHDB"]), Ok(Command::FlushDb));
    assert_eq!(decode(&["INFO"]), Ok(Command::Info));
    assert_eq!(decode(&["COMMAND"]), Ok(Command::Command));
    assert_eq!(decode(&["hello"]), Ok(Command::Unknown("HELLO".into())));
}

#[test]
fn decode_set_with_px_and_options() {
    assert_eq!(
        decode(&["SET", "k", "v", "px", "1500"]),
        Ok(Command::SetKey { key: "k".into(), value: b"v".to_vec(), ttl: Some(1_500_000_000) })
    );
    assert_eq!(
        decode(&["SET", "k", "v", "EX", "1", "PX", "20"]),
        Ok(Command::SetKey { key: "k".into(), value: b"v".to_vec(), ttl: Some(20_000_000) })
    );
    assert_eq!(decode(&["SET", "k", "v", "EX"]), Err("ERR syntax error".into()));
    assert_eq!(
        decode(&["SET", "k", "v", "nx"]),
        Err("ERR syntax error unknown option 'NX'".into())
    );
    assert_eq!(
        decode(&["SET", "k", "v", "EX", "-1"]),
        Err("ERR value is not an integer or out of range".into())
    );
}

#[test]
fn decode_errors() {
    assert_eq!(Command::from_frame(bulk("PING")), Err("ERR expected array of bulk strings".into()));
    assert_eq!(Command::from_frame(Frame::Array(vec![])), Err("ERR empty command".into()));
    assert_eq!(
        Command::from_frame(Frame::Array(vec![Frame::Integer(1)])),
        Err("ERR invalid command format".into())
    );
    assert_eq!(
        Command::from_frame(Frame::Array(vec![Frame::Bulk(vec![0xff])])),
        Err("ERR invalid command name".into())
    );
    assert_eq!(
        decode(&["PING", "a", "b"]),
        Err("ERR wrong number of arguments for 'ping' command".into())
    );
    assert_eq!(decode(&["GET"]), Err("ERR wrong number of arguments for 'get' command".into()));
    assert_eq!(
        Command::from_frame(Frame::Array(vec![bulk("ECHO"), Frame::Integer(3)])),
        Err("ERR invalid argument for 'echo'".into())
    );
    assert_eq!(
        Command::from_frame(Frame::Array(vec![bulk("GET"), Frame::Integer(3)])),
        Err("ERR expected string argument".into())
    );
    assert_eq!(
        Command::from_frame(Frame::Array(vec![bulk("GET"), Frame::Bulk(vec![0xc3])])),
        Err("ERR invalid UTF-8 string".into())
    );
    assert_eq!(
        Command::from_frame(Frame::Array(vec![bulk("SET"), bulk("k"), Frame::Simple("v".into())])),
        Err("ERR invalid value for 'set'".into())
    );
    assert_eq!(
        decode(&["MSET", "a", "1", "b"]),
        Err("ERR wrong number of arguments for 'mset' command".into())
    );
    assert_eq!(
        Command::from_frame(Frame::Array(vec![bulk("MSET"), bulk("a"), Frame::Null])),
        Err("ERR invalid value in mset".into())
    );
    assert_eq!(
        decode(&["INCRBY", "a", "x"]),
        Err("ERR value is not an integer or out of range".into())
    );
}

#[test]
fn ping_with_non_bulk_argument_has_no_message() {
    let frame = Frame::Array(vec![bulk("PING"), Frame::Integer(5)]);
    assert_eq!(Command::from_frame(frame), Ok(Command::Ping(None)));
}

#[test]
fn mutating_commands() {
    assert!(Command::Del(vec!["a".into()]).is_mutating());
    assert!(Command::FlushDb.is_mutating());
    assert!(Command::MSet(vec![]).is_mutating());
    assert!(!Command::Get("a".into()).is_mutating());
    assert!(!Command::Ping(None).is_mutating());
    assert!(!Command::Info.is_mutating());
}

#[test]
fn to_frame_encodings() {
    let set = Command::SetKey { key: "k".into(), value: b"v".to_vec(), ttl: Some(2_500_000_000) };
    assert_eq!(set.to_frame(), Some(array(&["SET", "k", "v", "EX", "2"])));
    assert_eq!(
        Command::Expire { key: "k".into(), ttl: 7 * SECOND }.to_frame(),
        Some(array(&["EXPIRE", "k", "7"]))
    );
    assert_eq!(
        Command::DecrBy { key: "k".into(), delta: -9 }.to_frame(),
        Some(array(&["DECRBY", "k", "-9"]))
    );
    assert_eq!(
        Command::MSet(vec![("a".into(), b"1".to_vec())]).to_frame(),
        Some(array(&["MSET", "a", "1"]))
    );
    assert_eq!(Command::Del(vec!["x".into(), "y".into()]).to_frame(), Some(array(&["DEL", "x", "y"])));
    assert_eq!(Command::FlushDb.to_frame(), Some(array(&["FLUSHDB"])));
    assert_eq!(Command::Get("k".into()).to_frame(), None);
    assert_eq!(Command::Info.to_frame(), None);
}

#[test]
fn execute_replies() {
    let mut db = Storage::new();
    assert_eq!(Command::Ping(None).execute(&mut db), Frame::Simple("PONG".into()));
    assert_eq!(Command::Ping(Some(b"hey".to_vec())).execute(&mut db), bulk("hey"));
    assert_eq!(Command::Echo(b"e".to_vec()).execute(&mut db), bulk("e"));
    assert_eq!(Command::Get("none".into()).execute(&mut db), Frame::Null);
    assert_eq!(
        Command::MSet(vec![("a".into(), b"1".to_vec()), ("b".into(), b"x".to_vec())]).execute(&mut db),
        Frame::Simple("OK".into())
    );
    assert_eq!(
        Command::MGet(vec!["a".into(), "zz".into(), "b".into()]).execute(&mut db),
        Frame::Array(vec![bulk("1"), Frame::Null, bulk("x")])
    );
    assert_eq!(Command::Exists(vec!["a".into(), "zz".into()]).execute(&mut db), Frame::Integer(1));
    assert_eq!(Command::Incr("a".into()).execute(&mut db), Frame::Integer(2));
    assert_eq!(Command::Decr("a".into()).execute(&mut db), Frame::Integer(1));
    assert_eq!(
        Command::IncrBy { key: "a".into(), delta: 10 }.execute(&mut db),
        Frame::Integer(11)
    );
    assert_eq!(
        Command::DecrBy { key: "a".into(), delta: 20 }.execute(&mut db),
        Frame::Integer(-9)
    );
    assert_eq!(
        Command::Incr("b".into()).execute(&mut db),
        Frame::Error("ERR value is not an integer or out of range".into())
    );
    assert_eq!(Command::Ttl("a".into()).execute(&mut db), Frame::Integer(-1));
    assert_eq!(Command::Ttl("zz".into()).execute(&mut db), Frame::Integer(-2));
    assert_eq!(
        Command::Expire { key: "a".into(), ttl: 100 * SECOND }.execute(&mut db),
        Frame::Integer(1)
    );
    assert_eq!(
        Command::Expire { key: "zz".into(), ttl: SECOND }.execute(&mut db),
        Frame::Integer(0)
    );
    assert_eq!(Command::DbSize.execute(&mut db), Frame::Integer(2));
    assert_eq!(
        Command::Info.execute(&mut db),
        bulk("# Server\r\nferrite_version:0.1.0\r\ntcp_port:6379\r\n# Keyspace\r\nkeys=2\r\n")
    );
    assert_eq!(Command::Command.execute(&mut db), Frame::Array(vec![]));
    assert_eq!(
        Command::Unknown("FOO".into()).execute(&mut db),
        Frame::Error("ERR unknown command 'FOO'".into())
    );
    assert_eq!(Command::Del(vec!["a".into(), "b".into(), "c".into()]).execute(&mut db), Frame::Integer(2));
    assert_eq!(Command::FlushDb.execute(&mut db), Frame::Simple("OK".into()));
    assert_eq!(Command::DbSize.execute(&mut db), Frame::Integer(0));
}

#[test]
fn execute_incr_overflow_is_an_error() {
    let mut db = Storage::new();
    db.set("n".into(), i64::MAX.to_string().into_bytes(), None);
    assert_eq!(
        Command::Incr("n".into()).execute(&mut db),
        Frame::Error("ERR increment or decrement would overflow".into())
    );
    assert_eq!(db.get("n"), Some(i64::MAX.to_string().into_bytes()));
}

#[test]
fn negation_overflow_detection() {
    assert!(Command::DecrBy { key: "k".into(), delta: i64::MIN }.negation_overflows());
    assert!(!Command::DecrBy { key: "k".into(), delta: i64::MAX }.negation_overflows());
    assert!(!Command::Incr("k".into()).negation_overflows());
}

#[test]
fn clone_keeps_every_field() {
    let cmds = vec![
        Command::Ping(Some(b"p".to_vec())),
        Command::SetKey { key: "k".into(), value: b"v".to_vec(), ttl: Some(3) },
        Command::Del(vec!["a".into(), "b".into()]),
        Command::MSet(vec![("a".into(), b"1".to_vec())]),
        Command::DecrBy { key: "k".into(), delta: -4 },
        Command::Unknown("X".into()),
    ];
    for c in &cmds {
        assert_eq!(&c.clone(), c);
    }
}
