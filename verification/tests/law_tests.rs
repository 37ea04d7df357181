use ferrite_kv::aof::replay_at;
use ferrite_kv::command::Command;
use ferrite_kv::resp::{Cursor, Frame};
use ferrite_kv::storage::Storage;

#[test]
fn law_round_trip_on_nested_frame() {
    let f = Frame::Array(vec![
        Frame::Simple("a b".into()),
        Frame::Array(vec![Frame::Integer(-1), Frame::Bulk(b"\r\n".to_vec())]),
        Frame::Null,
    ]);
    let mut bytes = Vec::new();
    f.serialize(&mut bytes);
    let mut c = Cursor::new(&bytes[..]);
    Frame::check(&mut c).unwrap();
    assert_eq!(c.position(), bytes.len());
    let mut c = Cursor::new(&bytes[..]);
    assert_eq!(Frame::parse(&mut c).unwrap(), f);
    assert_eq!(c.position(), bytes.len());
}

#[test]
fn law_get_after_set_and_other_keys_untouched() {
    let mut db = Storage::new();
    db.set_at("other".into(), b"o".to_vec(), None, 0);
    db.set_at("k".into(), b"v".to_vec(), Some(50), 0);
    assert_eq!(db.get_at("k", 49), Some(b"v".to_vec()));
    assert_eq!(db.get_at("other", 49), Some(b"o".to_vec()));
    assert_eq!(db.get_at("k", 50), None);
}

#[test]
fn law_get_after_del() {
    let mut db = Storage::new();
    db.set_at("k".into(), b"v".to_vec(), None, 0);
    assert_eq!(db.del_at(&["k".into()], 0), 1);
    assert_eq!(db.get_at("k", 0), None);
    assert_eq!(db.del_at(&["k".into()], 0), 0);
}

#[test]
fn law_incr_twice_adds_both() {
    let mut db = Storage::new();
    assert_eq!(db.incr_by_at("n".into(), 7, 0), Ok(7));
    assert_eq!(db.incr_by_at("n".into(), -10, 0), Ok(-3));
    assert_eq!(db.get_at("n", 0), Some(b"-3".to_vec()));
}

#[test]
fn law_ttl_after_set_and_expire_keeps_value() {
    let mut db = Storage::new();
    db.set_at("k".into(), b"v".to_vec(), Some(3_000_000_000), 0);
    assert_eq!(db.ttl_at("k", 0), 3);
    assert!(db.expire_at("k", 60_000_000_000, 1));
    assert_eq!(db.get_at("k", 1), Some(b"v".to_vec()));
    assert_eq!(db.ttl_at("k", 1), 60);
}

#[test]
fn law_live_and_dead_keys_partition_the_store() {
    let mut db = Storage::new();
    db.set_at("a".into(), b"1".to_vec(), Some(1), 0);
    db.set_at("b".into(), b"2".to_vec(), Some(100), 0);
    db.set_at("c".into(), b"3".to_vec(), None, 0);
    let live = db.dbsize_at(10);
    let purged = db.purge_expired_at(10);
    assert_eq!(live, 2);
    assert_eq!(purged, 1);
    assert_eq!(db.dbsize_at(10), 2);
}

#[test]
fn law_mutating_commands_are_exactly_the_logged_ones() {
    let cmds = vec![
        Command::Ping(None),
        Command::Get("k".into()),
        Command::Exists(vec!["k".into()]),
        Command::Ttl("k".into()),
        Command::MGet(vec!["k".into()]),
        Command::DbSize,
        Command::Info,
        Command::Command,
        Command::Unknown("X".into()),
        Command::Incr("k".into()),
        Command::FlushDb,
    ];
    for c in cmds {
        assert_eq!(c.is_mutating(), c.to_frame().is_some());
    }
}

#[test]
fn law_log_frame_decodes_to_the_command() {
    let cmds = vec![
        Command::SetKey { key: "k".into(), value: b"v".to_vec(), ttl: Some(4_000_000_000) },
        Command::Del(vec!["a".into(), "b".into()]),
        Command::Expire { key: "k".into(), ttl: 9_000_000_000 },
        Command::Incr("k".into()),
        Command::Decr("k".into()),
        Command::IncrBy { key: "k".into(), delta: i64::MIN },
        Command::DecrBy { key: "k".into(), delta: 12 },
        Command::MSet(vec![("a".into(), vec![0, 255])]),
        Command::FlushDb,
    ];
    for c in cmds {
        let f = c.to_frame().unwrap();
        assert_eq!(Command::from_frame(f), Ok(c));
    }
}

#[test]
fn law_sub_second_ttl_is_not_preserved_by_the_log() {
    let c = Command::SetKey { key: "k".into(), value: b"v".to_vec(), ttl: Some(1_500_000_000) };
    let back = Command::from_frame(c.to_frame().unwrap()).unwrap();
    assert_eq!(
        back,
        Command::SetKey { key: "k".into(), value: b"v".to_vec(), ttl: Some(1_000_000_000) }
    );
}

#[test]
fn law_replaying_the_log_runs_the_commands() {
    let cmds = vec![
        Command::SetKey { key: "a".into(), value: b"5".to_vec(), ttl: None },
        Command::IncrBy { key: "a".into(), delta: 3 },
        Command::Del(vec!["a".into()]),
        Command::Incr("a".into()),
    ];
    let mut log = Vec::new();
    for c in &cmds {
        c.to_frame().unwrap().serialize(&mut log);
    }
    let mut db = Storage::new();
    assert_eq!(replay_at(&log, &mut db, 0), Ok(4));
    assert_eq!(db.get_at("a", 0), Some(b"1".to_vec()));
}

#[test]
fn law_purge_is_invisible_to_later_reads() {
    let mut a = Storage::new();
    let mut b = Storage::new();
    for db in [&mut a, &mut b] {
        db.set_at("dead".into(), b"1".to_vec(), Some(5), 0);
        db.set_at("alive".into(), b"2".to_vec(), Some(500), 0);
        db.set_at("forever".into(), b"3".to_vec(), None, 0);
    }
    assert_eq!(a.purge_expired_at(10), 1);
    for key in ["dead", "alive", "forever", "missing"] {
        assert_eq!(a.ttl_at(key, 20), b.ttl_at(key, 20));
        assert_eq!(a.get_at(key, 20), b.get_at(key, 20));
    }
    assert_eq!(a.dbsize_at(20), b.dbsize_at(20));
}

#[test]
fn law_check_prefix_and_extension_on_concrete_bytes() {
    let bytes: &[u8] = b"*2\r\n$3\r\nGET\r\n:12\r\n";
    let mut c = Cursor::new(bytes);
    Frame::check(&mut c).unwrap();
    assert_eq!(c.position(), bytes.len());
    for k in 0..bytes.len() {
        let mut c = Cursor::new(&bytes[..k]);
        assert_eq!(Frame::check(&mut c), Err(ferrite_kv::resp::RespError::Incomplete));
    }
    let mut longer = bytes.to_vec();
    longer.extend_from_slice(b"garbage\xff");
    let mut c = Cursor::new(&longer[..]);
    Frame::check(&mut c).unwrap();
    assert_eq!(c.position(), bytes.len());
}

#[test]
fn law_check_then_parse_fails_only_on_bad_text() {
    let bytes: &[u8] = b"*2\r\n+ok\r\n-\xff\r\n";
    let mut c = Cursor::new(bytes);
    Frame::check(&mut c).unwrap();
    let mut c = Cursor::new(bytes);
    assert_eq!(
        Frame::parse(&mut c),
        Err(ferrite_kv::resp::RespError::Invalid("invalid UTF-8 in error string".to_string()))
    );
}

#[test]
fn law_mget_answers_like_gets() {
    let mut db = Storage::new();
    db.set_at("a".into(), b"1".to_vec(), None, 0);
    db.set_at("old".into(), b"x".to_vec(), Some(1), 0);
    let reply = Command::MGet(vec!["a".into(), "old".into(), "a".into(), "none".into()]).execute_at(&mut db, 5);
    assert_eq!(
        reply,
        Frame::Array(vec![Frame::Bulk(b"1".to_vec()), Frame::Null, Frame::Bulk(b"1".to_vec()), Frame::Null])
    );
}

#[test]
fn law_reads_keep_live_keys() {
    let mut db = Storage::new();
    db.set_at("a".into(), b"1".to_vec(), Some(100), 0);
    db.set_at("dead".into(), b"2".to_vec(), Some(1), 0);
    for c in [
        Command::Get("dead".into()),
        Command::Exists(vec!["a".into(), "dead".into()]),
        Command::Ttl("a".into()),
        Command::DbSize,
        Command::Info,
    ] {
        c.execute_at(&mut db, 10);
        assert_eq!(db.get_at("a", 10), Some(b"1".to_vec()));
        assert_eq!(db.ttl_at("a", 10), 0);
        assert_eq!(db.dbsize_at(10), 1);
    }
}

#[test]
fn law_log_frames_are_bulk_strings_headed_by_the_name() {
    let cases = vec![
        (Command::SetKey { key: "k".into(), value: b"v".to_vec(), ttl: Some(2_000_000_000) }, "SET"),
        (Command::MSet(vec![("a".into(), b"1".to_vec()), ("b".into(), b"2".to_vec())]), "MSET"),
        (Command::Del(vec!["a".into()]), "DEL"),
        (Command::FlushDb, "FLUSHDB"),
    ];
    for (c, name) in cases {
        match c.to_frame() {
            Some(Frame::Array(items)) => {
                assert_eq!(items[0], Frame::Bulk(name.as_bytes().to_vec()));
                assert!(items.iter().all(|f| matches!(f, Frame::Bulk(_))));
            }
            other => panic!("unexpected log frame {:?}", other),
        }
    }
}
