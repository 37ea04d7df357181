use ferrite_kv::aof::{replay, replay_at};
use ferrite_kv::command::Command;
use ferrite_kv::resp::Frame;
use ferrite_kv::storage::Storage;

fn log_of(cmds: &[Command]) -> Vec<u8> {
    let mut out = Vec::new();
    for c in cmds {
        c.to_frame().unwrap().serialize(&mut out);
    }
    out
}

#[test]
fn test_aof_replay() {
    let cmd1 = Command::SetKey {
        key: "hero".into(),
        value: b"rustacean".to_vec(),
        ttl: None,
    };
    let cmd2 = Command::Incr("visits".into());

    let mut out = Vec::new();
    cmd1.to_frame().unwrap().serialize(&mut out);
    cmd2.to_frame().unwrap().serialize(&mut out);

    let mut db = Storage::new();
    let replayed = replay(&out, &mut db).unwrap();
    assert_eq!(replayed, 2);

    assert_eq!(db.get("hero"), Some(b"rustacean".to_vec()));
    assert_eq!(db.get("visits"), Some(b"1".to_vec()));
}

#[test]
fn replay_of_empty_log() {
    let mut db = Storage::new();
    assert_eq!(replay(&[], &mut db), Ok(0));
    assert_eq!(db.dbsize(), 0);
}

#[test]
fn replay_stops_at_truncated_tail() {
    let mut log = log_of(&[Command::Incr("a".into()), Command::Incr("a".into())]);
    log.extend_from_slice(b"*2\r\n$4\r\nINCR\r\n$1\r\n");
    let mut db = Storage::new();
    assert_eq!(replay_at(&log, &mut db, 0), Ok(2));
    assert_eq!(db.get_at("a", 0), Some(b"2".to_vec()));
}

#[test]
fn replay_skips_frames_that_do_not_decode() {
    let mut log = Vec::new();
    Frame::Integer(5).serialize(&mut log);
    Frame::Array(vec![Frame::Bulk(b"GET".to_vec())]).serialize(&mut log);
    Command::SetKey { key: "k".into(), value: b"v".to_vec(), ttl: None }
        .to_frame()
        .unwrap()
        .serialize(&mut log);
    let mut db = Storage::new();
    assert_eq!(replay_at(&log, &mut db, 0), Ok(1));
    assert_eq!(db.get_at("k", 0), Some(b"v".to_vec()));
}

#[test]
fn replay_counts_reads_too() {
    let log = log_of(&[Command::MSet(vec![("x".into(), b"1".to_vec()), ("y".into(), b"2".to_vec())])]);
    let mut extra = Vec::new();
    Frame::Array(vec![Frame::Bulk(b"GET".to_vec()), Frame::Bulk(b"x".to_vec())]).serialize(&mut extra);
    let mut all = log.clone();
    all.extend_from_slice(&extra);
    let mut db = Storage::new();
    assert_eq!(replay_at(&all, &mut db, 0), Ok(2));
    assert_eq!(db.dbsize_at(0), 2);
}

#[test]
fn replay_stops_on_malformed_frame() {
    let mut log = log_of(&[Command::Incr("a".into())]);
    log.extend_from_slice(b"$3\r\nabcXY");
    log.extend_from_slice(&log_of(&[Command::Incr("a".into())]));
    let mut db = Storage::new();
    assert_eq!(replay_at(&log, &mut db, 0), Ok(1));
    assert_eq!(db.get_at("a", 0), Some(b"1".to_vec()));
}

#[test]
fn replay_refuses_decrby_of_smallest_i64() {
    let log = log_of(&[
        Command::Incr("a".into()),
        Command::DecrBy { key: "a".into(), delta: i64::MIN },
        Command::Incr("a".into()),
    ]);
    let mut db = Storage::new();
    assert_eq!(replay_at(&log, &mut db, 0), Err(1));
    assert_eq!(db.get_at("a", 0), Some(b"1".to_vec()));
}

#[test]
fn replay_restores_every_logged_command() {
    let cmds = vec![
        Command::SetKey { key: "s".into(), value: b"v".to_vec(), ttl: Some(5_000_000_000) },
        Command::MSet(vec![("m1".into(), b"10".to_vec()), ("m2".into(), b"x".to_vec())]),
        Command::IncrBy { key: "m1".into(), delta: 5 },
        Command::DecrBy { key: "m1".into(), delta: 2 },
        Command::Decr("d".into()),
        Command::Expire { key: "m2".into(), ttl: 1_000_000_000 },
        Command::Del(vec!["gone".into()]),
    ];
    let mut direct = Storage::new();
    for c in cmds.clone() {
        c.execute_at(&mut direct, 0);
    }
    let mut replayed = Storage::new();
    assert_eq!(replay_at(&log_of(&cmds), &mut replayed, 0), Ok(cmds.len()));
    for key in ["s", "m1", "m2", "d", "gone"] {
        assert_eq!(replayed.get_at(key, 0), direct.get_at(key, 0));
        assert_eq!(replayed.ttl_at(key, 0), direct.ttl_at(key, 0));
    }
    assert_eq!(replayed.get_at("m1", 0), Some(b"13".to_vec()));
    assert_eq!(replayed.get_at("d", 0), Some(b"-1".to_vec()));
}
