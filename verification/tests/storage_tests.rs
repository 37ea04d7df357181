use ferrite_kv::storage::{Entry, Storage};

const MILLI: u128 = 1_000_000;
const SECOND: u128 = 1_000_000_000;

#[test]
fn test_set_and_get() {
    let mut db = Storage::new();
    db.set("hello".into(), b"world".to_vec(), None);
    assert_eq!(db.get("hello"), Some(b"world".to_vec()));
    assert_eq!(db.get("nonexistent"), None);
}

#[test]
fn test_del_and_exists() {
    let mut db = Storage::new();
    db.set("k1".into(), b"v1".to_vec(), None);
    db.set("k2".into(), b"v2".to_vec(), None);

    assert_eq!(db.exists_keys(&["k1".into(), "k2".into(), "k3".into()]), 2);
    assert_eq!(db.del(&["k1".into(), "k3".into()]), 1);
    assert_eq!(db.get("k1"), None);
    assert_eq!(db.get("k2"), Some(b"v2".to_vec()));
}

#[test]
fn test_expiration() {
    // The store's clock is passed in: 30 ms after a 20 ms time to live.
    let mut db = Storage::new();
    db.set_at("ephemeral".into(), b"fast".to_vec(), Some(20 * MILLI), 0);
    assert_eq!(db.get_at("ephemeral", 0), Some(b"fast".to_vec()));

    assert_eq!(db.get_at("ephemeral", 30 * MILLI), None);
}

#[test]
fn test_incr_by() {
    let mut db = Storage::new();
    assert_eq!(db.incr_by("counter".into(), 1).unwrap(), 1);
    assert_eq!(db.incr_by("counter".into(), 5).unwrap(), 6);
    assert_eq!(db.incr_by("counter".into(), -2).unwrap(), 4);
}

#[test]
fn expiration_on_the_real_clock() {
    let mut db = Storage::new();
    db.set("long".into(), b"v".to_vec(), Some(3600 * SECOND));
    assert_eq!(db.get("long"), Some(b"v".to_vec()));
    db.set("gone".into(), b"v".to_vec(), Some(0));
    assert_eq!(db.get("gone"), None);
}

#[test]
fn set_overwrites_value_and_ttl() {
    let mut db = Storage::new();
    db.set_at("k".into(), b"a".to_vec(), Some(10), 0);
    db.set_at("k".into(), b"b".to_vec(), None, 0);
    assert_eq!(db.get_at("k", 1000), Some(b"b".to_vec()));
    assert_eq!(db.ttl_at("k", 1000), -1);
}

#[test]
fn deadline_is_exclusive() {
    let mut db = Storage::new();
    db.set_at("k".into(), b"a".to_vec(), Some(100), 50);
    assert_eq!(db.get_at("k", 149), Some(b"a".to_vec()));
    assert_eq!(db.get_at("k", 150), None);
}

#[test]
fn deadline_saturates() {
    let mut db = Storage::new();
    db.set_at("k".into(), b"a".to_vec(), Some(u128::MAX), 10);
    assert_eq!(db.get_at("k", u128::MAX - 1), Some(b"a".to_vec()));
}

#[test]
fn del_counts_only_live_keys() {
    let mut db = Storage::new();
    db.set_at("live".into(), b"1".to_vec(), None, 0);
    db.set_at("dead".into(), b"2".to_vec(), Some(5), 0);
    assert_eq!(db.del_at(&["live".into(), "dead".into(), "live".into()], 10), 1);
    assert_eq!(db.dbsize_at(10), 0);
}

#[test]
fn exists_counts_repeats() {
    let mut db = Storage::new();
    db.set("a".into(), b"1".to_vec(), None);
    assert_eq!(db.exists_keys(&["a".into(), "a".into()]), 2);
    assert_eq!(db.exists_keys(&[]), 0);
}

#[test]
fn expire_and_ttl() {
    let mut db = Storage::new();
    db.set_at("k".into(), b"v".to_vec(), None, 0);
    assert_eq!(db.ttl_at("k", 0), -1);
    assert!(db.expire_at("k", 10 * SECOND, 0));
    assert_eq!(db.ttl_at("k", 0), 10);
    assert_eq!(db.ttl_at("k", 500 * MILLI), 9);
    assert_eq!(db.ttl_at("k", 10 * SECOND), -2);
    assert!(!db.expire_at("k", SECOND, 10 * SECOND));
    assert!(!db.expire_at("missing", SECOND, 0));
    assert_eq!(db.ttl_at("missing", 0), -2);
}

#[test]
fn ttl_on_the_real_clock() {
    let mut db = Storage::new();
    db.set("k".into(), b"v".to_vec(), Some(100 * SECOND));
    let t = db.ttl("k");
    assert!(t == 99 || t == 100);
    assert!(db.expire("k", 5 * SECOND));
    let t = db.ttl("k");
    assert!(t == 4 || t == 5);
}

#[test]
fn incr_by_errors() {
    let mut db = Storage::new();
    db.set("s".into(), b"abc".to_vec(), None);
    assert_eq!(
        db.incr_by("s".into(), 1),
        Err("ERR value is not an integer or out of range".to_string())
    );
    db.set("bad".into(), vec![0xff], None);
    assert_eq!(
        db.incr_by("bad".into(), 1),
        Err("ERR value is not an integer or out of range".to_string())
    );
    db.set("max".into(), b"9223372036854775807".to_vec(), None);
    assert_eq!(
        db.incr_by("max".into(), 1),
        Err("ERR increment or decrement would overflow".to_string())
    );
    assert_eq!(db.get("s"), Some(b"abc".to_vec()));
}

#[test]
fn incr_by_on_expired_key_starts_over() {
    let mut db = Storage::new();
    db.set_at("k".into(), b"41".to_vec(), Some(5), 0);
    assert_eq!(db.incr_by_at("k".into(), 3, 10), Ok(3));
    assert_eq!(db.ttl_at("k", 10), -1);
    assert_eq!(db.get_at("k", 10), Some(b"3".to_vec()));
}

#[test]
fn incr_by_accepts_plus_sign() {
    let mut db = Storage::new();
    db.set("k".into(), b"+7".to_vec(), None);
    assert_eq!(db.incr_by("k".into(), 1), Ok(8));
    assert_eq!(db.get("k"), Some(b"8".to_vec()));
}

#[test]
fn dbsize_and_purge() {
    let mut db = Storage::new();
    for i in 0..10u32 {
        let ttl = if i % 2 == 0 { Some(100) } else { None };
        db.set_at(format!("key{}", i), b"v".to_vec(), ttl, 0);
    }
    assert_eq!(db.dbsize_at(0), 10);
    assert_eq!(db.dbsize_at(100), 5);
    assert_eq!(db.purge_expired_at(100), 5);
    assert_eq!(db.purge_expired_at(100), 0);
    assert_eq!(db.dbsize_at(100), 5);
    assert_eq!(db.dbsize(), 5);
    assert_eq!(db.purge_expired(), 0);
}

#[test]
fn flushdb_removes_everything() {
    let mut db = Storage::new();
    db.set("a".into(), b"1".to_vec(), None);
    db.set("b".into(), b"2".to_vec(), Some(SECOND));
    db.flushdb();
    assert_eq!(db.dbsize(), 0);
    assert_eq!(db.get("a"), None);
}

#[test]
fn snapshot_lists_live_entries_with_remaining_ttl() {
    let mut db = Storage::new();
    db.set_at("a".into(), b"1".to_vec(), None, 0);
    db.set_at("b".into(), b"2".to_vec(), Some(100), 0);
    db.set_at("c".into(), b"3".to_vec(), Some(10), 0);
    let mut snap = db.snapshot_at(40);
    snap.sort();
    assert_eq!(
        snap,
        vec![("a".to_string(), b"1".to_vec(), None), ("b".to_string(), b"2".to_vec(), Some(60))]
    );
    let mut snap = db.snapshot();
    snap.sort();
    assert_eq!(snap.len(), 1);
    assert_eq!(snap[0].0, "a");
}

#[test]
fn many_keys_spread_over_shards() {
    let mut db = Storage::default();
    for i in 0..200u32 {
        db.set(format!("k{}", i), i.to_string().into_bytes(), None);
    }
    assert_eq!(db.dbsize(), 200);
    for i in 0..200u32 {
        assert_eq!(db.get(&format!("k{}", i)), Some(i.to_string().into_bytes()));
    }
}

#[test]
fn entry_expiry() {
    let e = Entry::new(b"v".to_vec(), Some(10), 5);
    assert_eq!(e.expires_at, Some(15));
    assert!(!e.is_expired(14));
    assert!(e.is_expired(15));
    let forever = Entry::new(b"v".to_vec(), None, 5);
    assert_eq!(forever.expires_at, None);
    assert!(!forever.is_expired(u128::MAX));
}
