//! What the key-space operations promise together.

use vstd::prelude::*;
use crate::decimal::{int_digits, spec_parse_i64, lemma_parse_i64_of_digits};
use crate::storage::{
    Db, EntryModel, live, deadline, spec_set, spec_get, spec_del, spec_incr_by, spec_ttl,
    spec_expire, spec_exists, live_keys, dead_keys, whole_seconds,
};

verus! {

/// Reading a key back before its deadline gives the value last stored
/// under it.
pub proof fn law_get_after_set(db: Db, k: Seq<char>, v: Seq<u8>, ttl: Option<u128>, t: u128, t2: u128)
    requires
        live(EntryModel { value: v, expires_at: deadline(t, ttl) }, t2),
    ensures
        spec_get(spec_set(db, k, v, ttl, t), k, t2) == (Some(v), spec_set(db, k, v, ttl, t)),
{
}

/// Storing under one key leaves what another key reads unchanged.
pub proof fn law_set_keeps_other_keys(db: Db, k: Seq<char>, other: Seq<char>, v: Seq<u8>, ttl: Option<u128>, t: u128, t2: u128)
    requires
        k != other,
    ensures
        spec_get(spec_set(db, k, v, ttl, t), other, t2).0 == spec_get(db, other, t2).0,
{
}

/// Once its deadline has passed, a key reads as absent and is removed.
pub proof fn law_get_after_deadline(db: Db, k: Seq<char>, v: Seq<u8>, d: u128, t: u128, t2: u128)
    requires
        t + d <= t2,
    ensures
        spec_get(spec_set(db, k, v, Some(d), t), k, t2) == (None::<Seq<u8>>, db.remove(k)),
{
    assert(spec_set(db, k, v, Some(d), t).remove(k) =~= db.remove(k));
}

/// A deleted key reads as absent.
pub proof fn law_get_after_del(db: Db, k: Seq<char>, t: u128, t2: u128)
    ensures
        spec_get(spec_del(db, seq![k], t).1, k, t2).0 == None::<Seq<u8>>,
{
    assert(seq![k].drop_last() =~= Seq::<Seq<char>>::empty());
}

/// Deleting a key that holds a live entry counts it once.
pub proof fn law_del_counts_live_key(db: Db, k: Seq<char>, t: u128)
    requires
        db.contains_key(k),
        live(db[k], t),
    ensures
        spec_del(db, seq![k], t) == (1nat, db.remove(k)),
{
    assert(seq![k].drop_last() =~= Seq::<Seq<char>>::empty());
    assert(spec_del(db, Seq::<Seq<char>>::empty(), t) == (0nat, db));
    assert(seq![k].last() == k);
}

/// Incrementing a missing key starts from zero.
pub proof fn law_incr_missing_key(db: Db, k: Seq<char>, delta: i64, t: u128)
    requires
        !db.contains_key(k),
    ensures
        spec_incr_by(db, k, delta, t).0 == Ok::<i64, Seq<char>>(delta),
{
}

/// Two increments add up, as long as the sum fits an `i64`.
pub proof fn law_incr_twice(db: Db, k: Seq<char>, a: i64, b: i64, t: u128)
    requires
        spec_incr_by(db, k, a, t).0 is Ok,
        i64::MIN <= spec_incr_by(db, k, a, t).0->Ok_0 + b <= i64::MAX,
    ensures
        spec_incr_by(spec_incr_by(db, k, a, t).1, k, b, t).0 == Ok::<i64, Seq<char>>(
            (spec_incr_by(db, k, a, t).0->Ok_0 + b) as i64,
        ),
{
    let first = spec_incr_by(db, k, a, t);
    let n = first.0->Ok_0;
    lemma_parse_i64_of_digits(n);
}

/// The time to live of a freshly expiring key is its whole seconds.
pub proof fn law_ttl_after_set(db: Db, k: Seq<char>, v: Seq<u8>, d: u128, t: u128)
    requires
        0 < d,
        t + d <= u128::MAX,
    ensures
        spec_ttl(spec_set(db, k, v, Some(d), t), k, t) == whole_seconds(d as int),
{
}

/// A key set without a time to live reports -1; a missing key reports -2.
pub proof fn law_ttl_persistent_and_missing(db: Db, k: Seq<char>, v: Seq<u8>, t: u128)
    ensures
        spec_ttl(spec_set(db, k, v, None, t), k, t) == -1,
        !db.contains_key(k) ==> spec_ttl(db, k, t) == -2,
{
}

/// Giving a live key a time to live keeps its value.
pub proof fn law_expire_keeps_value(db: Db, k: Seq<char>, ttl: u128, t: u128, t2: u128)
    requires
        db.contains_key(k),
        live(db[k], t),
        t2 < deadline(t, Some(ttl))->Some_0,
    ensures
        spec_expire(db, k, ttl, t).0,
        spec_get(spec_expire(db, k, ttl, t).1, k, t2).0 == Some(db[k].value),
{
}

/// Every key is either live or dead at a given moment, never both.
pub proof fn law_live_dead_partition(db: Db, t: u128)
    ensures
        live_keys(db, t).disjoint(dead_keys(db, t)),
        live_keys(db, t) + dead_keys(db, t) == db.dom(),
{
    assert(live_keys(db, t) + dead_keys(db, t) =~= db.dom());
}

/// Purging the dead entries at `t` leaves no entry dead at `t`, and changes
/// nothing that a read at `t` or later can see: each key reads the same, has
/// the same time to live, and the live keys are the same.
pub proof fn law_purge_is_invisible(db: Db, t: u128, k: Seq<char>, t2: u128)
    requires
        t <= t2,
    ensures
        spec_get(db.restrict(live_keys(db, t)), k, t2).0 == spec_get(db, k, t2).0,
        spec_ttl(db.restrict(live_keys(db, t)), k, t2) == spec_ttl(db, k, t2),
        live_keys(db.restrict(live_keys(db, t)), t2) == live_keys(db, t2),
        dead_keys(db.restrict(live_keys(db, t)), t).is_empty(),
{
    let p = db.restrict(live_keys(db, t));
    assert(dead_keys(p, t) =~= Set::<Seq<char>>::empty());
    assert(live_keys(p, t2) =~= live_keys(db, t2));
}

/// `k` holds a live entry in `db` at `t`.
pub open spec fn holds_live(db: Db, k: Seq<char>, t: u128) -> bool {
    db.contains_key(k) && live(db[k], t)
}

/// The test "holds a live entry in `db` at `t`", as a predicate on keys.
pub open spec fn live_in(db: Db, t: u128) -> spec_fn(Seq<char>) -> bool {
    |k: Seq<char>| holds_live(db, k, t)
}

/// Reading keys one after another counts each position whose key holds a
/// live entry, and keeps which keys hold one.
proof fn lemma_exists_count(db: Db, ks: Seq<Seq<char>>, t: u128)
    ensures
        spec_exists(db, ks, t).0 == ks.filter(live_in(db, t)).len(),
        forall|k: Seq<char>| #[trigger] holds_live(spec_exists(db, ks, t).1, k, t) == holds_live(db, k, t),
    decreases ks.len(),
{
    if ks.len() > 0 {
        let front = ks.drop_last();
        let k = ks.last();
        lemma_exists_count(db, front, t);
        assert(ks =~= front.push(k));
        front.lemma_filter_len_push(live_in(db, t), k);
        let d = spec_exists(db, front, t).1;
        assert(holds_live(d, k, t) == holds_live(db, k, t));
        assert forall|k2: Seq<char>| #[trigger] holds_live(spec_exists(db, ks, t).1, k2, t) == holds_live(db, k2, t) by {
            assert(holds_live(d, k2, t) == holds_live(db, k2, t));
        }
    }
}

/// EXISTS counts every position of the key list whose key holds a live
/// entry, a repeated key once per repeat, whatever the other keys are.
pub proof fn law_exists_counts_live_keys(db: Db, ks: Seq<Seq<char>>, t: u128)
    ensures
        spec_exists(db, ks, t).0 == ks.filter(live_in(db, t)).len(),
        spec_exists(db, ks, t).0 <= ks.len(),
{
    lemma_exists_count(db, ks, t);
    ks.lemma_filter_len(live_in(db, t));
}

/// The order of the keys does not change what EXISTS counts.
pub proof fn law_exists_ignores_order(db: Db, a: Seq<Seq<char>>, b: Seq<Seq<char>>, t: u128)
    ensures
        spec_exists(db, a + b, t).0 == spec_exists(db, b + a, t).0,
        spec_exists(db, a + b, t).0 == spec_exists(db, a, t).0 + spec_exists(db, b, t).0,
{
    lemma_exists_count(db, a + b, t);
    lemma_exists_count(db, b + a, t);
    lemma_exists_count(db, a, t);
    lemma_exists_count(db, b, t);
    Seq::filter_distributes_over_add(a, b, live_in(db, t));
    Seq::filter_distributes_over_add(b, a, live_in(db, t));
}

proof fn lemma_del(db: Db, ks: Seq<Seq<char>>, t: u128)
    ensures
        spec_del(db, ks, t).1 == db.remove_keys(ks.to_set()),
        live_keys(db, t).intersect(ks.to_set()).finite(),
        spec_del(db, ks, t).0 == live_keys(db, t).intersect(ks.to_set()).len(),
    decreases ks.len(),
{
    vstd::seq_lib::seq_to_set_is_finite(ks);
    vstd::set::axiom_set_intersect_finite(live_keys(db, t), ks.to_set());
    if ks.len() == 0 {
        assert(ks.to_set() =~= Set::<Seq<char>>::empty());
        assert(db.remove_keys(ks.to_set()) =~= db);
        assert(live_keys(db, t).intersect(ks.to_set()) =~= Set::<Seq<char>>::empty());
    } else {
        let front = ks.drop_last();
        let k = ks.last();
        lemma_del(db, front, t);
        assert(ks =~= front.push(k));
        front.lemma_push_to_set_commute(k);
        let f = front.to_set();
        let l = live_keys(db, t);
        let d = spec_del(db, front, t).1;
        assert(ks.to_set() == f.insert(k));
        assert(d.contains_key(k) == (db.contains_key(k) && !f.contains(k)));
        if d.contains_key(k) {
            assert(d[k] == db[k]);
            assert(d.remove(k) =~= db.remove_keys(f.insert(k)));
            if live(db[k], t) {
                assert(l.intersect(f.insert(k)) =~= l.intersect(f).insert(k));
                assert(!l.intersect(f).contains(k));
                vstd::set::axiom_set_insert_len(l.intersect(f), k);
            } else {
                assert(l.intersect(f.insert(k)) =~= l.intersect(f));
            }
        } else {
            assert(d =~= db.remove_keys(f.insert(k)));
            assert(l.intersect(f.insert(k)) =~= l.intersect(f));
        }
    }
}

/// DEL removes every key of its list and nothing else, and counts the
/// distinct keys of the list that held a live entry.
pub proof fn law_del_removes_every_key(db: Db, ks: Seq<Seq<char>>, t: u128, k: Seq<char>, t2: u128)
    ensures
        spec_del(db, ks, t).1 == db.remove_keys(ks.to_set()),
        spec_del(db, ks, t).0 == live_keys(db, t).intersect(ks.to_set()).len(),
        ks.contains(k) ==> spec_get(spec_del(db, ks, t).1, k, t2).0 == None::<Seq<u8>>,
        !ks.contains(k) ==> spec_get(spec_del(db, ks, t).1, k, t2).0 == spec_get(db, k, t2).0,
{
    lemma_del(db, ks, t);
}

/// Incrementing a live key that holds an integer keeps its deadline and
/// time to live, stores a value that reads back as the new integer, which is
/// the old one plus `delta`, and leaves every other key as it was.
pub proof fn law_incr_keeps_deadline(db: Db, k: Seq<char>, delta: i64, t: u128)
    requires
        holds_live(db, k, t),
        spec_incr_by(db, k, delta, t).0 is Ok,
    ensures
        spec_incr_by(db, k, delta, t).1.contains_key(k),
        spec_incr_by(db, k, delta, t).1[k].expires_at == db[k].expires_at,
        spec_ttl(spec_incr_by(db, k, delta, t).1, k, t) == spec_ttl(db, k, t),
        spec_parse_i64(db[k].value) matches Some(cur)
            && spec_incr_by(db, k, delta, t).0 == Ok::<i64, Seq<char>>((cur + delta) as i64)
            && cur + delta == (cur + delta) as i64,
        spec_parse_i64(spec_incr_by(db, k, delta, t).1[k].value) == Some(spec_incr_by(db, k, delta, t).0->Ok_0),
        spec_incr_by(db, k, delta, t).1.remove(k) == db.remove(k),
{
    let n = spec_incr_by(db, k, delta, t).0->Ok_0;
    lemma_parse_i64_of_digits(n);
    assert(spec_incr_by(db, k, delta, t).1.remove(k) =~= db.remove(k));
}

/// EXPIRE on a live key gives it `ttl` from `t`: its time to live is then
/// the whole seconds of `ttl`, and it reads as absent once that has passed.
/// On a key without a live entry it answers false and the key reads as
/// absent.
pub proof fn law_expire_sets_deadline(db: Db, k: Seq<char>, ttl: u128, t: u128, t2: u128)
    requires
        t + ttl <= u128::MAX,
    ensures
        holds_live(db, k, t) ==> spec_expire(db, k, ttl, t).0,
        holds_live(db, k, t) && 0 < ttl ==> spec_ttl(spec_expire(db, k, ttl, t).1, k, t) == whole_seconds(ttl as int),
        holds_live(db, k, t) && t + ttl <= t2 ==> spec_get(spec_expire(db, k, ttl, t).1, k, t2).0 == None::<Seq<u8>>,
        !holds_live(db, k, t) ==> !spec_expire(db, k, ttl, t).0 && spec_get(spec_expire(db, k, ttl, t).1, k, t2).0 == None::<Seq<u8>>,
        spec_expire(db, k, ttl, t).1.remove(k) == db.remove(k),
{
    assert(spec_expire(db, k, ttl, t).1.remove(k) =~= db.remove(k));
}

/// An increment of a key without a live entry starts from zero: the reply is
/// `delta`, the key reads back as `delta` and never expires.
pub proof fn law_incr_starts_over(db: Db, k: Seq<char>, delta: i64, t: u128, t2: u128)
    requires
        !holds_live(db, k, t),
    ensures
        spec_incr_by(db, k, delta, t).0 == Ok::<i64, Seq<char>>(delta),
        spec_get(spec_incr_by(db, k, delta, t).1, k, t2).0 matches Some(v) && spec_parse_i64(v) == Some(delta),
        spec_ttl(spec_incr_by(db, k, delta, t).1, k, t2) == -1,
        spec_incr_by(db, k, delta, t).1.remove(k) == db.remove(k),
{
    lemma_parse_i64_of_digits(delta);
    assert(spec_incr_by(db, k, delta, t).1.remove(k) =~= db.remove(k));
}

/// A failed increment changes nothing: the value is not an integer, or the
/// sum leaves the range of `i64`.
pub proof fn law_failed_incr_changes_nothing(db: Db, k: Seq<char>, delta: i64, t: u128)
    requires
        spec_incr_by(db, k, delta, t).0 is Err,
    ensures
        spec_incr_by(db, k, delta, t).1 == db,
        holds_live(db, k, t),
        spec_parse_i64(db[k].value) matches Some(cur) ==> (cur + delta < i64::MIN || cur + delta > i64::MAX),
{
}

} // verus!
