//! The key space: string keys holding byte values, each with an optional
//! expiration deadline, spread over a fixed number of shards.

use std::collections::hash_map::DefaultHasher;
use std::hash::Hasher;
use std::time::Instant;
use vstd::prelude::*;
use vstd::utf8::encode_utf8;
use vstd::string::*;
use crate::text::{str_eq, owned};
use crate::decimal::{spec_parse_i64, int_digits, parse_i64, format_i64};
use vstd::std_specs::hash::DefaultHasherAdditionalSpecFns;

verus! {

/// The number of shards the key space is spread over.
pub const NUM_SHARDS: usize = 64;

#[verifier::external_type_specification]
#[verifier::external_body]
pub struct ExInstant(Instant);

/// Calls `Instant::now`. Nothing is claimed of the instant it returns.
#[verifier::external_body]
fn instant_now() -> Instant {
    Instant::now()
}

/// Calls `Instant::elapsed` on `origin` and returns the duration in
/// nanoseconds. Nothing is claimed of the value: it comes from the clock.
#[verifier::external_body]
fn nanos_since(origin: &Instant) -> u128 {
    origin.elapsed().as_nanos()
}

/// A stored value with an optional expiration deadline, in nanoseconds on the
/// clock of the store that holds it.
#[derive(Debug)]
pub struct Entry {
    pub value: Vec<u8>,
    pub expires_at: Option<u128>,
}

/// The mathematical value of an entry.
pub struct EntryModel {
    pub value: Seq<u8>,
    pub expires_at: Option<u128>,
}

impl View for Entry {
    type V = EntryModel;

    open spec fn view(&self) -> EntryModel {
        EntryModel { value: self.value@, expires_at: self.expires_at }
    }
}

/// The deadline of a value stored at `now` with time to live `ttl`.
pub open spec fn deadline(now: u128, ttl: Option<u128>) -> Option<u128> {
    match ttl {
        Some(d) => Some(if now + d > u128::MAX { u128::MAX } else { (now + d) as u128 }),
        None => None,
    }
}

/// The entry is still alive at time `now`.
pub open spec fn live(e: EntryModel, now: u128) -> bool {
    match e.expires_at {
        Some(d) => now < d,
        None => true,
    }
}

impl Entry {
    /// An entry created at time `now` that lives for `ttl` nanoseconds, or
    /// forever.
    pub fn new(value: Vec<u8>, ttl: Option<u128>, now: u128) -> (e: Entry)
        ensures
            e@ == (EntryModel { value: value@, expires_at: deadline(now, ttl) }),
    {
        let expires_at = match ttl {
            Some(d) => Some(now.saturating_add(d)),
            None => None,
        };
        Entry { value, expires_at }
    }

    /// Whether the entry's deadline has passed at time `now`.
    pub fn is_expired(&self, now: u128) -> (r: bool)
        ensures
            r == !live(self@, now),
    {
        match self.expires_at {
            Some(d) => now >= d,
            None => false,
        }
    }
}

/// The contents of a key space: each key's entry.
pub type Db = Map<Seq<char>, EntryModel>;

/// The shard a key belongs to.
pub open spec fn shard_of(k: Seq<char>) -> int {
    (DefaultHasher::spec_finish(seq![encode_utf8(k), seq![0xffu8]]) % (NUM_SHARDS as u64)) as int
}

/// The keys and entries held in one shard, later pairs overriding earlier
/// ones.
pub open spec fn bucket_map(b: Seq<(String, Entry)>) -> Db
    decreases b.len(),
{
    if b.len() == 0 {
        Map::empty()
    } else {
        bucket_map(b.drop_last()).insert(b.last().0@, b.last().1@)
    }
}

/// No key occurs twice in a shard.
pub open spec fn no_dup_keys(b: Seq<(String, Entry)>) -> bool {
    forall|i: int, j: int| 0 <= i < b.len() && 0 <= j < b.len() && i != j ==> (#[trigger] b[i]).0@
        != (#[trigger] b[j]).0@
}

proof fn lemma_bucket_contains(b: Seq<(String, Entry)>, k: Seq<char>)
    ensures
        bucket_map(b).contains_key(k) <==> exists|j: int| 0 <= j < b.len() && (#[trigger] b[j]).0@ == k,
    decreases b.len(),
{
    if b.len() > 0 {
        lemma_bucket_contains(b.drop_last(), k);
        if bucket_map(b.drop_last()).contains_key(k) {
            let j = choose|j: int| 0 <= j < b.drop_last().len() && (#[trigger] b.drop_last()[j]).0@ == k;
            assert(b[j] == b.drop_last()[j]);
        }
        if exists|j: int| 0 <= j < b.len() && (#[trigger] b[j]).0@ == k {
            let j = choose|j: int| 0 <= j < b.len() && (#[trigger] b[j]).0@ == k;
            if j < b.len() - 1 {
                assert(b.drop_last()[j] == b[j]);
            }
        }
    }
}

proof fn lemma_bucket_at(b: Seq<(String, Entry)>, j: int)
    requires
        no_dup_keys(b),
        0 <= j < b.len(),
    ensures
        bucket_map(b).contains_key(b[j].0@),
        bucket_map(b)[b[j].0@] == b[j].1@,
    decreases b.len(),
{
    if j < b.len() - 1 {
        assert(b.drop_last()[j] == b[j]);
        assert(no_dup_keys(b.drop_last())) by {
            assert forall|x: int, y: int| 0 <= x < b.drop_last().len() && 0 <= y < b.drop_last().len() && x != y implies (#[trigger] b.drop_last()[x]).0@ != (#[trigger] b.drop_last()[y]).0@ by {
                assert(b.drop_last()[x] == b[x]);
                assert(b.drop_last()[y] == b[y]);
            }
        }
        lemma_bucket_at(b.drop_last(), j);
        assert(b[j].0@ != b[b.len() - 1].0@);
    }
}

proof fn lemma_no_dup_drop_last(b: Seq<(String, Entry)>)
    requires
        no_dup_keys(b),
        b.len() > 0,
    ensures
        no_dup_keys(b.drop_last()),
{
    assert forall|x: int, y: int| 0 <= x < b.drop_last().len() && 0 <= y < b.drop_last().len() && x != y implies (#[trigger] b.drop_last()[x]).0@ != (#[trigger] b.drop_last()[y]).0@ by {
        assert(b.drop_last()[x] == b[x]);
        assert(b.drop_last()[y] == b[y]);
    }
}

proof fn lemma_bucket_update(b: Seq<(String, Entry)>, j: int, x: (String, Entry))
    requires
        no_dup_keys(b),
        0 <= j < b.len(),
        x.0@ == b[j].0@,
    ensures
        no_dup_keys(b.update(j, x)),
        bucket_map(b.update(j, x)) == bucket_map(b).insert(x.0@, x.1@),
    decreases b.len(),
{
    let u = b.update(j, x);
    assert forall|p: int, q: int| 0 <= p < u.len() && 0 <= q < u.len() && p != q implies (#[trigger] u[p]).0@ != (#[trigger] u[q]).0@ by {
        assert(u[p].0@ == b[p].0@);
        assert(u[q].0@ == b[q].0@);
    }
    if j == b.len() - 1 {
        assert(u.drop_last() =~= b.drop_last());
        assert(bucket_map(u) =~= bucket_map(b).insert(x.0@, x.1@));
    } else {
        lemma_no_dup_drop_last(b);
        lemma_bucket_update(b.drop_last(), j, x);
        assert(u.drop_last() =~= b.drop_last().update(j, x));
        assert(b.last().0@ != x.0@);
        assert(bucket_map(u) =~= bucket_map(b).insert(x.0@, x.1@));
    }
}

proof fn lemma_bucket_remove(b: Seq<(String, Entry)>, j: int)
    requires
        no_dup_keys(b),
        0 <= j < b.len(),
    ensures
        no_dup_keys(b.remove(j)),
        bucket_map(b.remove(j)) == bucket_map(b).remove(b[j].0@),
    decreases b.len(),
{
    let r = b.remove(j);
    assert forall|p: int, q: int| 0 <= p < r.len() && 0 <= q < r.len() && p != q implies (#[trigger] r[p]).0@ != (#[trigger] r[q]).0@ by {
        let p2 = if p < j { p } else { p + 1 };
        let q2 = if q < j { q } else { q + 1 };
        assert(r[p] == b[p2]);
        assert(r[q] == b[q2]);
    }
    let k = b[j].0@;
    lemma_no_dup_drop_last(b);
    if j == b.len() - 1 {
        assert(r =~= b.drop_last());
        lemma_bucket_contains(b.drop_last(), k);
        if bucket_map(b.drop_last()).contains_key(k) {
            let i = choose|i: int| 0 <= i < b.drop_last().len() && (#[trigger] b.drop_last()[i]).0@ == k;
            assert(b.drop_last()[i] == b[i]);
        }
        assert(bucket_map(r) =~= bucket_map(b).remove(k));
    } else {
        lemma_bucket_remove(b.drop_last(), j);
        assert(r.drop_last() =~= b.drop_last().remove(j));
        assert(r.last() == b.last());
        assert(b.last().0@ != k);
        assert(bucket_map(r) =~= bucket_map(b).remove(k));
    }
}

/// Finds the position of `key` in a shard.
fn find_key(bucket: &Vec<(String, Entry)>, key: &str) -> (r: Option<usize>)
    ensures
        match r {
            Some(j) => j < bucket@.len() && bucket@[j as int].0@ == key@,
            None => forall|j: int| 0 <= j < bucket@.len() ==> (#[trigger] bucket@[j]).0@ != key@,
        },
{
    let mut j: usize = 0;
    while j < bucket.len()
        invariant
            j <= bucket@.len(),
            forall|i: int| 0 <= i < j ==> (#[trigger] bucket@[i]).0@ != key@,
        decreases bucket@.len() - j,
    {
        if str_eq(bucket[j].0.as_str(), key) {
            return Some(j);
        }
        j = j + 1;
    }
    None
}

/// Sharded in-memory key-value database.
pub struct Storage {
    shards: Vec<Vec<(String, Entry)>>,
    origin: Instant,
}

impl Storage {
    /// The shards are as many as [`NUM_SHARDS`], each key sits in its own
    /// shard, and no shard holds a key twice.
    pub closed spec fn wf(&self) -> bool {
        &&& self.shards@.len() == NUM_SHARDS
        &&& forall|i: int| 0 <= i < NUM_SHARDS ==> no_dup_keys(#[trigger] self.shards@[i]@)
        &&& forall|i: int, j: int|
            0 <= i < NUM_SHARDS && 0 <= j < self.shards@[i]@.len() ==> shard_of(
                (#[trigger] self.shards@[i]@[j]).0@,
            ) == i
    }

    /// The contents of the store.
    pub closed spec fn view(&self) -> Db {
        shards_map(self.shards@)
    }

    /// An empty store.
    pub fn new() -> (s: Storage)
        ensures
            s.wf(),
            s@ == Map::<Seq<char>, EntryModel>::empty(),
    {
        let mut shards: Vec<Vec<(String, Entry)>> = Vec::with_capacity(NUM_SHARDS);
        let mut i: usize = 0;
        while i < NUM_SHARDS
            invariant
                i <= NUM_SHARDS,
                shards@.len() == i,
                forall|j: int| 0 <= j < i ==> (#[trigger] shards@[j])@.len() == 0,
            decreases NUM_SHARDS - i,
        {
            shards.push(Vec::new());
            i = i + 1;
        }
        let s = Storage { shards, origin: instant_now() };
        assert(s@ =~= Map::<Seq<char>, EntryModel>::empty());
        s
    }

    /// The clock of the store: nanoseconds since it was created.
    pub(crate) fn now(&self) -> u128 {
        nanos_since(&self.origin)
    }

    /// The shard of `key`.
    fn shard_index(&self, key: &str) -> (r: usize)
        ensures
            r == shard_of(key@),
            r < NUM_SHARDS,
    {
        let mut hasher = DefaultHasher::new();
        hasher.write(key.as_bytes());
        let end_of_str: [u8; 1] = [0xff];
        assert(end_of_str@ =~= seq![0xffu8]);
        hasher.write(end_of_str.as_slice());
        let h = hasher.finish();
        assert(hasher@ =~= seq![encode_utf8(key@), seq![0xffu8]]);
        (h % (NUM_SHARDS as u64)) as usize
    }

    /// Takes the shard `idx` out, leaving it empty.
    fn take_bucket(&mut self, idx: usize) -> (b: Vec<(String, Entry)>)
        requires
            old(self).wf(),
            idx < NUM_SHARDS,
        ensures
            b == old(self).shards@[idx as int],
            final(self).shards@ == old(self).shards@.update(idx as int, final(self).shards@[idx as int]),
            final(self).shards@[idx as int]@.len() == 0,
            final(self).origin == old(self).origin,
    {
        let mut b: Vec<(String, Entry)> = Vec::new();
        self.shards.set_and_swap(idx, &mut b);
        b
    }

    /// Puts shard `idx` back.
    fn put_bucket(&mut self, idx: usize, b: Vec<(String, Entry)>)
        requires
            old(self).shards@.len() == NUM_SHARDS,
            forall|i: int| 0 <= i < NUM_SHARDS && i != idx ==> no_dup_keys(#[trigger] old(self).shards@[i]@),
            forall|i: int, j: int|
                0 <= i < NUM_SHARDS && i != idx && 0 <= j < old(self).shards@[i]@.len() ==> shard_of(
                    (#[trigger] old(self).shards@[i]@[j]).0@,
                ) == i,
            idx < NUM_SHARDS,
            no_dup_keys(b@),
            forall|j: int| 0 <= j < b@.len() ==> shard_of((#[trigger] b@[j]).0@) == idx,
        ensures
            final(self).shards@ == old(self).shards@.update(idx as int, b),
            final(self).origin == old(self).origin,
            final(self).wf(),
    {
        let mut b = b;
        self.shards.set_and_swap(idx, &mut b);
    }

    /// Stores `entry` under `key`.
    fn insert_entry(&mut self, key: String, entry: Entry)
        requires
            old(self).wf(),
        ensures
            final(self).wf(),
            final(self)@ == old(self)@.insert(key@, entry@),
    {
        let idx = self.shard_index(key.as_str());
        let ghost old_shards = self.shards@;
        let mut bucket = self.take_bucket(idx);
        let ghost b0 = bucket@;
        let ghost k = key@;
        let ghost e = entry@;
        match find_key(&bucket, key.as_str()) {
            Some(j) => {
                proof { lemma_bucket_update(b0, j as int, (key, entry)); }
                bucket.set(j, (key, entry));
            },
            None => {
                proof {
                    assert forall|p: int, q: int| 0 <= p < bucket@.push((key, entry)).len() && 0 <= q < bucket@.push((key, entry)).len() && p != q implies (#[trigger] bucket@.push((key, entry))[p]).0@ != (#[trigger] bucket@.push((key, entry))[q]).0@ by {
                        if p < b0.len() && q < b0.len() {
                            assert(b0[p] == bucket@.push((key, entry))[p]);
                            assert(b0[q] == bucket@.push((key, entry))[q]);
                        } else if p < b0.len() {
                            assert(b0[p] == bucket@.push((key, entry))[p]);
                        } else {
                            assert(b0[q] == bucket@.push((key, entry))[q]);
                        }
                    }
                    assert(bucket@.push((key, entry)).drop_last() =~= b0);
                }
                bucket.push((key, entry));
            },
        }
        proof {
            assert forall|j: int| 0 <= j < bucket@.len() implies shard_of((#[trigger] bucket@[j]).0@) == idx by {
                if j < b0.len() && bucket@[j].0@ != k {
                    assert(bucket@[j] == b0[j]);
                    assert(b0[j] == old_shards[idx as int]@[j]);
                }
            }
            assert(bucket_map(bucket@) == bucket_map(old_shards[idx as int]@).insert(k, e));
            lemma_shards_insert(old_shards, idx as int, bucket, k, e);
        }
        self.put_bucket(idx, bucket);
        proof {
            assert(self.shards@ =~= old_shards.update(idx as int, bucket));
        }
    }

    /// Where `key` sits: its shard and its position there.
    fn lookup(&self, key: &str) -> (r: Option<(usize, usize)>)
        requires
            self.wf(),
        ensures
            match r {
                Some((i, j)) => {
                    &&& i == shard_of(key@)
                    &&& j < self.shards@[i as int]@.len()
                    &&& self.shards@[i as int]@[j as int].0@ == key@
                    &&& self@.contains_key(key@)
                    &&& self@[key@] == self.shards@[i as int]@[j as int].1@
                },
                None => !self@.contains_key(key@),
            },
    {
        let idx = self.shard_index(key);
        match find_key(&self.shards[idx], key) {
            Some(j) => {
                proof { lemma_shards_at(self.shards@, j as int, key@); }
                Some((idx, j))
            },
            None => {
                proof { lemma_shards_absent(self.shards@, key@); }
                None
            },
        }
    }

    /// Removes the pair at position `j` of shard `idx` and hands it back.
    fn take_entry(&mut self, idx: usize, j: usize) -> (r: (String, Entry))
        requires
            old(self).wf(),
            idx < NUM_SHARDS,
            j < old(self).shards@[idx as int]@.len(),
        ensures
            final(self).wf(),
            r == old(self).shards@[idx as int]@[j as int],
            old(self)@.contains_key(r.0@),
            old(self)@[r.0@] == r.1@,
            final(self)@ == old(self)@.remove(r.0@),
            final(self).shards@[idx as int]@ == old(self).shards@[idx as int]@.remove(j as int),
    {
        let ghost old_shards = self.shards@;
        let ghost k = old_shards[idx as int]@[j as int].0@;
        proof { lemma_shards_at(old_shards, j as int, k); }
        let mut bucket = self.take_bucket(idx);
        let ghost b0 = bucket@;
        proof { lemma_bucket_remove(b0, j as int); }
        let r = bucket.remove(j);
        proof {
            assert forall|x: int| 0 <= x < bucket@.len() implies shard_of((#[trigger] bucket@[x]).0@) == idx by {
                let y = if x < j { x } else { x + 1 };
                assert(bucket@[x] == b0[y]);
                assert(b0[y] == old_shards[idx as int]@[y]);
            }
            lemma_shards_remove(old_shards, idx as int, bucket, k);
        }
        self.put_bucket(idx, bucket);
        proof {
            assert(self.shards@ =~= old_shards.update(idx as int, bucket));
        }
        r
    }

    /// Stores `value` under `key` at time `now`, living for `ttl` nanoseconds
    /// or forever.
    pub fn set_at(&mut self, key: String, value: Vec<u8>, ttl: Option<u128>, now: u128)
        requires
            old(self).wf(),
        ensures
            final(self).wf(),
            final(self)@ == spec_set(old(self)@, key@, value@, ttl, now),
    {
        self.insert_entry(key, Entry::new(value, ttl, now));
    }

    /// Sets a key to hold a value with an optional time to live, in
    /// nanoseconds, counted from the present moment of the store's clock.
    pub fn set(&mut self, key: String, value: Vec<u8>, ttl: Option<u128>)
        requires
            old(self).wf(),
        ensures
            final(self).wf(),
            exists|now: u128| final(self)@ == #[trigger] spec_set(old(self)@, key@, value@, ttl, now),
    {
        let now = self.now();
        self.set_at(key, value, ttl, now);
    }

    /// Gets the value of `key` at time `now`; an expired entry is removed.
    pub fn get_at(&mut self, key: &str, now: u128) -> (r: Option<Vec<u8>>)
        requires
            old(self).wf(),
        ensures
            final(self).wf(),
            (match r { Some(v) => Some(v@), None => None::<Seq<u8>> }, final(self)@) == spec_get(old(self)@, key@, now),
    {
        match self.lookup(key) {
            None => None,
            Some((i, j)) => {
                if !self.shards[i][j].1.is_expired(now) {
                    Some(vstd::slice::slice_to_vec(self.shards[i][j].1.value.as_slice()))
                } else {
                    let _ = self.take_entry(i, j);
                    None
                }
            },
        }
    }

    /// Gets the value of `key`. If the key does not exist or has expired,
    /// returns `None`.
    pub fn get(&mut self, key: &str) -> (r: Option<Vec<u8>>)
        requires
            old(self).wf(),
        ensures
            final(self).wf(),
            exists|now: u128| (match r { Some(v) => Some(v@), None => None::<Seq<u8>> }, final(self)@) == #[trigger] spec_get(old(self)@, key@, now),
    {
        let now = self.now();
        self.get_at(key, now)
    }

    /// Removes `keys` at time `now`; returns how many of them held a live
    /// entry.
    pub fn del_at(&mut self, keys: &[String], now: u128) -> (r: usize)
        requires
            old(self).wf(),
        ensures
            final(self).wf(),
            (r as nat, final(self)@) == spec_del(old(self)@, key_views(keys@), now),
    {
        let mut count: usize = 0;
        let mut i: usize = 0;
        while i < keys.len()
            invariant
                self.wf(),
                i <= keys@.len(),
                count <= i,
                (count as nat, self@) == spec_del(old(self)@, key_views(keys@).take(i as int), now),
            decreases keys@.len() - i,
        {
            let key = &keys[i];
            proof {
                assert(key_views(keys@).take(i + 1).drop_last() =~= key_views(keys@).take(i as int));
            }
            match self.lookup(key.as_str()) {
                None => {},
                Some((a, b)) => {
                    let (_, e) = self.take_entry(a, b);
                    if !e.is_expired(now) {
                        count = count + 1;
                    }
                },
            }
            i = i + 1;
        }
        assert(key_views(keys@).take(i as int) =~= key_views(keys@));
        count
    }

    /// Removes the specified keys; returns how many of them existed.
    pub fn del(&mut self, keys: &[String]) -> (r: usize)
        requires
            old(self).wf(),
        ensures
            final(self).wf(),
            exists|now: u128| (r as nat, final(self)@) == #[trigger] spec_del(old(self)@, key_views(keys@), now),
    {
        let now = self.now();
        self.del_at(keys, now)
    }

    /// Counts the keys among `keys` that hold a live entry at `now`.
    pub fn exists_keys_at(&mut self, keys: &[String], now: u128) -> (r: usize)
        requires
            old(self).wf(),
        ensures
            final(self).wf(),
            (r as nat, final(self)@) == spec_exists(old(self)@, key_views(keys@), now),
    {
        let mut count: usize = 0;
        let mut i: usize = 0;
        while i < keys.len()
            invariant
                self.wf(),
                i <= keys@.len(),
                count <= i,
                (count as nat, self@) == spec_exists(old(self)@, key_views(keys@).take(i as int), now),
            decreases keys@.len() - i,
        {
            let key = &keys[i];
            proof {
                assert(key_views(keys@).take(i + 1).drop_last() =~= key_views(keys@).take(i as int));
            }
            if self.get_at(key.as_str(), now).is_some() {
                count = count + 1;
            }
            i = i + 1;
        }
        assert(key_views(keys@).take(i as int) =~= key_views(keys@));
        count
    }

    /// Returns the number of specified keys that exist (and are not expired).
    pub fn exists_keys(&mut self, keys: &[String]) -> (r: usize)
        requires
            old(self).wf(),
        ensures
            final(self).wf(),
            exists|now: u128| (r as nat, final(self)@) == #[trigger] spec_exists(old(self)@, key_views(keys@), now),
    {
        let now = self.now();
        self.exists_keys_at(keys, now)
    }

    /// Gives `key` a time to live of `ttl` nanoseconds from `now`; false when
    /// it holds no live entry.
    pub fn expire_at(&mut self, key: &str, ttl: u128, now: u128) -> (r: bool)
        requires
            old(self).wf(),
        ensures
            final(self).wf(),
            (r, final(self)@) == spec_expire(old(self)@, key@, ttl, now),
    {
        match self.lookup(key) {
            None => false,
            Some((a, b)) => {
                if self.shards[a][b].1.is_expired(now) {
                    let _ = self.take_entry(a, b);
                    false
                } else {
                    let (k, mut e) = self.take_entry(a, b);
                    e.expires_at = Some(now.saturating_add(ttl));
                    self.insert_entry(k, e);
                    proof {
                        assert(self@ =~= spec_expire(old(self)@, key@, ttl, now).1);
                    }
                    true
                }
            },
        }
    }

    /// Sets a timeout on key, in nanoseconds. Returns true if the timeout was
    /// set, false if the key does not exist.
    pub fn expire(&mut self, key: &str, ttl: u128) -> (r: bool)
        requires
            old(self).wf(),
        ensures
            final(self).wf(),
            exists|now: u128| (r, final(self)@) == #[trigger] spec_expire(old(self)@, key@, ttl, now),
    {
        let now = self.now();
        self.expire_at(key, ttl, now)
    }

    /// The remaining time to live of `key` at `now`, in seconds.
    pub fn ttl_at(&self, key: &str, now: u128) -> (r: i64)
        requires
            self.wf(),
        ensures
            r == spec_ttl(self@, key@, now),
    {
        match self.lookup(key) {
            None => -2,
            Some((a, b)) => match self.shards[a][b].1.expires_at {
                Some(d) => {
                    if now >= d {
                        -2
                    } else {
                        let secs: u128 = (d - now) / 1_000_000_000;
                        if secs > 9223372036854775807 {
                            9223372036854775807
                        } else {
                            secs as i64
                        }
                    }
                },
                None => -1,
            },
        }
    }

    /// Returns the remaining time to live in seconds: -2 if the key does not
    /// exist or has expired, -1 if it exists with no expiration, otherwise the
    /// remaining whole seconds.
    pub fn ttl(&self, key: &str) -> (r: i64)
        requires
            self.wf(),
        ensures
            exists|now: u128| r == #[trigger] spec_ttl(self@, key@, now),
    {
        let now = self.now();
        self.ttl_at(key, now)
    }

    /// Adds `delta` to the integer held by `key` at `now`.
    pub fn incr_by_at(&mut self, key: String, delta: i64, now: u128) -> (r: Result<i64, String>)
        requires
            old(self).wf(),
        ensures
            final(self).wf(),
            (match r { Ok(v) => Ok::<i64, Seq<char>>(v), Err(m) => Err(m@) }, final(self)@) == spec_incr_by(old(self)@, key@, delta, now),
    {
        match self.lookup(key.as_str()) {
            Some((a, b)) => {
                if !self.shards[a][b].1.is_expired(now) {
                    match parse_i64(self.shards[a][b].1.value.as_slice()) {
                        None => Err(owned("ERR value is not an integer or out of range")),
                        Some(cur) => match cur.checked_add(delta) {
                            None => Err(owned("ERR increment or decrement would overflow")),
                            Some(n) => {
                                let (k, mut e) = self.take_entry(a, b);
                                e.value = format_i64(n);
                                self.insert_entry(k, e);
                                proof {
                                    assert(self@ =~= spec_incr_by(old(self)@, key@, delta, now).1);
                                }
                                Ok(n)
                            },
                        },
                    }
                } else {
                    let _ = self.take_entry(a, b);
                    self.insert_entry(key, Entry { value: format_i64(delta), expires_at: None });
                    proof {
                        assert(self@ =~= spec_incr_by(old(self)@, key@, delta, now).1);
                    }
                    Ok(delta)
                }
            },
            None => {
                self.insert_entry(key, Entry { value: format_i64(delta), expires_at: None });
                Ok(delta)
            },
        }
    }

    /// Increments the integer value of a key by `delta`. If the key does not
    /// exist, it is set to 0 before performing the operation.
    pub fn incr_by(&mut self, key: String, delta: i64) -> (r: Result<i64, String>)
        requires
            old(self).wf(),
        ensures
            final(self).wf(),
            exists|now: u128| (match r { Ok(v) => Ok::<i64, Seq<char>>(v), Err(m) => Err(m@) }, final(self)@) == #[trigger] spec_incr_by(old(self)@, key@, delta, now),
    {
        let now = self.now();
        self.incr_by_at(key, delta, now)
    }

    /// The number of keys holding a live entry at `now`.
    pub fn dbsize_at(&self, now: u128) -> (r: usize)
        requires
            self.wf(),
        ensures
            live_keys(self@, now).finite(),
            r == capped(live_keys(self@, now).len()),
    {
        let ghost db = self@;
        let ghost mut seen: Seq<Seq<char>> = seq![];
        let mut total: usize = 0;
        let mut i: usize = 0;
        while i < NUM_SHARDS
            invariant
                self.wf(),
                i <= NUM_SHARDS,
                db == self@,
                seen.no_duplicates(),
                total == capped(seen.len()),
                forall|x: Seq<char>| #[trigger] seen.contains(x) ==> live_keys(db, now).contains(x) && shard_of(x) < i,
                forall|k: Seq<char>| #[trigger] live_keys(db, now).contains(k) && shard_of(k) < i ==> seen.contains(k),
            decreases NUM_SHARDS - i,
        {
            let bucket = &self.shards[i];
            let mut j: usize = 0;
            while j < bucket.len()
                invariant
                    self.wf(),
                    i < NUM_SHARDS,
                    db == self@,
                    *bucket == self.shards@[i as int],
                    j <= bucket@.len(),
                    seen.no_duplicates(),
                    total == capped(seen.len()),
                    forall|x: Seq<char>| #[trigger] seen.contains(x) ==> live_keys(db, now).contains(x) && (shard_of(x) < i || (shard_of(x) == i && exists|y: int| 0 <= y < j && (#[trigger] bucket@[y]).0@ == x)),
                    forall|k: Seq<char>| #[trigger] live_keys(db, now).contains(k) && shard_of(k) < i ==> seen.contains(k),
                    forall|y: int| 0 <= y < j && live((#[trigger] bucket@[y]).1@, now) ==> seen.contains(bucket@[y].0@),
                decreases bucket@.len() - j,
            {
                let ghost k = bucket@[j as int].0@;
                proof {
                    lemma_shards_at(self.shards@, j as int, k);
                }
                if !bucket[j].1.is_expired(now) {
                    proof {
                        if seen.contains(k) {
                            if shard_of(k) == i {
                                let y = choose|y: int| 0 <= y < j && (#[trigger] bucket@[y]).0@ == k;
                                assert(false);
                            }
                        }
                        let ghost prev = seen;
                        seen = prev.push(k);
                        assert forall|x: Seq<char>| #[trigger] seen.contains(x) implies live_keys(db, now).contains(x) && (shard_of(x) < i || (shard_of(x) == i && exists|y: int| 0 <= y < j + 1 && (#[trigger] bucket@[y]).0@ == x)) by {
                            let n = choose|n: int| 0 <= n < seen.len() && seen[n] == x;
                            if n < prev.len() {
                                assert(prev[n] == x);
                                assert(prev.contains(x));
                            } else {
                                assert(x == k);
                                assert(bucket@[j as int].0@ == x);
                            }
                        }
                        assert(seen.no_duplicates()) by {
                            assert forall|a: int, b: int| 0 <= a < seen.len() && 0 <= b < seen.len() && a != b implies seen[a] != seen[b] by {
                                if a < prev.len() && b < prev.len() {
                                } else if a < prev.len() {
                                    assert(prev.contains(prev[a]));
                                } else {
                                    assert(prev.contains(prev[b]));
                                }
                            }
                        }
                        assert forall|x: Seq<char>| #[trigger] prev.contains(x) implies seen.contains(x) by {
                            let n = choose|n: int| 0 <= n < prev.len() && prev[n] == x;
                            assert(seen[n] == x);
                        }
                        assert forall|y: int| 0 <= y < j + 1 && live((#[trigger] bucket@[y]).1@, now) implies seen.contains(bucket@[y].0@) by {
                            if y < j {
                                let n = choose|n: int| 0 <= n < prev.len() && prev[n] == bucket@[y].0@;
                                assert(seen[n] == bucket@[y].0@);
                            } else {
                                assert(seen[prev.len() as int] == k);
                            }
                        }
                    }
                    total = total.saturating_add(1);
                }
                j = j + 1;
            }
            proof {
                assert forall|k: Seq<char>| #[trigger] live_keys(db, now).contains(k) && shard_of(k) < i + 1 implies seen.contains(k) by {
                    if shard_of(k) == i {
                        lemma_bucket_contains(self.shards@[i as int]@, k);
                        let y = choose|y: int| 0 <= y < bucket@.len() && (#[trigger] bucket@[y]).0@ == k;
                        lemma_shards_at(self.shards@, y, k);
                    }
                }
            }
            i = i + 1;
        }
        proof {
            assert(seen.to_set() =~= live_keys(db, now));
            seen.unique_seq_to_set();
        }
        total
    }

    /// Removes every entry that is dead at `now`; returns how many there
    /// were.
    pub fn purge_expired_at(&mut self, now: u128) -> (r: usize)
        requires
            old(self).wf(),
        ensures
            final(self).wf(),
            dead_keys(old(self)@, now).finite(),
            r == capped(dead_keys(old(self)@, now).len()),
            final(self)@ == old(self)@.restrict(live_keys(old(self)@, now)),
    {
        let ghost db = self@;
        let ghost mut gone: Seq<Seq<char>> = seq![];
        let mut purged: usize = 0;
        let mut i: usize = 0;
        while i < NUM_SHARDS
            invariant
                self.wf(),
                i <= NUM_SHARDS,
                gone.no_duplicates(),
                purged == capped(gone.len()),
                forall|x: Seq<char>| #[trigger] gone.contains(x) ==> dead_keys(db, now).contains(x) && shard_of(x) < i,
                forall|k: Seq<char>| #[trigger] dead_keys(db, now).contains(k) && shard_of(k) < i ==> gone.contains(k),
                self@ == db.remove_keys(gone.to_set()),
            decreases NUM_SHARDS - i,
        {
            let mut j: usize = 0;
            while j < self.shards[i].len()
                invariant
                    self.wf(),
                    i < NUM_SHARDS,
                    j <= self.shards@[i as int]@.len(),
                    gone.no_duplicates(),
                    purged == capped(gone.len()),
                    forall|x: Seq<char>| #[trigger] gone.contains(x) ==> dead_keys(db, now).contains(x) && shard_of(x) <= i,
                    forall|k: Seq<char>| #[trigger] dead_keys(db, now).contains(k) && shard_of(k) < i ==> gone.contains(k),
                    self@ == db.remove_keys(gone.to_set()),
                    forall|y: int| 0 <= y < j ==> live((#[trigger] self.shards@[i as int]@[y]).1@, now),
                decreases self.shards@[i as int]@.len() - j, self.shards@[i as int]@.len(),
            {
                if self.shards[i][j].1.is_expired(now) {
                    let ghost before = self.shards@[i as int]@;
                    let ghost prev = gone;
                    let (k, _) = self.take_entry(i, j);
                    proof {
                        assert(!prev.contains(k@)) by {
                            if prev.contains(k@) {
                                assert(gone.to_set().contains(k@));
                            }
                        }
                        lemma_push_fresh(prev, k@);
                        gone = prev.push(k@);
                        assert(db.contains_key(k@));
                        assert(dead_keys(db, now).contains(k@));
                        assert(self@ =~= db.remove_keys(gone.to_set()));
                        assert forall|y: int| 0 <= y < j implies live((#[trigger] self.shards@[i as int]@[y]).1@, now) by {
                            assert(self.shards@[i as int]@[y] == before[y]);
                        }
                    }
                    purged = purged.saturating_add(1);
                } else {
                    j = j + 1;
                }
            }
            proof {
                assert forall|k: Seq<char>| #[trigger] dead_keys(db, now).contains(k) && shard_of(k) < i + 1 implies gone.contains(k) by {
                    if shard_of(k) == i && !gone.contains(k) {
                        assert(self@.contains_key(k));
                        lemma_bucket_contains(self.shards@[i as int]@, k);
                        let y = choose|y: int| 0 <= y < self.shards@[i as int]@.len() && (#[trigger] self.shards@[i as int]@[y]).0@ == k;
                        lemma_shards_at(self.shards@, y, k);
                    }
                }
            }
            i = i + 1;
        }
        proof {
            assert(gone.to_set() =~= dead_keys(db, now));
            gone.unique_seq_to_set();
            assert(self@ =~= db.restrict(live_keys(db, now)));
        }
        purged
    }

    /// Returns the number of keys holding a live entry (at most `usize::MAX`).
    pub fn dbsize(&self) -> (r: usize)
        requires
            self.wf(),
        ensures
            exists|now: u128| #[trigger] live_keys(self@, now).finite() && r == capped(live_keys(self@, now).len()),
    {
        let now = self.now();
        self.dbsize_at(now)
    }

    /// Purges all expired keys across all shards; returns how many there were.
    pub fn purge_expired(&mut self) -> (r: usize)
        requires
            old(self).wf(),
        ensures
            final(self).wf(),
            exists|now: u128| #[trigger] dead_keys(old(self)@, now).finite() && r == capped(dead_keys(old(self)@, now).len())
                && final(self)@ == old(self)@.restrict(live_keys(old(self)@, now)),
    {
        let now = self.now();
        self.purge_expired_at(now)
    }

    /// Removes all keys from all shards.
    pub fn flushdb(&mut self)
        requires
            old(self).wf(),
        ensures
            final(self).wf(),
            final(self)@ == Map::<Seq<char>, EntryModel>::empty(),
    {
        let mut i: usize = 0;
        while i < NUM_SHARDS
            invariant
                self.wf(),
                i <= NUM_SHARDS,
                forall|x: int| 0 <= x < i ==> (#[trigger] self.shards@[x])@.len() == 0,
            decreases NUM_SHARDS - i,
        {
            let ghost before = self.shards@;
            let _ = self.take_bucket(i);
            proof {
                assert forall|x: int| 0 <= x < i + 1 implies (#[trigger] self.shards@[x])@.len() == 0 by {
                    if x < i {
                        assert(self.shards@[x] == before[x]);
                    }
                }
            }
            i = i + 1;
        }
        assert(self@ =~= Map::<Seq<char>, EntryModel>::empty());
    }

    /// Every live key at `now` with its value and remaining time to live.
    pub fn snapshot_at(&self, now: u128) -> (r: Vec<(String, Vec<u8>, Option<u128>)>)
        requires
            self.wf(),
        ensures
            r@.len() == live_keys(self@, now).len(),
            live_keys(self@, now).finite(),
            forall|x: int| 0 <= x < r@.len() ==> snapshot_item(self@, now, item_view(#[trigger] r@[x])),
            forall|x: int, y: int| 0 <= x < r@.len() && 0 <= y < r@.len() && x != y ==> (#[trigger] r@[x]).0@ != (#[trigger] r@[y]).0@,
            forall|k: Seq<char>| #[trigger] live_keys(self@, now).contains(k) ==> exists|x: int| 0 <= x < r@.len() && (#[trigger] r@[x]).0@ == k,
    {
        let ghost db = self@;
        let ghost mut seen: Seq<Seq<char>> = seq![];
        let mut out: Vec<(String, Vec<u8>, Option<u128>)> = Vec::new();
        let mut i: usize = 0;
        while i < NUM_SHARDS
            invariant
                self.wf(),
                i <= NUM_SHARDS,
                db == self@,
                seen.no_duplicates(),
                seen.len() == out@.len(),
                forall|x: int| 0 <= x < out@.len() ==> (#[trigger] out@[x]).0@ == seen[x],
                forall|x: int| 0 <= x < out@.len() ==> snapshot_item(db, now, item_view(#[trigger] out@[x])),
                forall|x: Seq<char>| #[trigger] seen.contains(x) ==> shard_of(x) < i,
                forall|k: Seq<char>| #[trigger] live_keys(db, now).contains(k) && shard_of(k) < i ==> seen.contains(k),
            decreases NUM_SHARDS - i,
        {
            let bucket = &self.shards[i];
            let mut j: usize = 0;
            while j < bucket.len()
                invariant
                    self.wf(),
                    i < NUM_SHARDS,
                    db == self@,
                    *bucket == self.shards@[i as int],
                    j <= bucket@.len(),
                    seen.no_duplicates(),
                    seen.len() == out@.len(),
                    forall|x: int| 0 <= x < out@.len() ==> (#[trigger] out@[x]).0@ == seen[x],
                    forall|x: int| 0 <= x < out@.len() ==> snapshot_item(db, now, item_view(#[trigger] out@[x])),
                    forall|x: Seq<char>| #[trigger] seen.contains(x) ==> (shard_of(x) < i || (shard_of(x) == i && exists|y: int| 0 <= y < j && (#[trigger] bucket@[y]).0@ == x)),
                    forall|k: Seq<char>| #[trigger] live_keys(db, now).contains(k) && shard_of(k) < i ==> seen.contains(k),
                    forall|y: int| 0 <= y < j && live((#[trigger] bucket@[y]).1@, now) ==> seen.contains(bucket@[y].0@),
                decreases bucket@.len() - j,
            {
                let ghost k = bucket@[j as int].0@;
                proof {
                    lemma_shards_at(self.shards@, j as int, k);
                }
                let entry = &bucket[j].1;
                if !entry.is_expired(now) {
                    let rem: Option<u128> = match entry.expires_at {
                        Some(d) => Some(d - now),
                        None => None,
                    };
                    let item = (bucket[j].0.clone(), vstd::slice::slice_to_vec(entry.value.as_slice()), rem);
                    proof {
                        if seen.contains(k) {
                            if shard_of(k) == i {
                                let y = choose|y: int| 0 <= y < j && (#[trigger] bucket@[y]).0@ == k;
                                assert(false);
                            }
                        }
                        let ghost prev = seen;
                        lemma_push_fresh(prev, k);
                        seen = prev.push(k);
                        assert forall|x: Seq<char>| #[trigger] seen.contains(x) implies (shard_of(x) < i || (shard_of(x) == i && exists|y: int| 0 <= y < j + 1 && (#[trigger] bucket@[y]).0@ == x)) by {
                            if x == k {
                                assert(bucket@[j as int].0@ == x);
                            }
                        }
                    }
                    out.push(item);
                }
                j = j + 1;
            }
            proof {
                assert forall|k: Seq<char>| #[trigger] live_keys(db, now).contains(k) && shard_of(k) < i + 1 implies seen.contains(k) by {
                    if shard_of(k) == i {
                        lemma_bucket_contains(self.shards@[i as int]@, k);
                        let y = choose|y: int| 0 <= y < bucket@.len() && (#[trigger] bucket@[y]).0@ == k;
                        lemma_shards_at(self.shards@, y, k);
                    }
                }
            }
            i = i + 1;
        }
        proof {
            assert forall|x: Seq<char>| #[trigger] seen.contains(x) implies live_keys(db, now).contains(x) by {
                let n = choose|n: int| 0 <= n < seen.len() && seen[n] == x;
                assert(snapshot_item(db, now, item_view(out@[n])));
            }
            assert(seen.to_set() =~= live_keys(db, now));
            seen.unique_seq_to_set();
            assert forall|k: Seq<char>| #[trigger] live_keys(db, now).contains(k) implies exists|x: int| 0 <= x < out@.len() && (#[trigger] out@[x]).0@ == k by {
                assert(seen.contains(k));
                let n = choose|n: int| 0 <= n < seen.len() && seen[n] == k;
                assert(out@[n].0@ == k);
            }
            assert forall|x: int, y: int| 0 <= x < out@.len() && 0 <= y < out@.len() && x != y implies (#[trigger] out@[x]).0@ != (#[trigger] out@[y]).0@ by {
                assert(out@[x].0@ == seen[x]);
                assert(out@[y].0@ == seen[y]);
            }
        }
        out
    }

    /// Snapshot of all live keys with their values and remaining time to live,
    /// in nanoseconds.
    pub fn snapshot(&self) -> (r: Vec<(String, Vec<u8>, Option<u128>)>)
        requires
            self.wf(),
        ensures
            exists|now: u128| {
                &&& #[trigger] live_keys(self@, now).finite()
                &&& r@.len() == live_keys(self@, now).len()
                &&& forall|x: int| 0 <= x < r@.len() ==> snapshot_item(self@, now, item_view(#[trigger] r@[x]))
                &&& forall|x: int, y: int| 0 <= x < r@.len() && 0 <= y < r@.len() && x != y ==> (#[trigger] r@[x]).0@ != (#[trigger] r@[y]).0@
            },
    {
        let now = self.now();
        self.snapshot_at(now)
    }
}

/// `db` after storing `v` under `k` at time `now`, living for `ttl`.
pub open spec fn spec_set(db: Db, k: Seq<char>, v: Seq<u8>, ttl: Option<u128>, now: u128) -> Db {
    db.insert(k, EntryModel { value: v, expires_at: deadline(now, ttl) })
}

/// Reading `k` at time `now`: its value if it is alive; an entry found dead is
/// removed.
pub open spec fn spec_get(db: Db, k: Seq<char>, now: u128) -> (Option<Seq<u8>>, Db) {
    if db.contains_key(k) {
        if live(db[k], now) {
            (Some(db[k].value), db)
        } else {
            (None, db.remove(k))
        }
    } else {
        (None, db)
    }
}

/// The views of a list of keys.
pub open spec fn key_views(keys: Seq<String>) -> Seq<Seq<char>> {
    keys.map_values(|k: String| k@)
}

/// Deleting `keys` in order at time `now`: how many of them held a live
/// entry, and what is left.
pub open spec fn spec_del(db: Db, keys: Seq<Seq<char>>, now: u128) -> (nat, Db)
    decreases keys.len(),
{
    if keys.len() == 0 {
        (0, db)
    } else {
        let (c, d) = spec_del(db, keys.drop_last(), now);
        let k = keys.last();
        if d.contains_key(k) {
            (if live(d[k], now) { c + 1 } else { c }, d.remove(k))
        } else {
            (c, d)
        }
    }
}

/// Reading `keys` in order at time `now`: how many of them hold a live
/// entry, and what is left after dead entries met on the way are removed.
pub open spec fn spec_exists(db: Db, keys: Seq<Seq<char>>, now: u128) -> (nat, Db)
    decreases keys.len(),
{
    if keys.len() == 0 {
        (0, db)
    } else {
        let (c, d) = spec_exists(db, keys.drop_last(), now);
        let (r, d2) = spec_get(d, keys.last(), now);
        (if r is Some { c + 1 } else { c }, d2)
    }
}

/// Giving `k` a new time to live at time `now`: whether it held a live entry,
/// and the store after (a dead entry is removed).
pub open spec fn spec_expire(db: Db, k: Seq<char>, ttl: u128, now: u128) -> (bool, Db) {
    if db.contains_key(k) {
        if live(db[k], now) {
            (true, db.insert(k, EntryModel { value: db[k].value, expires_at: deadline(now, Some(ttl)) }))
        } else {
            (false, db.remove(k))
        }
    } else {
        (false, db)
    }
}

/// Whole seconds in `nanos`, as an `i64` (at most `i64::MAX`).
pub open spec fn whole_seconds(nanos: int) -> i64 {
    if nanos / 1_000_000_000 > i64::MAX {
        i64::MAX
    } else {
        (nanos / 1_000_000_000) as i64
    }
}

/// The time to live of `k` at `now` in seconds: -2 when there is no live
/// entry, -1 when it never expires.
pub open spec fn spec_ttl(db: Db, k: Seq<char>, now: u128) -> i64 {
    if db.contains_key(k) {
        match db[k].expires_at {
            Some(d) => if now >= d {
                -2i64
            } else {
                whole_seconds(d - now)
            },
            None => -1i64,
        }
    } else {
        -2i64
    }
}

/// The message of a value that does not read as an integer.
pub open spec fn not_an_integer() -> Seq<char> {
    "ERR value is not an integer or out of range"@
}

/// The message of an increment past the range of `i64`.
pub open spec fn incr_overflow() -> Seq<char> {
    "ERR increment or decrement would overflow"@
}

/// Adding `delta` to the integer held by `k` at `now`; a missing or dead
/// entry counts as 0 and becomes one that never expires.
pub open spec fn spec_incr_by(db: Db, k: Seq<char>, delta: i64, now: u128) -> (Result<i64, Seq<char>>, Db) {
    if db.contains_key(k) && live(db[k], now) {
        match spec_parse_i64(db[k].value) {
            None => (Err(not_an_integer()), db),
            Some(cur) => if cur + delta < i64::MIN || cur + delta > i64::MAX {
                (Err(incr_overflow()), db)
            } else {
                let n = (cur + delta) as i64;
                (Ok(n), db.insert(k, EntryModel { value: int_digits(n as int), expires_at: db[k].expires_at }))
            },
        }
    } else {
        (Ok(delta), db.insert(k, EntryModel { value: int_digits(delta as int), expires_at: None }))
    }
}

/// The keys that hold a live entry at `now`.
pub open spec fn live_keys(db: Db, now: u128) -> Set<Seq<char>> {
    db.dom().filter(|k: Seq<char>| live(db[k], now))
}

/// The keys whose entry is dead at `now`.
pub open spec fn dead_keys(db: Db, now: u128) -> Set<Seq<char>> {
    db.dom().filter(|k: Seq<char>| !live(db[k], now))
}

/// A count as a `usize`, held at `usize::MAX` when it does not fit.
pub open spec fn capped(n: nat) -> usize {
    if n > usize::MAX {
        usize::MAX
    } else {
        n as usize
    }
}

/// What is left of a live entry's time to live at `now`.
pub open spec fn remaining(e: EntryModel, now: u128) -> Option<u128> {
    match e.expires_at {
        Some(d) => Some((d - now) as u128),
        None => None,
    }
}

/// `item` describes the live entry that `db` holds for its key at `now`.
pub open spec fn snapshot_item(db: Db, now: u128, item: (Seq<char>, Seq<u8>, Option<u128>)) -> bool {
    &&& db.contains_key(item.0)
    &&& live(db[item.0], now)
    &&& item.1 == db[item.0].value
    &&& item.2 == remaining(db[item.0], now)
}

/// The mathematical value of a snapshot line.
pub open spec fn item_view(item: (String, Vec<u8>, Option<u128>)) -> (Seq<char>, Seq<u8>, Option<u128>) {
    (item.0@, item.1@, item.2)
}

proof fn lemma_push_fresh(prev: Seq<Seq<char>>, k: Seq<char>)
    requires
        prev.no_duplicates(),
        !prev.contains(k),
    ensures
        prev.push(k).no_duplicates(),
        forall|x: Seq<char>| #[trigger] prev.push(k).contains(x) <==> (prev.contains(x) || x == k),
{
    let s = prev.push(k);
    assert forall|a: int, b: int| 0 <= a < s.len() && 0 <= b < s.len() && a != b implies s[a] != s[b] by {
        if a < prev.len() && b < prev.len() {
        } else if a < prev.len() {
            assert(prev.contains(prev[a]));
        } else {
            assert(prev.contains(prev[b]));
        }
    }
    assert forall|x: Seq<char>| #[trigger] s.contains(x) <==> (prev.contains(x) || x == k) by {
        if s.contains(x) {
            let n = choose|n: int| 0 <= n < s.len() && s[n] == x;
            if n < prev.len() {
                assert(prev[n] == x);
            }
        }
        if prev.contains(x) {
            let n = choose|n: int| 0 <= n < prev.len() && prev[n] == x;
            assert(s[n] == x);
        }
        if x == k {
            assert(s[prev.len() as int] == k);
        }
    }
}

/// Each key's entry, looked up in the key's own shard.
pub open spec fn shards_map(s: Seq<Vec<(String, Entry)>>) -> Db {
    Map::new(
        |k: Seq<char>| bucket_map(s[shard_of(k)]@).contains_key(k),
        |k: Seq<char>| bucket_map(s[shard_of(k)]@)[k],
    )
}

proof fn lemma_shards_insert(s: Seq<Vec<(String, Entry)>>, idx: int, b: Vec<(String, Entry)>, k: Seq<char>, e: EntryModel)
    requires
        s.len() == NUM_SHARDS,
        0 <= idx < s.len(),
        shard_of(k) == idx,
        bucket_map(b@) == bucket_map(s[idx]@).insert(k, e),
    ensures
        shards_map(s.update(idx, b)) == shards_map(s).insert(k, e),
{
    let n = s.update(idx, b);
    assert forall|x: Seq<char>| #[trigger] shards_map(n).contains_key(x) <==> shards_map(s).insert(k, e).contains_key(x) by {
        if shard_of(x) != idx {
            assert(n[shard_of(x)] == s[shard_of(x)]);
        }
    }
    assert forall|x: Seq<char>| shards_map(n).contains_key(x) implies #[trigger] shards_map(n)[x] == shards_map(s).insert(k, e)[x] by {
        if shard_of(x) != idx {
            assert(n[shard_of(x)] == s[shard_of(x)]);
        }
    }
    assert(shards_map(n) =~= shards_map(s).insert(k, e));
}

proof fn lemma_shards_remove(s: Seq<Vec<(String, Entry)>>, idx: int, b: Vec<(String, Entry)>, k: Seq<char>)
    requires
        s.len() == NUM_SHARDS,
        0 <= idx < s.len(),
        shard_of(k) == idx,
        bucket_map(b@) == bucket_map(s[idx]@).remove(k),
    ensures
        shards_map(s.update(idx, b)) == shards_map(s).remove(k),
{
    let n = s.update(idx, b);
    assert forall|x: Seq<char>| #[trigger] shards_map(n).contains_key(x) <==> shards_map(s).remove(k).contains_key(x) by {
        if shard_of(x) != idx {
            assert(n[shard_of(x)] == s[shard_of(x)]);
        }
    }
    assert forall|x: Seq<char>| shards_map(n).contains_key(x) implies #[trigger] shards_map(n)[x] == shards_map(s).remove(k)[x] by {
        if shard_of(x) != idx {
            assert(n[shard_of(x)] == s[shard_of(x)]);
        }
    }
    assert(shards_map(n) =~= shards_map(s).remove(k));
}

/// Key `k` has entry `e` in the store made of shards `s`, at position `j`
/// of its shard.
proof fn lemma_shards_at(s: Seq<Vec<(String, Entry)>>, j: int, k: Seq<char>)
    requires
        0 <= shard_of(k) < s.len(),
        no_dup_keys(s[shard_of(k)]@),
        0 <= j < s[shard_of(k)]@.len(),
        s[shard_of(k)]@[j].0@ == k,
    ensures
        shards_map(s).contains_key(k),
        shards_map(s)[k] == s[shard_of(k)]@[j].1@,
{
    lemma_bucket_at(s[shard_of(k)]@, j);
}

proof fn lemma_shards_absent(s: Seq<Vec<(String, Entry)>>, k: Seq<char>)
    requires
        0 <= shard_of(k) < s.len(),
        forall|j: int| 0 <= j < s[shard_of(k)]@.len() ==> (#[trigger] s[shard_of(k)]@[j]).0@ != k,
    ensures
        !shards_map(s).contains_key(k),
{
    lemma_bucket_contains(s[shard_of(k)]@, k);
}

impl Default for Storage {
    /// An empty store, as [`Storage::new`] makes.
    fn default() -> (s: Self)
        ensures
            s.wf(),
            s@ == Map::<Seq<char>, EntryModel>::empty(),
    {
        Storage::new()
    }
}

} // verus!
